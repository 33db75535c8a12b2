use waitnet::{PackageTree, Path, PathIter};

#[test]
fn path_to_str() {
    let p = Path::new("root".to_string());
    let p = Path::new_from_parent(p, "foo".to_string());
    let p = Path::new_from_parent(p, "bar".to_string());
    let p = Path::new_from_parent(p, "baz".to_string());

    assert_eq!(Path::to_string(&p), "root.foo.bar.baz");
}

#[test]
fn path_iter() {
    let p = Path::new("root".to_string());
    let p = Path::new_from_parent(p, "foo".to_string());
    let p = Path::new_from_parent(p, "bar".to_string());
    let p = Path::new_from_parent(p, "baz".to_string());

    let mut iter = PathIter::new(p);
    assert_eq!(iter.next().unwrap(), "root");
    assert_eq!(iter.next().unwrap(), "foo");
    assert_eq!(iter.next().unwrap(), "bar");
    assert_eq!(iter.next().unwrap(), "baz");
    assert!(iter.next().is_none());

    assert_eq!(iter.next_back().unwrap(), "baz");
    assert_eq!(iter.next_back().unwrap(), "bar");
    assert_eq!(iter.next_back().unwrap(), "foo");
    assert_eq!(iter.next_back().unwrap(), "root");
    assert!(iter.next_back().is_none());
}

#[test]
fn path_cmp_alphabetical() {
    let p0 = Path::new("a".to_string());
    let p0 = Path::new_from_parent(p0, "b".to_string());
    let p0 = Path::new_from_parent(p0, "c".to_string());
    let p0 = Path::new_from_parent(p0, "d".to_string());

    let p1 = Path::new("a".to_string());
    let p1 = Path::new_from_parent(p1, "c".to_string());
    let p1 = Path::new_from_parent(p1, "c".to_string());
    let p1 = Path::new_from_parent(p1, "d".to_string());

    assert!(p0 > p1);
}

#[test]
fn path_cmp_parent_is_greater() {
    let p0 = Path::new("a".to_string());
    let p0 = Path::new_from_parent(p0, "b".to_string());
    let p0 = Path::new_from_parent(p0, "c".to_string());
    let p0 = Path::new_from_parent(p0, "d".to_string());

    let p1 = Path::new("a".to_string());
    let p1 = Path::new_from_parent(p1, "b".to_string());
    let p1 = Path::new_from_parent(p1, "c".to_string());

    assert!(p0 < p1);
}

#[test]
fn package_tree_adding_first() {
    let mut pt = PackageTree::new();

    let pa = Path::new("a".to_string());
    let pb = Path::new_from_parent(pa.clone(), "b".to_string());
    let pc = Path::new_from_parent(pb.clone(), "c".to_string());
    let pd = Path::new_from_parent(pc.clone(), "d".to_string());

    pt.store_path(&pd);

    assert!(pt.has_path(&pa));
    assert!(pt.has_path(&pb));
    assert!(pt.has_path(&pc));
    assert!(pt.has_path(&pd));
}

#[test]
fn package_tree_remove_half0() {
    let mut pt = PackageTree::new();

    let p0 = Path::new("a".to_string());
    let p0 = Path::new_from_parent(p0, "b".to_string());
    let p0 = Path::new_from_parent(p0, "c".to_string());
    let p1 = Path::new_from_parent(p0.clone(), "d".to_string());

    pt.store_path(&p1);
    pt.remove_path(&p0);

    assert!(pt.has_path(&p1));
}

#[test]
fn package_tree_remove_half1() {
    let mut pt = PackageTree::new();

    let p0 = Path::new("a".to_string());
    let p0 = Path::new_from_parent(p0, "b".to_string());
    let p0 = Path::new_from_parent(p0, "c".to_string());
    let p1 = Path::new_from_parent(p0.clone(), "d".to_string());

    pt.store_path(&p0);
    pt.remove_path(&p1);

    let pa = Path::new("a".to_string());
    assert!(!pt.has_path(&pa));
}

#[test]
fn path_eq_and_name() {
    let p0 = Path::new("x".to_string());
    let p0 = Path::new_from_parent(p0, "y".to_string());
    let q = Path::new("x".to_string());
    let q = Path::new_from_parent(q, "y".to_string());

    assert!(p0 == q);
    assert_eq!(p0.name(), "y");
    assert_eq!(Path::to_string(&Path::new("solo".to_string())), "solo");
}
