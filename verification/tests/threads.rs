use waitnet::{Thread, ThreadSet};

#[test]
fn set() {
    let mut set = ThreadSet::new();
    let thr1 = Thread::new();
    let thr2 = Thread::new();

    let k1 = set.add(thr1);
    let k2 = set.add(thr2);

    assert!(set.get(&k1).is_some());
    assert!(set.get(&k2).is_some());

    assert!(set.get(&(k2 + 1)).is_none());

    set.remove(&k2);
    assert!(set.get(&k2).is_none());
}

#[test]
fn keys_are_dense_from_one() {
    let mut set = ThreadSet::new();
    let k1 = set.add(Thread::new());
    let k2 = set.add(Thread::new());
    assert_eq!(k1, 1);
    assert_eq!(k2, 2);
    assert_eq!(set.iter(), vec![1, 2]);
}
