use waitnet::{InterfaceFunc, Version};

#[test]
fn version_string() {
    let ver = Version::new(1, 7, 2);
    let s = ver.to_string();
    assert_eq!("1.7.2", s);
}

#[test]
fn version_major_cmp() {
    let ver1 = Version::new(1, 7, 2);
    let ver2 = Version::new(2, 7, 2);

    assert!(ver1 < ver2);
}

#[test]
fn version_minor_cmp() {
    let ver1 = Version::new(1, 6, 2);
    let ver2 = Version::new(1, 7, 2);

    assert!(ver1 < ver2);
}

#[test]
fn version_patch_cmp() {
    let ver1 = Version::new(1, 6, 1);
    let ver2 = Version::new(1, 6, 2);

    assert!(ver1 < ver2);
}

#[test]
fn version_everything_cmp() {
    let ver1 = Version::new(1, 6, 1);
    let ver2 = Version::new(2, 7, 2);

    assert!(ver1 < ver2);
}

#[test]
fn func_name_cmp() {
    let f1 = InterfaceFunc::new("a".to_string(), Version::new(1, 0, 0));
    let f2 = InterfaceFunc::new("b".to_string(), Version::new(1, 0, 0));

    assert!(f1 > f2);
}

#[test]
fn func_ver_cmp() {
    let f1 = InterfaceFunc::new("a".to_string(), Version::new(1, 0, 0));
    let f2 = InterfaceFunc::new("a".to_string(), Version::new(1, 2, 0));

    assert!(f1 < f2);
}

#[test]
fn func_all_cmp() {
    let f1 = InterfaceFunc::new("a".to_string(), Version::new(1, 0, 0));
    let f2 = InterfaceFunc::new("b".to_string(), Version::new(1, 2, 0));

    assert!(f1 > f2);
}

#[test]
fn version_string_zero() {
    assert_eq!("0.0.0", Version::new(0, 0, 0).to_string());
}

#[test]
fn version_string_wide() {
    assert_eq!("10.203.3000", Version::new(10, 203, 3000).to_string());
}
