use waitnet::{Interface, InterfaceKey, InterfaceSet, Path, Process, Version};

#[test]
fn implementation_verification() {
    let p0 = Path::new("a".to_string());
    let p0 = Path::new_from_parent(p0, "b".to_string());

    let ik0 = InterfaceKey::new(p0.clone(), Version::new(1, 0, 0));
    let ik1 = InterfaceKey::new(p0.clone(), Version::new(1, 1, 0));
    let ik2 = InterfaceKey::new(p0.clone(), Version::new(2, 0, 0));

    let mut i = Interface::new();
    i.add_prerequisite(ik1.clone());
    i.add_prerequisite(ik2.clone());

    let mut is = InterfaceSet::new();
    assert!(is.add_interface(ik0.clone(), i.clone()).is_ok());
    assert!(is.add_interface(ik1.clone(), i.clone()).is_ok());
    assert!(is.add_interface(ik2.clone(), i.clone()).is_ok());

    let mut process = Process::new(p0);

    process.add_implementation(ik0);
    process.add_implementation(ik1);

    let result = process.verify_implementations(&is);
    assert!(result.unwrap_err().missing().contains(&ik2));
}

#[test]
fn prerequisites_satisfied() {
    let p0 = Path::new("a".to_string());

    let ik0 = InterfaceKey::new(p0.clone(), Version::new(1, 0, 0));
    let ik1 = InterfaceKey::new(p0.clone(), Version::new(1, 1, 0));

    let mut i = Interface::new();
    i.add_prerequisite(ik1.clone());

    let mut is = InterfaceSet::new();
    assert!(is.add_interface(ik0.clone(), i).is_ok());
    assert!(is.add_interface(ik1.clone(), Interface::new()).is_ok());

    let mut process = Process::new(p0);
    process.add_implementation(ik0);
    process.add_implementation(ik1);

    assert!(process.verify_implementations(&is).is_ok());
}

#[test]
fn single_missing_prerequisite() {
    // One interface depends on two others; a process implementing the
    // interface and only one prerequisite misses exactly the other.
    let pi = Path::new("i".to_string());
    let pj = Path::new("j".to_string());
    let pk = Path::new("k".to_string());

    let ki = InterfaceKey::new(pi.clone(), Version::new(1, 0, 0));
    let kj = InterfaceKey::new(pj.clone(), Version::new(1, 0, 0));
    let kk = InterfaceKey::new(pk.clone(), Version::new(1, 0, 0));

    let mut i = Interface::new();
    i.add_prerequisite(kj.clone());
    i.add_prerequisite(kk.clone());

    let mut is = InterfaceSet::new();
    assert!(is.add_interface(ki.clone(), i).is_ok());
    assert!(is.add_interface(kj.clone(), Interface::new()).is_ok());
    assert!(is.add_interface(kk.clone(), Interface::new()).is_ok());

    let mut process = Process::new(pi);
    process.add_implementation(ki);
    process.add_implementation(kj.clone());

    let conflicts = process.verify_implementations(&is).unwrap_err();
    assert_eq!(conflicts.missing().len(), 1);
    assert!(conflicts.missing().contains(&kk));
    assert!(!conflicts.missing().contains(&kj));
}

#[test]
fn interface_set_rejects_duplicates() {
    let p = Path::new("a".to_string());
    let k = InterfaceKey::new(p, Version::new(1, 0, 0));
    let mut is = InterfaceSet::new();
    assert!(is.add_interface(k.clone(), Interface::new()).is_ok());
    assert!(is.add_interface(k.clone(), Interface::new()).is_err());
    assert!(is.remove_interface(&k).is_ok());
    assert!(is.remove_interface(&k).is_err());
}
