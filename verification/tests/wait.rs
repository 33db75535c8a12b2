use waitnet::{Graph, VecSet, WaitMap};

#[test]
fn graph_loop() {
    let mut graph = Graph::new();
    let n1 = graph.new_node();
    let n2 = graph.new_node();
    let n3 = graph.new_node();

    assert!(graph.add_relation(n1, n2).is_ok());
    assert!(graph.add_relation(n2, n3).is_ok());
    assert!(graph.add_relation(n3, n1).is_err());
}

#[test]
fn wait_map_loop() {
    let mut wm = WaitMap::new();

    let mut c12w: VecSet<u32> = VecSet::new();
    c12w.insert(1);
    c12w.insert(2);

    let mut c23w: VecSet<u32> = VecSet::new();
    c23w.insert(2);
    c23w.insert(3);

    let mut c31w: VecSet<u32> = VecSet::new();
    c31w.insert(3);
    c31w.insert(1);

    let c12 = 1;
    let c23 = 2;
    let c31 = 3;
    wm.add_channel(c12, c12w);
    wm.add_channel(c23, c23w);
    wm.add_channel(c31, c31w);

    assert!(wm.add_channel_relation(&c12, &c23).is_ok());
    assert!(wm.add_channel_relation(&c23, &c31).is_ok());
    assert!(wm.add_channel_relation(&c31, &c12).is_err());
}

#[test]
fn wait_map_self_loop() {
    let mut wm = WaitMap::new();

    let mut c12w: VecSet<u32> = VecSet::new();
    c12w.insert(1);
    c12w.insert(2);

    let c12 = 1;
    wm.add_channel(c12, c12w);

    assert!(wm.add_channel_relation(&c12, &c12).is_err());
}

#[test]
fn waiter_roundtrip() {
    // Recording a waiter on a registered channel and dropping it again
    // leaves no trace of it in either index.
    let mut wm = WaitMap::new();
    assert!(wm.add_channel(5, VecSet::new()));
    assert!(!wm.add_channel(5, VecSet::new()));

    assert!(wm.add_waiter(5, 9));
    assert!(wm.channel_wait_map().get(&5).unwrap().contains(&9));
    assert!(wm.thread_wait_map().contains_key(&9));

    assert!(wm.remove_waiter(5, 9));
    assert!(!wm.remove_waiter(5, 9));
    assert!(!wm.channel_wait_map().get(&5).unwrap().contains(&9));
    assert!(!wm.thread_wait_map().contains_key(&9));
}

#[test]
fn relation_roundtrip() {
    let mut wm = WaitMap::new();
    wm.add_channel(1, VecSet::new());
    wm.add_channel(2, VecSet::new());

    assert!(wm.channel_relation_exists(&2, &1) == Some(false));
    assert!(wm.add_channel_relation(&2, &1) == Ok(true));
    assert!(wm.channel_relation_exists(&2, &1) == Some(true));
    assert!(wm.remove_channel_relation(&2, &1) == Some(true));
    assert!(wm.channel_relation_exists(&2, &1) == Some(false));
    assert!(wm.remove_channel_relation(&2, &1) == Some(false));
    assert!(wm.remove_channel_relation(&2, &7) == None);
}

#[test]
fn remove_thread_idempotent() {
    let mut wm = WaitMap::new();
    wm.add_channel(1, VecSet::new());
    wm.add_waiter(1, 4);

    assert!(wm.remove_thread(&4));
    assert!(!wm.remove_thread(&4));
    assert!(!wm.channel_wait_map().get(&1).unwrap().contains(&4));
}

#[test]
fn remove_channel_cases() {
    let mut wm = WaitMap::new();
    assert!(wm.remove_channel(&3) == None);

    wm.add_channel(3, VecSet::new());
    wm.add_waiter(3, 8);
    assert!(wm.remove_channel(&3) == Some(false));

    wm.remove_waiter(3, 8);
    assert!(wm.remove_channel(&3) == Some(true));
    assert!(wm.remove_channel(&3) == None);
}
