//! End-to-end runs of the wait/signal protocol.

use waitnet::{Channel, Network, Path, Process, Thread, ThreadState};

/// Two processes, three threads, three channels in a ring.
fn ring() -> (Network, u32, u32, u32, u32, u32, u32) {
    let mut network = Network::new();
    let proc1 = network.new_process(Process::new(Path::new("a".to_string())));
    let proc2 = network.new_process(Process::new(Path::new("b".to_string())));

    let th1 = network.new_thread(Thread::new(), &proc1).unwrap();
    let th2 = network.new_thread(Thread::new(), &proc1).unwrap();
    let th3 = network.new_thread(Thread::new(), &proc2).unwrap();

    let mut ch12 = Channel::new(th1);
    ch12.add_participant(th2);
    let mut ch23 = Channel::new(th2);
    ch23.add_participant(th3);
    let mut ch31 = Channel::new(th3);
    ch31.add_participant(th1);

    let c12 = network.new_channel(ch12).unwrap();
    let c23 = network.new_channel(ch23).unwrap();
    let c31 = network.new_channel(ch31).unwrap();
    (network, th1, th2, th3, c12, c23, c31)
}

#[test]
fn three_channel_cycle_rejected() {
    let (mut network, th1, th2, th3, c12, c23, c31) = ring();

    assert!(network.wait_thread(&th1, &c12, false) == Ok(Some(())));
    assert!(network.wait_thread(&th2, &c23, false) == Ok(Some(())));
    let before = (
        network.wait_deps().channel_relation_exists(&c23, &c12),
        network.wait_deps().channel_relation_exists(&c31, &c23),
        network.wait_deps().channel_relation_exists(&c12, &c31),
    );
    assert!(network.wait_thread(&th3, &c31, false).is_err());

    // The rejected wait left the dependency edges exactly as they were.
    let after = (
        network.wait_deps().channel_relation_exists(&c23, &c12),
        network.wait_deps().channel_relation_exists(&c31, &c23),
        network.wait_deps().channel_relation_exists(&c12, &c31),
    );
    assert_eq!(before, after);

    // The third thread never entered the untimed wait state.
    assert!(!matches!(
        network.thread(&th3).unwrap().state(),
        ThreadState::WaitWithoutTimeout(_)
    ));
}

#[test]
fn timer_wait_bypasses_cycle_check() {
    let (mut network, th1, th2, th3, c12, c23, c31) = ring();

    assert!(network.wait_thread(&th1, &c12, false) == Ok(Some(())));
    assert!(network.wait_thread(&th2, &c23, false) == Ok(Some(())));
    let before = (
        network.wait_deps().channel_relation_exists(&c31, &c23),
        network.wait_deps().channel_relation_exists(&c12, &c31),
    );

    // The same wait that closed the ring is fine with a timer, and it
    // adds no edges.
    assert!(network.wait_thread(&th3, &c31, true) == Ok(Some(())));
    let after = (
        network.wait_deps().channel_relation_exists(&c31, &c23),
        network.wait_deps().channel_relation_exists(&c12, &c31),
    );
    assert_eq!(before, after);
    assert!(matches!(
        *network.thread(&th3).unwrap().state(),
        ThreadState::WaitWithTimeout(c) if c == c31
    ));
}

#[test]
fn signal_wakes_only_matching_waiters() {
    let mut network = Network::new();
    let proc1 = network.new_process(Process::new(Path::new("a".to_string())));

    let th1 = network.new_thread(Thread::new(), &proc1).unwrap();
    let th2 = network.new_thread(Thread::new(), &proc1).unwrap();
    let th3 = network.new_thread(Thread::new(), &proc1).unwrap();

    let mut ch = Channel::new(th1);
    ch.add_participant(th2);
    ch.add_participant(th3);
    let c = network.new_channel(ch).unwrap();

    assert!(network.wait_thread(&th1, &c, false) == Ok(Some(())));
    assert!(network.wait_thread(&th2, &c, false) == Ok(Some(())));

    let woken = network.channel_signal(&th3, &c, false).unwrap();
    assert_eq!(woken.len(), 2);
    assert!(woken.contains(&th1));
    assert!(woken.contains(&th2));

    assert!(matches!(*network.thread(&th1).unwrap().state(), ThreadState::Active));
    assert!(matches!(*network.thread(&th2).unwrap().state(), ThreadState::Active));
    assert!(matches!(
        *network.thread(&th3).unwrap().state(),
        ThreadState::WaitWithoutTimeout(cc) if cc == c
    ));
}

#[test]
fn signal_from_non_participant_is_refused() {
    let mut network = Network::new();
    let proc1 = network.new_process(Process::new(Path::new("a".to_string())));
    let th1 = network.new_thread(Thread::new(), &proc1).unwrap();
    let th2 = network.new_thread(Thread::new(), &proc1).unwrap();

    let c = network.new_channel(Channel::new(th1)).unwrap();
    assert!(network.channel_signal(&th2, &c, false).is_err());
}

#[test]
fn waking_releases_wait_entries() {
    let mut network = Network::new();
    let proc1 = network.new_process(Process::new(Path::new("a".to_string())));
    let th1 = network.new_thread(Thread::new(), &proc1).unwrap();
    let th2 = network.new_thread(Thread::new(), &proc1).unwrap();

    let mut ch = Channel::new(th1);
    ch.add_participant(th2);
    let c = network.new_channel(ch).unwrap();

    assert!(network.wait_thread(&th1, &c, false) == Ok(Some(())));
    assert!(network.wait_deps().thread_wait_map().contains_key(&th1));

    assert!(network.active_thread(&th1) == Some(()));
    assert!(!network.wait_deps().thread_wait_map().contains_key(&th1));
    assert!(matches!(*network.thread(&th1).unwrap().state(), ThreadState::Active));
}
