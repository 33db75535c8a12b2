use waitnet::{Channel, ChannelSet, Network, Path, Process, Thread, ThreadState};

#[test]
fn channel_set_refuses_overwrite() {
    let mut cs = ChannelSet::new();
    assert!(!cs.insert(0, Channel::new(1)));
    assert!(cs.insert(0, Channel::new(2)));
    assert!(cs.get(&0).unwrap().participants().contains(&1));
    assert!(cs.remove(0));
    assert!(!cs.remove(0));
}

#[test]
fn channel_participants() {
    let mut ch = Channel::new(4);
    assert!(!ch.add_participant(4));
    assert!(ch.add_participant(5));
    assert!(ch.remove_participant(4));
    assert!(!ch.remove_participant(4));
    assert!(ch.participants().contains(&5));
    assert!(!ch.participants().contains(&4));
}

#[test]
fn process_membership() {
    let mut p = Process::new(Path::new("a".to_string()));
    assert!(p.attach_thread(3));
    assert!(!p.attach_thread(3));
    assert!(p.threads().contains(&3));
}

#[test]
fn signal_with_timer_parks_sender() {
    let mut network = Network::new();
    let proc1 = network.new_process(Process::new(Path::new("a".to_string())));
    let th1 = network.new_thread(Thread::new(), &proc1).unwrap();
    let th2 = network.new_thread(Thread::new(), &proc1).unwrap();

    let mut ch = Channel::new(th1);
    ch.add_participant(th2);
    let c = network.new_channel(ch).unwrap();

    assert!(network.wait_thread(&th1, &c, false) == Ok(Some(())));
    let woken = network.channel_signal(&th2, &c, true).unwrap();
    assert_eq!(woken, vec![th1]);
    assert!(matches!(
        *network.thread(&th2).unwrap().state(),
        ThreadState::WaitWithTimeout(cc) if cc == c
    ));
    assert!(matches!(*network.thread(&th1).unwrap().state(), ThreadState::Active));
}

#[test]
fn sleeping_a_waiter_releases_it() {
    let mut network = Network::new();
    let proc1 = network.new_process(Process::new(Path::new("a".to_string())));
    let th1 = network.new_thread(Thread::new(), &proc1).unwrap();
    let th2 = network.new_thread(Thread::new(), &proc1).unwrap();

    let mut ch = Channel::new(th1);
    ch.add_participant(th2);
    let c = network.new_channel(ch).unwrap();

    assert!(network.wait_thread(&th1, &c, false) == Ok(Some(())));
    assert!(network.sleep_thread(&th1) == Some(()));
    assert!(matches!(*network.thread(&th1).unwrap().state(), ThreadState::Sleep));
    assert!(!network.wait_deps().thread_wait_map().contains_key(&th1));
}
