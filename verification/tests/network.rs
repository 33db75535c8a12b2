use waitnet::{Channel, Network, Path, Process, Thread};

#[test]
fn network_wait_deps() {
    let proc_path1 = Path::new("a".to_string());
    let proc_path2 = Path::new("b".to_string());

    let mut network = Network::new();
    let proc1 = network.new_process(Process::new(proc_path1));
    let proc2 = network.new_process(Process::new(proc_path2));

    let th1 = network.new_thread(Thread::new(), &proc1).unwrap();
    let th2 = network.new_thread(Thread::new(), &proc1).unwrap();
    let th3 = network.new_thread(Thread::new(), &proc2).unwrap();

    let mut ch12 = Channel::new(th1);
    ch12.add_participant(th2);

    let mut ch23 = Channel::new(th2);
    ch23.add_participant(th3);

    let mut ch31 = Channel::new(th3);
    ch31.add_participant(th1);

    let ch12 = network.new_channel(ch12).unwrap();
    let _ch23 = network.new_channel(ch23).unwrap();
    let _ch31 = network.new_channel(ch31).unwrap();

    assert!(network.wait_thread(&th1, &ch12, false).is_ok());
}

#[test]
fn network_add_channel() {
    let proc_path1 = Path::new("a".to_string());
    let proc_path2 = Path::new("b".to_string());

    let mut network = Network::new();
    let proc1 = network.new_process(Process::new(proc_path1));
    let proc2 = network.new_process(Process::new(proc_path2));

    let th1 = network.new_thread(Thread::new(), &proc1).unwrap();
    let th2 = network.new_thread(Thread::new(), &proc1).unwrap();
    let th3 = network.new_thread(Thread::new(), &proc2).unwrap();

    let mut ch12 = Channel::new(th1);
    ch12.add_participant(th2);

    let mut ch23 = Channel::new(th2);
    ch23.add_participant(th3);

    let mut ch31 = Channel::new(th3);
    ch31.add_participant(th1);

    let ch12 = network.new_channel(ch12).unwrap();
    let ch23 = network.new_channel(ch23).unwrap();
    let ch31 = network.new_channel(ch31).unwrap();

    assert!(network.thread(&th1).unwrap().channels().contains(&ch12));
    assert!(network.thread(&th2).unwrap().channels().contains(&ch12));
    assert!(network.thread(&th2).unwrap().channels().contains(&ch23));
    assert!(network.thread(&th3).unwrap().channels().contains(&ch23));
    assert!(network.thread(&th1).unwrap().channels().contains(&ch31));
    assert!(network.thread(&th3).unwrap().channels().contains(&ch31));

    assert!(network.channels().get(&ch12).is_some());
    assert!(network.channels().get(&ch23).is_some());
    assert!(network.channels().get(&ch31).is_some());
}

#[test]
fn network_not_found_cases() {
    let mut network = Network::new();
    assert!(network.new_thread(Thread::new(), &7).is_none());
    assert!(network.sleep_thread(&1).is_none());
    assert!(network.active_thread(&1).is_none());
    assert!(network.wait_thread(&1, &0, false) == Ok(None));
    assert!(network.channel_signal(&1, &0, false).is_err());

    // A channel with an unregistered participant is refused.
    let ch = Channel::new(42);
    assert!(network.new_channel(ch).is_none());
}
