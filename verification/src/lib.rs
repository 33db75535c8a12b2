//! A network of processes, threads and channels with deadlock-free
//! blocking: every attempt of a thread to block on a channel signal is
//! checked against a channel dependency graph, and any wait that would
//! close a cycle in that graph is rejected before it can take effect.

pub mod channels;
pub mod interfaces;
pub mod path;
pub mod process;
pub mod store;
pub mod threads;
pub mod wait;

pub use crate::channels::{Channel, ChannelSet};
pub use crate::interfaces::{
    Func as InterfaceFunc, Interface, InterfaceSet, Key as InterfaceKey, Version,
};
pub use crate::path::{PackageTree, Path, PathIter, RcPath};
pub use crate::process::{ImplementationConflicts, Process, ProcessSet};
pub use crate::store::{VecMap, VecSet};
pub use crate::threads::{State as ThreadState, Thread, ThreadSet};
pub use crate::wait::{Graph, GraphNode, WaitDependency, WaitMap};

use crate::process::ProcessModel;
use crate::threads::ThreadModel;
use crate::wait::{
    acyclic, add_edge, spec_add_waiter, spec_remove_thread, wait_model_wf, EdgeMap, WaitModel,
};
use vstd::prelude::*;

verus! {

broadcast use vstd::seq_lib::group_seq_properties;

/// Type used to identify unique threads.
pub type ThreadKey = crate::threads::Key;

/// Type used to identify unique channels.
pub type ChannelKey = crate::channels::Key;

/// Type used to identify unique processes.
pub type ProcessKey = crate::process::Key;

/// Mathematical model of the whole network.
pub ghost struct NetModel {
    pub threads: Map<u32, ThreadModel>,
    pub processes: Map<u32, ProcessModel>,
    pub interfaces: Map<crate::interfaces::KeyModel, crate::interfaces::InterfaceModel>,
    pub channels: Map<u32, Set<u32>>,
    pub packages: Set<Seq<Seq<char>>>,
    pub wait: WaitModel,
    pub next_process_key: u32,
    pub next_channel_key: u32,
    pub last_thread_key: u32,
}

/// Channel membership is mutual: a thread lists a channel exactly when
/// the channel lists the thread, and both sides are registered.
pub open spec fn participants_mutual(m: NetModel) -> bool {
    &&& forall|t: u32, c: u32|
        m.threads.contains_key(t) && #[trigger] m.threads[t].channels.contains(c)
            ==> m.channels.contains_key(c) && m.channels[c].contains(t)
    &&& forall|c: u32, t: u32|
        m.channels.contains_key(c) && #[trigger] m.channels[c].contains(t)
            ==> m.threads.contains_key(t) && m.threads[t].channels.contains(c)
}

/// Every recorded waiter is a registered thread that is blocked
/// without a timeout on exactly that channel.
pub open spec fn waiters_blocked(m: NetModel) -> bool {
    forall|c: u32, t: u32|
        m.wait.chan.contains_key(c) && #[trigger] m.wait.chan[c].contains(t)
            ==> m.threads.contains_key(t) && m.threads[t].state
            == ThreadState::WaitWithoutTimeout(c)
}

/// A channel exists in the channel registry exactly when the wait map
/// has registered it (and therefore owns a graph node for it).
pub open spec fn channels_registered(m: NetModel) -> bool {
    forall|c: u32| #[trigger] m.channels.contains_key(c) <==> m.wait.chan.contains_key(c)
}

/// Allocated identifiers stay below the allocation counters.
pub open spec fn keys_bounded(m: NetModel) -> bool {
    &&& forall|c: u32| #[trigger] m.channels.contains_key(c) ==> c < m.next_channel_key
    &&& forall|p: u32| #[trigger] m.processes.contains_key(p) ==> p < m.next_process_key
}

/// The network invariant: mutual membership, consistent wait
/// bookkeeping, aligned registries, bounded identifiers and a
/// well-formed (in particular, acyclic) wait map.
pub open spec fn net_wf(m: NetModel) -> bool {
    &&& participants_mutual(m)
    &&& waiters_blocked(m)
    &&& channels_registered(m)
    &&& keys_bounded(m)
    &&& wait_model_wf(m.wait)
}

/// The thread map after a channel is mirrored into the channel set of
/// every thread of `ts`.
pub open spec fn spec_add_chan_to(
    threads: Map<u32, ThreadModel>,
    ts: Set<u32>,
    c: u32,
) -> Map<u32, ThreadModel> {
    Map::new(
        |t: u32| threads.contains_key(t),
        |t: u32|
            if ts.contains(t) {
                ThreadModel { state: threads[t].state, channels: threads[t].channels.insert(c) }
            } else {
                threads[t]
            },
    )
}

/// The thread map after one thread's state changes.
pub open spec fn spec_set_state(
    threads: Map<u32, ThreadModel>,
    t: u32,
    s: ThreadState,
) -> Map<u32, ThreadModel> {
    threads.insert(t, ThreadModel { state: s, channels: threads[t].channels })
}

/// The wait map after the bookkeeping of a state change: a thread that
/// was blocked without timeout loses all its wait entries.
pub open spec fn spec_drop_deps(m: NetModel, t: u32) -> WaitModel {
    if m.threads[t].state is WaitWithoutTimeout {
        spec_remove_thread(m.wait, t)
    } else {
        m.wait
    }
}

/// The network after `change_thread_state_remove_deps` on a registered
/// thread.
pub open spec fn spec_state_change(m: NetModel, t: u32, s: ThreadState) -> NetModel {
    NetModel { threads: spec_set_state(m.threads, t, s), wait: spec_drop_deps(m, t), ..m }
}

/// The channels of thread `t` that are fully locked up once `t` itself
/// blocks on `c`: every participant is then a waiter on some channel.
/// Only these channels come to depend on a signal of `c`.
pub open spec fn blocked_channels(m: NetModel, t: u32, c: u32) -> Set<u32> {
    Set::new(
        |cp: u32|
            m.threads[t].channels.contains(cp) && forall|p: u32|
                #[trigger] m.channels[cp].contains(p) ==> p == t || m.wait.thr.contains_key(p),
    )
}

/// The dependency graph once every blocked channel's node points at
/// the node `nc` of the awaited channel.
pub open spec fn spec_sweep_graph(g: EdgeMap, node: Map<u32, u32>, bs: Set<u32>, nc: u32) -> EdgeMap {
    Map::new(
        |n: u32| g.contains_key(n),
        |n: u32|
            if exists|cp: u32| #[trigger] bs.contains(cp) && node[cp] == n {
                g[n].insert(nc)
            } else {
                g[n]
            },
    )
}

/// The wait map once `t`'s previous entries are dropped and `t` is
/// recorded as a waiter of `c`.
pub open spec fn spec_wait_entries(m: NetModel, t: u32, c: u32) -> WaitModel {
    spec_add_waiter(spec_remove_thread(m.wait, t), c, t)
}

/// Whether letting `t` block on `c` would close a cycle in the channel
/// dependency graph: the graph with all swept edges is no longer
/// acyclic.  The verdict does not depend on any sweep order.
pub open spec fn wait_would_deadlock(m: NetModel, t: u32, c: u32) -> bool {
    !acyclic(
        spec_sweep_graph(m.wait.graph, m.wait.node, blocked_channels(m, t, c), m.wait.node[c]),
    )
}

/// The network after a successful `wait_thread` without a timer.
pub open spec fn spec_wait_ok(m: NetModel, t: u32, c: u32) -> NetModel {
    NetModel {
        threads: spec_set_state(m.threads, t, ThreadState::WaitWithoutTimeout(c)),
        wait: WaitModel {
            graph: spec_sweep_graph(
                m.wait.graph,
                m.wait.node,
                blocked_channels(m, t, c),
                m.wait.node[c],
            ),
            ..spec_wait_entries(m, t, c)
        },
        ..m
    }
}

/// The network after a rejected `wait_thread`: the graph is exactly
/// what it was, the thread keeps its state, and it is a waiter
/// nowhere.
pub open spec fn spec_wait_err(m: NetModel, t: u32) -> NetModel {
    NetModel { wait: spec_remove_thread(m.wait, t), ..m }
}

/// The participants a signal on `c` wakes: those blocked waiting for
/// exactly this channel, with or without a timeout.
pub open spec fn woken_set(m: NetModel, c: u32) -> Set<u32> {
    Set::new(
        |p: u32|
            m.channels[c].contains(p) && (m.threads[p].state == ThreadState::WaitWithoutTimeout(
                c,
            ) || m.threads[p].state == ThreadState::WaitWithTimeout(c)),
    )
}

/// The thread map after every thread of `ws` became active.
pub open spec fn partial_wake_threads(m: NetModel, ws: Set<u32>) -> Map<u32, ThreadModel> {
    Map::new(
        |t: u32| m.threads.contains_key(t),
        |t: u32|
            if ws.contains(t) {
                ThreadModel { state: ThreadState::Active, channels: m.threads[t].channels }
            } else {
                m.threads[t]
            },
    )
}

/// The waiter index after every thread of `ws` was dropped from it.
pub open spec fn partial_wake_chan(m: NetModel, ws: Set<u32>) -> Map<u32, Set<u32>> {
    Map::new(
        |cc: u32| m.wait.chan.contains_key(cc),
        |cc: u32| m.wait.chan[cc].difference(ws),
    )
}

/// The network after every woken participant of `c` became active and
/// lost its wait entries.
pub open spec fn spec_wake(m: NetModel, c: u32) -> NetModel {
    NetModel {
        threads: partial_wake_threads(m, woken_set(m, c)),
        wait: WaitModel {
            chan: partial_wake_chan(m, woken_set(m, c)),
            thr: m.wait.thr.remove_keys(woken_set(m, c)),
            node: m.wait.node,
            graph: m.wait.graph,
            next_node: m.wait.next_node,
        },
        ..m
    }
}

/// One wakeup step extends the woken prefix by one thread.
proof fn lemma_wake_step(m: NetModel, c: u32, pre: Set<u32>, p: u32, m2: NetModel)
    requires
        net_wf(m),
        m.channels.contains_key(c),
        pre.subset_of(woken_set(m, c)),
        woken_set(m, c).contains(p),
        !pre.contains(p),
        m2 == spec_state_change(
            NetModel {
                threads: partial_wake_threads(m, pre),
                wait: WaitModel {
                    chan: partial_wake_chan(m, pre),
                    thr: m.wait.thr.remove_keys(pre),
                    node: m.wait.node,
                    graph: m.wait.graph,
                    next_node: m.wait.next_node,
                },
                ..m
            },
            p,
            ThreadState::Active,
        ),
    ensures
        m2.threads == partial_wake_threads(m, pre.insert(p)),
        m2.wait.chan == partial_wake_chan(m, pre.insert(p)),
        m2.wait.thr == m.wait.thr.remove_keys(pre.insert(p)),
        m2.wait.node == m.wait.node,
        m2.wait.graph == m.wait.graph,
        m2.wait.next_node == m.wait.next_node,
        m2.processes == m.processes,
        m2.interfaces == m.interfaces,
        m2.channels == m.channels,
        m2.packages == m.packages,
        m2.next_process_key == m.next_process_key,
        m2.next_channel_key == m.next_channel_key,
        m2.last_thread_key == m.last_thread_key,
{
    let cur = NetModel {
        threads: partial_wake_threads(m, pre),
        wait: WaitModel {
            chan: partial_wake_chan(m, pre),
            thr: m.wait.thr.remove_keys(pre),
            node: m.wait.node,
            graph: m.wait.graph,
            next_node: m.wait.next_node,
        },
        ..m
    };
    assert(m.channels[c].contains(p));
    assert(m.threads.contains_key(p) && m.threads[p].channels.contains(c));
    assert(cur.threads[p] == m.threads[p]);
    assert(m2.threads =~= partial_wake_threads(m, pre.insert(p)));
    if m.threads[p].state == ThreadState::WaitWithoutTimeout(c) {
        assert(m2.wait == spec_remove_thread(cur.wait, p));
        assert(m2.wait.chan =~~= partial_wake_chan(m, pre.insert(p))) by {
            assert forall|cc: u32| #[trigger] m.wait.chan.contains_key(cc)
                implies m.wait.chan[cc].difference(pre).remove(p) =~= m.wait.chan.index(
                cc,
            ).difference(pre.insert(p)) by {}
        }
        assert(m2.wait.thr =~= m.wait.thr.remove_keys(pre).remove(p));
        assert(m.wait.thr.remove_keys(pre).remove(p) =~= m.wait.thr.remove_keys(pre.insert(p)));
    } else {
        assert(m.threads[p].state == ThreadState::WaitWithTimeout(c));
        assert(m2.wait == cur.wait);
        // A timed waiter owns no wait entries, so dropping it changes
        // nothing.
        assert(m2.wait.chan =~~= partial_wake_chan(m, pre.insert(p))) by {
            assert forall|cc: u32| #[trigger] m.wait.chan.contains_key(cc)
                implies m.wait.chan[cc].difference(pre) =~= m.wait.chan[cc].difference(
                pre.insert(p),
            ) by {
                if m.wait.chan[cc].contains(p) {
                    assert(m.threads[p].state == ThreadState::WaitWithoutTimeout(cc));
                }
            }
        }
        assert(m2.wait.thr =~= m.wait.thr.remove_keys(pre.insert(p))) by {
            if m.wait.thr.contains_key(p) {
                let cw = choose|cw: u32| m.wait.thr[p].contains(cw);
                assert(m.wait.chan[cw].contains(p));
                assert(m.threads[p].state == ThreadState::WaitWithoutTimeout(cw));
            }
        }
    }
}

/// Network that contains all threads, channels, packages and
/// interfaces.
pub struct Network {
    threads: ThreadSet,
    processes: ProcessSet,
    interfaces: InterfaceSet,
    channels: ChannelSet,
    packages: PackageTree,
    wait_deps: WaitMap,
    next_process_key: ProcessKey,
    next_channel_key: ChannelKey,
}

impl View for Network {
    type V = NetModel;

    closed spec fn view(&self) -> NetModel {
        NetModel {
            threads: self.threads@,
            processes: self.processes@,
            interfaces: self.interfaces@,
            channels: self.channels@,
            packages: self.packages@,
            wait: self.wait_deps@,
            next_process_key: self.next_process_key,
            next_channel_key: self.next_channel_key,
            last_thread_key: self.threads.spec_last_key(),
        }
    }
}

impl Network {
    pub closed spec fn wf(&self) -> bool {
        &&& self.threads.wf()
        &&& self.processes.wf()
        &&& self.interfaces.wf()
        &&& self.channels.wf()
        &&& self.packages.wf()
        &&& self.wait_deps.wf()
        &&& net_wf(self@)
    }

    pub proof fn lemma_wf(&self)
        requires
            self.wf(),
        ensures
            net_wf(self@),
    {
    }

    /// In a well-formed network the channel dependency graph is
    /// acyclic: every sequence of accepted waits and relation
    /// insertions leaves it so.
    pub proof fn lemma_graph_acyclic(&self)
        requires
            self.wf(),
        ensures
            acyclic(self@.wait.graph),
    {
    }

    /// The wait map alone is well-formed; a weaker condition than the
    /// whole network invariant.
    pub closed spec fn wait_wf(&self) -> bool {
        self.wait_deps.wf()
    }

    /// The registries other than the wait map are well-formed.
    closed spec fn rep_wf(&self) -> bool {
        &&& self.threads.wf()
        &&& self.processes.wf()
        &&& self.interfaces.wf()
        &&& self.channels.wf()
        &&& self.packages.wf()
    }

    pub proof fn lemma_net_wait_wf(&self)
        requires
            self.wf(),
        ensures
            self.wait_wf(),
    {
    }

    pub fn new() -> (n: Self)
        ensures
            n.wf(),
            n@.threads == Map::<u32, ThreadModel>::empty(),
            n@.processes == Map::<u32, ProcessModel>::empty(),
            n@.channels == Map::<u32, Set<u32>>::empty(),
            n@.wait.chan == Map::<u32, Set<u32>>::empty(),
            n@.wait.graph == Map::<u32, Set<u32>>::empty(),
            n@.next_process_key == 0,
            n@.next_channel_key == 0,
            n@.last_thread_key == 0,
    {
        let n = Network {
            threads: ThreadSet::new(),
            processes: ProcessSet::new(),
            interfaces: InterfaceSet::new(),
            channels: ChannelSet::new(),
            packages: PackageTree::new(),
            wait_deps: WaitMap::new(),
            next_process_key: 0,
            next_channel_key: 0,
        };
        proof {
            n.wait_deps.lemma_wf();
        }
        n
    }

    /// Threads registered in the network.
    pub fn threads(&self) -> (r: &ThreadSet)
        ensures
            r@ == self@.threads,
            self.wf() ==> r.wf(),
    {
        &self.threads
    }

    /// Processes registered in the network.
    pub fn processes(&self) -> (r: &ProcessSet)
        ensures
            r@ == self@.processes,
            self.wf() ==> r.wf(),
    {
        &self.processes
    }

    /// Interfaces registered in the network.
    pub fn interfaces(&self) -> (r: &InterfaceSet)
        ensures
            r@ == self@.interfaces,
            self.wf() ==> r.wf(),
    {
        &self.interfaces
    }

    /// Channels created in the network.
    pub fn channels(&self) -> (r: &ChannelSet)
        ensures
            r@ == self@.channels,
            self.wf() ==> r.wf(),
    {
        &self.channels
    }

    /// Packages created in the network.
    pub fn packages(&self) -> (r: &PackageTree)
        ensures
            r@ == self@.packages,
            self.wf() ==> r.wf(),
    {
        &self.packages
    }

    /// Waiting dependencies created in the network.
    pub fn wait_deps(&self) -> (r: &WaitMap)
        ensures
            r@ == self@.wait,
            self.wf() ==> r.wf(),
    {
        &self.wait_deps
    }

    /// Register new thread in given process.
    ///
    /// None is returned if no such process was found. The new thread's
    /// key is returned when the thread was registered successfully.
    pub fn new_thread(&mut self, thread: Thread, process: &ProcessKey) -> (r: Option<ThreadKey>)
        requires
            old(self).wf(),
            thread.wf(),
            thread@.state == ThreadState::Sleep,
            thread@.channels == Set::<u32>::empty(),
            old(self)@.last_thread_key < u32::MAX,
        ensures
            final(self).wf(),
            match r {
                None => !old(self)@.processes.contains_key(*process) && final(self)@ == old(
                    self,
                )@,
                Some(k) => {
                    &&& old(self)@.processes.contains_key(*process)
                    &&& k == old(self)@.last_thread_key + 1
                    &&& !old(self)@.threads.contains_key(k)
                    &&& final(self)@ == (NetModel {
                        threads: old(self)@.threads.insert(k, thread@),
                        processes: old(self)@.processes.insert(
                            *process,
                            ProcessModel {
                                threads: old(self)@.processes[*process].threads.insert(k),
                                ..old(self)@.processes[*process]
                            },
                        ),
                        last_thread_key: k,
                        ..old(self)@
                    })
                },
            },
    {
        let thread_key = match self.processes.get_mut(process) {
            None => {
                return None;
            },
            Some(_) => self.threads.add(thread),
        };
        match self.processes.get_mut(process) {
            Some(proc) => {
                proc.attach_thread(thread_key);
            },
            None => {
                proof {
                    assert(false);
                }
                vstd::pervasive::unreached()
            },
        }
        proof {
            let m = old(self)@;
            let m2 = self@;
            let k = thread_key;
            assert(m2.processes =~= m.processes.insert(
                *process,
                ProcessModel {
                    threads: m.processes[*process].threads.insert(k),
                    ..m.processes[*process]
                },
            ));
            assert forall|t: u32, c: u32|
                m2.threads.contains_key(t) && #[trigger] m2.threads[t].channels.contains(c)
                    implies m2.channels.contains_key(c) && m2.channels[c].contains(t) by {
                assert(t != k);
                assert(m.threads[t].channels.contains(c));
            }
            assert forall|c: u32, t: u32|
                m2.channels.contains_key(c) && #[trigger] m2.channels[c].contains(t)
                    implies m2.threads.contains_key(t) && m2.threads[t].channels.contains(c) by {
                assert(m.channels[c].contains(t));
            }
            assert forall|c: u32, t: u32|
                m2.wait.chan.contains_key(c) && #[trigger] m2.wait.chan[c].contains(t)
                    implies m2.threads.contains_key(t) && m2.threads[t].state
                == ThreadState::WaitWithoutTimeout(c) by {
                assert(m.wait.chan[c].contains(t));
                assert(t != k);
            }
        }
        Some(thread_key)
    }

    /// Register new process in the network.
    pub fn new_process(&mut self, process: Process) -> (k: ProcessKey)
        requires
            old(self).wf(),
            process.wf(),
            old(self)@.next_process_key < u32::MAX,
        ensures
            final(self).wf(),
            k == old(self)@.next_process_key,
            !old(self)@.processes.contains_key(k),
            final(self)@ == (NetModel {
                processes: old(self)@.processes.insert(k, process@),
                next_process_key: (k + 1) as u32,
                ..old(self)@
            }),
    {
        let new_key = self.next_process_key;
        self.next_process_key = new_key + 1;
        let ghost m = old(self)@;
        proof {
            assert(!m.processes.contains_key(new_key));
        }
        self.processes.insert(new_key, process);
        proof {
            let m2 = self@;
            assert forall|t: u32, c: u32|
                m2.threads.contains_key(t) && #[trigger] m2.threads[t].channels.contains(c)
                    implies m2.channels.contains_key(c) && m2.channels[c].contains(t) by {
                assert(m.threads[t].channels.contains(c));
            }
            assert forall|c: u32, t: u32|
                m2.channels.contains_key(c) && #[trigger] m2.channels[c].contains(t)
                    implies m2.threads.contains_key(t) && m2.threads[t].channels.contains(c) by {
                assert(m.channels[c].contains(t));
            }
            assert forall|c: u32, t: u32|
                m2.wait.chan.contains_key(c) && #[trigger] m2.wait.chan[c].contains(t)
                    implies m2.threads.contains_key(t) && m2.threads[t].state
                == ThreadState::WaitWithoutTimeout(c) by {
                assert(m.wait.chan[c].contains(t));
            }
        }
        new_key
    }

    /// Register new channel in the network.
    ///
    /// None is returned if any of the participant threads was not
    /// found; nothing changes in that case. Otherwise a new channel
    /// key is allocated, the channel is registered together with a
    /// fresh graph node, and the channel is mirrored into the channel
    /// set of every participant thread.
    pub fn new_channel(&mut self, channel: Channel) -> (r: Option<ChannelKey>)
        requires
            old(self).wf(),
            channel.wf(),
            old(self)@.next_channel_key < u32::MAX,
            old(self)@.wait.next_node < u32::MAX,
        ensures
            final(self).wf(),
            match r {
                None => (exists|t: u32|
                    channel@.contains(t) && !old(self)@.threads.contains_key(t)) && final(self)@
                    == old(self)@,
                Some(k) => {
                    &&& forall|t: u32|
                        channel@.contains(t) ==> old(self)@.threads.contains_key(t)
                    &&& k == old(self)@.next_channel_key
                    &&& !old(self)@.channels.contains_key(k)
                    &&& final(self)@ == (NetModel {
                        threads: spec_add_chan_to(old(self)@.threads, channel@, k),
                        channels: old(self)@.channels.insert(k, channel@),
                        wait: WaitModel {
                            chan: old(self)@.wait.chan.insert(k, Set::empty()),
                            thr: old(self)@.wait.thr,
                            node: old(self)@.wait.node.insert(k, old(self)@.wait.next_node),
                            graph: old(self)@.wait.graph.insert(
                                old(self)@.wait.next_node,
                                Set::empty(),
                            ),
                            next_node: (old(self)@.wait.next_node + 1) as u32,
                        },
                        next_channel_key: (k + 1) as u32,
                        ..old(self)@
                    })
                },
            },
    {
        let ghost m = old(self)@;
        // Check that all participants are really registered in this
        // network.
        let parts = {
            let participants = channel.participants();
            let pn = participants.len();
            let mut i: usize = 0;
            while i < pn
                invariant
                    self == old(self),
                    old(self).wf(),
                    channel.wf(),
                    participants@ == channel@,
                    participants.wf(),
                    pn == participants.vseq().len(),
                    i <= pn,
                    forall|j: int|
                        0 <= j < i ==> old(self)@.threads.contains_key(
                            #[trigger] participants.vseq()[j],
                        ),
                decreases pn - i,
            {
                let t = *participants.at(i);
                if self.threads.get(&t).is_none() {
                    proof {
                        participants.lemma_vseq();
                        assert(channel@.contains(t) && !old(self)@.threads.contains_key(t));
                    }
                    return None;
                }
                i = i + 1;
            }
            proof {
                participants.lemma_vseq();
                assert forall|t: u32| channel@.contains(t) implies old(self)@.threads.contains_key(
                    t,
                ) by {
                    let j = choose|j: int|
                        0 <= j < participants.vseq().len() && participants.vseq()[j] == t;
                    assert(old(self)@.threads.contains_key(participants.vseq()[j]));
                }
            }
            participants.dup()
        };
        let channel_key = self.next_channel_key;
        proof {
            assert(!m.channels.contains_key(channel_key));
            assert(!m.wait.chan.contains_key(channel_key));
        }
        self.channels.insert(channel_key, channel);
        self.wait_deps.add_channel(channel_key, VecSet::new());
        self.next_channel_key = channel_key + 1;
        proof {
            assert(self@.wait.thr =~~= m.wait.thr) by {
                assert(crate::wait::mirror_waiters(m.wait.thr, Set::<u32>::empty(), channel_key)
                    =~~= m.wait.thr);
            }
        }
        // Register the channel to all participant threads.
        let ghost mid_threads = self@.threads;
        let ghost chan_snap = self.channels;
        let ghost wait_snap = self.wait_deps;
        let ghost nck = self.next_channel_key;
        let pn = parts.len();
        let ghost pseq = parts.vseq();
        proof {
            assert(self@.threads =~~= spec_add_chan_to(
                mid_threads,
                pseq.take(0).to_set(),
                channel_key,
            ));
        }
        let mut i: usize = 0;
        while i < pn
            invariant
                parts.wf(),
                parts.vseq() == pseq,
                parts@ == pseq.to_set(),
                pn == pseq.len(),
                i <= pn,
                forall|t: u32| pseq.to_set().contains(t) ==> mid_threads.contains_key(t),
                self.threads.wf(),
                self.threads@ == spec_add_chan_to(
                    mid_threads,
                    pseq.take(i as int).to_set(),
                    channel_key,
                ),
                self.threads.spec_last_key() == old(self).threads.spec_last_key(),
                self.processes == old(self).processes,
                self.interfaces == old(self).interfaces,
                self.channels == chan_snap,
                self.packages == old(self).packages,
                self.wait_deps == wait_snap,
                self.next_channel_key == nck,
                self.next_process_key == old(self).next_process_key,
            decreases pn - i,
        {
            let t = *parts.at(i);
            let ghost pre = pseq.take(i as int).to_set();
            proof {
                parts.lemma_card();
                assert(pseq.to_set().contains(pseq[i as int])) by {
                    assert(pseq.contains(pseq[i as int]));
                }
                assert(!pre.contains(t)) by {
                    if pre.contains(t) {
                        let j = choose|j: int| 0 <= j < i && pseq.take(i as int)[j] == t;
                        assert(pseq[j] == pseq[i as int]);
                    }
                }
                assert(pseq.take(i as int + 1) =~= pseq.take(i as int).push(t));
                assert(pseq.take(i as int + 1).to_set() =~= pre.insert(t));
            }
            match self.threads.get_mut(&t) {
                Some(th) => {
                    th.channels_mut().insert(channel_key);
                },
                None => {
                    proof {
                        assert(false);
                    }
                    vstd::pervasive::unreached()
                },
            }
            proof {
                assert(self.threads@ =~~= spec_add_chan_to(
                    mid_threads,
                    pseq.take(i as int + 1).to_set(),
                    channel_key,
                ));
            }
            i = i + 1;
        }
        proof {
            parts.lemma_card();
            assert(pseq.take(pn as int) =~= pseq);
            assert(self@.threads == spec_add_chan_to(mid_threads, channel@, channel_key));
            let m2 = self@;
            assert(m2.threads =~~= spec_add_chan_to(m.threads, channel@, channel_key));
            self.wait_deps.lemma_wf();
            lemma_new_channel_wf(m, m2, channel@, channel_key);
        }
        Some(channel_key)
    }

    /// Let a thread block waiting for a signal of a channel.
    ///
    /// With `timer == true` the thread merely enters the timed wait
    /// state; a timed wait self-releases, so no wait bookkeeping and
    /// no graph edges are created and no deadlock can arise.
    ///
    /// Without a timer, wait entries from any earlier blocked state of
    /// the thread are dropped, the thread is recorded as a waiter of
    /// the channel, and for every channel of the thread whose
    /// participants are now all blocked, a dependency edge toward the
    /// awaited channel is added.  If any of these edges would close a cycle,
    /// every inserted edge is removed again — the graph is left
    /// exactly as it was — the waiter entry is dropped, and
    /// `Err` reports the deadlock that was prevented.
    ///
    /// `Ok(None)` reports an unknown thread or channel.
    pub fn wait_thread(
        &mut self,
        thread_key: &ThreadKey,
        signal_source: &ChannelKey,
        timer: bool,
    ) -> (r: Result<Option<()>, ()>)
        requires
            old(self).wf(),
        ensures
            final(self).wf(),
            match r {
                Ok(o) => {
                    if timer {
                        &&& (o is Some) == old(self)@.threads.contains_key(*thread_key)
                        &&& (o is Some) ==> final(self)@ == spec_state_change(
                            old(self)@,
                            *thread_key,
                            ThreadState::WaitWithTimeout(*signal_source),
                        )
                        &&& (o is None) ==> final(self)@ == old(self)@
                    } else {
                        &&& (o is Some) == (old(self)@.channels.contains_key(*signal_source)
                            && old(self)@.threads.contains_key(*thread_key))
                        &&& (o is None) ==> final(self)@ == old(self)@
                        &&& (o is Some) ==> !wait_would_deadlock(
                            old(self)@,
                            *thread_key,
                            *signal_source,
                        ) && final(self)@ == spec_wait_ok(
                            old(self)@,
                            *thread_key,
                            *signal_source,
                        )
                    }
                },
                Err(_) => {
                    &&& !timer
                    &&& old(self)@.channels.contains_key(*signal_source)
                    &&& old(self)@.threads.contains_key(*thread_key)
                    &&& wait_would_deadlock(old(self)@, *thread_key, *signal_source)
                    &&& final(self)@ == spec_wait_err(old(self)@, *thread_key)
                    &&& final(self)@.wait.graph == old(self)@.wait.graph
                },
            },
    {
        let ghost m = old(self)@;
        let t = *thread_key;
        let c = *signal_source;
        if timer {
            return Ok(self.change_thread_state_remove_deps(
                thread_key,
                ThreadState::WaitWithTimeout(c),
            ));
        }
        if self.channels.get(signal_source).is_none() {
            return Ok(None);
        }
        let chans = match self.threads.get(thread_key) {
            None => {
                return Ok(None);
            },
            Some(th) => th.channels().dup(),
        };
        let ghost nc = m.wait.node[c];
        let ghost bs = blocked_channels(m, t, c);
        let ghost target = spec_sweep_graph(m.wait.graph, m.wait.node, bs, nc);
        // Drop any previous wait entries of the thread, then record it
        // as a waiter of the awaited channel.
        self.wait_deps.remove_thread(thread_key);
        self.wait_deps.add_waiter(c, t);
        let ghost w2 = spec_wait_entries(m, t, c);
        proof {
            assert(self@.wait == w2);
            assert(w2.graph == m.wait.graph);
            assert(w2.node == m.wait.node);
            assert(w2.thr.contains_key(t));
            self.wait_deps.lemma_wf();
            assert forall|p: u32| #[trigger] w2.thr.contains_key(p) implies p == t
                || m.wait.thr.contains_key(p) by {}
            assert forall|p: u32| p == t || m.wait.thr.contains_key(p)
                implies #[trigger] w2.thr.contains_key(p) by {
                if p != t && m.wait.thr.contains_key(p) {
                    let cw = choose|cw: u32| m.wait.thr[p].contains(cw);
                    assert(spec_remove_thread(m.wait, t).thr.contains_key(p));
                }
            }
        }
        // Register a channel relation for every channel of the thread
        // whose participants are all blocked now.
        let mut added: Vec<ChannelKey> = Vec::new();
        let total = chans.len();
        let ghost cseq = chans.vseq();
        proof {
            chans.lemma_card();
            assert(chans@ == m.threads[t].channels);
            assert(self@.wait.graph =~~= spec_sweep_graph(
                m.wait.graph,
                m.wait.node,
                bs.intersect(cseq.take(0).to_set()),
                nc,
            ));
        }
        let mut i: usize = 0;
        while i < total
            invariant
                old(self).wf(),
                m == old(self)@,
                !timer,
                t == *thread_key,
                c == *signal_source,
                m.channels.contains_key(c),
                m.threads.contains_key(t),
                chans.wf(),
                chans.vseq() == cseq,
                chans@ == m.threads[t].channels,
                total == cseq.len(),
                i <= total,
                nc == m.wait.node[c],
                bs == blocked_channels(m, t, c),
                target == spec_sweep_graph(m.wait.graph, m.wait.node, bs, nc),
                w2 == spec_wait_entries(m, t, c),
                self.threads == old(self).threads,
                self.channels == old(self).channels,
                self.processes == old(self).processes,
                self.interfaces == old(self).interfaces,
                self.packages == old(self).packages,
                self.next_process_key == old(self).next_process_key,
                self.next_channel_key == old(self).next_channel_key,
                self.wait_deps.wf(),
                self@.wait.chan == w2.chan,
                self@.wait.thr == w2.thr,
                self@.wait.node == m.wait.node,
                self@.wait.next_node == m.wait.next_node,
                self@.wait.graph == spec_sweep_graph(
                    m.wait.graph,
                    m.wait.node,
                    bs.intersect(cseq.take(i as int).to_set()),
                    nc,
                ),
                forall|j: int|
                    0 <= j < added@.len() ==> bs.contains(#[trigger] added@[j])
                        && chans@.contains(added@[j]) && !m.wait.graph.index(
                        m.wait.node[added@[j]],
                    ).contains(nc),
                forall|n: u32|
                    #[trigger] self@.wait.graph.contains_key(n) && self@.wait.graph[n]
                        != m.wait.graph[n] ==> (exists|j: int|
                        0 <= j < added@.len() && m.wait.node[#[trigger] added@[j]] == n),
                forall|j: int|
                    0 <= j < added@.len() ==> self@.wait.graph.index(
                        m.wait.node[#[trigger] added@[j]],
                    ) == m.wait.graph.index(m.wait.node[added@[j]]).insert(nc),
                added@.no_duplicates(),
                net_wf(m),
            decreases total - i,
        {
            let cp = *chans.at(i);
            let ghost pre_set = cseq.take(i as int).to_set();
            proof {
                chans.lemma_vseq();
                assert(m.threads[t].channels.contains(cp));
                assert(m.channels.contains_key(cp));
                assert(m.wait.chan.contains_key(cp));
                assert(m.wait.node.contains_key(cp));
                assert(m.wait.node.contains_key(c));
                chans.lemma_card();
                assert(!pre_set.contains(cp)) by {
                    if cseq.take(i as int).contains(cp) {
                        let j = choose|j: int| 0 <= j < i && cseq.take(i as int)[j] == cp;
                        assert(cseq[j] == cseq[i as int]);
                    }
                }
                assert(cseq.take(i as int + 1) =~= cseq.take(i as int).push(cp));
                assert(cseq.take(i as int + 1).to_set() =~= pre_set.insert(cp));
            }
            // Is the channel fully locked up once `t` waits?
            let blocked = {
                let ch = match self.channels.get(&cp) {
                    Some(x) => x,
                    None => {
                        proof {
                            assert(false);
                        }
                        vstd::pervasive::unreached()
                    },
                };
                let parts = ch.participants();
                let ghost psq = parts.vseq();
                let pn = parts.len();
                let mut all = true;
                let mut j: usize = 0;
                while j < pn
                    invariant
                        parts.wf(),
                        parts.vseq() == psq,
                        parts@ == m.channels[cp],
                        pn == psq.len(),
                        j <= pn,
                        self@.wait.thr == w2.thr,
                        w2 == spec_wait_entries(m, t, c),
                        forall|p: u32|
                            #[trigger] w2.thr.contains_key(p) <==> (p == t
                                || m.wait.thr.contains_key(p)),
                        all ==> (forall|jj: int|
                            0 <= jj < j ==> w2.thr.contains_key(#[trigger] psq[jj])),
                        !all ==> (exists|jj: int|
                            0 <= jj < pn && !w2.thr.contains_key(#[trigger] psq[jj])),
                    decreases pn - j,
                {
                    if all {
                        let p = *parts.at(j);
                        if !self.wait_deps.thread_wait_map().contains_key(&p) {
                            all = false;
                            proof {
                                assert(!w2.thr.contains_key(psq[j as int]));
                            }
                        }
                    }
                    j = j + 1;
                }
                proof {
                    parts.lemma_vseq();
                    if all {
                        assert(bs.contains(cp)) by {
                            assert forall|p: u32| #[trigger] m.channels[cp].contains(p)
                                implies p == t || m.wait.thr.contains_key(p) by {
                                let jj = choose|jj: int| 0 <= jj < psq.len() && psq[jj] == p;
                                assert(w2.thr.contains_key(psq[jj]));
                            }
                        }
                    } else {
                        assert(!bs.contains(cp)) by {
                            let jj = choose|jj: int|
                                0 <= jj < pn && !w2.thr.contains_key(#[trigger] psq[jj]);
                            let p = psq[jj];
                            assert(m.channels[cp].contains(p));
                            assert(!(p == t || m.wait.thr.contains_key(p)));
                        }
                    }
                }
                all
            };
            if blocked {
                let already = match self.wait_deps.channel_relation_exists(signal_source, &cp) {
                    Some(b) => b,
                    None => {
                        proof {
                            assert(false);
                        }
                        vstd::pervasive::unreached()
                    },
                };
                if already {
                    proof {
                        lemma_sweep_extend_present(
                            m.wait.graph,
                            m.wait.node,
                            bs,
                            pre_set,
                            cp,
                            nc,
                            self@.wait.graph,
                        );
                    }
                } else {
                    proof {
                        // The channel cannot already stand in the added
                        // list: its edge is still absent.
                        assert(!added@.contains(cp)) by {
                            if added@.contains(cp) {
                                let j = choose|j: int|
                                    0 <= j < added@.len() && added@[j] == cp;
                                assert(self@.wait.graph.index(m.wait.node[added@[j]])
                                    == m.wait.graph.index(m.wait.node[added@[j]]).insert(nc));
                            }
                        }
                    }
                    match self.wait_deps.add_channel_relation(signal_source, &cp) {
                        Ok(_) => {
                            let ghost g_pre = spec_sweep_graph(
                                m.wait.graph,
                                m.wait.node,
                                bs.intersect(pre_set),
                                nc,
                            );
                            proof {
                                assert(!m.wait.graph[m.wait.node[cp]].contains(nc)) by {
                                    lemma_sweep_absent_base(
                                        m.wait.graph,
                                        m.wait.node,
                                        bs.intersect(pre_set),
                                        cp,
                                        nc,
                                        g_pre,
                                    );
                                }
                                lemma_sweep_extend_insert(
                                    m.wait.graph,
                                    m.wait.node,
                                    bs,
                                    pre_set,
                                    cp,
                                    nc,
                                    g_pre,
                                );
                            }
                            let ghost prev_added = added@;
                            let ghost g_before = spec_sweep_graph(
                                m.wait.graph,
                                m.wait.node,
                                bs.intersect(pre_set),
                                nc,
                            );
                            added.push(cp);
                            proof {
                                let na2 = m.wait.node[cp];
                                assert(m.wait.node.contains_key(cp));
                                assert(self@.wait.graph == crate::wait::add_edge(
                                    g_before,
                                    na2,
                                    nc,
                                ));
                                assert(g_before[na2] == m.wait.graph[na2]) by {
                                    if g_before[na2] != m.wait.graph[na2] {
                                        let j = choose|j: int|
                                            0 <= j < prev_added.len() && m.wait.node[
                                                #[trigger] prev_added[j]
                                            ] == na2;
                                        assert(m.threads[t].channels.contains(prev_added[j]));
                                        assert(m.channels.contains_key(prev_added[j]));
                                        assert(m.wait.chan.contains_key(prev_added[j]));
                                        assert(m.wait.node.contains_key(prev_added[j]));
                                        assert(prev_added[j] == cp);
                                        assert(added@.drop_last().contains(cp));
                                    }
                                }
                                assert forall|j: int| 0 <= j < added@.len() implies bs.contains(
                                    #[trigger] added@[j],
                                ) && chans@.contains(added@[j]) && !m.wait.graph.index(
                                    m.wait.node[added@[j]],
                                ).contains(nc) by {
                                    if j == added@.len() - 1 {
                                        chans.lemma_vseq();
                                        assert(chans@.contains(cseq[i as int]));
                                    } else {
                                        assert(prev_added[j] == added@[j]);
                                    }
                                }
                                assert forall|j: int|
                                    0 <= j < added@.len() implies self@.wait.graph.index(
                                    m.wait.node[#[trigger] added@[j]],
                                ) == m.wait.graph.index(m.wait.node[added@[j]]).insert(nc) by {
                                    if j == added@.len() - 1 {
                                        assert(added@[j] == cp);
                                    } else {
                                        assert(prev_added[j] == added@[j]);
                                        assert(added@[j] != cp) by {
                                            if added@[j] == cp {
                                                assert(prev_added.contains(cp));
                                            }
                                        }
                                        assert(m.threads[t].channels.contains(added@[j]));
                                        assert(m.channels.contains_key(added@[j]));
                                        assert(m.wait.chan.contains_key(added@[j]));
                                        assert(m.wait.node.contains_key(added@[j]));
                                        assert(m.wait.node[added@[j]] != na2);
                                        assert(self@.wait.graph.index(m.wait.node[added@[j]])
                                            == g_before.index(m.wait.node[added@[j]]));
                                    }
                                }
                                assert forall|n: u32|
                                    #[trigger] self@.wait.graph.contains_key(n)
                                        && self@.wait.graph[n] != m.wait.graph[n] implies (
                                exists|j: int|
                                    0 <= j < added@.len() && m.wait.node[
                                        #[trigger] added@[j]
                                    ] == n) by {
                                    if n == na2 {
                                        assert(m.wait.node[added@[added@.len() - 1]] == n);
                                    } else {
                                        assert(self@.wait.graph[n] == g_before[n]);
                                        let j = choose|j: int|
                                            0 <= j < prev_added.len() && m.wait.node[
                                                #[trigger] prev_added[j]
                                            ] == n;
                                        assert(m.wait.node[added@[j]] == n);
                                    }
                                }
                                assert(added@.no_duplicates()) by {
                                    assert(!prev_added.contains(cp));
                                }
                            }
                        },
                        Err(_) => {
                            proof {
                                // The attempted edge closes a cycle in
                                // the full target graph.
                                lemma_sweep_err_cycle(
                                    m.wait.graph,
                                    m.wait.node,
                                    bs,
                                    pre_set,
                                    cp,
                                    nc,
                                    self@.wait.graph,
                                );
                            }
                            proof {
                                assert(self@.wait.graph.dom() =~= m.wait.graph.dom());
                                assert forall|n: u32|
                                    #[trigger] self@.wait.graph.contains_key(n)
                                    implies self@.wait.graph[n] == (if (exists|j: int|
                                    0 <= j < added@.len() && m.wait.node[
                                        #[trigger] added@[j]
                                    ] == n) {
                                    m.wait.graph[n].insert(nc)
                                } else {
                                    m.wait.graph[n]
                                }) by {
                                    if exists|j: int|
                                        0 <= j < added@.len() && m.wait.node[
                                            #[trigger] added@[j]
                                        ] == n {
                                        let j = choose|j: int|
                                            0 <= j < added@.len() && m.wait.node[
                                                #[trigger] added@[j]
                                            ] == n;
                                        assert(self@.wait.graph.index(m.wait.node[added@[j]])
                                            == m.wait.graph.index(
                                            m.wait.node[added@[j]],
                                        ).insert(nc));
                                    }
                                }
                            }
                            self.rollback_wait(thread_key, signal_source, added, Ghost(m));
                            return Err(());
                        },
                    }
                }
            } else {
                proof {
                    assert(bs.intersect(cseq.take(i as int + 1).to_set()) =~= bs.intersect(
                        pre_set,
                    ));
                }
            }
            i = i + 1;
        }
        // All relations were accepted: the thread now waits without a
        // timeout.
        match self.threads.get_mut(thread_key) {
            Some(th) => {
                th.set_state(ThreadState::WaitWithoutTimeout(c));
            },
            None => {
                proof {
                    assert(false);
                }
                vstd::pervasive::unreached()
            },
        }
        proof {
            assert(cseq.take(total as int) =~= cseq);
            assert(bs.intersect(cseq.to_set()) =~= bs) by {
                chans.lemma_card();
                assert forall|cp: u32| #[trigger] bs.contains(cp) implies cseq.to_set().contains(
                    cp,
                ) by {
                    assert(m.threads[t].channels.contains(cp));
                }
            }
            assert(self@.threads =~= spec_set_state(m.threads, t, ThreadState::WaitWithoutTimeout(c)));
            assert(self@ == spec_wait_ok(m, t, c));
            self.wait_deps.lemma_wf();
            assert(!wait_would_deadlock(m, t, c)) by {
                assert(acyclic(self@.wait.graph));
            }
            lemma_wait_ok_wf(m, self@, t, c);
        }
        Ok(Some(()))
    }

    /// Remove the relations recorded during a rejected wait and the
    /// waiter entry itself: the graph is restored exactly, and the
    /// thread is left a waiter nowhere.
    fn rollback_wait(
        &mut self,
        thread_key: &ThreadKey,
        signal_source: &ChannelKey,
        added: Vec<ChannelKey>,
        Ghost(m): Ghost<NetModel>,
    )
        requires
            net_wf(m),
            old(self).wait_wf(),
            old(self).rep_wf(),
            m.channels.contains_key(*signal_source),
            m.threads.contains_key(*thread_key),
            old(self)@.threads == m.threads,
            old(self)@.processes == m.processes,
            old(self)@.interfaces == m.interfaces,
            old(self)@.channels == m.channels,
            old(self)@.packages == m.packages,
            old(self)@.next_process_key == m.next_process_key,
            old(self)@.next_channel_key == m.next_channel_key,
            old(self)@.last_thread_key == m.last_thread_key,
            old(self)@.wait.chan == spec_wait_entries(m, *thread_key, *signal_source).chan,
            old(self)@.wait.thr == spec_wait_entries(m, *thread_key, *signal_source).thr,
            old(self)@.wait.node == m.wait.node,
            old(self)@.wait.next_node == m.wait.next_node,
            old(self)@.wait.graph.dom() == m.wait.graph.dom(),
            forall|n: u32|
                #[trigger] old(self)@.wait.graph.contains_key(n) ==> old(self)@.wait.graph[n]
                    == (if (exists|j: int|
                    0 <= j < added@.len() && m.wait.node[#[trigger] added@[j]] == n) {
                    m.wait.graph[n].insert(m.wait.node[*signal_source])
                } else {
                    m.wait.graph[n]
                }),
            forall|j: int|
                0 <= j < added@.len() ==> m.threads[*thread_key].channels.contains(
                    #[trigger] added@[j],
                ) && !m.wait.graph[m.wait.node[added@[j]]].contains(
                    m.wait.node[*signal_source],
                ),
            added@.no_duplicates(),
        ensures
            final(self).wf(),
            final(self)@ == spec_wait_err(m, *thread_key),
    {
        let ghost t = *thread_key;
        let ghost nc = m.wait.node[*signal_source];
        let ghost w2 = spec_wait_entries(m, *thread_key, *signal_source);
        let total = added.len();
        let mut k: usize = 0;
        while k < total
            invariant
                net_wf(m),
                t == *thread_key,
                nc == m.wait.node[*signal_source],
                w2 == spec_wait_entries(m, *thread_key, *signal_source),
                m.channels.contains_key(*signal_source),
                m.threads.contains_key(*thread_key),
                total == added@.len(),
                k <= total,
                self.threads == old(self).threads,
                self.processes == old(self).processes,
                self.interfaces == old(self).interfaces,
                self.channels == old(self).channels,
                self.packages == old(self).packages,
                self.next_process_key == old(self).next_process_key,
                self.next_channel_key == old(self).next_channel_key,
                old(self).rep_wf(),
                self@.threads == m.threads,
                self@.processes == m.processes,
                self@.interfaces == m.interfaces,
                self@.channels == m.channels,
                self@.packages == m.packages,
                self@.next_process_key == m.next_process_key,
                self@.next_channel_key == m.next_channel_key,
                self@.last_thread_key == m.last_thread_key,
                self.wait_wf(),
                self@.wait.chan == w2.chan,
                self@.wait.thr == w2.thr,
                self@.wait.node == m.wait.node,
                self@.wait.next_node == m.wait.next_node,
                self@.wait.graph.dom() == m.wait.graph.dom(),
                forall|n: u32|
                    #[trigger] self@.wait.graph.contains_key(n) ==> self@.wait.graph[n] == (
                    if (exists|j: int|
                        k <= j < added@.len() && m.wait.node[#[trigger] added@[j]] == n) {
                        m.wait.graph[n].insert(nc)
                    } else {
                        m.wait.graph[n]
                    }),
                forall|j: int|
                    0 <= j < added@.len() ==> m.threads[t].channels.contains(
                        #[trigger] added@[j],
                    ) && !m.wait.graph[m.wait.node[added@[j]]].contains(nc),
                added@.no_duplicates(),
            decreases total - k,
        {
            let a = added[k];
            let ghost na = m.wait.node[a as u32];
            proof {
                assert(m.threads[t].channels.contains(a));
                assert(m.channels.contains_key(a));
                assert(m.wait.chan.contains_key(a));
                assert(m.wait.node.contains_key(a));
                assert(m.wait.node.contains_key(*signal_source));
                assert(self@.wait.graph[na] == m.wait.graph[na].insert(nc)) by {
                    assert(m.wait.node[added@[k as int]] == na);
                }
            }
            let ghost g_pre = self@.wait.graph;
            match self.wait_deps.remove_channel_relation(signal_source, &a) {
                Some(_) => {},
                None => {
                    proof {
                        assert(false);
                    }
                    vstd::pervasive::unreached()
                },
            }
            proof {
                let g2 = self@.wait.graph;
                assert(g2 == crate::wait::remove_edge(g_pre, na, nc));
                assert(g2.dom() =~= m.wait.graph.dom());
                assert forall|n: u32| #[trigger] g2.contains_key(n) implies g2[n] == (
                if (exists|j: int|
                    k + 1 <= j < added@.len() && m.wait.node[#[trigger] added@[j]] == n) {
                    m.wait.graph[n].insert(nc)
                } else {
                    m.wait.graph[n]
                }) by {
                    if n == na {
                        assert(g2[n] =~= m.wait.graph[n]) by {
                            assert(g_pre[na].remove(nc) =~= m.wait.graph[na]);
                        }
                        if exists|j: int|
                            k + 1 <= j < added@.len() && m.wait.node[#[trigger] added@[j]]
                                == n {
                            let j = choose|j: int|
                                k + 1 <= j < added@.len() && m.wait.node[
                                    #[trigger] added@[j]
                                ] == n;
                            // Distinct added channels own distinct
                            // graph nodes.
                            assert(m.wait.node.contains_key(added@[j]));
                            assert(added@[j] == a as u32);
                            assert(added@[j] != added@[k as int]);
                            assert(false);
                        }
                    } else {
                        assert(g2[n] == g_pre[n]);
                        if exists|j: int|
                            k <= j < added@.len() && m.wait.node[#[trigger] added@[j]] == n {
                            let j = choose|j: int|
                                k <= j < added@.len() && m.wait.node[#[trigger] added@[j]]
                                    == n;
                            assert(j != k);
                        }
                    }
                }
            }
            k = k + 1;
        }
        proof {
            assert(self@.wait.graph =~~= m.wait.graph) by {
                assert forall|n: u32| #[trigger] self@.wait.graph.contains_key(n)
                    implies self@.wait.graph[n] == m.wait.graph[n] by {}
            }
        }
        self.wait_deps.remove_thread(thread_key);
        proof {
            let m2 = self@;
            let werr = spec_remove_thread(m.wait, t);
            assert(m2.wait.chan =~~= werr.chan) by {
                assert forall|cc: u32| #[trigger] m.wait.chan.contains_key(cc)
                    implies spec_remove_thread(
                    WaitModel { graph: m.wait.graph, ..w2 },
                    t,
                ).chan[cc] =~= m.wait.chan[cc].remove(t) by {
                    if cc == *signal_source {
                        assert(w2.chan[cc] == m.wait.chan[cc].remove(t).insert(t));
                    } else {
                        assert(w2.chan[cc] == m.wait.chan[cc].remove(t));
                    }
                }
            }
            assert(m2.wait.thr =~= werr.thr);
            assert(m2.wait == werr);
            assert(m2 == spec_wait_err(m, t));
            self.wait_deps.lemma_wf();
            lemma_wait_err_wf(m, m2, t);
        }
    }

    /// Some thread sends a message on the channel: every participant
    /// blocked waiting for this channel's signal wakes up and becomes
    /// active, and the sender in turn goes to wait for the reply.
    ///
    /// Returns the list of threads that woke up, in no particular
    /// order.  An error is returned if the channel is not found or the
    /// sender does not participate in it — nothing changes then — or
    /// if the sender's own wait would form a deadlock; the wakeups
    /// already performed are not reverted in that case.
    pub fn channel_signal(
        &mut self,
        sender: &ThreadKey,
        channel: &ChannelKey,
        timer: bool,
    ) -> (r: Result<Vec<ThreadKey>, ()>)
        requires
            old(self).wf(),
        ensures
            final(self).wf(),
            match r {
                Err(_) => {
                    if old(self)@.channels.contains_key(*channel) && old(self)@.channels[
                        *channel
                    ].contains(*sender) {
                        &&& !timer
                        &&& wait_would_deadlock(spec_wake(old(self)@, *channel), *sender, *channel)
                        &&& final(self)@ == spec_wait_err(spec_wake(old(self)@, *channel), *sender)
                    } else {
                        final(self)@ == old(self)@
                    }
                },
                Ok(list) => {
                    &&& old(self)@.channels.contains_key(*channel)
                    &&& old(self)@.channels[*channel].contains(*sender)
                    &&& list@.to_set() == woken_set(old(self)@, *channel)
                    &&& list@.no_duplicates()
                    &&& (timer ==> final(self)@ == spec_state_change(
                        spec_wake(old(self)@, *channel),
                        *sender,
                        ThreadState::WaitWithTimeout(*channel),
                    ))
                    &&& (!timer ==> !wait_would_deadlock(
                        spec_wake(old(self)@, *channel),
                        *sender,
                        *channel,
                    ) && final(self)@ == spec_wait_ok(
                        spec_wake(old(self)@, *channel),
                        *sender,
                        *channel,
                    ))
                },
            },
    {
        let ghost m = old(self)@;
        let c = *channel;
        let ghost wset = woken_set(m, c);
        // Check whether this thread really is participating in the
        // given channel.
        let parts = match self.channels.get(channel) {
            None => {
                return Err(());
            },
            Some(ch) => {
                if !ch.participants().contains(sender) {
                    return Err(());
                }
                ch.participants().dup()
            },
        };
        // Wake up every participant blocked on this channel.
        let mut list: Vec<ThreadKey> = Vec::new();
        let total = parts.len();
        let ghost psq = parts.vseq();
        proof {
            parts.lemma_card();
            assert(self@.threads =~~= partial_wake_threads(m, wset.intersect(psq.take(0).to_set())));
            assert(self@.wait.chan =~~= partial_wake_chan(m, wset.intersect(psq.take(0).to_set())));
            assert(self@.wait.thr =~= m.wait.thr.remove_keys(wset.intersect(psq.take(0).to_set())));
        }
        let mut i: usize = 0;
        while i < total
            invariant
                old(self).wf(),
                m == old(self)@,
                c == *channel,
                m.channels.contains_key(c),
                m.channels[c].contains(*sender),
                wset == woken_set(m, c),
                parts.wf(),
                parts.vseq() == psq,
                parts@ == m.channels[c],
                total == psq.len(),
                i <= total,
                self.wf(),
                self@.threads == partial_wake_threads(m, wset.intersect(psq.take(i as int).to_set())),
                self@.wait.chan == partial_wake_chan(m, wset.intersect(psq.take(i as int).to_set())),
                self@.wait.thr == m.wait.thr.remove_keys(wset.intersect(psq.take(i as int).to_set())),
                self@.wait.node == m.wait.node,
                self@.wait.graph == m.wait.graph,
                self@.wait.next_node == m.wait.next_node,
                self@.processes == m.processes,
                self@.interfaces == m.interfaces,
                self@.channels == m.channels,
                self@.packages == m.packages,
                self@.next_process_key == m.next_process_key,
                self@.next_channel_key == m.next_channel_key,
                self@.last_thread_key == m.last_thread_key,
                list@.to_set() == wset.intersect(psq.take(i as int).to_set()),
                list@.no_duplicates(),
            decreases total - i,
        {
            let p = *parts.at(i);
            let ghost pre = wset.intersect(psq.take(i as int).to_set());
            proof {
                parts.lemma_vseq();
                assert(m.channels[c].contains(p));
                assert(m.threads.contains_key(p));
                parts.lemma_card();
                assert(!psq.take(i as int).contains(p)) by {
                    if psq.take(i as int).contains(p) {
                        let j = choose|j: int| 0 <= j < i && psq.take(i as int)[j] == p;
                        assert(psq[j] == psq[i as int]);
                    }
                }
                assert(psq.take(i as int + 1) =~= psq.take(i as int).push(p));
                assert(psq.take(i as int + 1).to_set() =~= psq.take(i as int).to_set().insert(p));
            }
            let waiting = match self.threads.get(&p) {
                Some(th) => {
                    match th.state() {
                        ThreadState::WaitWithoutTimeout(cc) => *cc == c,
                        ThreadState::WaitWithTimeout(cc) => *cc == c,
                        _ => false,
                    }
                },
                None => {
                    proof {
                        assert(false);
                    }
                    vstd::pervasive::unreached()
                },
            };
            proof {
                // The thread was not woken earlier in this sweep, so it
                // still carries its pre-signal state.
                assert(!pre.contains(p));
                assert(self@.threads[p] == m.threads[p]);
                assert(waiting == wset.contains(p));
            }
            if waiting {
                let ghost prev_list = list@;
                list.push(p);
                match self.active_thread(&p) {
                    Some(_) => {},
                    None => {
                        proof {
                            assert(false);
                        }
                        vstd::pervasive::unreached()
                    },
                }
                proof {
                    let post = wset.intersect(psq.take(i as int + 1).to_set());
                    assert(post =~= pre.insert(p)) by {
                        assert(psq.take(i as int + 1).to_set() =~= psq.take(
                            i as int,
                        ).to_set().insert(p));
                        assert(wset.contains(p));
                    }
                    lemma_wake_step(m, c, pre, p, self@);
                    assert(list@.to_set() =~= post) by {
                        assert(list@ == prev_list.push(p));
                        assert(prev_list.to_set() == pre);
                        assert(list@.to_set() =~= prev_list.to_set().insert(p));
                    }
                    assert(list@.no_duplicates()) by {
                        assert(!prev_list.contains(p)) by {
                            if prev_list.contains(p) {
                                assert(prev_list.to_set().contains(p));
                            }
                        }
                    }
                }
            } else {
                proof {
                    let post = wset.intersect(psq.take(i as int + 1).to_set());
                    assert(post =~= pre);
                }
            }
            i = i + 1;
        }
        proof {
            assert(psq.take(total as int) =~= psq);
            parts.lemma_card();
            assert(wset.intersect(psq.to_set()) =~= wset) by {
                assert forall|p: u32| #[trigger] wset.contains(p) implies psq.to_set().contains(
                    p,
                ) by {
                    assert(m.channels[c].contains(p));
                }
            }
            let m1 = spec_wake(m, c);
            assert(self@.threads =~~= m1.threads);
            assert(self@.wait.chan =~~= m1.wait.chan);
            assert(self@ == m1);
            assert(m1.channels.contains_key(c));
            assert(m1.threads.contains_key(*sender));
        }
        // Set the current thread to wait for a signal from the channel.
        match self.wait_thread(sender, channel, timer) {
            Ok(Some(_)) => Ok(list),
            Ok(None) => {
                proof {
                    assert(false);
                }
                vstd::pervasive::unreached()
            },
            Err(_) => Err(()),
        }
    }

    /// Try to put the thread asleep.
    ///
    /// Some if the thread was found and successfully put asleep,
    /// None if the thread was not found.
    pub fn sleep_thread(&mut self, thread: &ThreadKey) -> (r: Option<()>)
        requires
            old(self).wf(),
        ensures
            final(self).wf(),
            match r {
                None => !old(self)@.threads.contains_key(*thread) && final(self)@ == old(self)@,
                Some(_) => old(self)@.threads.contains_key(*thread) && final(self)@
                    == spec_state_change(old(self)@, *thread, ThreadState::Sleep),
            },
    {
        self.change_thread_state_remove_deps(thread, ThreadState::Sleep)
    }

    /// Make the thread actively running.
    pub fn active_thread(&mut self, thread: &ThreadKey) -> (r: Option<()>)
        requires
            old(self).wf(),
        ensures
            final(self).wf(),
            match r {
                None => !old(self)@.threads.contains_key(*thread) && final(self)@ == old(self)@,
                Some(_) => old(self)@.threads.contains_key(*thread) && final(self)@
                    == spec_state_change(old(self)@, *thread, ThreadState::Active),
            },
    {
        self.change_thread_state_remove_deps(thread, ThreadState::Active)
    }

    pub fn thread_mut(&mut self, thread: &ThreadKey) -> (r: Option<&mut Thread>)
        requires
            old(self).wf(),
        ensures
            match r {
                Some(t) => {
                    &&& old(self)@.threads.contains_key(*thread)
                    &&& (*t)@ == old(self)@.threads[*thread]
                    &&& (*t).wf()
                    &&& final(self)@ == (NetModel {
                        threads: old(self)@.threads.insert(*thread, (*final(t))@),
                        ..old(self)@
                    })
                },
                None => !old(self)@.threads.contains_key(*thread) && *final(self) == *old(self),
            },
    {
        self.threads.get_mut(thread)
    }

    pub fn thread(&self, thread: &ThreadKey) -> (r: Option<&Thread>)
        requires
            self.wf(),
        ensures
            match r {
                Some(t) => self@.threads.contains_key(*thread) && t@ == self@.threads[*thread]
                    && t.wf(),
                None => !self@.threads.contains_key(*thread),
            },
    {
        self.threads.get(thread)
    }

    /// Change thread state to the given one and remove the thread from
    /// the wait bookkeeping if its previous state was a wait without
    /// timeout.
    pub fn change_thread_state_remove_deps(
        &mut self,
        thread: &ThreadKey,
        state: ThreadState,
    ) -> (r: Option<()>)
        requires
            old(self).wf(),
        ensures
            final(self).wf(),
            match r {
                None => !old(self)@.threads.contains_key(*thread) && final(self)@ == old(self)@,
                Some(_) => old(self)@.threads.contains_key(*thread) && final(self)@
                    == spec_state_change(old(self)@, *thread, state),
            },
    {
        let ghost m = old(self)@;
        let t = *thread;
        let was_waiting = match self.threads.get_mut(thread) {
            None => {
                return None;
            },
            Some(th) => {
                let was = matches!(*th.state(), ThreadState::WaitWithoutTimeout(_));
                th.set_state(state);
                was
            },
        };
        if was_waiting {
            self.wait_deps.remove_thread(thread);
        }
        proof {
            let m2 = self@;
            assert(m2.threads =~= spec_set_state(m.threads, t, state));
            if was_waiting {
                assert(m2.wait == spec_drop_deps(m, t));
            } else {
                assert(m2.wait == m.wait);
                assert(m2.wait == spec_drop_deps(m, t));
            }
            assert(m2 == spec_state_change(m, t, state));
            self.wait_deps.lemma_wf();
            lemma_state_change_wf(m, m2, t, state);
        }
        Some(())
    }

    /// Remove the thread from the wait dependency bookkeeping.
    pub fn remove_from_wait_dep(&mut self, thread: &ThreadKey)
        requires
            old(self).wait_wf(),
        ensures
            final(self).wait_wf(),
            final(self)@ == (NetModel {
                wait: spec_remove_thread(old(self)@.wait, *thread),
                ..old(self)@
            }),
    {
        self.wait_deps.remove_thread(thread);
    }
}

/// A sweep step over a blocked channel whose edge already exists
/// leaves the swept graph unchanged.
proof fn lemma_sweep_extend_present(
    g: EdgeMap,
    node: Map<u32, u32>,
    bs: Set<u32>,
    pre: Set<u32>,
    cp: u32,
    nc: u32,
    gcur: EdgeMap,
)
    requires
        gcur == spec_sweep_graph(g, node, bs.intersect(pre), nc),
        bs.contains(cp),
        g.contains_key(node[cp]),
        gcur[node[cp]].contains(nc),
    ensures
        gcur == spec_sweep_graph(g, node, bs.intersect(pre.insert(cp)), nc),
{
    let bs2 = bs.intersect(pre.insert(cp));
    let bs1 = bs.intersect(pre);
    let g2 = spec_sweep_graph(g, node, bs2, nc);
    assert forall|n: u32| #[trigger] gcur.contains_key(n) implies gcur[n] == g2[n] by {
        if n == node[cp] {
            assert(bs2.contains(cp));
            if exists|x: u32| #[trigger] bs1.contains(x) && node[x] == n {
                assert(gcur[n] == g[n].insert(nc));
                assert(g2[n] == g[n].insert(nc));
            } else {
                assert(gcur[n] == g[n]);
                assert(g[n].insert(nc) =~= g[n]);
            }
        } else {
            assert forall|x: u32| #[trigger] bs2.contains(x) && node[x] == n implies bs1.contains(
                x,
            ) && node[x] == n by {
                assert(x != cp);
            }
            if exists|x: u32| #[trigger] bs1.contains(x) && node[x] == n {
                assert(bs2.contains(choose|x: u32| #[trigger] bs1.contains(x) && node[x] == n));
            }
        }
    }
    assert(gcur =~~= g2);
}

/// An absent edge in a swept graph was absent in the base graph.
proof fn lemma_sweep_absent_base(
    g: EdgeMap,
    node: Map<u32, u32>,
    bsi: Set<u32>,
    cp: u32,
    nc: u32,
    g_pre: EdgeMap,
)
    requires
        g_pre == spec_sweep_graph(g, node, bsi, nc),
        g.contains_key(node[cp]),
        !g_pre[node[cp]].contains(nc),
    ensures
        !g[node[cp]].contains(nc),
{
    if exists|x: u32| #[trigger] bsi.contains(x) && node[x] == node[cp] {
        assert(g_pre[node[cp]] == g[node[cp]].insert(nc));
    }
}

/// Inserting the missing edge of a blocked channel extends the swept
/// graph by exactly that channel.
proof fn lemma_sweep_extend_insert(
    g: EdgeMap,
    node: Map<u32, u32>,
    bs: Set<u32>,
    pre: Set<u32>,
    cp: u32,
    nc: u32,
    g_pre: EdgeMap,
)
    requires
        g_pre == spec_sweep_graph(g, node, bs.intersect(pre), nc),
        bs.contains(cp),
        g.contains_key(node[cp]),
    ensures
        add_edge(g_pre, node[cp], nc) == spec_sweep_graph(
            g,
            node,
            bs.intersect(pre.insert(cp)),
            nc,
        ),
{
    let bs1 = bs.intersect(pre);
    let bs2 = bs.intersect(pre.insert(cp));
    let lhs = add_edge(g_pre, node[cp], nc);
    let rhs = spec_sweep_graph(g, node, bs2, nc);
    assert(lhs.dom() =~= rhs.dom());
    assert forall|n: u32| #[trigger] rhs.contains_key(n) implies lhs[n] == rhs[n] by {
        if n == node[cp] {
            assert(bs2.contains(cp));
            assert(rhs[n] == g[n].insert(nc));
            if exists|x: u32| #[trigger] bs1.contains(x) && node[x] == n {
                assert(g_pre[n] == g[n].insert(nc));
                assert(lhs[n] =~= g[n].insert(nc));
            } else {
                assert(g_pre[n] == g[n]);
                assert(lhs[n] == g[n].insert(nc));
            }
        } else {
            assert(lhs[n] == g_pre[n]);
            assert forall|x: u32| #[trigger] bs2.contains(x) && node[x] == n implies bs1.contains(
                x,
            ) && node[x] == n by {
                assert(x != cp);
            }
            if exists|x: u32| #[trigger] bs1.contains(x) && node[x] == n {
                assert(bs2.contains(choose|x: u32| #[trigger] bs1.contains(x) && node[x] == n));
            }
        }
    }
    assert(lhs =~~= rhs);
}

/// A cycle found while sweeping is a cycle of the full target graph:
/// the deadlock verdict does not depend on the sweep order.
proof fn lemma_sweep_err_cycle(
    g: EdgeMap,
    node: Map<u32, u32>,
    bs: Set<u32>,
    pre: Set<u32>,
    cp: u32,
    nc: u32,
    gcur: EdgeMap,
)
    requires
        gcur == spec_sweep_graph(g, node, bs.intersect(pre), nc),
        bs.contains(cp),
        g.contains_key(node[cp]),
        crate::wait::reaches(gcur, nc, node[cp]),
    ensures
        !acyclic(spec_sweep_graph(g, node, bs, nc)),
{
    let target = spec_sweep_graph(g, node, bs, nc);
    let bs1 = bs.intersect(pre);
    assert(crate::wait::edges_le(gcur, target)) by {
        assert forall|a: u32, b: u32| crate::wait::has_edge(gcur, a, b)
            implies crate::wait::has_edge(target, a, b) by {
            if exists|x: u32| #[trigger] bs1.contains(x) && node[x] == a {
                let x = choose|x: u32| #[trigger] bs1.contains(x) && node[x] == a;
                assert(bs.contains(x));
                assert(target[a] == g[a].insert(nc));
            } else {
                assert(gcur[a] == g[a]);
                if exists|x: u32| #[trigger] bs.contains(x) && node[x] == a {
                    assert(target[a] == g[a].insert(nc));
                    assert(g[a].subset_of(target[a]));
                } else {
                    assert(target[a] == g[a]);
                }
            }
        }
    }
    crate::wait::lemma_reaches_mono(gcur, target, nc, node[cp]);
    assert(crate::wait::has_edge(target, node[cp], nc)) by {
        assert(bs.contains(cp) && node[cp] == node[cp]);
        assert(target[node[cp]] == g[node[cp]].insert(nc));
    }
    let p = choose|p: Seq<u32>|
        crate::wait::is_path(target, p) && p.first() == nc && p.last() == node[cp];
    let q = p.push(nc);
    assert forall|i: int| 0 <= i < q.len() - 1 implies crate::wait::has_edge(
        target,
        #[trigger] q[i],
        q[i + 1],
    ) by {
        if i < p.len() - 1 {
            assert(crate::wait::has_edge(target, p[i], p[i + 1]));
        }
    }
    assert(crate::wait::is_path(target, q) && q.len() >= 2 && q.first() == q.last());
}

/// A successful wait preserves the network invariant.
proof fn lemma_wait_ok_wf(m: NetModel, m2: NetModel, t: u32, c: u32)
    requires
        net_wf(m),
        m.channels.contains_key(c),
        m.threads.contains_key(t),
        wait_model_wf(m2.wait),
        m2 == spec_wait_ok(m, t, c),
    ensures
        net_wf(m2),
{
    let w2 = spec_wait_entries(m, t, c);
    assert forall|x: u32, cc: u32|
        m2.threads.contains_key(x) && #[trigger] m2.threads[x].channels.contains(cc)
            implies m2.channels.contains_key(cc) && m2.channels[cc].contains(x) by {
        assert(m.threads[x].channels.contains(cc));
    }
    assert forall|cc: u32, x: u32|
        m2.channels.contains_key(cc) && #[trigger] m2.channels[cc].contains(x)
            implies m2.threads.contains_key(x) && m2.threads[x].channels.contains(cc) by {
        assert(m.channels[cc].contains(x));
        assert(m.threads[x].channels.contains(cc));
    }
    assert forall|cc: u32, x: u32|
        m2.wait.chan.contains_key(cc) && #[trigger] m2.wait.chan[cc].contains(x)
            implies m2.threads.contains_key(x) && m2.threads[x].state
        == ThreadState::WaitWithoutTimeout(cc) by {
        if x == t {
            assert(cc == c) by {
                if cc != c {
                    assert(m2.wait.chan[cc] == spec_remove_thread(m.wait, t).chan[cc]);
                }
            }
        } else {
            assert(m.wait.chan[cc].contains(x)) by {
                if cc == c {
                    assert(m2.wait.chan[c] == spec_remove_thread(m.wait, t).chan[c].insert(t));
                }
            }
        }
    }
    assert forall|cc: u32| #[trigger] m2.channels.contains_key(cc)
        implies m2.wait.chan.contains_key(cc) by {
        assert(m.wait.chan.contains_key(cc));
    }
    assert forall|cc: u32| #[trigger] m2.wait.chan.contains_key(cc)
        implies m2.channels.contains_key(cc) by {
        assert(m.wait.chan.contains_key(cc));
    }
}

/// A rejected wait preserves the network invariant.
proof fn lemma_wait_err_wf(m: NetModel, m2: NetModel, t: u32)
    requires
        net_wf(m),
        wait_model_wf(m2.wait),
        m2 == spec_wait_err(m, t),
    ensures
        net_wf(m2),
{
    assert forall|x: u32, cc: u32|
        m2.threads.contains_key(x) && #[trigger] m2.threads[x].channels.contains(cc)
            implies m2.channels.contains_key(cc) && m2.channels[cc].contains(x) by {
        assert(m.threads[x].channels.contains(cc));
    }
    assert forall|cc: u32, x: u32|
        m2.channels.contains_key(cc) && #[trigger] m2.channels[cc].contains(x)
            implies m2.threads.contains_key(x) && m2.threads[x].channels.contains(cc) by {
        assert(m.channels[cc].contains(x));
    }
    assert forall|cc: u32, x: u32|
        m2.wait.chan.contains_key(cc) && #[trigger] m2.wait.chan[cc].contains(x)
            implies m2.threads.contains_key(x) && m2.threads[x].state
        == ThreadState::WaitWithoutTimeout(cc) by {
        assert(x != t);
        assert(m.wait.chan[cc].contains(x));
    }
    assert forall|cc: u32| #[trigger] m2.channels.contains_key(cc)
        implies m2.wait.chan.contains_key(cc) by {
        assert(m.wait.chan.contains_key(cc));
    }
    assert forall|cc: u32| #[trigger] m2.wait.chan.contains_key(cc)
        implies m2.channels.contains_key(cc) by {
        assert(m.wait.chan.contains_key(cc));
    }
}

/// Registering a fresh channel preserves the network invariant.
proof fn lemma_new_channel_wf(m: NetModel, m2: NetModel, parts: Set<u32>, k: u32)
    requires
        net_wf(m),
        !m.channels.contains_key(k),
        forall|t: u32| #[trigger] parts.contains(t) ==> m.threads.contains_key(t),
        wait_model_wf(m2.wait),
        m2.threads == spec_add_chan_to(m.threads, parts, k),
        m2.channels == m.channels.insert(k, parts),
        m2.wait.chan == m.wait.chan.insert(k, Set::<u32>::empty()),
        m2.wait.thr == m.wait.thr,
        m2.processes == m.processes,
        m2.next_process_key == m.next_process_key,
        m2.next_channel_key == k + 1,
        k >= m.next_channel_key,
    ensures
        net_wf(m2),
{
    assert forall|t: u32, c: u32|
        m2.threads.contains_key(t) && #[trigger] m2.threads[t].channels.contains(c)
            implies m2.channels.contains_key(c) && m2.channels[c].contains(t) by {
        if parts.contains(t) && c == k {
        } else {
            assert(m.threads[t].channels.contains(c));
            assert(c != k);
        }
    }
    assert forall|c: u32, t: u32|
        m2.channels.contains_key(c) && #[trigger] m2.channels[c].contains(t)
            implies m2.threads.contains_key(t) && m2.threads[t].channels.contains(c) by {
        if c == k {
            assert(parts.contains(t));
        } else {
            assert(m.channels[c].contains(t));
            assert(m.threads[t].channels.contains(c));
        }
    }
    assert forall|c: u32, t: u32|
        m2.wait.chan.contains_key(c) && #[trigger] m2.wait.chan[c].contains(t)
            implies m2.threads.contains_key(t) && m2.threads[t].state
        == ThreadState::WaitWithoutTimeout(c) by {
        assert(c != k);
        assert(m.wait.chan[c].contains(t));
        assert(m.threads.contains_key(t));
        assert(m2.threads[t].state == m.threads[t].state);
    }
    assert forall|c: u32| #[trigger] m2.channels.contains_key(c)
        implies m2.wait.chan.contains_key(c) by {
        if c != k {
            assert(m.wait.chan.contains_key(c));
        }
    }
    assert forall|c: u32| #[trigger] m2.wait.chan.contains_key(c)
        implies m2.channels.contains_key(c) by {
        if c != k {
            assert(m.channels.contains_key(c));
        }
    }
    assert forall|c: u32| #[trigger] m2.channels.contains_key(c)
        implies c < m2.next_channel_key by {
        if c != k {
            assert(c < m.next_channel_key);
        }
    }
}

/// A state change with dependency cleanup preserves the network
/// invariant.
proof fn lemma_state_change_wf(m: NetModel, m2: NetModel, t: u32, s: ThreadState)
    requires
        net_wf(m),
        m.threads.contains_key(t),
        wait_model_wf(m2.wait),
        m2 == spec_state_change(m, t, s),
    ensures
        net_wf(m2),
{
    assert forall|x: u32, c: u32|
        m2.threads.contains_key(x) && #[trigger] m2.threads[x].channels.contains(c)
            implies m2.channels.contains_key(c) && m2.channels[c].contains(x) by {
        assert(m.threads[x].channels.contains(c));
    }
    assert forall|c: u32, x: u32|
        m2.channels.contains_key(c) && #[trigger] m2.channels[c].contains(x)
            implies m2.threads.contains_key(x) && m2.threads[x].channels.contains(c) by {
        assert(m.channels[c].contains(x));
    }
    assert forall|c: u32, x: u32|
        m2.wait.chan.contains_key(c) && #[trigger] m2.wait.chan[c].contains(x)
            implies m2.threads.contains_key(x) && m2.threads[x].state
        == ThreadState::WaitWithoutTimeout(c) by {
        if m.threads[t].state is WaitWithoutTimeout {
            assert(m2.wait.chan[c] == m.wait.chan[c].remove(t));
            assert(x != t);
            assert(m.wait.chan[c].contains(x));
        } else {
            assert(m.wait.chan[c].contains(x));
            assert(x != t) by {
                if x == t {
                    assert(m.threads[t].state is WaitWithoutTimeout);
                }
            }
        }
    }
    assert(channels_registered(m2)) by {
        assert forall|c: u32| #[trigger] m2.channels.contains_key(c)
            implies m2.wait.chan.contains_key(c) by {
            assert(m.wait.chan.contains_key(c));
        }
        assert forall|c: u32| #[trigger] m2.wait.chan.contains_key(c)
            implies m2.channels.contains_key(c) by {
            assert(m.wait.chan.contains_key(c));
        }
    }
}

} // verus!
