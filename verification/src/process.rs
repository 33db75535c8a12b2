//! Process data and operations on processes, among them the check that
//! a process implements the prerequisites of its interfaces.

use crate::interfaces::{InterfaceModel, InterfaceSet, Key as InterfaceKey, KeyModel};
use crate::path::RcPath;
use crate::store::{StoreKey, Stored, VecMap, VecSet};
use vstd::prelude::*;

verus! {

broadcast use vstd::seq_lib::group_seq_properties;

/// Key value to identify unique processes.
pub type Key = u32;

/// Mathematical model of a process: its package path, its thread set
/// and the set of interfaces it implements.
pub ghost struct ProcessModel {
    pub path: Seq<Seq<char>>,
    pub threads: Set<u32>,
    pub implements: Set<KeyModel>,
}

/// System process that can implement some interfaces and contains
/// threads that perform tasks.
pub struct Process {
    path: RcPath,
    threads: VecSet<u32>,
    implements: VecSet<InterfaceKey>,
}

impl View for Process {
    type V = ProcessModel;

    closed spec fn view(&self) -> ProcessModel {
        ProcessModel {
            path: self.path@,
            threads: self.threads@,
            implements: self.implements@,
        }
    }
}

impl Stored for Process {
    open spec fn inv(&self) -> bool {
        self.wf()
    }
}

/// The union of the prerequisites of every interface a process
/// implements, as far as the interface registry knows the interface.
pub open spec fn prereq_union(impls: Set<KeyModel>, ifs: Map<KeyModel, InterfaceModel>) -> Set<
    KeyModel,
> {
    Set::new(
        |p: KeyModel|
            exists|k: KeyModel|
                #![trigger ifs[k].prerequisites.contains(p)]
                impls.contains(k) && ifs.contains_key(k) && ifs[k].prerequisites.contains(p),
    )
}

/// The same union restricted to the first `n` implemented keys, in
/// storage order.
pub open spec fn prereq_union_upto(
    keys: Seq<KeyModel>,
    ifs: Map<KeyModel, InterfaceModel>,
    n: int,
) -> Set<KeyModel> {
    Set::new(
        |p: KeyModel|
            exists|j: int|
                #![trigger ifs[keys[j]].prerequisites.contains(p)]
                0 <= j < n && ifs.contains_key(keys[j]) && ifs[keys[j]].prerequisites.contains(
                    p,
                ),
    )
}

/// Conflicts that were found in an interface implementer: the
/// interfaces that are required but are not implemented.
pub struct ImplementationConflicts {
    missing: VecSet<InterfaceKey>,
}

impl View for ImplementationConflicts {
    type V = Set<KeyModel>;

    closed spec fn view(&self) -> Set<KeyModel> {
        self.missing@
    }
}

impl ImplementationConflicts {
    pub closed spec fn wf(&self) -> bool {
        self.missing.wf()
    }

    /// Interfaces that are required but are not implemented.
    ///
    /// This conflict appears when some interface requires another
    /// interface to be implemented in the first place: a process
    /// cannot implement an interface without implementing its
    /// prerequisites as well.
    pub fn missing(&self) -> (r: &VecSet<InterfaceKey>)
        ensures
            r@ == self@,
            self.wf() ==> r.wf(),
    {
        &self.missing
    }
}

impl Process {
    pub closed spec fn wf(&self) -> bool {
        &&& self.path.wf()
        &&& self.threads.wf()
        &&& self.implements.wf()
    }

    /// Create new empty process.
    pub fn new(path: RcPath) -> (p: Self)
        requires
            path.wf(),
        ensures
            p.wf(),
            p@.path == path@,
            p@.threads == Set::<u32>::empty(),
            p@.implements == Set::<KeyModel>::empty(),
    {
        Process { path, threads: VecSet::new(), implements: VecSet::new() }
    }

    /// Threads of this process.
    pub fn threads(&self) -> (r: &VecSet<crate::threads::Key>)
        ensures
            r@ == self@.threads,
            self.wf() ==> r.wf(),
    {
        &self.threads
    }

    /// Interfaces that are implemented by the process.
    pub fn implementations(&self) -> (r: &VecSet<InterfaceKey>)
        ensures
            r@ == self@.implements,
            self.wf() ==> r.wf(),
    {
        &self.implements
    }

    /// Attach given thread to this process. Returns true if it was not
    /// yet attached.
    pub fn attach_thread(&mut self, key: crate::threads::Key) -> (r: bool)
        requires
            old(self).wf(),
        ensures
            final(self).wf(),
            r == !old(self)@.threads.contains(key),
            final(self)@.threads == old(self)@.threads.insert(key),
            final(self)@.path == old(self)@.path,
            final(self)@.implements == old(self)@.implements,
    {
        self.threads.insert(key)
    }

    /// Add new interface that is implemented by this process.
    /// Returns true if it was not yet recorded.
    pub fn add_implementation(&mut self, key: InterfaceKey) -> (r: bool)
        requires
            old(self).wf(),
        ensures
            final(self).wf(),
            r == !old(self)@.implements.contains(key@),
            final(self)@.implements == old(self)@.implements.insert(key@),
            final(self)@.path == old(self)@.path,
            final(self)@.threads == old(self)@.threads,
    {
        self.implements.insert(key)
    }

    /// Path where this process is located.
    pub fn path(&self) -> (r: &RcPath)
        ensures
            r@ == self@.path,
            self.wf() ==> r.wf(),
    {
        &self.path
    }

    /// Check whether the requirements for an interface implementer are
    /// met: collect the union of the prerequisites over every
    /// interface the process implements, and report every collected
    /// key the process does not itself implement.
    ///
    /// The interface set is used to retrieve information about the
    /// interfaces, so every implemented key must be known to it.
    pub fn verify_implementations(&self, interface_set: &InterfaceSet) -> (r: Result<
        (),
        ImplementationConflicts,
    >)
        requires
            self.wf(),
            interface_set.wf(),
            forall|k: KeyModel|
                #[trigger] self@.implements.contains(k) ==> interface_set@.contains_key(k),
        ensures
            match r {
                Ok(_) => prereq_union(self@.implements, interface_set@).difference(
                    self@.implements,
                ) == Set::<KeyModel>::empty(),
                Err(c) => {
                    &&& c.wf()
                    &&& c@ == prereq_union(self@.implements, interface_set@).difference(
                        self@.implements,
                    )
                    &&& c@ != Set::<KeyModel>::empty()
                },
            },
    {
        let ghost ifs = interface_set@;
        let ghost impls = self@.implements;
        let ghost kseq = self.implements.vseq();
        let mut missing: VecSet<InterfaceKey> = VecSet::new();
        let n = self.implements.len();
        proof {
            assert(missing@ =~= prereq_union_upto(kseq, ifs, 0).difference(impls));
        }
        let mut i: usize = 0;
        while i < n
            invariant
                self.wf(),
                interface_set.wf(),
                forall|k: KeyModel|
                    #[trigger] self@.implements.contains(k) ==> interface_set@.contains_key(k),
                ifs == interface_set@,
                impls == self@.implements,
                kseq == self.implements.vseq(),
                n == kseq.len(),
                i <= n,
                missing.wf(),
                missing@ == prereq_union_upto(kseq, ifs, i as int).difference(impls),
            decreases n - i,
        {
            let key = self.implements.at(i);
            proof {
                self.implements.lemma_vseq();
                assert(impls.contains(key@));
            }
            let interface = match interface_set.interface(key) {
                Some(x) => x,
                None => {
                    proof {
                        assert(false);
                    }
                    vstd::pervasive::unreached()
                },
            };
            let prereqs = interface.prerequisites();
            let ghost pseq = prereqs.vseq();
            let m = prereqs.len();
            proof {
                assert((prereq_union_upto(kseq, ifs, i as int) + pseq.take(0).to_set())
                    .difference(impls) =~= missing@);
            }
            let mut j: usize = 0;
            while j < m
                invariant
                    self.wf(),
                    ifs == interface_set@,
                    impls == self@.implements,
                    kseq == self.implements.vseq(),
                    i < kseq.len(),
                    impls.contains(kseq[i as int]),
                    ifs.contains_key(kseq[i as int]),
                    prereqs.wf(),
                    pseq == prereqs.vseq(),
                    prereqs@ == ifs[kseq[i as int]].prerequisites,
                    m == pseq.len(),
                    j <= m,
                    missing.wf(),
                    missing@ == (prereq_union_upto(kseq, ifs, i as int) + pseq.take(
                        j as int,
                    ).to_set()).difference(impls),
                decreases m - j,
            {
                let p = prereqs.at(j);
                let ghost pre_missing = missing@;
                if !self.implements.contains(p) {
                    missing.insert(p.key_dup());
                }
                proof {
                    assert(pseq.take(j as int + 1) =~= pseq.take(j as int).push(pseq[j as int]));
                    assert(pseq.take(j as int + 1).to_set() =~= pseq.take(
                        j as int,
                    ).to_set().insert(p@));
                    assert(missing@ =~= (prereq_union_upto(kseq, ifs, i as int) + pseq.take(
                        j as int + 1,
                    ).to_set()).difference(impls));
                }
                j = j + 1;
            }
            proof {
                assert(pseq.take(m as int) =~= pseq);
                prereqs.lemma_card();
                assert(pseq.to_set() == ifs[kseq[i as int]].prerequisites);
                assert forall|p: KeyModel|
                    prereq_union_upto(kseq, ifs, i as int + 1).contains(p)
                        implies #[trigger] (prereq_union_upto(kseq, ifs, i as int)
                        + pseq.to_set()).contains(p) by {
                    let jj = choose|jj: int|
                        0 <= jj < i as int + 1 && ifs.contains_key(kseq[jj]) && #[trigger] ifs.index(
                            kseq[jj],
                        ).prerequisites.contains(p);
                    if jj < i as int {
                        assert(prereq_union_upto(kseq, ifs, i as int).contains(p));
                    }
                }
                assert forall|p: KeyModel|
                    #[trigger] (prereq_union_upto(kseq, ifs, i as int) + pseq.to_set()).contains(
                        p,
                    ) implies prereq_union_upto(kseq, ifs, i as int + 1).contains(p) by {
                    if prereq_union_upto(kseq, ifs, i as int).contains(p) {
                        let jj = choose|jj: int|
                            0 <= jj < i as int && ifs.contains_key(kseq[jj]) && #[trigger] ifs.index(
                                kseq[jj],
                            ).prerequisites.contains(p);
                        assert(ifs[kseq[jj]].prerequisites.contains(p));
                    } else {
                        assert(ifs[kseq[i as int]].prerequisites.contains(p));
                    }
                }
                assert(prereq_union_upto(kseq, ifs, i as int + 1) =~= prereq_union_upto(
                    kseq,
                    ifs,
                    i as int,
                ) + pseq.to_set());
                assert(missing@ =~= prereq_union_upto(kseq, ifs, i as int + 1).difference(
                    impls,
                ));
            }
            i = i + 1;
        }
        proof {
            self.implements.lemma_card();
            assert forall|p: KeyModel| prereq_union_upto(kseq, ifs, n as int).contains(p)
                implies #[trigger] prereq_union(impls, ifs).contains(p) by {
                let jj = choose|jj: int|
                    0 <= jj < n as int && ifs.contains_key(kseq[jj]) && #[trigger] ifs.index(
                        kseq[jj],
                    ).prerequisites.contains(p);
                assert(kseq.contains(kseq[jj]));
                assert(impls.contains(kseq[jj]));
                assert(ifs[kseq[jj]].prerequisites.contains(p));
            }
            assert forall|p: KeyModel| #[trigger] prereq_union(impls, ifs).contains(p)
                implies prereq_union_upto(kseq, ifs, n as int).contains(p) by {
                let k = choose|k: KeyModel|
                    impls.contains(k) && ifs.contains_key(k) && #[trigger] ifs.index(
                        k,
                    ).prerequisites.contains(p);
                self.implements.lemma_vseq();
                assert(kseq.contains(k));
                let jj = choose|jj: int| 0 <= jj < kseq.len() && kseq[jj] == k;
                assert(ifs[kseq[jj]].prerequisites.contains(p));
            }
            assert(prereq_union_upto(kseq, ifs, n as int) =~= prereq_union(impls, ifs));
        }
        if missing.is_empty() {
            proof {
                assert(prereq_union(impls, ifs).difference(impls) =~= Set::<KeyModel>::empty());
            }
            Ok(())
        } else {
            proof {
                assert(missing@ != Set::<KeyModel>::empty()) by {
                    missing.lemma_vseq();
                    assert(missing@.contains(missing.vseq()[0]));
                }
            }
            Err(ImplementationConflicts { missing })
        }
    }
}

/// Set that contains processes, keyed by process identifier.
pub struct ProcessSet {
    procs: VecMap<u32, Process>,
}

impl View for ProcessSet {
    type V = Map<u32, ProcessModel>;

    closed spec fn view(&self) -> Map<u32, ProcessModel> {
        self.procs@
    }
}

impl ProcessSet {
    pub closed spec fn wf(&self) -> bool {
        self.procs.wf()
    }

    /// Create new empty set of processes.
    pub fn new() -> (s: Self)
        ensures
            s.wf(),
            s@ == Map::<u32, ProcessModel>::empty(),
    {
        ProcessSet { procs: VecMap::new() }
    }

    /// Get a process from the set if it is stored there.
    pub fn get(&self, key: &Key) -> (r: Option<&Process>)
        requires
            self.wf(),
        ensures
            match r {
                Some(p) => self@.contains_key(*key) && p@ == self@[*key] && p.wf(),
                None => !self@.contains_key(*key),
            },
    {
        self.procs.get(key)
    }

    /// Get a process from the set if it is stored there.
    pub fn get_mut(&mut self, key: &Key) -> (r: Option<&mut Process>)
        requires
            old(self).wf(),
        ensures
            match r {
                Some(p) => {
                    &&& old(self)@.contains_key(*key)
                    &&& (*p)@ == old(self)@[*key]
                    &&& (*p).wf()
                    &&& final(self)@ == old(self)@.insert(*key, (*final(p))@)
                    &&& ((*final(p)).wf() ==> final(self).wf())
                },
                None => !old(self)@.contains_key(*key) && *final(self) == *old(self),
            },
    {
        self.procs.get_mut(key)
    }

    /// The map of all processes.
    pub fn processes(&self) -> (r: &VecMap<u32, Process>)
        ensures
            r@ == self@,
            self.wf() ==> r.wf(),
    {
        &self.procs
    }

    /// Add a process under a key. If the key is taken, the set is left
    /// unchanged and true is returned; false otherwise.
    pub fn insert(&mut self, key: Key, process: Process) -> (r: bool)
        requires
            old(self).wf(),
            process.wf(),
        ensures
            final(self).wf(),
            r == old(self)@.contains_key(key),
            final(self)@ == if r {
                old(self)@
            } else {
                old(self)@.insert(key, process@)
            },
    {
        if self.procs.contains_key(&key) {
            return true;
        }
        self.procs.insert_new(key, process);
        false
    }

    /// Remove a process by its key; true if it was present.
    pub fn remove(&mut self, key: &Key) -> (r: bool)
        requires
            old(self).wf(),
        ensures
            final(self).wf(),
            r == old(self)@.contains_key(*key),
            final(self)@ == old(self)@.remove(*key),
    {
        let removed = self.procs.remove(key);
        proof {
            if removed is None {
                assert(old(self)@.remove(*key) =~= old(self)@);
            }
        }
        removed.is_some()
    }
}

} // verus!
