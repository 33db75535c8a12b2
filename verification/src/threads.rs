//! Thread metadata and the thread registry.

use crate::store::{Stored, VecMap, VecSet};
use vstd::prelude::*;

verus! {

/// Type used to identify unique threads.
pub type Key = u32;

/// Thread execution state.
#[derive(Clone, Copy, PartialEq, Eq, Structural)]
pub enum State {
    /// Thread is waiting for a signal on the channel, without a timeout.
    /// Only this state participates in deadlock detection.
    WaitWithoutTimeout(crate::channels::Key),
    /// Thread is waiting for a signal on the channel but self-releases on
    /// a timer; it never contributes wait-graph edges.
    WaitWithTimeout(crate::channels::Key),
    /// Thread actively runs.
    Active,
    /// Thread is waiting for processor time.
    Sleep,
}

/// Mathematical model of a thread: its state and the set of channels it
/// participates in.
pub ghost struct ThreadModel {
    pub state: State,
    pub channels: Set<u32>,
}

/// Thread-related metadata: the execution state and the channels where
/// the thread participates.
pub struct Thread {
    state: State,
    chans: VecSet<u32>,
}

impl View for Thread {
    type V = ThreadModel;

    closed spec fn view(&self) -> ThreadModel {
        ThreadModel { state: self.state, channels: self.chans@ }
    }
}

impl Stored for Thread {
    open spec fn inv(&self) -> bool {
        self.wf()
    }
}

impl Thread {
    pub closed spec fn wf(&self) -> bool {
        self.chans.wf()
    }

    /// Create new thread that waits for processor time.
    pub fn new() -> (t: Thread)
        ensures
            t.wf(),
            t@.state == State::Sleep,
            t@.channels == Set::<u32>::empty(),
    {
        Thread { state: State::Sleep, chans: VecSet::new() }
    }

    /// Current thread state.
    pub fn state(&self) -> (s: &State)
        ensures
            *s == self@.state,
    {
        &self.state
    }

    /// Set new thread state.
    pub fn set_state(&mut self, new_state: State)
        ensures
            final(self).wf() == old(self).wf(),
            final(self)@.state == new_state,
            final(self)@.channels == old(self)@.channels,
    {
        self.state = new_state;
    }

    /// Channels where this thread participates.
    pub fn channels(&self) -> (r: &VecSet<u32>)
        ensures
            r@ == self@.channels,
            self.wf() ==> r.wf(),
    {
        &self.chans
    }

    /// Channels where this thread participates.
    pub fn channels_mut(&mut self) -> (r: &mut VecSet<u32>)
        ensures
            (*r)@ == old(self)@.channels,
            old(self).wf() ==> (*r).wf(),
            final(self)@.state == old(self)@.state,
            final(self)@.channels == (*final(r))@,
            final(self).wf() == (*final(r)).wf(),
    {
        &mut self.chans
    }
}

/// Thread set. Allows to add, remove and search for threads.
///
/// Keys are allocated densely and monotonically, starting at 1; a key is
/// never reused within one registry.
pub struct ThreadSet {
    map: VecMap<u32, Thread>,
    last_key: u32,
}

impl View for ThreadSet {
    type V = Map<u32, ThreadModel>;

    closed spec fn view(&self) -> Map<u32, ThreadModel> {
        self.map@
    }
}

impl ThreadSet {
    /// The most recently allocated key; new keys are allocated above it.
    pub closed spec fn spec_last_key(&self) -> u32 {
        self.last_key
    }

    /// The stored keys, in insertion order.
    pub closed spec fn key_seq(&self) -> Seq<u32> {
        self.map.kseq()
    }

    pub closed spec fn wf(&self) -> bool {
        &&& self.map.wf()
        &&& forall|i: int|
            0 <= i < self.map.kseq().len() ==> #[trigger] self.map.kseq()[i] <= self.last_key
    }

    pub proof fn lemma_props(&self)
        ensures
            self@.dom().finite(),
            self@.dom() == self.key_seq().to_set(),
            self.wf() ==> self@.dom().len() == self.key_seq().len(),
            forall|i: int|
                0 <= i < self.key_seq().len() ==> #[trigger] self@.contains_key(self.key_seq()[i]),
    {
        self.map.lemma_props();
    }

    /// Create new empty set.
    pub fn new() -> (s: Self)
        ensures
            s.wf(),
            s@ == Map::<u32, ThreadModel>::empty(),
            s.spec_last_key() == 0,
    {
        ThreadSet { map: VecMap::new(), last_key: 0 }
    }

    /// Generate new unique key for storing new thread.
    pub fn generate_new_key(&mut self) -> (k: Key)
        requires
            old(self).wf(),
            old(self).spec_last_key() < u32::MAX,
        ensures
            final(self).wf(),
            final(self)@ == old(self)@,
            final(self).key_seq() == old(self).key_seq(),
            final(self).spec_last_key() == k,
            k == old(self).spec_last_key() + 1,
            !final(self)@.contains_key(k),
    {
        let new_key = self.last_key + 1;
        self.last_key = new_key;
        proof {
            self.map.lemma_props();
            assert(!self.map.kseq().contains(new_key));
        }
        new_key
    }

    /// Add new thread to the set and return it's key.
    pub fn add(&mut self, thread: Thread) -> (k: Key)
        requires
            old(self).wf(),
            thread.wf(),
            old(self).spec_last_key() < u32::MAX,
        ensures
            final(self).wf(),
            k == old(self).spec_last_key() + 1,
            k == final(self).spec_last_key(),
            !old(self)@.contains_key(k),
            final(self)@ == old(self)@.insert(k, thread@),
            final(self).key_seq() == old(self).key_seq().push(k),
    {
        let new_key = self.generate_new_key();
        self.map.insert_new(new_key, thread);
        new_key
    }

    /// Remove thread from the set. Returns removed thread on success and
    /// none if thread was not found.
    pub fn remove(&mut self, key: &Key) -> (r: Option<Thread>)
        requires
            old(self).wf(),
        ensures
            final(self).wf(),
            match r {
                Some(t) => {
                    &&& old(self)@.contains_key(*key)
                    &&& t@ == old(self)@[*key]
                    &&& t.wf()
                    &&& final(self)@ == old(self)@.remove(*key)
                },
                None => !old(self)@.contains_key(*key) && *final(self) == *old(self),
            },
            final(self).spec_last_key() == old(self).spec_last_key(),
    {
        let r = self.map.remove(key);
        proof {
            assert forall|i: int|
                0 <= i < self.map.kseq().len() implies #[trigger] self.map.kseq()[i]
                <= self.last_key by {
                let s = old(self).map.kseq();
                assert(s.contains(self.map.kseq()[i]));
                let j = choose|j: int| 0 <= j < s.len() && s[j] == self.map.kseq()[i];
                assert(s[j] <= self.last_key);
            }
        }
        r
    }

    /// Get thread by it's key.
    pub fn get(&self, key: &Key) -> (r: Option<&Thread>)
        requires
            self.wf(),
        ensures
            match r {
                Some(t) => self@.contains_key(*key) && t@ == self@[*key] && t.wf(),
                None => !self@.contains_key(*key),
            },
    {
        self.map.get(key)
    }

    /// Get thread by it's key.
    pub fn get_mut(&mut self, key: &Key) -> (r: Option<&mut Thread>)
        requires
            old(self).wf(),
        ensures
            match r {
                Some(t) => {
                    &&& old(self)@.contains_key(*key)
                    &&& (*t)@ == old(self)@[*key]
                    &&& (*t).wf()
                    &&& final(self)@ == old(self)@.insert(*key, (*final(t))@)
                    &&& ((*final(t)).wf() ==> final(self).wf())
                    &&& final(self).key_seq() == old(self).key_seq()
                    &&& final(self).spec_last_key() == old(self).spec_last_key()
                },
                None => !old(self)@.contains_key(*key) && *final(self) == *old(self),
            },
    {
        self.map.get_mut(key)
    }

    /// The keys of all stored threads, in insertion order.
    pub fn iter(&self) -> (r: Vec<Key>)
        ensures
            r@ == self.key_seq(),
    {
        let r = self.map.keys();
        proof {
            assert forall|i: int| 0 <= i < r@.len() implies r@[i] == self.map.kseq()[i] by {
                assert(crate::store::views_of(r@)[i] == self.map.kseq()[i]);
            }
            assert(r@ =~= self.map.kseq());
        }
        r
    }

    /// Access the internal map of the structure.
    pub fn map(&self) -> (r: &VecMap<u32, Thread>)
        ensures
            r@ == self@,
            r.kseq() == self.key_seq(),
            self.wf() ==> r.wf(),
    {
        &self.map
    }
}

} // verus!
