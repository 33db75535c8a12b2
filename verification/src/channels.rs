//! Channels between threads and the channel registry.

use crate::store::{Stored, VecMap, VecSet};
use vstd::prelude::*;

verus! {

/// Channel identifier.
pub type Key = u32;

/// The channel-related information: the set of participant threads.
pub struct Channel {
    participants: VecSet<u32>,
}

impl View for Channel {
    type V = Set<u32>;

    closed spec fn view(&self) -> Set<u32> {
        self.participants@
    }
}

impl Stored for Channel {
    open spec fn inv(&self) -> bool {
        self.wf()
    }
}

impl Channel {
    pub closed spec fn wf(&self) -> bool {
        self.participants.wf()
    }

    /// Create new channel with only given thread in it.
    pub fn new(creator: crate::threads::Key) -> (c: Channel)
        ensures
            c.wf(),
            c@ == Set::<u32>::empty().insert(creator),
    {
        let mut participants = VecSet::new();
        participants.insert(creator);
        Channel { participants }
    }

    /// Set of all participants.
    pub fn participants(&self) -> (r: &VecSet<u32>)
        ensures
            r@ == self@,
            self.wf() ==> r.wf(),
    {
        &self.participants
    }

    /// Try adding participant. If it is already present, false is returned.
    pub fn add_participant(&mut self, thread: crate::threads::Key) -> (r: bool)
        requires
            old(self).wf(),
        ensures
            final(self).wf(),
            r == !old(self)@.contains(thread),
            final(self)@ == old(self)@.insert(thread),
    {
        self.participants.insert(thread)
    }

    /// Remove participant from the channel. If it was present, true is
    /// returned.
    pub fn remove_participant(&mut self, thread: crate::threads::Key) -> (r: bool)
        requires
            old(self).wf(),
        ensures
            final(self).wf(),
            r == old(self)@.contains(thread),
            final(self)@ == old(self)@.remove(thread),
    {
        self.participants.remove(&thread)
    }
}

/// Set that contains all channels, keyed by channel identifier.
pub struct ChannelSet {
    map: VecMap<u32, Channel>,
}

impl View for ChannelSet {
    type V = Map<u32, Set<u32>>;

    closed spec fn view(&self) -> Map<u32, Set<u32>> {
        self.map@
    }
}

impl ChannelSet {
    pub closed spec fn wf(&self) -> bool {
        self.map.wf()
    }

    /// The stored keys, in insertion order.
    pub closed spec fn key_seq(&self) -> Seq<u32> {
        self.map.kseq()
    }

    pub proof fn lemma_props(&self)
        ensures
            self@.dom().finite(),
            self@.dom() == self.key_seq().to_set(),
            self.wf() ==> self@.dom().len() == self.key_seq().len(),
    {
        self.map.lemma_props();
    }

    /// Create new empty channel set.
    pub fn new() -> (s: Self)
        ensures
            s.wf(),
            s@ == Map::<u32, Set<u32>>::empty(),
    {
        ChannelSet { map: VecMap::new() }
    }

    /// Add new channel to the set. If it is already present, existing channel
    /// is not modified and true is returned. False otherwise.
    pub fn insert(&mut self, key: Key, channel: Channel) -> (r: bool)
        requires
            old(self).wf(),
            channel.wf(),
        ensures
            final(self).wf(),
            r == old(self)@.contains_key(key),
            final(self)@ == if r {
                old(self)@
            } else {
                old(self)@.insert(key, channel@)
            },
    {
        if self.map.contains_key(&key) {
            true
        } else {
            self.map.insert_new(key, channel);
            false
        }
    }

    /// Remove existing channel from the set. If it exists, true is returned
    /// and false otherwise.
    pub fn remove(&mut self, key: Key) -> (r: bool)
        requires
            old(self).wf(),
        ensures
            final(self).wf(),
            r == old(self)@.contains_key(key),
            final(self)@ == old(self)@.remove(key),
    {
        let removed = self.map.remove(&key);
        proof {
            if removed is None {
                assert(old(self)@.remove(key) =~= old(self)@);
            }
        }
        removed.is_some()
    }

    /// Channel in the set by the key.
    pub fn get(&self, key: &Key) -> (r: Option<&Channel>)
        requires
            self.wf(),
        ensures
            match r {
                Some(c) => self@.contains_key(*key) && c@ == self@[*key] && c.wf(),
                None => !self@.contains_key(*key),
            },
    {
        self.map.get(key)
    }

    /// Channel in the set by the key.
    pub fn get_mut(&mut self, key: &Key) -> (r: Option<&mut Channel>)
        requires
            old(self).wf(),
        ensures
            match r {
                Some(c) => {
                    &&& old(self)@.contains_key(*key)
                    &&& (*c)@ == old(self)@[*key]
                    &&& (*c).wf()
                    &&& final(self)@ == old(self)@.insert(*key, (*final(c))@)
                    &&& ((*final(c)).wf() ==> final(self).wf())
                    &&& final(self).key_seq() == old(self).key_seq()
                },
                None => !old(self)@.contains_key(*key) && *final(self) == *old(self),
            },
    {
        self.map.get_mut(key)
    }
}

} // verus!
