//! Small vector-backed containers with set and map views.
//!
//! Every registry in this crate stores its entries in one of these two
//! containers: `VecSet`, a duplicate-free vector viewed as a `Set`, and
//! `VecMap`, an association vector with distinct keys viewed as a `Map`.

use vstd::prelude::*;
use vstd::seq_lib::group_seq_properties;

verus! {

/// A type usable as a container key: its executable equality decides
/// equality of views, and it can be duplicated preserving the view.
pub trait StoreKey: View + Sized {
    fn key_eq(&self, other: &Self) -> (r: bool)
        ensures
            r == (self@ == other@),
    ;

    fn key_dup(&self) -> (r: Self)
        ensures
            r@ == self@,
    ;
}

/// A type usable as a container value: it carries a representation
/// invariant that the container preserves for every stored value.
pub trait Stored: View {
    spec fn inv(&self) -> bool;
}

impl StoreKey for u32 {
    fn key_eq(&self, other: &Self) -> (r: bool) {
        *self == *other
    }

    fn key_dup(&self) -> (r: Self) {
        *self
    }
}

impl Stored for u32 {
    open spec fn inv(&self) -> bool {
        true
    }
}

/// The sequence of views of a sequence of values.
pub open spec fn views_of<T: View>(s: Seq<T>) -> Seq<T::V> {
    Seq::new(s.len(), |i: int| s[i]@)
}

/// The sequence of key views of an association sequence.
pub open spec fn keys_of<K: View, V>(s: Seq<(K, V)>) -> Seq<K::V> {
    Seq::new(s.len(), |i: int| s[i].0@)
}

/// The map described by an association sequence; later entries win.
pub open spec fn map_of<K: View, V: View>(s: Seq<(K, V)>) -> Map<K::V, V::V>
    decreases s.len(),
{
    if s.len() == 0 {
        Map::empty()
    } else {
        map_of(s.drop_last()).insert(s.last().0@, s.last().1@)
    }
}

/// Removing an index from a duplicate-free sequence removes exactly that
/// element from the set of elements.
proof fn lemma_remove_idx<A>(s: Seq<A>, i: int)
    requires
        s.no_duplicates(),
        0 <= i < s.len(),
    ensures
        s.remove(i).no_duplicates(),
        s.remove(i).to_set() == s.to_set().remove(s[i]),
{
    broadcast use group_seq_properties;

    let r = s.remove(i);
    s.remove_ensures(i);
    assert forall|x: A| r.to_set().contains(x) implies s.to_set().remove(s[i]).contains(x) by {
        let j = choose|j: int| 0 <= j < r.len() && r[j] == x;
        let orig: int = if j < i {
            j
        } else {
            j + 1
        };
        assert(s[orig] == x);
        assert(orig != i);
        assert(x != s[i]);
    }
    assert forall|x: A| s.to_set().remove(s[i]).contains(x) implies r.to_set().contains(x) by {
        let j = choose|j: int| 0 <= j < s.len() && s[j] == x;
        assert(j != i);
        if j < i {
            assert(r[j] == x);
        } else {
            assert(r[j - 1] == x);
        }
    }
    assert(r.to_set() =~= s.to_set().remove(s[i]));
}

/// A set of keys stored as a duplicate-free vector.
#[derive(Clone)]
pub struct VecSet<K> {
    items: Vec<K>,
}

impl<K: StoreKey> View for VecSet<K> {
    type V = Set<K::V>;

    closed spec fn view(&self) -> Set<K::V> {
        self.vseq().to_set()
    }
}

impl<K: StoreKey> Stored for VecSet<K> {
    open spec fn inv(&self) -> bool {
        self.wf()
    }
}

impl<K: StoreKey> VecSet<K> {
    /// The views of the stored keys, in storage order.
    pub closed spec fn vseq(&self) -> Seq<K::V> {
        views_of(self.items@)
    }

    pub closed spec fn wf(&self) -> bool {
        self.vseq().no_duplicates()
    }

    pub proof fn lemma_card(&self)
        requires
            self.wf(),
        ensures
            self@.finite(),
            self@.len() == self.vseq().len(),
            self@ == self.vseq().to_set(),
            self.vseq().no_duplicates(),
    {
        broadcast use group_seq_properties;

        self.vseq().unique_seq_to_set();
    }

    /// Every stored key view is in the viewed set.
    pub proof fn lemma_vseq(&self)
        ensures
            forall|i: int|
                0 <= i < self.vseq().len() ==> #[trigger] self@.contains(self.vseq()[i]),
            forall|x: K::V| self@.contains(x) ==> self.vseq().contains(x),
    {
        assert forall|i: int|
            0 <= i < self.vseq().len() implies #[trigger] self@.contains(self.vseq()[i]) by {
            assert(self.vseq().contains(self.vseq()[i]));
        }
    }

    pub fn new() -> (s: Self)
        ensures
            s.wf(),
            s@ == Set::<K::V>::empty(),
            s.vseq() == Seq::<K::V>::empty(),
    {
        let s = VecSet { items: Vec::new() };
        proof {
            assert(s.vseq() =~= Seq::<K::V>::empty());
            assert(s.vseq().to_set() =~= Set::<K::V>::empty());
        }
        s
    }

    pub fn len(&self) -> (n: usize)
        ensures
            n == self.vseq().len(),
    {
        self.items.len()
    }

    pub fn is_empty(&self) -> (r: bool)
        ensures
            r == (self.vseq().len() == 0),
            r == (self@ =~= Set::<K::V>::empty()),
    {
        proof {
            self.lemma_vseq();
            if self.vseq().len() > 0 {
                assert(self@.contains(self.vseq()[0]));
            }
            assert(self.vseq().len() == 0 ==> self@ =~= Set::<K::V>::empty());
        }
        self.items.len() == 0
    }

    pub fn at(&self, i: usize) -> (k: &K)
        requires
            i < self.vseq().len(),
        ensures
            k@ == self.vseq()[i as int],
            self@.contains(k@),
    {
        proof {
            self.lemma_vseq();
            assert(self@.contains(self.vseq()[i as int]));
        }
        &self.items[i]
    }

    fn index_of(&self, k: &K) -> (r: Option<usize>)
        ensures
            match r {
                Some(i) => i < self.vseq().len() && self.vseq()[i as int] == k@,
                None => !self@.contains(k@),
            },
    {
        let n = self.items.len();
        let mut i: usize = 0;
        while i < n
            invariant
                n == self.vseq().len(),
                i <= n,
                forall|j: int| 0 <= j < i ==> self.vseq()[j] != k@,
            decreases n - i,
        {
            if self.items[i].key_eq(k) {
                return Some(i);
            }
            i = i + 1;
        }
        proof {
            assert(!self.vseq().contains(k@));
        }
        None
    }

    pub fn contains(&self, k: &K) -> (r: bool)
        ensures
            r == self@.contains(k@),
    {
        match self.index_of(k) {
            Some(i) => {
                proof {
                    assert(self.vseq().contains(k@));
                }
                true
            },
            None => false,
        }
    }

    /// Inserts a key; reports `true` when it was not yet present.
    pub fn insert(&mut self, k: K) -> (r: bool)
        requires
            old(self).wf(),
        ensures
            final(self).wf(),
            r == !old(self)@.contains(k@),
            final(self)@ == old(self)@.insert(k@),
            final(self).vseq() == if old(self)@.contains(k@) {
                old(self).vseq()
            } else {
                old(self).vseq().push(k@)
            },
    {
        if self.contains(&k) {
            proof {
                assert(old(self)@.insert(k@) =~= old(self)@);
            }
            false
        } else {
            self.items.push(k);
            proof {
                broadcast use group_seq_properties;

                assert(self.vseq() =~= old(self).vseq().push(k@));
                assert(!old(self).vseq().contains(k@));
                assert(self.vseq().to_set() =~= old(self).vseq().to_set().insert(k@));
            }
            true
        }
    }

    /// Removes a key; reports `true` when it was present.
    pub fn remove(&mut self, k: &K) -> (r: bool)
        requires
            old(self).wf(),
        ensures
            final(self).wf(),
            r == old(self)@.contains(k@),
            final(self)@ == old(self)@.remove(k@),
    {
        match self.index_of(k) {
            Some(i) => {
                proof {
                    assert(old(self).vseq().contains(k@));
                    lemma_remove_idx(old(self).vseq(), i as int);
                }
                self.items.remove(i);
                proof {
                    assert(self.vseq() =~= old(self).vseq().remove(i as int));
                }
                true
            },
            None => {
                proof {
                    assert(old(self)@.remove(k@) =~= old(self)@);
                }
                false
            },
        }
    }

    /// A copy of the set, equal in view.
    pub fn dup(&self) -> (r: Self)
        requires
            self.wf(),
        ensures
            r.wf(),
            r@ == self@,
            r.vseq() == self.vseq(),
    {
        let n = self.items.len();
        let mut items: Vec<K> = Vec::new();
        let mut i: usize = 0;
        while i < n
            invariant
                n == self.items@.len(),
                i <= n,
                items@.len() == i,
                forall|j: int| 0 <= j < i ==> #[trigger] items@[j]@ == self.vseq()[j],
            decreases n - i,
        {
            items.push(self.items[i].key_dup());
            i = i + 1;
        }
        let r = VecSet { items };
        proof {
            assert forall|j: int| 0 <= j < n implies #[trigger] r.vseq()[j] == self.vseq()[j] by {
                assert(r.items@[j]@ == self.vseq()[j]);
            }
            assert(r.vseq() =~= self.vseq());
        }
        r
    }
}

/// A map of keys to values stored as an association vector with
/// pairwise distinct keys.
pub struct VecMap<K, V> {
    pairs: Vec<(K, V)>,
}

impl<K: StoreKey, V: Stored> View for VecMap<K, V> {
    type V = Map<K::V, V::V>;

    closed spec fn view(&self) -> Map<K::V, V::V> {
        map_of(self.pairs@)
    }
}

proof fn lemma_map_of_contains<K: View, V: View>(s: Seq<(K, V)>, k: K::V)
    ensures
        map_of(s).contains_key(k) <==> keys_of(s).contains(k),
    decreases s.len(),
{
    if s.len() > 0 {
        lemma_map_of_contains(s.drop_last(), k);
        assert(keys_of(s.drop_last()) =~= keys_of(s).drop_last());
        if k == s.last().0@ {
            assert(keys_of(s)[s.len() - 1] == k);
        } else {
            assert(keys_of(s).drop_last().contains(k) <==> keys_of(s).contains(k)) by {
                if keys_of(s).contains(k) {
                    let j = choose|j: int| 0 <= j < keys_of(s).len() && keys_of(s)[j] == k;
                    assert(j != s.len() - 1);
                    assert(keys_of(s).drop_last()[j] == k);
                }
            }
        }
    }
}

proof fn lemma_map_of_index<K: View, V: View>(s: Seq<(K, V)>, i: int)
    requires
        keys_of(s).no_duplicates(),
        0 <= i < s.len(),
    ensures
        map_of(s).contains_key(s[i].0@),
        map_of(s)[s[i].0@] == s[i].1@,
    decreases s.len(),
{
    if i == s.len() - 1 {
    } else {
        assert(keys_of(s.drop_last()) =~= keys_of(s).drop_last());
        lemma_map_of_index(s.drop_last(), i);
        assert(keys_of(s)[i] != keys_of(s)[s.len() - 1]);
    }
}

proof fn lemma_map_of_finite<K: View, V: View>(s: Seq<(K, V)>)
    ensures
        map_of(s).dom().finite(),
        map_of(s).dom().len() <= s.len(),
    decreases s.len(),
{
    if s.len() > 0 {
        lemma_map_of_finite(s.drop_last());
        vstd::set_lib::lemma_len_union::<K::V>(
            map_of(s.drop_last()).dom(),
            Set::empty().insert(s.last().0@),
        );
        assert(map_of(s).dom() =~= map_of(s.drop_last()).dom() + Set::empty().insert(
            s.last().0@,
        ));
    } else {
        assert(map_of(s).dom() =~= Set::<K::V>::empty());
    }
}

proof fn lemma_map_of_update<K: View, V: View>(s: Seq<(K, V)>, i: int, p: (K, V))
    requires
        keys_of(s).no_duplicates(),
        0 <= i < s.len(),
        p.0@ == s[i].0@,
    ensures
        map_of(s.update(i, p)) == map_of(s).insert(p.0@, p.1@),
    decreases s.len(),
{
    let t = s.update(i, p);
    if i == s.len() - 1 {
        assert(t.drop_last() =~= s.drop_last());
        assert(t.last() == p);
        assert(map_of(s).insert(p.0@, p.1@) =~= map_of(s.drop_last()).insert(p.0@, p.1@));
    } else {
        assert(keys_of(s.drop_last()) =~= keys_of(s).drop_last());
        assert(t.drop_last() =~= s.drop_last().update(i, p));
        assert(t.last() == s.last());
        lemma_map_of_update(s.drop_last(), i, p);
        assert(keys_of(s)[i] != keys_of(s)[s.len() - 1]);
        assert(map_of(s.drop_last()).insert(p.0@, p.1@).insert(s.last().0@, s.last().1@)
            =~= map_of(s.drop_last()).insert(s.last().0@, s.last().1@).insert(p.0@, p.1@));
    }
}

proof fn lemma_map_of_remove<K: View, V: View>(s: Seq<(K, V)>, i: int)
    requires
        keys_of(s).no_duplicates(),
        0 <= i < s.len(),
    ensures
        map_of(s.remove(i)) == map_of(s).remove(s[i].0@),
        keys_of(s.remove(i)) == keys_of(s).remove(i),
    decreases s.len(),
{
    let t = s.remove(i);
    s.remove_ensures(i);
    assert(keys_of(t) =~= keys_of(s).remove(i));
    if i == s.len() - 1 {
        assert(t =~= s.drop_last());
        lemma_map_of_contains::<K, V>(s.drop_last(), s.last().0@);
        assert(keys_of(s.drop_last()) =~= keys_of(s).drop_last());
        assert(!keys_of(s.drop_last()).contains(s.last().0@)) by {
            if keys_of(s.drop_last()).contains(s.last().0@) {
                let j = choose|j: int|
                    0 <= j < s.len() - 1 && keys_of(s.drop_last())[j] == s.last().0@;
                assert(keys_of(s)[j] == keys_of(s)[s.len() - 1]);
            }
        }
        assert(map_of(t) =~= map_of(s).remove(s[i].0@));
    } else {
        assert(t.drop_last() =~= s.drop_last().remove(i));
        assert(t.last() == s.last());
        assert(keys_of(s.drop_last()) =~= keys_of(s).drop_last());
        lemma_map_of_remove(s.drop_last(), i);
        assert(keys_of(s)[i] != keys_of(s)[s.len() - 1]);
        assert(map_of(s.drop_last()).remove(s[i].0@).insert(s.last().0@, s.last().1@)
            =~= map_of(s.drop_last()).insert(s.last().0@, s.last().1@).remove(s[i].0@));
    }
}

fn pair_val_mut<K, V>(v: &mut Vec<(K, V)>, i: usize) -> (r: &mut V)
    requires
        i < old(v)@.len(),
    ensures
        *r == old(v)@[i as int].1,
        final(v)@ == old(v)@.update(i as int, (old(v)@[i as int].0, *final(r))),
{
    let pair = &mut v[i];
    &mut pair.1
}

impl<K: StoreKey, V: Stored> VecMap<K, V> {
    /// The views of the stored keys, in storage order.
    pub closed spec fn kseq(&self) -> Seq<K::V> {
        keys_of(self.pairs@)
    }

    pub closed spec fn wf(&self) -> bool {
        &&& self.kseq().no_duplicates()
        &&& forall|i: int| 0 <= i < self.pairs@.len() ==> (#[trigger] self.pairs@[i].1).inv()
    }

    pub proof fn lemma_props(&self)
        ensures
            self@.dom().finite(),
            self@.dom() == self.kseq().to_set(),
            self.wf() ==> self@.dom().len() == self.kseq().len(),
            self.wf() ==> self.kseq().no_duplicates(),
            forall|i: int|
                0 <= i < self.kseq().len() ==> #[trigger] self@.contains_key(self.kseq()[i]),
    {
        broadcast use vstd::seq_lib::group_seq_properties;

        lemma_map_of_finite(self.pairs@);
        assert forall|k: K::V| true implies self@.contains_key(k) == self.kseq().to_set().contains(
            k,
        ) by {
            lemma_map_of_contains::<K, V>(self.pairs@, k);
        }
        assert(self@.dom() =~= self.kseq().to_set());
        if self.kseq().no_duplicates() {
            self.kseq().unique_seq_to_set();
        }
        assert forall|i: int|
            0 <= i < self.kseq().len() implies #[trigger] self@.contains_key(self.kseq()[i]) by {
            assert(self.kseq().to_set().contains(self.kseq()[i]));
        }
    }

    pub fn new() -> (m: Self)
        ensures
            m.wf(),
            m@ == Map::<K::V, V::V>::empty(),
            m.kseq() == Seq::<K::V>::empty(),
    {
        let m = VecMap { pairs: Vec::new() };
        proof {
            assert(m.kseq() =~= Seq::<K::V>::empty());
        }
        m
    }

    pub fn len(&self) -> (n: usize)
        ensures
            n == self.kseq().len(),
    {
        self.pairs.len()
    }

    fn index_of(&self, k: &K) -> (r: Option<usize>)
        ensures
            match r {
                Some(i) => i < self.kseq().len() && self.kseq()[i as int] == k@,
                None => !self@.contains_key(k@),
            },
    {
        let n = self.pairs.len();
        let mut i: usize = 0;
        while i < n
            invariant
                n == self.kseq().len(),
                i <= n,
                forall|j: int| 0 <= j < i ==> self.kseq()[j] != k@,
            decreases n - i,
        {
            if self.pairs[i].0.key_eq(k) {
                return Some(i);
            }
            i = i + 1;
        }
        proof {
            assert(!self.kseq().contains(k@));
            lemma_map_of_contains::<K, V>(self.pairs@, k@);
        }
        None
    }

    pub fn contains_key(&self, k: &K) -> (r: bool)
        ensures
            r == self@.contains_key(k@),
    {
        match self.index_of(k) {
            Some(i) => {
                proof {
                    assert(self.kseq().contains(k@));
                    lemma_map_of_contains::<K, V>(self.pairs@, k@);
                }
                true
            },
            None => false,
        }
    }

    pub fn get(&self, k: &K) -> (r: Option<&V>)
        requires
            self.wf(),
        ensures
            match r {
                Some(v) => self@.contains_key(k@) && v@ == self@[k@] && v.inv(),
                None => !self@.contains_key(k@),
            },
    {
        match self.index_of(k) {
            Some(i) => {
                proof {
                    lemma_map_of_index(self.pairs@, i as int);
                    assert(self.pairs@[i as int].0@ == self.kseq()[i as int]);
                    assert(self@.contains_key(k@) && self@[k@] == self.pairs@[i as int].1@);
                }
                Some(&self.pairs[i].1)
            },
            None => None,
        }
    }

    #[verifier::rlimit(100)]
    #[verifier::spinoff_prover]
    pub fn get_mut(&mut self, k: &K) -> (r: Option<&mut V>)
        requires
            old(self).wf(),
        ensures
            match r {
                Some(v) => {
                    &&& old(self)@.contains_key(k@)
                    &&& (*v)@ == old(self)@[k@]
                    &&& (*v).inv()
                    &&& final(self)@ == old(self)@.insert(k@, (*final(v))@)
                    &&& final(self).kseq() == old(self).kseq()
                    &&& ((*final(v)).inv() ==> final(self).wf())
                },
                None => !old(self)@.contains_key(k@) && *final(self) == *old(self),
            },
    {
        match self.index_of(k) {
            Some(i) => {
                proof {
                    lemma_map_of_index(self.pairs@, i as int);
                    assert forall|p: (K, V)|
                        #![trigger map_of(self.pairs@.update(i as int, p))]
                        p.0@ == k@ implies map_of(self.pairs@.update(i as int, p)) == map_of(
                        self.pairs@,
                    ).insert(k@, p.1@) && keys_of(self.pairs@.update(i as int, p)) == keys_of(
                        self.pairs@,
                    ) by {
                        lemma_map_of_update(self.pairs@, i as int, p);
                        assert(keys_of(self.pairs@.update(i as int, p)) =~= keys_of(
                            self.pairs@,
                        ));
                    }
                }
                let v = pair_val_mut(&mut self.pairs, i);
                Some(v)
            },
            None => None,
        }
    }

    /// Inserts an entry under a key that is not yet present.
    pub fn insert_new(&mut self, k: K, v: V)
        requires
            old(self).wf(),
            !old(self)@.contains_key(k@),
            v.inv(),
        ensures
            final(self).wf(),
            final(self)@ == old(self)@.insert(k@, v@),
            final(self).kseq() == old(self).kseq().push(k@),
    {
        proof {
            lemma_map_of_contains::<K, V>(self.pairs@, k@);
        }
        self.pairs.push((k, v));
        proof {
            broadcast use vstd::seq_lib::group_seq_properties;

            assert(self.pairs@.drop_last() =~= old(self).pairs@);
            assert(self.kseq() =~= old(self).kseq().push(k@));
        }
    }

    /// Removes the entry under a key, returning its value.
    pub fn remove(&mut self, k: &K) -> (r: Option<V>)
        requires
            old(self).wf(),
        ensures
            final(self).wf(),
            forall|j: int|
                0 <= j < final(self).kseq().len() ==> old(self).kseq().contains(
                    #[trigger] final(self).kseq()[j],
                ),
            match r {
                Some(v) => {
                    &&& old(self)@.contains_key(k@)
                    &&& v@ == old(self)@[k@]
                    &&& v.inv()
                    &&& final(self)@ == old(self)@.remove(k@)
                },
                None => !old(self)@.contains_key(k@) && *final(self) == *old(self),
            },
    {
        match self.index_of(k) {
            Some(i) => {
                proof {
                    broadcast use vstd::seq_lib::group_seq_properties;

                    lemma_map_of_index(self.pairs@, i as int);
                    lemma_map_of_remove(self.pairs@, i as int);
                    old(self).pairs@.remove_ensures(i as int);
                }
                let (_, v) = self.pairs.remove(i);
                proof {
                    let s = old(self).kseq();
                    assert forall|j: int| 0 <= j < self.kseq().len() implies s.contains(
                        #[trigger] self.kseq()[j],
                    ) by {
                        assert(self.kseq()[j] == if j < i as int {
                            s[j]
                        } else {
                            s[j + 1]
                        });
                    }
                }
                Some(v)
            },
            None => None,
        }
    }

    /// The key stored at an index, for iteration.
    pub fn key_at(&self, i: usize) -> (k: &K)
        requires
            i < self.kseq().len(),
        ensures
            k@ == self.kseq()[i as int],
            self@.contains_key(k@),
    {
        proof {
            self.lemma_props();
            assert(self.kseq().to_set().contains(self.kseq()[i as int]));
        }
        &self.pairs[i].0
    }

    /// The value stored at an index, for iteration.
    pub fn val_at(&self, i: usize) -> (v: &V)
        requires
            self.wf(),
            i < self.kseq().len(),
        ensures
            self@.contains_key(self.kseq()[i as int]),
            v@ == self@[self.kseq()[i as int]],
            v.inv(),
    {
        proof {
            lemma_map_of_index(self.pairs@, i as int);
        }
        &self.pairs[i].1
    }

    /// A copy of all keys, in storage order.
    pub fn keys(&self) -> (r: Vec<K>)
        ensures
            r@.len() == self.kseq().len(),
            views_of(r@) == self.kseq(),
    {
        let n = self.pairs.len();
        let mut out: Vec<K> = Vec::new();
        let mut i: usize = 0;
        while i < n
            invariant
                n == self.kseq().len(),
                n == self.pairs@.len(),
                i <= n,
                out@.len() == i,
                forall|j: int| 0 <= j < i ==> #[trigger] out@[j]@ == self.kseq()[j],
            decreases n - i,
        {
            out.push(self.pairs[i].0.key_dup());
            i = i + 1;
        }
        proof {
            assert(views_of(out@) =~= self.kseq());
        }
        out
    }
}

} // verus!
