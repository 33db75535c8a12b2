//! Paths to packages which contain interfaces and processes.
//!
//! A path is a non-empty sequence of component names, root first.
//! Comparison walks the components root first; on the first differing
//! component the (reversed) name order decides, and when one path is a
//! strict prefix of the other, the deeper path orders first.

use core::cmp::Ordering;
use vstd::prelude::*;
use vstd::string::StrSliceExecFns;

verus! {

broadcast use vstd::seq_lib::group_seq_properties;

/// Lexicographic comparison of two character sequences by code point,
/// the order of Rust's `str` comparison.
pub open spec fn str_cmp(a: Seq<char>, b: Seq<char>) -> Ordering
    decreases a.len(),
{
    if a.len() == 0 && b.len() == 0 {
        Ordering::Equal
    } else if a.len() == 0 {
        Ordering::Less
    } else if b.len() == 0 {
        Ordering::Greater
    } else if (a[0] as int) < (b[0] as int) {
        Ordering::Less
    } else if (a[0] as int) > (b[0] as int) {
        Ordering::Greater
    } else {
        str_cmp(a.drop_first(), b.drop_first())
    }
}

/// Equal sequences compare equal and vice versa.
pub proof fn lemma_str_cmp_eq(a: Seq<char>, b: Seq<char>)
    ensures
        (str_cmp(a, b) == Ordering::Equal) == (a == b),
    decreases a.len(),
{
    if a.len() == 0 && b.len() == 0 {
        assert(a =~= b);
    } else if a.len() != 0 && b.len() != 0 {
        if (a[0] as int) == (b[0] as int) {
            assert(a[0] == b[0]);
            lemma_str_cmp_eq(a.drop_first(), b.drop_first());
            if a.drop_first() == b.drop_first() {
                assert(a =~= b);
            }
            if a == b {
                assert(a.drop_first() =~= b.drop_first());
            }
        }
    }
}

/// Order of two paths given as component sequences: component-wise,
/// root first, with the name order reversed; a deeper path orders
/// before its own prefix.
pub open spec fn path_cmp(a: Seq<Seq<char>>, b: Seq<Seq<char>>) -> Ordering
    decreases a.len(),
{
    if a.len() == 0 && b.len() == 0 {
        Ordering::Equal
    } else if a.len() == 0 {
        Ordering::Greater
    } else if b.len() == 0 {
        Ordering::Less
    } else {
        match str_cmp(a[0], b[0]) {
            Ordering::Equal => path_cmp(a.drop_first(), b.drop_first()),
            Ordering::Less => Ordering::Greater,
            Ordering::Greater => Ordering::Less,
        }
    }
}

/// The dotted, root-first rendering of a path.
pub open spec fn dotted(s: Seq<Seq<char>>) -> Seq<char>
    decreases s.len(),
{
    if s.len() == 0 {
        Seq::empty()
    } else if s.len() == 1 {
        s[0]
    } else {
        dotted(s.drop_last()) + seq!['.'] + s.last()
    }
}

/// Compare two strings in the order of `str_cmp`.
pub fn str_compare(a: &str, b: &str) -> (r: Ordering)
    ensures
        r == str_cmp(a@, b@),
{
    let alen = a.unicode_len();
    let blen = b.unicode_len();
    let mut i: usize = 0;
    loop
        invariant
            alen == a@.len(),
            blen == b@.len(),
            i <= alen,
            i <= blen,
            str_cmp(a@, b@) == str_cmp(a@.skip(i as int), b@.skip(i as int)),
        decreases alen - i,
    {
        if i == alen && i == blen {
            return Ordering::Equal;
        }
        if i == alen {
            return Ordering::Less;
        }
        if i == blen {
            return Ordering::Greater;
        }
        let ca = a.get_char(i);
        let cb = b.get_char(i);
        if (ca as u32) < (cb as u32) {
            return Ordering::Less;
        }
        if (ca as u32) > (cb as u32) {
            return Ordering::Greater;
        }
        proof {
            assert(a@.skip(i as int).drop_first() =~= a@.skip(i as int + 1));
            assert(b@.skip(i as int).drop_first() =~= b@.skip(i as int + 1));
        }
        i = i + 1;
    }
}

/// Path node: a full package path, stored flat as its component names,
/// root first.  Always holds at least one component.
#[derive(Clone)]
pub struct Path {
    comps: Vec<String>,
}

/// A shareable handle to a path.  Paths are small and owned, so the
/// handle is the path itself.
pub type RcPath = Path;

impl View for Path {
    type V = Seq<Seq<char>>;

    closed spec fn view(&self) -> Seq<Seq<char>> {
        Seq::new(self.comps@.len(), |i: int| self.comps@[i]@)
    }
}

impl Path {
    pub open spec fn wf(&self) -> bool {
        self@.len() >= 1
    }

    /// Create new path without parents.
    pub fn new(name: String) -> (r: RcPath)
        ensures
            r.wf(),
            r@ == seq![name@],
    {
        let mut comps: Vec<String> = Vec::new();
        comps.push(name);
        let r = Path { comps };
        proof {
            assert(r@ =~= seq![name@]);
        }
        r
    }

    /// Create new path node with given parent.
    pub fn new_from_parent(parent: RcPath, name: String) -> (r: RcPath)
        ensures
            r.wf(),
            r@ == parent@.push(name@),
    {
        let mut comps = parent.comps;
        comps.push(name);
        let r = Path { comps };
        proof {
            assert(r@ =~= parent@.push(name@));
        }
        r
    }

    /// Name of current node: the last component of the path.
    pub fn name(&self) -> (r: &str)
        requires
            self.wf(),
        ensures
            r@ == self@.last(),
    {
        let n = self.comps.len();
        self.comps[n - 1].as_str()
    }

    /// Number of components of the path.
    pub fn depth(&self) -> (n: usize)
        ensures
            n == self@.len(),
    {
        self.comps.len()
    }

    /// Convert path to its dotted string value.
    pub fn to_string(rc: &RcPath) -> (r: String)
        requires
            rc.wf(),
        ensures
            r@ == dotted(rc@),
    {
        let n = rc.comps.len();
        let mut st = String::new();
        let mut i: usize = 0;
        while i < n
            invariant
                n == rc.comps@.len(),
                n >= 1,
                i <= n,
                st@ == dotted(rc@.take(i as int)),
            decreases n - i,
        {
            if i > 0 {
                st.append(".");
                proof {
                    reveal_strlit(".");
                }
            }
            st.append(rc.comps[i].as_str());
            proof {
                let t = rc@.take(i as int + 1);
                assert(t.drop_last() =~= rc@.take(i as int));
                assert(t.last() == rc@[i as int]);
                if i > 0 {
                    assert(st@ =~= dotted(t));
                } else {
                    assert(st@ =~= dotted(t));
                }
            }
            i = i + 1;
        }
        proof {
            assert(rc@.take(n as int) =~= rc@);
        }
        st
    }

    /// A copy of the path, equal in view.
    pub fn dup(&self) -> (r: Self)
        ensures
            r@ == self@,
            r.wf() == self.wf(),
    {
        let n = self.comps.len();
        let mut comps: Vec<String> = Vec::new();
        let mut i: usize = 0;
        while i < n
            invariant
                n == self.comps@.len(),
                i <= n,
                comps@.len() == i,
                forall|j: int| 0 <= j < i ==> #[trigger] comps@[j]@ == self.comps@[j]@,
            decreases n - i,
        {
            comps.push(self.comps[i].clone());
            i = i + 1;
        }
        let r = Path { comps };
        proof {
            assert(r@ =~= self@);
        }
        r
    }

    /// Compare two paths in the order of `path_cmp`.
    pub fn compare(&self, other: &Path) -> (r: Ordering)
        ensures
            r == path_cmp(self@, other@),
    {
        let n = self.comps.len();
        let m = other.comps.len();
        let mut i: usize = 0;
        loop
            invariant
                n == self.comps@.len(),
                m == other.comps@.len(),
                i <= n,
                i <= m,
                path_cmp(self@, other@) == path_cmp(
                    self@.skip(i as int),
                    other@.skip(i as int),
                ),
            decreases n - i,
        {
            if i == n && i == m {
                return Ordering::Equal;
            }
            if i == n {
                return Ordering::Greater;
            }
            if i == m {
                return Ordering::Less;
            }
            let c = str_compare(self.comps[i].as_str(), other.comps[i].as_str());
            proof {
                assert(self@.skip(i as int)[0] == self@[i as int]);
                assert(other@.skip(i as int)[0] == other@[i as int]);
            }
            match c {
                Ordering::Equal => {
                    proof {
                        assert(self@.skip(i as int).drop_first() =~= self@.skip(i as int + 1));
                        assert(other@.skip(i as int).drop_first() =~= other@.skip(
                            i as int + 1,
                        ));
                    }
                    i = i + 1;
                },
                Ordering::Less => {
                    return Ordering::Greater;
                },
                Ordering::Greater => {
                    return Ordering::Less;
                },
            }
        }
    }
}

impl PartialEq for Path {
    fn eq(&self, other: &Path) -> (r: bool) {
        let c = self.compare(other);
        proof {
            lemma_path_cmp_eq(self@, other@);
        }
        matches!(c, Ordering::Equal)
    }
}

impl Eq for Path {

}

impl vstd::std_specs::cmp::PartialEqSpecImpl for Path {
    open spec fn obeys_eq_spec() -> bool {
        true
    }

    open spec fn eq_spec(&self, other: &Path) -> bool {
        self@ == other@
    }
}

impl PartialOrd for Path {
    fn partial_cmp(&self, other: &Path) -> (r: Option<Ordering>) {
        Some(self.compare(other))
    }
}

impl vstd::std_specs::cmp::PartialOrdSpecImpl for Path {
    open spec fn obeys_partial_cmp_spec() -> bool {
        true
    }

    open spec fn partial_cmp_spec(&self, other: &Path) -> Option<Ordering> {
        Some(path_cmp(self@, other@))
    }
}

/// Paths compare equal exactly when their components are equal.
pub proof fn lemma_path_cmp_eq(a: Seq<Seq<char>>, b: Seq<Seq<char>>)
    ensures
        (path_cmp(a, b) == Ordering::Equal) == (a == b),
    decreases a.len(),
{
    if a.len() != 0 && b.len() != 0 {
        lemma_str_cmp_eq(a[0], b[0]);
        if str_cmp(a[0], b[0]) == Ordering::Equal {
            lemma_path_cmp_eq(a.drop_first(), b.drop_first());
            if a.drop_first() == b.drop_first() && a[0] == b[0] {
                assert(a =~= b);
            }
            if a == b {
                assert(a.drop_first() =~= b.drop_first());
            }
        } else {
            assert(a != b);
        }
    } else if a.len() != b.len() {
        assert(a != b);
    }
}

/// Iterator over path nodes, from the root to the leaf.  The forward
/// and the backward cursor are independent, as in a freshly created
/// double-ended iterator each.
pub struct PathIter {
    nodes: Vec<String>,
    cur: usize,
    curr: usize,
}

impl PathIter {
    /// The component names the iterator walks over.
    pub closed spec fn items(&self) -> Seq<Seq<char>> {
        Seq::new(self.nodes@.len(), |i: int| self.nodes@[i]@)
    }

    /// The forward cursor: the next component returned by `next`.
    pub closed spec fn fwd(&self) -> int {
        self.cur as int
    }

    /// The backward cursor: components below it are returned by
    /// `next_back`.
    pub closed spec fn bwd(&self) -> int {
        self.curr as int
    }

    pub closed spec fn wf(&self) -> bool {
        self.curr <= self.nodes@.len()
    }

    /// Create path iterator for given path.
    pub fn new(path: RcPath) -> (it: Self)
        ensures
            it.wf(),
            it.items() == path@,
            it.fwd() == 0,
            it.bwd() == path@.len(),
    {
        let n = path.comps.len();
        let it = PathIter { nodes: path.comps, cur: 0, curr: n };
        proof {
            assert(it.items() =~= path@);
        }
        it
    }

    /// The next component from the front, root first.
    pub fn next(&mut self) -> (r: Option<String>)
        ensures
            final(self).wf() == old(self).wf(),
            final(self).items() == old(self).items(),
            final(self).bwd() == old(self).bwd(),
            match r {
                Some(s) => {
                    &&& old(self).fwd() < old(self).items().len()
                    &&& s@ == old(self).items()[old(self).fwd()]
                    &&& final(self).fwd() == old(self).fwd() + 1
                },
                None => {
                    &&& old(self).fwd() >= old(self).items().len()
                    &&& final(self).fwd() == old(self).fwd()
                },
            },
    {
        if self.cur >= self.nodes.len() {
            None
        } else {
            let val = self.nodes[self.cur].clone();
            self.cur = self.cur + 1;
            Some(val)
        }
    }

    /// The next component from the back, leaf first.
    pub fn next_back(&mut self) -> (r: Option<String>)
        requires
            old(self).wf(),
        ensures
            final(self).wf(),
            final(self).items() == old(self).items(),
            final(self).fwd() == old(self).fwd(),
            match r {
                Some(s) => {
                    &&& old(self).bwd() >= 1
                    &&& s@ == old(self).items()[old(self).bwd() - 1]
                    &&& final(self).bwd() == old(self).bwd() - 1
                },
                None => {
                    &&& old(self).bwd() == 0
                    &&& final(self).bwd() == old(self).bwd()
                },
            },
    {
        if self.curr == 0 {
            None
        } else {
            self.curr = self.curr - 1;
            Some(self.nodes[self.curr].clone())
        }
    }

    /// The total number of components the iterator was created over.
    pub fn len(&self) -> (n: usize)
        ensures
            n == self.items().len(),
    {
        self.nodes.len()
    }
}

/// `q` is a (weak) prefix of `p`.
pub open spec fn is_prefix(q: Seq<Seq<char>>, p: Seq<Seq<char>>) -> bool {
    q.len() <= p.len() && q == p.take(q.len() as int)
}

/// `r` extends `q` by at least one component.
pub open spec fn is_strict_ext(r: Seq<Seq<char>>, q: Seq<Seq<char>>) -> bool {
    q.len() < r.len() && is_prefix(q, r)
}

/// All non-empty prefixes of a path, the path itself included.
pub open spec fn prefixes(p: Seq<Seq<char>>) -> Set<Seq<Seq<char>>> {
    Set::new(|q: Seq<Seq<char>>| 1 <= q.len() && is_prefix(q, p))
}

/// The non-empty prefixes of a path of at most `k` components.
pub open spec fn prefixes_upto(p: Seq<Seq<char>>, k: int) -> Set<Seq<Seq<char>>> {
    Set::new(|q: Seq<Seq<char>>| 1 <= q.len() <= k && is_prefix(q, p))
}

/// A stored node disappears when a path is removed exactly if it lies
/// on the path and its whole stored subtree lies on the path as well.
pub open spec fn removable(tree: Set<Seq<Seq<char>>>, p: Seq<Seq<char>>, q: Seq<Seq<char>>) -> bool {
    &&& tree.contains(q)
    &&& 1 <= q.len()
    &&& is_prefix(q, p)
    &&& forall|r: Seq<Seq<char>>|
        tree.contains(r) && #[trigger] is_strict_ext(r, q) ==> is_prefix(r, p)
}

/// Tree that stores all package nodes.  A node is identified by its
/// full path from the root, so the tree is the set of these paths,
/// closed under non-empty prefixes.
pub struct PackageTree {
    paths: Vec<Path>,
}

/// The views of a vector of paths, in storage order.
pub open spec fn path_views(v: Seq<Path>) -> Seq<Seq<Seq<char>>> {
    Seq::new(v.len(), |i: int| v[i]@)
}

impl View for PackageTree {
    type V = Set<Seq<Seq<char>>>;

    closed spec fn view(&self) -> Set<Seq<Seq<char>>> {
        path_views(self.paths@).to_set()
    }
}

/// `a` is a prefix of `b`, decided on the component vectors.
fn path_is_prefix(a: &Path, b: &Path) -> (r: bool)
    ensures
        r == is_prefix(a@, b@),
{
    let n = a.depth();
    if n > b.depth() {
        return false;
    }
    let mut i: usize = 0;
    while i < n
        invariant
            n == a@.len(),
            n <= b@.len(),
            i <= n,
            forall|j: int| 0 <= j < i ==> a@[j] == b@[j],
        decreases n - i,
    {
        let c = str_compare(a.component(i), b.component(i));
        proof {
            lemma_str_cmp_eq(a@[i as int], b@[i as int]);
        }
        if !matches!(c, Ordering::Equal) {
            proof {
                assert(a@ != b@.take(n as int)) by {
                    assert(b@.take(n as int)[i as int] == b@[i as int]);
                }
            }
            return false;
        }
        i = i + 1;
    }
    proof {
        assert(a@ =~= b@.take(n as int));
    }
    true
}

impl Path {
    /// The component of the path at an index, root first.
    pub fn component(&self, i: usize) -> (r: &str)
        requires
            i < self@.len(),
        ensures
            r@ == self@[i as int],
    {
        self.comps[i].as_str()
    }

    /// The path of the first `k` components of this path.
    pub fn prefix_path(&self, k: usize) -> (r: Path)
        requires
            1 <= k <= self@.len(),
        ensures
            r@ == self@.take(k as int),
            r.wf(),
    {
        let mut comps: Vec<String> = Vec::new();
        let mut i: usize = 0;
        while i < k
            invariant
                k <= self.comps@.len(),
                i <= k,
                comps@.len() == i,
                forall|j: int| 0 <= j < i ==> #[trigger] comps@[j]@ == self.comps@[j]@,
            decreases k - i,
        {
            comps.push(self.comps[i].clone());
            i = i + 1;
        }
        let r = Path { comps };
        proof {
            assert(r@ =~= self@.take(k as int));
        }
        r
    }
}

impl PackageTree {
    pub closed spec fn pseq(&self) -> Seq<Seq<Seq<char>>> {
        path_views(self.paths@)
    }

    pub closed spec fn wf(&self) -> bool {
        &&& self.pseq().no_duplicates()
        &&& forall|i: int| 0 <= i < self.pseq().len() ==> #[trigger] self.pseq()[i].len() >= 1
    }

    pub fn new() -> (t: Self)
        ensures
            t.wf(),
            t@ == Set::<Seq<Seq<char>>>::empty(),
    {
        let t = PackageTree { paths: Vec::new() };
        proof {
            assert(t.pseq() =~= Seq::<Seq<Seq<char>>>::empty());
            assert(t@ =~= Set::<Seq<Seq<char>>>::empty());
        }
        t
    }

    /// Whether this exact node path is stored in the tree.
    pub fn has_path(&self, path: &RcPath) -> (r: bool)
        ensures
            r == self@.contains(path@),
    {
        let n = self.paths.len();
        let mut i: usize = 0;
        while i < n
            invariant
                n == self.pseq().len(),
                i <= n,
                forall|j: int| 0 <= j < i ==> self.pseq()[j] != path@,
            decreases n - i,
        {
            if self.paths[i].eq(path) {
                proof {
                    assert(self.pseq()[i as int] == path@);
                    assert(self.pseq().contains(path@));
                }
                return true;
            }
            i = i + 1;
        }
        proof {
            assert(!self.pseq().contains(path@));
        }
        false
    }

    /// Create all nodes needed to store this path: the node of every
    /// non-empty prefix of the path becomes part of the tree.
    pub fn store_path(&mut self, path: &RcPath)
        requires
            old(self).wf(),
            path.wf(),
        ensures
            final(self).wf(),
            final(self)@ == old(self)@ + prefixes(path@),
    {
        let n = path.depth();
        proof {
            assert(self@ =~= old(self)@ + prefixes_upto(path@, 0));
        }
        let mut idx: usize = 0;
        while idx < n
            invariant
                old(self).wf(),
                path.wf(),
                n == path@.len(),
                idx <= n,
                self.wf(),
                self@ == old(self)@ + prefixes_upto(path@, idx as int),
            decreases n - idx,
        {
            let k = idx + 1;
            let ghost pre = self@;
            let ghost pre_seq = self.pseq();
            let pref = path.prefix_path(k);
            proof {
                assert(pref@.len() == k as int);
                assert(is_prefix(pref@, path@)) by {
                    assert(pref@ == path@.take(pref@.len() as int));
                }
            }
            if !self.has_path(&pref) {
                let ghost pv = pref@;
                self.paths.push(pref);
                proof {
                    assert(self.pseq() =~= pre_seq.push(pv));
                    assert(self@ =~= pre.insert(pv));
                    assert(self.pseq().no_duplicates()) by {
                        assert(!pre_seq.contains(pv));
                    }
                    assert forall|i: int| 0 <= i < self.pseq().len() implies #[trigger] self
                        .pseq()[i].len() >= 1 by {
                        if i < pre_seq.len() {
                            assert(pre_seq[i].len() >= 1);
                        }
                    }
                }
            }
            proof {
                assert forall|q: Seq<Seq<char>>| prefixes_upto(path@, k as int).contains(q)
                    implies #[trigger] self@.contains(q) || prefixes_upto(
                    path@,
                    idx as int,
                ).contains(q) by {
                    if q.len() == k as int {
                        assert(q == path@.take(k as int));
                    }
                }
                assert(self@ =~= old(self)@ + prefixes_upto(path@, k as int));
            }
            idx = idx + 1;
        }
        proof {
            assert(prefixes_upto(path@, n as int) =~= prefixes(path@)) by {
                assert forall|q: Seq<Seq<char>>| prefixes(path@).contains(q)
                    implies #[trigger] prefixes_upto(path@, n as int).contains(q) by {
                    assert(q.len() <= path@.len());
                }
            }
            assert(self@ =~= old(self)@ + prefixes(path@));
        }
    }

    /// Remove this path from the tree.  Some nodes may remain if they
    /// still carry other sub-packages: a node disappears exactly when
    /// it lies on the removed path and every stored node below it does
    /// too.
    pub fn remove_path(&mut self, path: &RcPath)
        requires
            old(self).wf(),
        ensures
            final(self).wf(),
            final(self)@ == old(self)@.difference(
                Set::new(|q: Seq<Seq<char>>| removable(old(self)@, path@, q)),
            ),
    {
        let n = self.paths.len();
        let mut kept: Vec<Path> = Vec::new();
        let mut i: usize = 0;
        while i < n
            invariant
                *self == *old(self),
                self.wf(),
                n == self.pseq().len(),
                i <= n,
                forall|j: int|
                    0 <= j < path_views(kept@).len() ==> (exists|jj: int|
                        0 <= jj < i && #[trigger] path_views(kept@)[j] == self.pseq()[jj]
                            && !removable(self@, path@, path_views(kept@)[j])),
                forall|jj: int|
                    0 <= jj < i ==> removable(self@, path@, #[trigger] self.pseq()[jj])
                        || path_views(kept@).contains(self.pseq()[jj]),
                path_views(kept@).no_duplicates(),
            decreases n - i,
        {
            let q = &self.paths[i];
            let on_path = path_is_prefix(q, path);
            let keep = if on_path {
                let mut bad = false;
                let mut j: usize = 0;
                while j < n
                    invariant
                        *self == *old(self),
                        self.wf(),
                        n == self.pseq().len(),
                        i < n,
                        j <= n,
                        q == &self.paths@[i as int],
                        q@ == self.pseq()[i as int],
                        bad ==> (exists|jj: int|
                            0 <= jj < j && is_strict_ext(#[trigger] self.pseq()[jj], q@)
                                && !is_prefix(self.pseq()[jj], path@)),
                        !bad ==> (forall|jj: int|
                            0 <= jj < j && is_strict_ext(#[trigger] self.pseq()[jj], q@)
                                ==> is_prefix(self.pseq()[jj], path@)),
                    decreases n - j,
                {
                    if !bad {
                        let r = &self.paths[j];
                        if q.depth() < r.depth() && path_is_prefix(q, r) && !path_is_prefix(
                            r,
                            path,
                        ) {
                            bad = true;
                            proof {
                                assert(is_strict_ext(self.pseq()[j as int], q@) && !is_prefix(
                                    self.pseq()[j as int],
                                    path@,
                                ));
                            }
                        }
                    }
                    j = j + 1;
                }
                proof {
                    if !bad {
                        assert(removable(self@, path@, q@)) by {
                            assert forall|r: Seq<Seq<char>>|
                                self@.contains(r) && #[trigger] is_strict_ext(r, q@)
                                    implies is_prefix(r, path@) by {
                                let jj = choose|jj: int|
                                    0 <= jj < n && #[trigger] self.pseq()[jj] == r;
                                assert(is_strict_ext(self.pseq()[jj], q@));
                            }
                            assert(self@.contains(q@)) by {
                                assert(self.pseq().contains(q@));
                            }
                            assert(q@.len() >= 1);
                        }
                    } else {
                        assert(!removable(self@, path@, q@)) by {
                            let jj = choose|jj: int|
                                0 <= jj < n && is_strict_ext(#[trigger] self.pseq()[jj], q@)
                                    && !is_prefix(self.pseq()[jj], path@);
                            assert(self@.contains(self.pseq()[jj])) by {
                                assert(self.pseq().contains(self.pseq()[jj]));
                            }
                        }
                    }
                }
                bad
            } else {
                proof {
                    assert(!removable(self@, path@, q@));
                }
                true
            };
            if keep {
                let ghost pre_kept = path_views(kept@);
                kept.push(self.paths[i].dup());
                proof {
                    assert(path_views(kept@) =~= pre_kept.push(self.pseq()[i as int]));
                    assert(path_views(kept@).no_duplicates()) by {
                        let xv = self.pseq()[i as int];
                        assert(!pre_kept.contains(xv)) by {
                            if pre_kept.contains(xv) {
                                let j = choose|j: int|
                                    0 <= j < pre_kept.len() && pre_kept[j] == xv;
                                let jj = choose|jj: int|
                                    0 <= jj < i && pre_kept[j] == self.pseq()[jj]
                                        && !removable(self@, path@, pre_kept[j]);
                                assert(self.pseq().no_duplicates());
                                assert(self.pseq()[jj] == self.pseq()[i as int]);
                            }
                        }
                    }
                }
            }
            i = i + 1;
        }
        self.paths = kept;
        proof {
            let m = old(self)@;
            let removed = Set::new(|q: Seq<Seq<char>>| removable(m, path@, q));
            assert forall|x: Seq<Seq<char>>| self@.contains(x) implies m.difference(
                removed,
            ).contains(x) by {
                let j = choose|j: int| 0 <= j < self.pseq().len() && self.pseq()[j] == x;
                let jj = choose|jj: int|
                    0 <= jj < n && #[trigger] self.pseq()[j] == old(self).pseq()[jj]
                        && !removable(m, path@, self.pseq()[j]);
                assert(old(self).pseq().contains(x));
            }
            assert forall|x: Seq<Seq<char>>| m.difference(removed).contains(x)
                implies self@.contains(x) by {
                let jj = choose|jj: int|
                    0 <= jj < old(self).pseq().len() && old(self).pseq()[jj] == x;
                assert(path_views(kept@).contains(x));
                assert(self.pseq().contains(x));
            }
            assert(self@ =~= m.difference(removed));
            assert forall|j: int| 0 <= j < self.pseq().len() implies (#[trigger] self.pseq()[j]).len()
                >= 1 by {
                let jj = choose|jj: int|
                    0 <= jj < n && #[trigger] self.pseq()[j] == old(self).pseq()[jj]
                        && !removable(m, path@, self.pseq()[j]);
                assert(old(self).pseq()[jj].len() >= 1);
            }
        }
    }
}

} // verus!
