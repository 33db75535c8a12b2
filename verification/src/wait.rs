//! Wait bookkeeping and the channel dependency graph.
//!
//! The graph is an arena of nodes addressed by `GraphNodeKey`; an edge
//! `a -> b` means that a signal on the channel of `b` must arrive before
//! the channel of `a` can unblock.  Edge insertion rejects any edge that
//! would close a cycle, so a well-formed graph is always acyclic.

use crate::store::{Stored, VecMap, VecSet};
use vstd::prelude::*;

verus! {

broadcast use vstd::seq_lib::group_seq_properties;

/// Identifier of a node of the channel dependency graph.
pub type GraphNodeKey = u32;

/// The edge relation of a graph, as a map from node to its out-edges.
pub type EdgeMap = Map<u32, Set<u32>>;

/// There is an edge from `a` to `b`.
pub open spec fn has_edge(e: EdgeMap, a: u32, b: u32) -> bool {
    e.contains_key(a) && e[a].contains(b)
}

/// `p` is a walk through the graph: consecutive elements are connected
/// by edges.  A single node is a (trivial) path.
pub open spec fn is_path(e: EdgeMap, p: Seq<u32>) -> bool {
    &&& p.len() >= 1
    &&& forall|i: int| 0 <= i < p.len() - 1 ==> has_edge(e, #[trigger] p[i], p[i + 1])
}

/// Some path leads from `a` to `b`; trivially true for `a == b`.
pub open spec fn reaches(e: EdgeMap, a: u32, b: u32) -> bool {
    exists|p: Seq<u32>| is_path(e, p) && p.first() == a && p.last() == b
}

/// No path of at least one edge returns to its starting node.
pub open spec fn acyclic(e: EdgeMap) -> bool {
    forall|p: Seq<u32>| #[trigger] is_path(e, p) && p.len() >= 2 ==> p.first() != p.last()
}

/// Every edge points at a node of the graph.
pub open spec fn edges_closed(e: EdgeMap) -> bool {
    forall|a: u32, b: u32| has_edge(e, a, b) ==> e.contains_key(b)
}

/// Every edge of `e1` is an edge of `e2`.
pub open spec fn edges_le(e1: EdgeMap, e2: EdgeMap) -> bool {
    forall|a: u32, b: u32| has_edge(e1, a, b) ==> has_edge(e2, a, b)
}

/// The graph `e` with one more edge from `from` to `to`.
pub open spec fn add_edge(e: EdgeMap, from: u32, to: u32) -> EdgeMap {
    e.insert(
        from,
        if e.contains_key(from) {
            e[from].insert(to)
        } else {
            Set::empty().insert(to)
        },
    )
}

/// The graph `e` without the edge from `from` to `to`.
pub open spec fn remove_edge(e: EdgeMap, from: u32, to: u32) -> EdgeMap {
    if e.contains_key(from) {
        e.insert(from, e[from].remove(to))
    } else {
        e
    }
}

pub proof fn lemma_reaches_self(e: EdgeMap, a: u32)
    ensures
        reaches(e, a, a),
{
    let p = seq![a];
    assert(is_path(e, p) && p.first() == a && p.last() == a);
}

/// A path can be extended by one edge at its end.
pub proof fn lemma_reaches_step(e: EdgeMap, a: u32, b: u32, c: u32)
    requires
        reaches(e, a, b),
        has_edge(e, b, c),
    ensures
        reaches(e, a, c),
{
    let p = choose|p: Seq<u32>| is_path(e, p) && p.first() == a && p.last() == b;
    let q = p.push(c);
    assert forall|i: int| 0 <= i < q.len() - 1 implies has_edge(e, #[trigger] q[i], q[i + 1]) by {
        if i < p.len() - 1 {
            assert(has_edge(e, p[i], p[i + 1]));
        }
    }
    assert(is_path(e, q) && q.first() == a && q.last() == c);
}

/// Two paths sharing an endpoint compose to one path.
proof fn lemma_path_concat(e: EdgeMap, p: Seq<u32>, q: Seq<u32>)
    requires
        is_path(e, p),
        is_path(e, q),
        p.last() == q.first(),
    ensures
        is_path(e, p + q.drop_first()),
        (p + q.drop_first()).first() == p.first(),
        (p + q.drop_first()).last() == q.last(),
{
    let r = p + q.drop_first();
    assert forall|i: int| 0 <= i < r.len() - 1 implies has_edge(e, #[trigger] r[i], r[i + 1]) by {
        if i < p.len() - 1 {
            assert(has_edge(e, p[i], p[i + 1]));
            assert(r[i] == p[i] && r[i + 1] == p[i + 1]);
        } else if i == p.len() - 1 {
            assert(r[i] == p.last());
            assert(r[i + 1] == q[1]);
            assert(has_edge(e, q[0], q[1]));
        } else {
            let j = i - p.len();
            assert(has_edge(e, q[j + 1], q[j + 2]));
            assert(r[i] == q[j + 1] && r[i + 1] == q[j + 2]);
        }
    }
    if q.len() == 1 {
        assert(r.last() == p.last());
    } else {
        assert(r.last() == q.drop_first()[q.len() - 2]);
    }
}

pub proof fn lemma_reaches_trans(e: EdgeMap, a: u32, b: u32, c: u32)
    requires
        reaches(e, a, b),
        reaches(e, b, c),
    ensures
        reaches(e, a, c),
{
    let p = choose|p: Seq<u32>| is_path(e, p) && p.first() == a && p.last() == b;
    let q = choose|q: Seq<u32>| is_path(e, q) && q.first() == b && q.last() == c;
    lemma_path_concat(e, p, q);
    let r = p + q.drop_first();
    assert(is_path(e, r) && r.first() == a && r.last() == c);
}

/// A path of a smaller graph is a path of a larger graph.
pub proof fn lemma_path_mono(e1: EdgeMap, e2: EdgeMap, p: Seq<u32>)
    requires
        edges_le(e1, e2),
        is_path(e1, p),
    ensures
        is_path(e2, p),
{
    assert forall|i: int| 0 <= i < p.len() - 1 implies has_edge(e2, #[trigger] p[i], p[i + 1]) by {
        assert(has_edge(e1, p[i], p[i + 1]));
    }
}

pub proof fn lemma_reaches_mono(e1: EdgeMap, e2: EdgeMap, a: u32, b: u32)
    requires
        edges_le(e1, e2),
        reaches(e1, a, b),
    ensures
        reaches(e2, a, b),
{
    let p = choose|p: Seq<u32>| is_path(e1, p) && p.first() == a && p.last() == b;
    lemma_path_mono(e1, e2, p);
}

/// A graph that loses edges stays acyclic.
pub proof fn lemma_acyclic_mono(e1: EdgeMap, e2: EdgeMap)
    requires
        edges_le(e1, e2),
        acyclic(e2),
    ensures
        acyclic(e1),
{
    assert forall|p: Seq<u32>| #[trigger] is_path(e1, p) && p.len() >= 2 implies p.first()
        != p.last() by {
        lemma_path_mono(e1, e2, p);
    }
}

/// Any path of the graph with one extra edge either is a path of the old
/// graph, or passes through the new edge; in the latter case the old
/// graph connects the path's start to `from` and `to` to the path's end.
proof fn lemma_new_edge_path(e: EdgeMap, from: u32, to: u32, p: Seq<u32>)
    requires
        is_path(add_edge(e, from, to), p),
        !reaches(e, to, from),
    ensures
        is_path(e, p) || (reaches(e, p.first(), from) && reaches(e, to, p.last())),
    decreases p.len(),
{
    let e2 = add_edge(e, from, to);
    if p.len() == 1 {
    } else {
        let tail = p.drop_first();
        assert forall|i: int| 0 <= i < tail.len() - 1 implies has_edge(
            e2,
            #[trigger] tail[i],
            tail[i + 1],
        ) by {
            assert(has_edge(e2, p[i + 1], p[i + 2]));
        }
        lemma_new_edge_path(e, from, to, tail);
        assert(has_edge(e2, p[0], p[1]));
        let first_in_e = has_edge(e, p[0], p[1]);
        if !first_in_e {
            // The first step must be the new edge.
            assert(p[0] == from && p[1] == to);
            if is_path(e, tail) {
                assert(reaches(e, to, p.last())) by {
                    assert(tail.first() == to && tail.last() == p.last());
                }
                lemma_reaches_self(e, from);
            } else {
                // tail reaches from `to` back to `from`: contradiction.
                assert(reaches(e, tail.first(), from));
                assert(false);
            }
        } else {
            if is_path(e, tail) {
                assert forall|i: int| 0 <= i < p.len() - 1 implies has_edge(
                    e,
                    #[trigger] p[i],
                    p[i + 1],
                ) by {
                    if i > 0 {
                        assert(has_edge(e, tail[i - 1], tail[i]));
                    }
                }
                assert(is_path(e, p));
            } else {
                assert(reaches(e, p[1], from) && reaches(e, to, p.last()));
                let q = choose|q: Seq<u32>|
                    is_path(e, q) && q.first() == p[1] && q.last() == from;
                let r = seq![p[0]] + q;
                assert forall|i: int| 0 <= i < r.len() - 1 implies has_edge(
                    e,
                    #[trigger] r[i],
                    r[i + 1],
                ) by {
                    if i == 0 {
                        assert(r[0] == p[0] && r[1] == q[0]);
                    } else {
                        assert(has_edge(e, q[i - 1], q[i]));
                    }
                }
                assert(is_path(e, r) && r.first() == p.first() && r.last() == from);
            }
        }
    }
}

/// Inserting an edge whose target does not already reach its source
/// keeps the graph acyclic.  This is the inductive step behind the
/// guarantee that any sequence of accepted relation insertions leaves
/// the dependency graph acyclic.
pub proof fn lemma_acyclic_insert(e: EdgeMap, from: u32, to: u32)
    requires
        acyclic(e),
        !reaches(e, to, from),
    ensures
        acyclic(add_edge(e, from, to)),
{
    let e2 = add_edge(e, from, to);
    assert forall|p: Seq<u32>| #[trigger] is_path(e2, p) && p.len() >= 2 implies p.first()
        != p.last() by {
        lemma_new_edge_path(e, from, to, p);
        if is_path(e, p) {
        } else {
            if p.first() == p.last() {
                lemma_reaches_trans(e, to, p.last(), from);
                assert(false);
            }
        }
    }
}

/// In an acyclic graph, nodes that reach each other are one node: no
/// node is reachable from another node that it itself reaches.
pub proof fn lemma_no_mutual_reach(e: EdgeMap, a: u32, b: u32)
    requires
        acyclic(e),
        reaches(e, a, b),
        reaches(e, b, a),
    ensures
        a == b,
{
    if a != b {
        let p = choose|p: Seq<u32>| is_path(e, p) && p.first() == a && p.last() == b;
        let q = choose|q: Seq<u32>| is_path(e, q) && q.first() == b && q.last() == a;
        lemma_path_concat(e, p, q);
        let r = p + q.drop_first();
        assert(r.len() >= 2);
        assert(is_path(e, r) && r.first() == r.last());
    }
}

/// Everything reachable from a node of a successor-closed set stays in
/// the set.
proof fn lemma_closed_set_confines(e: EdgeMap, s: Set<u32>, p: Seq<u32>)
    requires
        is_path(e, p),
        s.contains(p.first()),
        forall|a: u32, b: u32| s.contains(a) && has_edge(e, a, b) ==> s.contains(b),
    ensures
        s.contains(p.last()),
    decreases p.len(),
{
    if p.len() > 1 {
        assert(has_edge(e, p[0], p[1]));
        let tail = p.drop_first();
        assert forall|i: int| 0 <= i < tail.len() - 1 implies has_edge(
            e,
            #[trigger] tail[i],
            tail[i + 1],
        ) by {
            assert(has_edge(e, p[i + 1], p[i + 2]));
        }
        lemma_closed_set_confines(e, s, tail);
    }
}

/// Adding an edge and removing it again restores the edge relation; the
/// relation insertion and removal round-trip.
pub proof fn lemma_edge_roundtrip(e: EdgeMap, from: u32, to: u32)
    requires
        e.contains_key(from),
        !e[from].contains(to),
    ensures
        remove_edge(add_edge(e, from, to), from, to) == e,
{
    let e1 = remove_edge(add_edge(e, from, to), from, to);
    assert(e1[from] =~= e[from]);
    assert(e1 =~= e);
}

/// One wait dependency: a thread awaiting a signal from a channel.
#[derive(Clone, Copy, PartialEq, Eq, Structural)]
pub struct WaitDependency {
    /// Thread that waits for a signal.
    waiter: crate::threads::Key,
    /// Source from which the signal is expected.
    signal_source: crate::channels::Key,
}

impl WaitDependency {
    /// Create new dependency based on thread that awaits
    /// the source signal.
    pub fn new(waiter: crate::threads::Key, signal_source: crate::channels::Key) -> (w: Self)
        ensures
            w.waiter() == waiter,
            w.signal_source() == signal_source,
    {
        WaitDependency { waiter, signal_source }
    }

    /// The thread that waits for the signal.
    #[verifier::when_used_as_spec(spec_waiter)]
    pub fn waiter(&self) -> (t: crate::threads::Key)
        ensures
            t == self.waiter(),
    {
        self.waiter
    }

    /// Source from which the signal is expected.
    #[verifier::when_used_as_spec(spec_signal_source)]
    pub fn signal_source(&self) -> (c: crate::channels::Key)
        ensures
            c == self.signal_source(),
    {
        self.signal_source
    }

    pub closed spec fn spec_waiter(&self) -> crate::threads::Key {
        self.waiter
    }

    pub closed spec fn spec_signal_source(&self) -> crate::channels::Key {
        self.signal_source
    }
}

/// A node of the graph that may be connected to other nodes.
pub struct GraphNode {
    relations: VecSet<u32>,
}

impl View for GraphNode {
    type V = Set<u32>;

    closed spec fn view(&self) -> Set<u32> {
        self.relations@
    }
}

impl Stored for GraphNode {
    open spec fn inv(&self) -> bool {
        self.wf()
    }
}

impl GraphNode {
    pub closed spec fn wf(&self) -> bool {
        self.relations.wf()
    }

    /// Check whether this node contains relations to given node.
    pub fn relation_exists(&self, node: GraphNodeKey) -> (r: bool)
        ensures
            r == self@.contains(node),
    {
        self.relations.contains(&node)
    }
}

/// Graph that shows relations between different channels. Used to find
/// deadlocks before they can occur.
pub struct Graph {
    nodes: VecMap<u32, GraphNode>,
    next_id: u32,
}

impl View for Graph {
    type V = EdgeMap;

    closed spec fn view(&self) -> EdgeMap {
        self.nodes@
    }
}

impl Graph {
    /// The next node identifier to be allocated.
    pub closed spec fn next_key(&self) -> u32 {
        self.next_id
    }

    pub closed spec fn wf(&self) -> bool {
        &&& self.nodes.wf()
        &&& forall|i: int|
            0 <= i < self.nodes.kseq().len() ==> #[trigger] self.nodes.kseq()[i] < self.next_id
        &&& edges_closed(self@)
        &&& acyclic(self@)
    }

    pub proof fn lemma_wf(&self)
        requires
            self.wf(),
        ensures
            edges_closed(self@),
            acyclic(self@),
            self@.dom().finite(),
    {
        self.nodes.lemma_props();
    }

    /// Create new empty graph.
    pub fn new() -> (g: Self)
        ensures
            g.wf(),
            g@ == Map::<u32, Set<u32>>::empty(),
            g.next_key() == 0,
    {
        let g = Graph { nodes: VecMap::new(), next_id: 0 };
        proof {
            assert forall|p: Seq<u32>| #[trigger] is_path(g@, p) && p.len() >= 2 implies p.first()
                != p.last() by {
                assert(!has_edge(g@, p[0], p[1]));
            }
        }
        g
    }

    pub fn generate_new_node_key(&mut self) -> (k: GraphNodeKey)
        requires
            old(self).wf(),
            old(self).next_key() < u32::MAX,
        ensures
            final(self).wf(),
            final(self)@ == old(self)@,
            k == old(self).next_key(),
            final(self).next_key() == k + 1,
            !final(self)@.contains_key(k),
    {
        let new_key = self.next_id;
        self.next_id = new_key + 1;
        proof {
            self.nodes.lemma_props();
            assert(!self.nodes.kseq().contains(new_key));
        }
        new_key
    }

    /// Create new node that is not connected to any other.
    pub fn new_node(&mut self) -> (k: GraphNodeKey)
        requires
            old(self).wf(),
            old(self).next_key() < u32::MAX,
        ensures
            final(self).wf(),
            k == old(self).next_key(),
            final(self).next_key() == k + 1,
            !old(self)@.contains_key(k),
            final(self)@ == old(self)@.insert(k, Set::<u32>::empty()),
    {
        let key = self.generate_new_node_key();
        let node = GraphNode { relations: VecSet::new() };
        self.nodes.insert_new(key, node);
        proof {
            let e = old(self)@;
            let e2 = self@;
            assert forall|i: int| 0 <= i < self.nodes.kseq().len() implies #[trigger] self
                .nodes
                .kseq()[i] < self.next_id by {
                if i < old(self).nodes.kseq().len() {
                    assert(old(self).nodes.kseq()[i] < old(self).next_id);
                }
            }
            assert forall|a: u32, b: u32| has_edge(e2, a, b) implies e2.contains_key(b) by {
                if a != key {
                    assert(has_edge(e, a, b));
                }
            }
            assert forall|p: Seq<u32>| #[trigger] is_path(e2, p) && p.len() >= 2 implies p.first()
                != p.last() by {
                assert forall|i: int| 0 <= i < p.len() - 1 implies has_edge(
                    e,
                    #[trigger] p[i],
                    p[i + 1],
                ) by {
                    assert(has_edge(e2, p[i], p[i + 1]));
                    assert(p[i] != key);
                }
                assert(is_path(e, p));
            }
        }
        key
    }

    /// Whether the graph connects `start` to `target` by some
    /// (possibly empty) chain of edges.
    pub fn can_reach(&self, start: GraphNodeKey, target: GraphNodeKey) -> (r: bool)
        requires
            self.wf(),
            self@.contains_key(start),
        ensures
            r == reaches(self@, start, target),
    {
        let e = Ghost(self@);
        if start == target {
            proof {
                lemma_reaches_self(e@, start);
            }
            return true;
        }
        let total = self.nodes.len();
        let mut visited: VecSet<u32> = VecSet::new();
        let mut stack: Vec<u32> = Vec::new();
        visited.insert(start);
        stack.push(start);
        proof {
            lemma_reaches_self(e@, start);
            self.nodes.lemma_props();
            visited.lemma_card();
            assert(visited@ =~= Set::<u32>::empty().insert(start));
        }
        loop
            invariant
                self.wf(),
                e@ == self@,
                total == self.nodes.kseq().len(),
                visited.wf(),
                visited@.contains(start),
                start != target,
                !visited@.contains(target),
                forall|x: u32|
                    #[trigger] visited@.contains(x) ==> reaches(e@, start, x)
                        && e@.contains_key(x),
                forall|j: int| 0 <= j < stack@.len() ==> visited@.contains(#[trigger] stack@[j]),
                forall|x: u32, b: u32|
                    visited@.contains(x) && !stack@.contains(x) && has_edge(e@, x, b)
                        ==> visited@.contains(b),
                visited.vseq().len() <= total,
            ensures
                stack@.len() == 0,
            decreases total - visited.vseq().len(), stack@.len(),
        {
            let ghost head_stack = stack@;
            let cur = match stack.pop() {
                Some(c) => c,
                None => {
                    break ;
                },
            };
            let ghost vlen_at_pop = visited.vseq().len();
            let ghost stack_at_pop = stack@;
            proof {
                assert forall|x: u32, b: u32|
                    visited@.contains(x) && !stack@.contains(x) && x != cur && has_edge(e@, x, b)
                        implies visited@.contains(b) by {
                    assert(!head_stack.contains(x)) by {
                        if head_stack.contains(x) {
                            let i = choose|i: int|
                                0 <= i < head_stack.len() && head_stack[i] == x;
                            if i < head_stack.len() - 1 {
                                assert(stack@[i] == x);
                            }
                        }
                    }
                }
            }
            let node = match self.nodes.get(&cur) {
                Some(n) => n,
                None => {
                    proof {
                        assert(false);
                    }
                    vstd::pervasive::unreached()
                },
            };
            let n_rel = node.relations.len();
            let mut j: usize = 0;
            while j < n_rel
                invariant
                    self.wf(),
                    e@ == self@,
                    total == self.nodes.kseq().len(),
                    visited.wf(),
                    visited@.contains(start),
                    start != target,
                    !visited@.contains(target),
                    e@.contains_key(cur),
                    node.wf(),
                    node@ == e@[cur],
                    n_rel == node.relations.vseq().len(),
                    j <= n_rel,
                    visited@.contains(cur),
                    reaches(e@, start, cur),
                    forall|x: u32|
                        #[trigger] visited@.contains(x) ==> reaches(e@, start, x)
                            && e@.contains_key(x),
                    forall|jj: int|
                        0 <= jj < stack@.len() ==> visited@.contains(#[trigger] stack@[jj]),
                    forall|x: u32, b: u32|
                        visited@.contains(x) && !stack@.contains(x) && x != cur && has_edge(
                            e@,
                            x,
                            b,
                        ) ==> visited@.contains(b),
                    forall|jj: int|
                        0 <= jj < j ==> visited@.contains(#[trigger] node.relations.vseq()[jj]),
                    visited.vseq().len() <= total,
                    visited.vseq().len() >= vlen_at_pop,
                    visited.vseq().len() == vlen_at_pop ==> stack@ == stack_at_pop,
                decreases n_rel - j,
            {
                let succ = *node.relations.at(j);
                proof {
                    node.relations.lemma_vseq();
                    assert(node@.contains(succ));
                    assert(has_edge(e@, cur, succ));
                    lemma_reaches_step(e@, start, cur, succ);
                }
                if succ == target {
                    return true;
                }
                if !visited.contains(&succ) {
                    visited.insert(succ);
                    stack.push(succ);
                    proof {
                        self.nodes.lemma_props();
                        visited.lemma_card();
                        assert(e@.dom().contains(succ));
                        assert(visited@.subset_of(e@.dom()));
                        vstd::set_lib::lemma_len_subset(visited@, e@.dom());
                    }
                }
                j = j + 1;
            }
            proof {
                assert forall|x: u32, b: u32|
                    visited@.contains(x) && !stack@.contains(x) && has_edge(e@, x, b)
                        implies visited@.contains(b) by {
                    if x == cur {
                        node.relations.lemma_vseq();
                        assert(e@[cur].contains(b));
                        assert(node@.contains(b));
                        let jj = choose|jj: int|
                            0 <= jj < node.relations.vseq().len() && node.relations.vseq()[jj]
                                == b;
                        assert(visited@.contains(node.relations.vseq()[jj]));
                    }
                }
            }
        }
        proof {
            // The stack is empty: the visited set is closed under edges,
            // so nothing outside it is reachable from `start`.
            assert forall|x: u32, b: u32| visited@.contains(x) && has_edge(e@, x, b)
                implies visited@.contains(b) by {
                assert(!stack@.contains(x));
            }
            if reaches(e@, start, target) {
                let p = choose|p: Seq<u32>|
                    is_path(e@, p) && p.first() == start && p.last() == target;
                lemma_closed_set_confines(e@, visited@, p);
            }
        }
        false
    }

    /// Whether the graph holds a relation from one node to another.
    pub fn relation_exists(&self, from: GraphNodeKey, to: GraphNodeKey) -> (r: bool)
        requires
            self.wf(),
            self@.contains_key(from),
        ensures
            r == self@[from].contains(to),
    {
        match self.nodes.get(&from) {
            Some(node) => node.relation_exists(to),
            None => {
                proof {
                    assert(false);
                }
                vstd::pervasive::unreached()
            },
        }
    }

    /// Add new relation from one node to another.
    ///
    /// Returns `Ok(true)` on success and `Ok(false)` if the relation is
    /// already present.  An error occurs if the new relation would form
    /// a loop; the graph is then left unchanged.
    pub fn add_relation(&mut self, from: GraphNodeKey, to: GraphNodeKey) -> (r: Result<
        bool,
        (),
    >)
        requires
            old(self).wf(),
            old(self)@.contains_key(from),
            old(self)@.contains_key(to),
        ensures
            final(self).wf(),
            final(self)@.dom() == old(self)@.dom(),
            final(self).next_key() == old(self).next_key(),
            match r {
                Ok(true) => {
                    &&& !old(self)@[from].contains(to)
                    &&& !reaches(old(self)@, to, from)
                    &&& final(self)@ == add_edge(old(self)@, from, to)
                },
                Ok(false) => old(self)@[from].contains(to) && *final(self) == *old(self),
                Err(_) => {
                    &&& !old(self)@[from].contains(to)
                    &&& reaches(old(self)@, to, from)
                    &&& *final(self) == *old(self)
                },
            },
    {
        let exists_already = match self.nodes.get(&from) {
            Some(node) => node.relation_exists(to),
            None => {
                proof {
                    assert(false);
                }
                vstd::pervasive::unreached()
            },
        };
        if exists_already {
            return Ok(false);
        }
        if self.can_reach(to, from) {
            return Err(());
        }
        match self.nodes.get_mut(&from) {
            Some(node) => {
                node.relations.insert(to);
            },
            None => {
                proof {
                    assert(false);
                }
                vstd::pervasive::unreached()
            },
        }
        proof {
            let e = old(self)@;
            let e2 = self@;
            assert(e2 =~= add_edge(e, from, to));
            assert(e2.dom() =~= e.dom());
            lemma_acyclic_insert(e, from, to);
            assert forall|a: u32, b: u32| has_edge(e2, a, b) implies e2.contains_key(b) by {
                if a == from {
                    if b != to {
                        assert(has_edge(e, a, b));
                    }
                } else {
                    assert(has_edge(e, a, b));
                }
            }
        }
        Ok(true)
    }

    /// Remove a relation between two nodes.
    ///
    /// True on success and false if no such relation was found.
    pub fn remove_relation(&mut self, from: GraphNodeKey, to: GraphNodeKey) -> (r: bool)
        requires
            old(self).wf(),
            old(self)@.contains_key(from),
        ensures
            final(self).wf(),
            final(self)@.dom() == old(self)@.dom(),
            final(self).next_key() == old(self).next_key(),
            r == old(self)@[from].contains(to),
            final(self)@ == remove_edge(old(self)@, from, to),
    {
        let r = match self.nodes.get_mut(&from) {
            Some(node) => node.relations.remove(&to),
            None => {
                proof {
                    assert(false);
                }
                vstd::pervasive::unreached()
            },
        };
        proof {
            let e = old(self)@;
            let e2 = self@;
            assert(e2 =~= remove_edge(e, from, to));
            assert(e2.dom() =~= e.dom());
            assert(edges_le(e2, e));
            lemma_acyclic_mono(e2, e);
            assert forall|a: u32, b: u32| has_edge(e2, a, b) implies e2.contains_key(b) by {
                assert(has_edge(e, a, b));
            }
        }
        r
    }

    /// Remove a node together with every edge that leaves it or enters
    /// it.
    pub fn remove_node(&mut self, n: GraphNodeKey)
        requires
            old(self).wf(),
        ensures
            final(self).wf(),
            final(self).next_key() == old(self).next_key(),
            final(self)@.dom() == old(self)@.dom().remove(n),
            forall|k: u32|
                #[trigger] final(self)@.contains_key(k) ==> final(self)@[k] == old(
                    self,
                )@.index(k).remove(n),
    {
        self.nodes.remove(&n);
        proof {
            assert(self@.dom() =~= old(self)@.dom().remove(n)) by {
                self.nodes.lemma_props();
                old(self).nodes.lemma_props();
                if old(self)@.contains_key(n) {
                } else {
                    assert(old(self)@.dom().remove(n) =~= old(self)@.dom());
                }
            }
        }
        let keys = self.nodes.keys();
        proof {
            assert forall|i: int| 0 <= i < keys@.len() implies keys@[i] == self.nodes.kseq()[i] by {
                assert(crate::store::views_of(keys@)[i] == self.nodes.kseq()[i]);
            }
            assert(keys@ =~= self.nodes.kseq());
            self.nodes.lemma_props();
            assert forall|j: int| 0 <= j < self.nodes.kseq().len() implies #[trigger] self
                .nodes
                .kseq()[j] < self.next_key() by {
                assert(old(self).nodes.kseq().contains(self.nodes.kseq()[j]));
                let jj = choose|jj: int|
                    0 <= jj < old(self).nodes.kseq().len() && old(self).nodes.kseq()[jj]
                        == self.nodes.kseq()[j];
                assert(old(self).nodes.kseq()[jj] < old(self).next_key());
            }
        }
        let ghost mid = self@;
        let total = keys.len();
        let mut i: usize = 0;
        while i < total
            invariant
                total == keys@.len(),
                i <= total,
                keys@ == self.nodes.kseq(),
                self.nodes.wf(),
                self.next_key() == old(self).next_key(),
                forall|j: int|
                    0 <= j < self.nodes.kseq().len() ==> #[trigger] self.nodes.kseq()[j]
                        < self.next_key(),
                self@.dom() == mid.dom(),
                forall|j: int|
                    0 <= j < i ==> self@.contains_key(#[trigger] keys@[j]) && self@[keys@[j]]
                        == mid[keys@[j]].remove(n),
                forall|j: int|
                    i <= j < total ==> self@.contains_key(#[trigger] keys@[j]) && self@[keys@[j]]
                        == mid[keys@[j]],
            decreases total - i,
        {
            let k = keys[i];
            match self.nodes.get_mut(&k) {
                Some(node) => {
                    node.relations.remove(&n);
                },
                None => {
                    proof {
                        assert(false);
                    }
                    vstd::pervasive::unreached()
                },
            }
            proof {
                assert(self.nodes.wf());
                assert(self@.dom() =~= mid.dom());
                assert forall|j: int| i + 1 <= j < total implies self@.contains_key(
                    #[trigger] keys@[j],
                ) && self@[keys@[j]] == mid[keys@[j]] by {
                    self.nodes.lemma_props();
                    let s = self.nodes.kseq();
                    assert(s.no_duplicates());
                    assert(s[j] != s[i as int]);
                }
            }
            i = i + 1;
        }
        proof {
            let e = old(self)@;
            let e2 = self@;
            self.nodes.lemma_props();
            assert forall|k: u32| #[trigger] e2.contains_key(k) implies e2[k] == e[k].remove(
                n,
            ) by {
                assert(self.nodes.kseq().to_set().contains(k));
                let j = choose|j: int|
                    0 <= j < self.nodes.kseq().len() && self.nodes.kseq()[j] == k;
                assert(self@[keys@[j]] == mid[keys@[j]].remove(n));
                assert(mid[k] == e[k]);
            }
            assert(edges_le(e2, e)) by {
                assert forall|a: u32, b: u32| has_edge(e2, a, b) implies has_edge(e, a, b) by {
                    assert(e2[a] == e[a].remove(n));
                }
            }
            lemma_acyclic_mono(e2, e);
            assert forall|a: u32, b: u32| has_edge(e2, a, b) implies e2.contains_key(b) by {
                assert(has_edge(e, a, b));
                assert(e2[a] == e[a].remove(n));
                assert(b != n);
            }
        }
    }
}

/// Mathematical model of the wait map: the channel-to-waiters index,
/// its reverse index, the channel-to-graph-node association and the
/// dependency graph's edge relation.
pub ghost struct WaitModel {
    pub chan: Map<u32, Set<u32>>,
    pub thr: Map<u32, Set<u32>>,
    pub node: Map<u32, u32>,
    pub graph: EdgeMap,
    pub next_node: u32,
}

/// The coupling invariant of the wait map:
/// - the two indices mirror each other exactly,
/// - the reverse index holds no empty entries,
/// - every registered channel owns a distinct live graph node,
/// - and the dependency graph is closed and acyclic.
pub open spec fn wait_model_wf(m: WaitModel) -> bool {
    &&& forall|c: u32, t: u32|
        m.chan.contains_key(c) && #[trigger] m.chan[c].contains(t) ==> m.thr.contains_key(t)
            && m.thr[t].contains(c)
    &&& forall|t: u32, c: u32|
        m.thr.contains_key(t) && #[trigger] m.thr[t].contains(c) ==> m.chan.contains_key(c)
            && m.chan[c].contains(t)
    &&& forall|t: u32| #[trigger] m.thr.contains_key(t) ==> exists|c: u32| m.thr[t].contains(c)
    &&& m.node.dom() == m.chan.dom()
    &&& forall|c1: u32, c2: u32|
        m.node.contains_key(c1) && m.node.contains_key(c2) && #[trigger] m.node[c1]
            == #[trigger] m.node[c2] ==> c1 == c2
    &&& forall|c: u32| #[trigger] m.node.contains_key(c) ==> m.graph.contains_key(m.node[c])
    &&& edges_closed(m.graph)
    &&& acyclic(m.graph)
}

/// A thread's entry of a reverse index, or the empty set if it has
/// none.
pub open spec fn entry_or_empty(thr: Map<u32, Set<u32>>, t: u32) -> Set<u32> {
    if thr.contains_key(t) {
        thr[t]
    } else {
        Set::empty()
    }
}

/// The reverse-index entry of a thread, or the empty set if it has none.
pub open spec fn thr_entry(m: WaitModel, t: u32) -> Set<u32> {
    entry_or_empty(m.thr, t)
}

/// The reverse index after channel `c` is mirrored into the entry of
/// every thread of `ws`.
pub open spec fn mirror_waiters(thr: Map<u32, Set<u32>>, ws: Set<u32>, c: u32) -> Map<
    u32,
    Set<u32>,
> {
    Map::new(
        |t: u32| thr.contains_key(t) || ws.contains(t),
        |t: u32|
            if ws.contains(t) {
                entry_or_empty(thr, t).insert(c)
            } else {
                thr[t]
            },
    )
}

/// The wait map after a waiter is recorded on a registered channel.
pub open spec fn spec_add_waiter(m: WaitModel, c: u32, t: u32) -> WaitModel {
    WaitModel {
        chan: m.chan.insert(c, m.chan[c].insert(t)),
        thr: m.thr.insert(t, thr_entry(m, t).insert(c)),
        node: m.node,
        graph: m.graph,
        next_node: m.next_node,
    }
}

/// The wait map after a waiter is dropped from a channel; an emptied
/// reverse-index entry disappears.
pub open spec fn spec_remove_waiter(m: WaitModel, c: u32, t: u32) -> WaitModel {
    let chan2 = if m.chan.contains_key(c) {
        m.chan.insert(c, m.chan[c].remove(t))
    } else {
        m.chan
    };
    let thr2 = if m.thr.contains_key(t) {
        if m.thr[t].remove(c) == Set::<u32>::empty() {
            m.thr.remove(t)
        } else {
            m.thr.insert(t, m.thr[t].remove(c))
        }
    } else {
        m.thr
    };
    WaitModel { chan: chan2, thr: thr2, node: m.node, graph: m.graph, next_node: m.next_node }
}

/// The wait map after a thread is dropped from every channel it waits
/// on.
pub open spec fn spec_remove_thread(m: WaitModel, t: u32) -> WaitModel {
    WaitModel {
        chan: Map::new(|c: u32| m.chan.contains_key(c), |c: u32| m.chan[c].remove(t)),
        thr: m.thr.remove(t),
        node: m.node,
        graph: m.graph,
        next_node: m.next_node,
    }
}

/// Removing a thread is idempotent: a second removal changes nothing.
pub proof fn lemma_remove_thread_idempotent(m: WaitModel, t: u32)
    ensures
        spec_remove_thread(spec_remove_thread(m, t), t) == spec_remove_thread(m, t),
{
    let m1 = spec_remove_thread(m, t);
    let m2 = spec_remove_thread(m1, t);
    assert(m2.chan =~~= m1.chan);
    assert(m2.thr =~= m1.thr);
}

/// Recording a waiter on a registered channel and dropping it again
/// returns the wait map to its prior state.
pub proof fn lemma_waiter_roundtrip(m: WaitModel, c: u32, t: u32)
    requires
        wait_model_wf(m),
        m.chan.contains_key(c),
        !m.chan[c].contains(t),
    ensures
        spec_remove_waiter(spec_add_waiter(m, c, t), c, t) == m,
{
    let m1 = spec_add_waiter(m, c, t);
    let m2 = spec_remove_waiter(m1, c, t);
    assert(!thr_entry(m, t).contains(c));
    assert(m1.thr[t].remove(c) =~= thr_entry(m, t));
    assert(m2.chan =~= m.chan) by {
        assert(m1.chan[c].remove(t) =~= m.chan[c]);
    }
    if m.thr.contains_key(t) {
        let w = choose|w: u32| m.thr[t].contains(w);
        assert(m1.thr[t].remove(c) != Set::<u32>::empty()) by {
            assert(thr_entry(m, t).contains(w));
        }
        assert(m2.thr =~= m.thr);
    } else {
        assert(m1.thr[t].remove(c) =~= Set::<u32>::empty());
        assert(m2.thr =~= m.thr);
    }
}

/// Map that contains all awaiting threads, their channels, and the
/// channel dependency graph.
pub struct WaitMap {
    /// Map that connects each single channel with the set of threads
    /// waiting for its signal.
    chan: VecMap<u32, VecSet<u32>>,
    /// This map connects each single thread with the channels where it
    /// waits for a signal.
    thr: VecMap<u32, VecSet<u32>>,
    /// Connection between each channel and the graph node that
    /// represents the channel.
    chan_to_graph: VecMap<u32, u32>,
    /// The graph of dependencies.
    graph: Graph,
}

impl View for WaitMap {
    type V = WaitModel;

    closed spec fn view(&self) -> WaitModel {
        WaitModel {
            chan: self.chan@,
            thr: self.thr@,
            node: self.chan_to_graph@,
            graph: self.graph@,
            next_node: self.graph.next_key(),
        }
    }
}

impl WaitMap {
    pub closed spec fn wf(&self) -> bool {
        &&& self.chan.wf()
        &&& self.thr.wf()
        &&& self.chan_to_graph.wf()
        &&& self.graph.wf()
        &&& wait_model_wf(self@)
    }

    pub proof fn lemma_wf(&self)
        requires
            self.wf(),
        ensures
            wait_model_wf(self@),
    {
    }

    /// Create new wait map.
    pub fn new() -> (w: Self)
        ensures
            w.wf(),
            w@.chan == Map::<u32, Set<u32>>::empty(),
            w@.thr == Map::<u32, Set<u32>>::empty(),
            w@.node == Map::<u32, u32>::empty(),
            w@.graph == Map::<u32, Set<u32>>::empty(),
            w@.next_node == 0,
    {
        let w = WaitMap {
            chan: VecMap::new(),
            thr: VecMap::new(),
            chan_to_graph: VecMap::new(),
            graph: Graph::new(),
        };
        proof {
            assert(w@.node.dom() =~= w@.chan.dom());
        }
        w
    }

    /// Register a channel with an initial set of waiters. Returns false
    /// if the channel is already present; the existing channel is then
    /// left unchanged.  A new channel receives a fresh graph node, and
    /// each waiter's reverse entry is extended by the channel.
    pub fn add_channel(
        &mut self,
        key: crate::channels::Key,
        waiters: VecSet<crate::threads::Key>,
    ) -> (r: bool)
        requires
            old(self).wf(),
            waiters.wf(),
            old(self)@.next_node < u32::MAX,
        ensures
            final(self).wf(),
            r == !old(self)@.chan.contains_key(key),
            !r ==> final(self)@ == old(self)@,
            r ==> final(self)@ == (WaitModel {
                chan: old(self)@.chan.insert(key, waiters@),
                thr: mirror_waiters(old(self)@.thr, waiters@, key),
                node: old(self)@.node.insert(key, old(self)@.next_node),
                graph: old(self)@.graph.insert(old(self)@.next_node, Set::empty()),
                next_node: (old(self)@.next_node + 1) as u32,
            }),
    {
        let ghost m = old(self)@;
        if self.chan.contains_key(&key) {
            return false;
        }
        let n = self.graph.new_node();
        proof {
            assert(!self.chan_to_graph@.contains_key(key)) by {
                assert(m.node.dom() == m.chan.dom());
            }
        }
        self.chan_to_graph.insert_new(key, n);
        let ghost graph_snap = self.graph;
        let ghost ctg_snap = self.chan_to_graph;
        let ghost wseq = waiters.vseq();
        proof {
            assert(wseq.take(0).to_set() =~= Set::<u32>::empty());
            assert(self.thr@ =~= mirror_waiters(m.thr, wseq.take(0).to_set(), key));
        }
        let total = waiters.len();
        let mut i: usize = 0;
        while i < total
            invariant
                old(self).wf(),
                m == old(self)@,
                waiters.wf(),
                waiters.vseq() == wseq,
                total == wseq.len(),
                i <= total,
                self.thr.wf(),
                self.chan == old(self).chan,
                self.graph == graph_snap,
                self.chan_to_graph == ctg_snap,
                self.thr@ == mirror_waiters(m.thr, wseq.take(i as int).to_set(), key),
            decreases total - i,
        {
            let t = *waiters.at(i);
            let ghost pre = wseq.take(i as int).to_set();
            let ghost post = wseq.take(i + 1 as int).to_set();
            proof {
                waiters.lemma_card();
                assert(!pre.contains(t)) by {
                    if pre.contains(t) {
                        let j = choose|j: int| 0 <= j < i && wseq.take(i as int)[j] == t;
                        assert(wseq[j] == wseq[i as int]);
                    }
                }
                assert(wseq.take(i + 1 as int) =~= wseq.take(i as int).push(t));
                assert(post =~= pre.insert(t));
            }
            if self.thr.contains_key(&t) {
                match self.thr.get_mut(&t) {
                    Some(cs) => {
                        cs.insert(key);
                    },
                    None => {
                        proof {
                            assert(false);
                        }
                        vstd::pervasive::unreached()
                    },
                }
            } else {
                let mut cs = VecSet::new();
                cs.insert(key);
                proof {
                    assert(cs@ =~= entry_or_empty(m.thr, t).insert(key)) by {
                        assert(!m.thr.contains_key(t));
                    }
                }
                self.thr.insert_new(t, cs);
            }
            proof {
                assert(self.thr@ =~= mirror_waiters(m.thr, post, key));
            }
            i = i + 1;
        }
        self.chan.insert_new(key, waiters);
        proof {
            assert(wseq.take(total as int) =~= wseq);
            waiters.lemma_card();
            let m2 = self@;
            assert(m2.thr == mirror_waiters(m.thr, waiters@, key));
            lemma_add_channel_wf(m, m2, key, waiters@, n);
        }
        true
    }

    /// Try removing channel from the map. It is only removed if it has
    /// no waiters in it; its graph node then disappears together with
    /// every edge incident on it.
    ///
    /// True is returned on successful remove and false if there were
    /// some waiters in it and thus the channel remains. None is
    /// returned if the channel was not found.
    pub fn remove_channel(&mut self, key: &crate::channels::Key) -> (r: Option<bool>)
        requires
            old(self).wf(),
        ensures
            final(self).wf(),
            match r {
                None => !old(self)@.chan.contains_key(*key) && final(self)@ == old(self)@,
                Some(false) => {
                    &&& old(self)@.chan.contains_key(*key)
                    &&& old(self)@.chan[*key] != Set::<u32>::empty()
                    &&& final(self)@ == old(self)@
                },
                Some(true) => {
                    &&& old(self)@.chan.contains_key(*key)
                    &&& old(self)@.chan[*key] == Set::<u32>::empty()
                    &&& final(self)@.chan == old(self)@.chan.remove(*key)
                    &&& final(self)@.thr == old(self)@.thr
                    &&& final(self)@.node == old(self)@.node.remove(*key)
                    &&& final(self)@.next_node == old(self)@.next_node
                    &&& final(self)@.graph.dom() == old(self)@.graph.dom().remove(
                        old(self)@.node[*key],
                    )
                    &&& forall|k: u32|
                        #[trigger] final(self)@.graph.contains_key(k) ==> final(self)@.graph[k]
                            == old(self)@.graph[k].remove(old(self)@.node[*key])
                },
            },
    {
        let ghost m = old(self)@;
        if !self.chan.contains_key(key) {
            return None;
        }
        let has_waiters = match self.chan.get(key) {
            Some(ws) => !ws.is_empty(),
            None => {
                proof {
                    assert(false);
                }
                vstd::pervasive::unreached()
            },
        };
        if has_waiters {
            return Some(false);
        }
        self.chan.remove(key);
        let n = match self.chan_to_graph.remove(key) {
            Some(n) => n,
            None => {
                proof {
                    assert(m.node.dom() == m.chan.dom());
                    assert(false);
                }
                vstd::pervasive::unreached()
            },
        };
        self.graph.remove_node(n);
        proof {
            let m2 = self@;
            assert(wait_model_wf(m2)) by {
                assert forall|c: u32, w: u32|
                    m2.chan.contains_key(c) && #[trigger] m2.chan[c].contains(w)
                        implies m2.thr.contains_key(w) && m2.thr[w].contains(c) by {
                    assert(m.chan[c].contains(w));
                }
                assert forall|w: u32, c: u32|
                    m2.thr.contains_key(w) && #[trigger] m2.thr[w].contains(c)
                        implies m2.chan.contains_key(c) && m2.chan[c].contains(w) by {
                    assert(m.thr[w].contains(c));
                    assert(m.chan[c].contains(w));
                    assert(c != *key);
                }
                assert forall|w: u32| #[trigger] m2.thr.contains_key(w) implies exists|c: u32|
                    m2.thr[w].contains(c) by {
                    let c = choose|c: u32| m.thr[w].contains(c);
                    assert(m2.thr[w].contains(c));
                }
                assert(m2.node.dom() =~= m2.chan.dom());
                assert forall|c: u32| #[trigger] m2.node.contains_key(c)
                    implies m2.graph.contains_key(m2.node[c]) by {
                    assert(m.node[c] != n);
                    assert(m.graph.contains_key(m.node[c]));
                    assert(m2.graph.dom() == m.graph.dom().remove(n));
                }
            }
        }
        Some(true)
    }

    /// Record `waiter` in the channel's waiter set and the channel in
    /// the waiter's reverse entry, creating either entry if missing.  A
    /// channel registered this way also receives its graph node.
    ///
    /// Returns true when the channel already existed prior to the call
    /// and false when it had to be created first.
    pub fn add_waiter(&mut self, key: crate::channels::Key, waiter: crate::threads::Key) -> (r:
        bool)
        requires
            old(self).wf(),
            !old(self)@.chan.contains_key(key) ==> old(self)@.next_node < u32::MAX,
        ensures
            final(self).wf(),
            r == old(self)@.chan.contains_key(key),
            r ==> final(self)@ == spec_add_waiter(old(self)@, key, waiter),
            !r ==> final(self)@ == (WaitModel {
                chan: old(self)@.chan.insert(key, Set::empty().insert(waiter)),
                thr: old(self)@.thr.insert(waiter, thr_entry(old(self)@, waiter).insert(key)),
                node: old(self)@.node.insert(key, old(self)@.next_node),
                graph: old(self)@.graph.insert(old(self)@.next_node, Set::empty()),
                next_node: (old(self)@.next_node + 1) as u32,
            }),
    {
        let ghost m = old(self)@;
        let existed = self.chan.contains_key(&key);
        if existed {
            match self.chan.get_mut(&key) {
                Some(ws) => {
                    ws.insert(waiter);
                },
                None => {
                    proof {
                        assert(false);
                    }
                    vstd::pervasive::unreached()
                },
            }
        } else {
            let n = self.graph.new_node();
            proof {
                assert(!self.chan_to_graph@.contains_key(key)) by {
                    assert(m.node.dom() == m.chan.dom());
                }
            }
            self.chan_to_graph.insert_new(key, n);
            let mut ws = VecSet::new();
            ws.insert(waiter);
            self.chan.insert_new(key, ws);
        }
        if self.thr.contains_key(&waiter) {
            match self.thr.get_mut(&waiter) {
                Some(cs) => {
                    cs.insert(key);
                },
                None => {
                    proof {
                        assert(false);
                    }
                    vstd::pervasive::unreached()
                },
            }
            proof {
                assert(self@.thr =~= m.thr.insert(waiter, thr_entry(m, waiter).insert(key)));
            }
        } else {
            let mut cs = VecSet::new();
            cs.insert(key);
            self.thr.insert_new(waiter, cs);
            proof {
                assert(thr_entry(m, waiter).insert(key) =~= Set::<u32>::empty().insert(key));
            }
        }
        proof {
            let m2 = self@;
            if existed {
                assert(m2.chan =~= spec_add_waiter(m, key, waiter).chan);
                assert(m2 == spec_add_waiter(m, key, waiter));
            } else {
                assert(m2.chan =~= m.chan.insert(key, Set::<u32>::empty().insert(waiter)));
            }
            lemma_add_waiter_wf(m, m2, key, waiter);
        }
        existed
    }

    /// Remove waiter from the channel.
    /// Returns true if waiter was found and false otherwise.
    pub fn remove_waiter(&mut self, key: crate::channels::Key, waiter: crate::threads::Key) -> (r:
        bool)
        requires
            old(self).wf(),
        ensures
            final(self).wf(),
            r == (old(self)@.chan.contains_key(key) && old(self)@.chan[key].contains(waiter)),
            final(self)@ == spec_remove_waiter(old(self)@, key, waiter),
            !r ==> final(self)@ == old(self)@,
    {
        let ghost m = old(self)@;
        let present = if self.chan.contains_key(&key) {
            match self.chan.get_mut(&key) {
                Some(ws) => ws.remove(&waiter),
                None => {
                    proof {
                        assert(false);
                    }
                    vstd::pervasive::unreached()
                },
            }
        } else {
            false
        };
        if !present {
            proof {
                let m1 = spec_remove_waiter(m, key, waiter);
                if m.chan.contains_key(key) {
                    assert(m.chan[key].remove(waiter) =~= m.chan[key]);
                    assert(m1.chan =~= m.chan);
                    assert(self@.chan =~= m1.chan);
                }
                if m.thr.contains_key(waiter) {
                    assert(!m.thr[waiter].contains(key));
                    assert(m.thr[waiter].remove(key) =~= m.thr[waiter]);
                    let w = choose|w: u32| m.thr[waiter].contains(w);
                    assert(m.thr[waiter].remove(key).contains(w));
                    assert(m1.thr =~= m.thr);
                } else {
                    assert(m1.thr == m.thr);
                }
                assert(m1 == m);
                if m.chan.contains_key(key) {
                    assert(self@.chan =~= m.chan);
                }
                assert(self@ == m);
            }
            return false;
        }
        proof {
            assert(m.thr.contains_key(waiter) && m.thr[waiter].contains(key)) by {
                assert(m.chan[key].contains(waiter));
            }
        }
        let empty_now = match self.thr.get_mut(&waiter) {
            Some(cs) => {
                cs.remove(&key);
                cs.is_empty()
            },
            None => {
                proof {
                    assert(false);
                }
                vstd::pervasive::unreached()
            },
        };
        if empty_now {
            self.thr.remove(&waiter);
        }
        proof {
            let m2 = self@;
            let m1 = spec_remove_waiter(m, key, waiter);
            assert(m2.thr == m1.thr) by {
                if empty_now {
                    assert(m.thr[waiter].remove(key) =~= Set::<u32>::empty());
                } else {
                    assert(m.thr[waiter].remove(key) != Set::<u32>::empty()) by {
                        let w = choose|w: u32| m.thr.insert(
                            waiter,
                            m.thr[waiter].remove(key),
                        )[waiter].contains(w);
                        assert(m.thr[waiter].remove(key).contains(w));
                    }
                }
            }
            assert(m2 == m1);
            lemma_remove_waiter_wf(m, m2, key, waiter);
        }
        true
    }

    /// Remove thread from all channels where it waits, then drop its
    /// reverse-index entry.  Idempotent.
    ///
    /// Returns true if thread was found and removed, false otherwise.
    pub fn remove_thread(&mut self, key: &crate::threads::Key) -> (r: bool)
        requires
            old(self).wf(),
        ensures
            final(self).wf(),
            r == old(self)@.thr.contains_key(*key),
            final(self)@ == spec_remove_thread(old(self)@, *key),
            !r ==> *final(self) == *old(self),
    {
        let ghost m = old(self)@;
        let t = *key;
        if !self.thr.contains_key(key) {
            proof {
                let m1 = spec_remove_thread(m, t);
                assert(m1.chan =~~= m.chan) by {
                    assert forall|c: u32| m.chan.contains_key(c) implies m.chan[c].remove(t)
                        =~= m.chan[c] by {
                        if m.chan[c].contains(t) {
                            assert(m.thr.contains_key(t));
                        }
                    }
                }
                assert(m1.thr =~= m.thr);
                assert(m1 == m);
            }
            return false;
        }
        let chans = match self.thr.get(key) {
            Some(cs) => cs.dup(),
            None => {
                proof {
                    assert(false);
                }
                vstd::pervasive::unreached()
            },
        };
        let total = chans.len();
        let ghost cseq = chans.vseq();
        let mut i: usize = 0;
        while i < total
            invariant
                old(self).wf(),
                m == old(self)@,
                total == cseq.len(),
                i <= total,
                chans.wf(),
                chans.vseq() == cseq,
                chans@ == m.thr[t],
                m.thr.contains_key(t),
                self.chan.wf(),
                self.thr == old(self).thr,
                self.chan_to_graph == old(self).chan_to_graph,
                self.graph == old(self).graph,
                self@.chan.dom() == m.chan.dom(),
                forall|j: int|
                    0 <= j < i ==> self@.chan[#[trigger] cseq[j]] == m.chan[cseq[j]].remove(t),
                forall|c: u32|
                    m.chan.contains_key(c) && !cseq.take(i as int).contains(c)
                        ==> self@.chan[c] == m.chan[c],
            decreases total - i,
        {
            let c = *chans.at(i);
            proof {
                chans.lemma_vseq();
                assert(m.thr[t].contains(c));
                assert(m.chan.contains_key(c));
                assert(!cseq.take(i as int).contains(c)) by {
                    chans.lemma_card();
                    if cseq.take(i as int).contains(c) {
                        let j = choose|j: int| 0 <= j < i && cseq.take(i as int)[j] == c;
                        assert(cseq[j] == cseq[i as int]);
                    }
                }
            }
            match self.chan.get_mut(&c) {
                Some(ws) => {
                    ws.remove(&t);
                },
                None => {
                    proof {
                        assert(false);
                    }
                    vstd::pervasive::unreached()
                },
            }
            proof {
                assert(self@.chan.dom() =~= m.chan.dom());
                assert forall|c2: u32|
                    m.chan.contains_key(c2) && !cseq.take(i + 1 as int).contains(c2)
                        implies self@.chan[c2] == m.chan[c2] by {
                    assert(!cseq.take(i as int).contains(c2) && c2 != c) by {
                        if cseq.take(i as int).contains(c2) {
                            let j = choose|j: int| 0 <= j < i && cseq.take(i as int)[j] == c2;
                            assert(cseq.take(i + 1 as int)[j] == c2);
                        }
                        assert(cseq.take(i + 1 as int)[i as int] == c);
                    }
                }
                assert forall|j: int| 0 <= j < i + 1 implies self@.chan[#[trigger] cseq[j]]
                    == m.chan[cseq[j]].remove(t) by {
                    if j < i {
                        chans.lemma_card();
                        assert(cseq[j] != cseq[i as int]);
                    }
                }
            }
            i = i + 1;
        }
        self.thr.remove(key);
        proof {
            let m2 = self@;
            let m1 = spec_remove_thread(m, t);
            assert(m2.chan =~~= m1.chan) by {
                chans.lemma_card();
                assert forall|c: u32| #[trigger] m.chan.contains_key(c) implies m2.chan[c]
                    =~= m.chan[c].remove(t) by {
                    if cseq.contains(c) {
                        let j = choose|j: int| 0 <= j < cseq.len() && cseq[j] == c;
                        assert(m2.chan[cseq[j]] == m.chan[cseq[j]].remove(t));
                    } else {
                        assert(cseq.take(total as int) =~= cseq);
                        assert(m2.chan[c] == m.chan[c]);
                        assert(!m.thr[t].contains(c));
                        assert(!m.chan[c].contains(t));
                        assert(m.chan[c].remove(t) =~= m.chan[c]);
                    }
                }
            }
            assert(m2 == m1);
            lemma_remove_thread_wf(m, m2, t);
        }
        true
    }

    /// Map that holds all wait dependencies of the channels.
    pub fn channel_wait_map(&self) -> (r: &VecMap<u32, VecSet<u32>>)
        ensures
            r@ == self@.chan,
            self.wf() ==> r.wf(),
    {
        &self.chan
    }

    /// Map that connects each thread with the channels for which it
    /// waits.
    pub fn thread_wait_map(&self) -> (r: &VecMap<u32, VecSet<u32>>)
        ensures
            r@ == self@.thr,
            self.wf() ==> r.wf(),
    {
        &self.thr
    }

    /// Whether a relation between the two channels' graph nodes is
    /// already present.  None if either channel has no graph node.
    pub fn channel_relation_exists(
        &self,
        to: &crate::channels::Key,
        from: &crate::channels::Key,
    ) -> (r: Option<bool>)
        requires
            self.wf(),
        ensures
            match r {
                None => !(self@.node.contains_key(*to) && self@.node.contains_key(*from)),
                Some(b) => {
                    &&& self@.node.contains_key(*to)
                    &&& self@.node.contains_key(*from)
                    &&& b == self@.graph[self@.node[*from]].contains(self@.node[*to])
                },
            },
    {
        let nt = match self.chan_to_graph.get(to) {
            Some(n) => *n,
            None => {
                return None;
            },
        };
        let nf = match self.chan_to_graph.get(from) {
            Some(n) => *n,
            None => {
                return None;
            },
        };
        Some(self.graph.relation_exists(nf, nt))
    }

    /// Create new relation between channels: the channel of `from`
    /// comes to depend on a signal of the channel of `to`.
    ///
    /// Returns true if the relation was created or already present.
    /// False is returned when a channel was not found by its key.
    /// An error is returned when the relation would form a loop; the
    /// graph is then left unchanged.
    pub fn add_channel_relation(
        &mut self,
        to: &crate::channels::Key,
        from: &crate::channels::Key,
    ) -> (r: Result<bool, ()>)
        requires
            old(self).wf(),
        ensures
            final(self).wf(),
            final(self)@.chan == old(self)@.chan,
            final(self)@.thr == old(self)@.thr,
            final(self)@.node == old(self)@.node,
            final(self)@.next_node == old(self)@.next_node,
            match r {
                Ok(false) => {
                    &&& !(old(self)@.node.contains_key(*to) && old(self)@.node.contains_key(
                        *from,
                    ))
                    &&& final(self)@ == old(self)@
                },
                Ok(true) => {
                    &&& old(self)@.node.contains_key(*to)
                    &&& old(self)@.node.contains_key(*from)
                    &&& {
                        let nt = old(self)@.node[*to];
                        let nf = old(self)@.node[*from];
                        if old(self)@.graph[nf].contains(nt) {
                            final(self)@ == old(self)@
                        } else {
                            !reaches(old(self)@.graph, nt, nf) && final(self)@.graph == add_edge(
                                old(self)@.graph,
                                nf,
                                nt,
                            )
                        }
                    }
                },
                Err(_) => {
                    &&& old(self)@.node.contains_key(*to)
                    &&& old(self)@.node.contains_key(*from)
                    &&& !old(self)@.graph[old(self)@.node[*from]].contains(
                        old(self)@.node[*to],
                    )
                    &&& reaches(
                        old(self)@.graph,
                        old(self)@.node[*to],
                        old(self)@.node[*from],
                    )
                    &&& final(self)@ == old(self)@
                },
            },
    {
        let nt = match self.chan_to_graph.get(to) {
            Some(n) => *n,
            None => {
                return Ok(false);
            },
        };
        let nf = match self.chan_to_graph.get(from) {
            Some(n) => *n,
            None => {
                return Ok(false);
            },
        };
        let added = self.graph.add_relation(nf, nt);
        proof {
            assert(self@.graph.dom() =~= old(self)@.graph.dom());
            lemma_graph_only_wf(old(self)@, self@);
        }
        match added {
            Ok(_) => Ok(true),
            Err(_) => Err(()),
        }
    }

    /// Remove a channel relation.
    ///
    /// Returns None if one of the channels was not found.
    /// Returns true if the relation was deleted or false if it did not
    /// exist.
    pub fn remove_channel_relation(
        &mut self,
        to: &crate::channels::Key,
        from: &crate::channels::Key,
    ) -> (r: Option<bool>)
        requires
            old(self).wf(),
        ensures
            final(self).wf(),
            final(self)@.chan == old(self)@.chan,
            final(self)@.thr == old(self)@.thr,
            final(self)@.node == old(self)@.node,
            final(self)@.next_node == old(self)@.next_node,
            match r {
                None => {
                    &&& !(old(self)@.node.contains_key(*to) && old(self)@.node.contains_key(
                        *from,
                    ))
                    &&& final(self)@ == old(self)@
                },
                Some(existed) => {
                    &&& old(self)@.node.contains_key(*to)
                    &&& old(self)@.node.contains_key(*from)
                    &&& existed == old(self)@.graph[old(self)@.node[*from]].contains(
                        old(self)@.node[*to],
                    )
                    &&& final(self)@.graph == remove_edge(
                        old(self)@.graph,
                        old(self)@.node[*from],
                        old(self)@.node[*to],
                    )
                },
            },
    {
        let nt = match self.chan_to_graph.get(to) {
            Some(n) => *n,
            None => {
                return None;
            },
        };
        let nf = match self.chan_to_graph.get(from) {
            Some(n) => *n,
            None => {
                return None;
            },
        };
        let existed = self.graph.remove_relation(nf, nt);
        proof {
            assert(self@.graph.dom() =~= old(self)@.graph.dom());
            lemma_graph_only_wf(old(self)@, self@);
        }
        Some(existed)
    }
}

/// Well-formedness only depends on the graph through its node set,
/// closedness and acyclicity.
proof fn lemma_graph_only_wf(m: WaitModel, m2: WaitModel)
    requires
        wait_model_wf(m),
        m2.chan == m.chan,
        m2.thr == m.thr,
        m2.node == m.node,
        m2.graph.dom() == m.graph.dom(),
        edges_closed(m2.graph),
        acyclic(m2.graph),
    ensures
        wait_model_wf(m2),
{
    assert forall|c: u32, t: u32|
        m2.chan.contains_key(c) && #[trigger] m2.chan[c].contains(t) implies m2.thr.contains_key(
        t,
    ) && m2.thr[t].contains(c) by {
        assert(m.chan[c].contains(t));
    }
    assert forall|t: u32, c: u32|
        m2.thr.contains_key(t) && #[trigger] m2.thr[t].contains(c) implies m2.chan.contains_key(
        c,
    ) && m2.chan[c].contains(t) by {
        assert(m.thr[t].contains(c));
    }
    assert forall|t: u32| #[trigger] m2.thr.contains_key(t) implies exists|c: u32|
        m2.thr[t].contains(c) by {
        let c = choose|c: u32| m.thr[t].contains(c);
        assert(m2.thr[t].contains(c));
    }
    assert forall|c: u32| #[trigger] m2.node.contains_key(c) implies m2.graph.contains_key(
        m2.node[c],
    ) by {
        assert(m.graph.contains_key(m.node[c]));
    }
}

/// Every channel registered in a well-formed wait map owns a live
/// graph node, and no other node both reaches it and is reached by it:
/// the graph around it is free of cycles.
pub proof fn lemma_registered_channel_node(m: WaitModel, c: u32)
    requires
        wait_model_wf(m),
        m.chan.contains_key(c),
    ensures
        m.node.contains_key(c),
        m.graph.contains_key(m.node[c]),
        forall|d: u32|
            reaches(m.graph, m.node[c], d) && #[trigger] reaches(m.graph, d, m.node[c]) ==> d
                == m.node[c],
{
    assert(m.node.dom() == m.chan.dom());
    assert forall|d: u32|
        reaches(m.graph, m.node[c], d) && #[trigger] reaches(m.graph, d, m.node[c]) implies d
        == m.node[c] by {
        lemma_no_mutual_reach(m.graph, m.node[c], d);
    }
}

/// Well-formedness is preserved when a waiter is recorded.
proof fn lemma_add_waiter_wf(m: WaitModel, m2: WaitModel, key: u32, t: u32)
    requires
        wait_model_wf(m),
        m.chan.contains_key(key) ==> m2 == spec_add_waiter(m, key, t),
        !m.chan.contains_key(key) ==> {
            &&& m2.chan == m.chan.insert(key, Set::<u32>::empty().insert(t))
            &&& m2.thr == m.thr.insert(t, thr_entry(m, t).insert(key))
            &&& m2.node == m.node.insert(key, m.next_node)
            &&& m2.graph == m.graph.insert(m.next_node, Set::<u32>::empty())
            &&& !m.graph.contains_key(m.next_node)
            &&& edges_closed(m2.graph)
            &&& acyclic(m2.graph)
        },
    ensures
        wait_model_wf(m2),
{
    assert forall|c: u32, w: u32|
        m2.chan.contains_key(c) && #[trigger] m2.chan[c].contains(w) implies m2.thr.contains_key(
        w,
    ) && m2.thr[w].contains(c) by {
        if c == key {
            if w != t {
                assert(m.chan[c].contains(w));
            }
        } else {
            assert(m.chan[c].contains(w));
        }
    }
    assert forall|w: u32, c: u32|
        m2.thr.contains_key(w) && #[trigger] m2.thr[w].contains(c) implies m2.chan.contains_key(
        c,
    ) && m2.chan[c].contains(w) by {
        if w == t {
            if c != key {
                assert(thr_entry(m, t).contains(c));
                assert(m.thr.contains_key(t) && m.thr[t].contains(c));
            }
        } else {
            assert(m.thr[w].contains(c));
        }
    }
    assert forall|w: u32| #[trigger] m2.thr.contains_key(w) implies exists|c: u32|
        m2.thr[w].contains(c) by {
        if w == t {
            assert(m2.thr[t].contains(key));
        } else {
            let c = choose|c: u32| m.thr[w].contains(c);
            assert(m2.thr[w].contains(c));
        }
    }
    assert(m2.node.dom() =~= m2.chan.dom());
    if !m.chan.contains_key(key) {
        assert forall|c1: u32, c2: u32|
            m2.node.contains_key(c1) && m2.node.contains_key(c2) && #[trigger] m2.node[c1]
                == #[trigger] m2.node[c2] implies c1 == c2 by {
            if c1 != key && c2 != key {
                assert(m.node[c1] == m.node[c2]);
            } else if c1 == key && c2 != key {
                assert(m.graph.contains_key(m.node[c2]));
            } else if c1 != key && c2 == key {
                assert(m.graph.contains_key(m.node[c1]));
            }
        }
    }
}

/// Well-formedness is preserved when a fresh channel is registered.
proof fn lemma_add_channel_wf(m: WaitModel, m2: WaitModel, key: u32, ws: Set<u32>, n: u32)
    requires
        wait_model_wf(m),
        !m.chan.contains_key(key),
        !m.graph.contains_key(n),
        m2.chan == m.chan.insert(key, ws),
        m2.thr == mirror_waiters(m.thr, ws, key),
        m2.node == m.node.insert(key, n),
        m2.graph == m.graph.insert(n, Set::<u32>::empty()),
        edges_closed(m2.graph),
        acyclic(m2.graph),
    ensures
        wait_model_wf(m2),
{
    assert forall|c: u32, w: u32|
        m2.chan.contains_key(c) && #[trigger] m2.chan[c].contains(w) implies m2.thr.contains_key(
        w,
    ) && m2.thr[w].contains(c) by {
        if c == key {
            assert(ws.contains(w));
            assert(m2.thr[w] == entry_or_empty(m.thr, w).insert(key));
        } else {
            assert(m.chan[c].contains(w));
            assert(m.thr.contains_key(w) && m.thr[w].contains(c));
            if ws.contains(w) {
                assert(entry_or_empty(m.thr, w).contains(c));
            }
        }
    }
    assert forall|w: u32, c: u32|
        m2.thr.contains_key(w) && #[trigger] m2.thr[w].contains(c) implies m2.chan.contains_key(
        c,
    ) && m2.chan[c].contains(w) by {
        if ws.contains(w) {
            if c == key {
            } else {
                assert(entry_or_empty(m.thr, w).contains(c));
                assert(m.thr.contains_key(w) && m.thr[w].contains(c));
                assert(m.chan[c].contains(w));
            }
        } else {
            assert(m.thr.contains_key(w));
            assert(m.thr[w].contains(c));
            assert(m.chan[c].contains(w));
            assert(c != key);
        }
    }
    assert forall|w: u32| #[trigger] m2.thr.contains_key(w) implies exists|c: u32|
        m2.thr[w].contains(c) by {
        if ws.contains(w) {
            assert(m2.thr[w].contains(key));
        } else {
            let c = choose|c: u32| m.thr[w].contains(c);
            assert(m2.thr[w].contains(c));
        }
    }
    assert(m2.node.dom() =~= m2.chan.dom());
    assert forall|c1: u32, c2: u32|
        m2.node.contains_key(c1) && m2.node.contains_key(c2) && #[trigger] m2.node[c1]
            == #[trigger] m2.node[c2] implies c1 == c2 by {
        if c1 != key && c2 != key {
            assert(m.node[c1] == m.node[c2]);
        } else if c1 == key && c2 != key {
            assert(m.graph.contains_key(m.node[c2]));
        } else if c1 != key && c2 == key {
            assert(m.graph.contains_key(m.node[c1]));
        }
    }
}

/// Well-formedness is preserved when a waiter is dropped.
proof fn lemma_remove_waiter_wf(m: WaitModel, m2: WaitModel, key: u32, t: u32)
    requires
        wait_model_wf(m),
        m.chan.contains_key(key),
        m.chan[key].contains(t),
        m2 == spec_remove_waiter(m, key, t),
    ensures
        wait_model_wf(m2),
{
    assert forall|c: u32, w: u32|
        m2.chan.contains_key(c) && #[trigger] m2.chan[c].contains(w) implies m2.thr.contains_key(
        w,
    ) && m2.thr[w].contains(c) by {
        assert(m.chan[c].contains(w));
        assert(m.thr.contains_key(w) && m.thr[w].contains(c));
        if w == t {
            assert(c != key);
            assert(m.thr[t].remove(key).contains(c));
        }
    }
    assert forall|w: u32, c: u32|
        m2.thr.contains_key(w) && #[trigger] m2.thr[w].contains(c) implies m2.chan.contains_key(
        c,
    ) && m2.chan[c].contains(w) by {
        assert(m.thr.contains_key(w) && m.thr[w].contains(c));
        assert(m.chan[c].contains(w));
        if c == key {
            assert(w != t) by {
                if w == t {
                    assert(m.thr[t].remove(key).contains(key));
                }
            }
        }
    }
    assert forall|w: u32| #[trigger] m2.thr.contains_key(w) implies exists|c: u32|
        m2.thr[w].contains(c) by {
        if w == t {
            assert(m.thr[t].remove(key) != Set::<u32>::empty());
            assert(m2.thr[t] == m.thr[t].remove(key));
            if forall|c: u32| !m2.thr[t].contains(c) {
                assert(m.thr[t].remove(key) =~= Set::<u32>::empty());
            }
        } else {
            let c = choose|c: u32| m.thr[w].contains(c);
            assert(m2.thr[w].contains(c));
        }
    }
    assert(m2.node.dom() =~= m2.chan.dom());
}

/// Well-formedness is preserved when a thread is removed everywhere.
proof fn lemma_remove_thread_wf(m: WaitModel, m2: WaitModel, t: u32)
    requires
        wait_model_wf(m),
        m2 == spec_remove_thread(m, t),
    ensures
        wait_model_wf(m2),
{
    assert forall|c: u32, w: u32|
        m2.chan.contains_key(c) && #[trigger] m2.chan[c].contains(w) implies m2.thr.contains_key(
        w,
    ) && m2.thr[w].contains(c) by {
        assert(m.chan[c].remove(t).contains(w));
        assert(w != t);
        assert(m.chan[c].contains(w));
    }
    assert forall|w: u32, c: u32|
        m2.thr.contains_key(w) && #[trigger] m2.thr[w].contains(c) implies m2.chan.contains_key(
        c,
    ) && m2.chan[c].contains(w) by {
        assert(w != t);
        assert(m.thr[w].contains(c));
        assert(m.chan[c].contains(w));
        assert(m2.chan[c] == m.chan[c].remove(t));
    }
    assert forall|w: u32| #[trigger] m2.thr.contains_key(w) implies exists|c: u32|
        m2.thr[w].contains(c) by {
        let c = choose|c: u32| m.thr[w].contains(c);
        assert(m2.thr[w].contains(c));
    }
    assert(m2.node.dom() =~= m2.chan.dom());
}

} // verus!
