//! A directed-graph container backed by flat, append-only arenas.
//!
//! Nodes and edges live in two growable sequences owned by the graph; all
//! structural links are integer indices into those sequences rather than
//! references, so cyclic graphs need no reference counting or garbage
//! collection. Each node keeps the head of an intrusive singly-linked list
//! of its outgoing edges, threaded through the edge arena; inserting an edge
//! prepends to that list, so successors are enumerated in reverse insertion
//! order.
//!
//! Index validity is a static obligation: `add_edge` and `successors` require
//! indices previously issued by `add_node` on the same graph, and callers
//! outside verified code must uphold that themselves.

use vstd::prelude::*;

verus! {

/// Handle for a node of a [`Graph`]: a stable position in its node arena.
///
/// Indices are issued by [`Graph::add_node`], are never invalidated (nodes are
/// never removed or reordered), and are meaningful only for the graph that
/// issued them. Its mathematical view `idx@` is the position as an `int`.
#[derive(Clone, Copy, Debug, PartialEq, Eq, Structural)]
pub struct NodeIdx(usize);

/// Position of an edge in the edge arena. Internal only: it serves to link
/// the entries of a node's adjacency list.
#[derive(Clone, Copy, Debug)]
struct EdgeIdx(usize);

/// A node record: the caller's payload plus the head of the intrusive list of
/// this node's outgoing edges (`None` while the node has no outgoing edge).
struct Node<T> {
    data: T,
    first_edge_idx: Option<EdgeIdx>,
}

/// An edge record: the destination node plus the next entry of the source
/// node's adjacency list (`None` for the oldest edge of that source).
struct Edge {
    target_node: NodeIdx,
    next_edge_idx: Option<EdgeIdx>,
}

/// A directed graph: a node arena and an edge arena, both append-only.
pub struct Graph<T> {
    nodes: Vec<Node<T>>,
    edges: Vec<Edge>,
}

impl View for NodeIdx {
    type V = int;

    closed spec fn view(&self) -> int {
        self.0 as int
    }
}

/// Does `head`, if present, point strictly below position `bound`?
spec fn head_in_range(head: Option<EdgeIdx>, bound: int) -> bool {
    match head {
        Option::Some(e) => (e.0 as int) < bound,
        Option::None => true,
    }
}

/// Termination measure for walking an adjacency chain starting at `head`.
spec fn rank(head: Option<EdgeIdx>) -> int {
    match head {
        Option::Some(e) => e.0 as int + 1,
        Option::None => 0,
    }
}

/// Every edge's `next` link points strictly backwards in the arena. This is
/// what makes every adjacency chain finite: edges only ever link to edges
/// that existed before them.
spec fn edges_linked(edges: Seq<Edge>) -> bool {
    forall|j: int|
        0 <= j < edges.len() ==> head_in_range((#[trigger] edges[j]).next_edge_idx, j)
}

/// Every edge's destination is an existing node, given `node_count` nodes.
spec fn targets_in_range(edges: Seq<Edge>, node_count: int) -> bool {
    forall|j: int| 0 <= j < edges.len() ==> (#[trigger] edges[j]).target_node@ < node_count
}

/// The destination indices of the adjacency chain that starts at `head`,
/// in chain order (head first).
spec fn chain_targets(edges: Seq<Edge>, head: Option<EdgeIdx>) -> Seq<int>
    decreases rank(head)
        when edges_linked(edges) && head_in_range(head, edges.len() as int)
{
    match head {
        Option::None => Seq::empty(),
        Option::Some(e) => seq![edges[e.0 as int].target_node@] + chain_targets(
            edges,
            edges[e.0 as int].next_edge_idx,
        ),
    }
}

/// The payloads that a sequence of node indices selects out of `all`.
pub open spec fn payloads_of<T>(all: Seq<T>, targets: Seq<int>) -> Seq<T> {
    targets.map_values(|j: int| all[j])
}

impl<T> Graph<T> {
    /// Well-formedness of the arenas: adjacency chains only link backwards
    /// (hence terminate), and every stored index denotes an existing entry.
    pub closed spec fn wf(self) -> bool {
        &&& edges_linked(self.edges@)
        &&& targets_in_range(self.edges@, self.nodes@.len() as int)
        &&& forall|i: int|
            0 <= i < self.nodes@.len() ==> head_in_range(
                (#[trigger] self.nodes@[i]).first_edge_idx,
                self.edges@.len() as int,
            )
    }

    /// The payloads of all nodes, in the order the nodes were added.
    pub closed spec fn payloads(self) -> Seq<T> {
        self.nodes@.map_values(|n: Node<T>| n.data)
    }

    /// How many nodes have been added so far.
    pub open spec fn node_count(self) -> nat {
        self.payloads().len()
    }

    /// Is `i` an index issued by this graph, i.e. does it name an existing node?
    pub open spec fn valid_idx(self, i: NodeIdx) -> bool {
        i@ < self.node_count()
    }

    /// The successor indices of node `i`: the destination of each of its
    /// outgoing edges, most recently added edge first.
    pub closed spec fn succ_indices(self, i: int) -> Seq<int> {
        chain_targets(self.edges@, self.nodes@[i].first_edge_idx)
    }

    /// The successor payloads of node `i`, most recently added edge first.
    pub open spec fn succ_payloads(self, i: int) -> Seq<T> {
        payloads_of(self.payloads(), self.succ_indices(i))
    }

    /// No dangling links: in a well-formed graph, every entry of a successor
    /// sequence is the index of an existing node.
    pub proof fn lemma_succ_indices_in_range(self, i: int)
        requires
            self.wf(),
            0 <= i < self.node_count(),
        ensures
            forall|k: int|
                0 <= k < self.succ_indices(i).len() ==> 0 <= #[trigger] self.succ_indices(i)[k]
                    < self.node_count(),
    {
        lemma_chain_targets_in_range(
            self.edges@,
            self.nodes@[i].first_edge_idx,
            self.nodes@.len() as int,
        );
    }

    /// Creates an empty graph: no nodes, no edges.
    pub fn new() -> (g: Graph<T>)
        ensures
            g.wf(),
            g.node_count() == 0,
            g.payloads() == Seq::<T>::empty(),
    {
        let g = Graph { nodes: Vec::new(), edges: Vec::new() };
        proof {
            assert(g.payloads() =~= Seq::<T>::empty());
        }
        g
    }

    /// Appends a node holding `data` and returns its index.
    ///
    /// The returned index equals the node count just before the call, and the
    /// count grows by one; since no operation ever shrinks the arena, every
    /// call returns an index distinct from all previously issued ones. The
    /// new node starts with no outgoing edges, and the successor lists of all
    /// existing nodes are untouched.
    pub fn add_node(&mut self, data: T) -> (idx: NodeIdx)
        requires
            old(self).wf(),
        ensures
            final(self).wf(),
            idx@ == old(self).node_count(),
            final(self).valid_idx(idx),
            final(self).node_count() == old(self).node_count() + 1,
            final(self).payloads() == old(self).payloads().push(data),
            final(self).succ_indices(idx@) == Seq::<int>::empty(),
            forall|i: int|
                0 <= i < old(self).node_count() ==> final(self).succ_indices(i) == old(
                    self,
                ).succ_indices(i),
    {
        let idx: usize = self.nodes.len();
        self.nodes.push(Node::new(data));
        proof {
            assert(self.payloads() =~= old(self).payloads().push(data));
            assert forall|i: int| 0 <= i < old(self).node_count() implies self.succ_indices(i)
                == old(self).succ_indices(i) by {
                assert(self.nodes@[i] == old(self).nodes@[i]);
            }
            assert(self.succ_indices(idx as int) =~= Seq::<int>::empty());
        }
        NodeIdx(idx)
    }

    /// Appends an edge from node `from` to node `to`.
    ///
    /// The new edge becomes the head of `from`'s adjacency list, so `to` is
    /// the first successor subsequently enumerated for `from`; the earlier
    /// successors of `from` follow unchanged. No other node's successor list
    /// changes, and no payload changes. Self-loops (`from == to`) and
    /// parallel edges (repeated insertion of the same pair) are kept as
    /// distinct entries.
    ///
    /// Both indices must have been issued by `add_node` on this graph.
    pub fn add_edge(&mut self, from: NodeIdx, to: NodeIdx)
        requires
            old(self).wf(),
            old(self).valid_idx(from),
            old(self).valid_idx(to),
        ensures
            final(self).wf(),
            final(self).node_count() == old(self).node_count(),
            final(self).payloads() == old(self).payloads(),
            final(self).succ_indices(from@) == seq![to@] + old(self).succ_indices(from@),
            forall|i: int|
                0 <= i < old(self).node_count() && i != from@ ==> final(self).succ_indices(i)
                    == old(self).succ_indices(i),
    {
        let edge_idx: usize = self.edges.len();
        let old_head = self.nodes[from.0].first_edge_idx;
        self.edges.push(Edge { target_node: to, next_edge_idx: old_head });
        self.nodes[from.0].first_edge_idx = Some(EdgeIdx(edge_idx));
        proof {
            let e0 = old(self).edges@;
            let e1 = self.edges@;
            let new_edge = Edge { target_node: to, next_edge_idx: old_head };
            assert(e1 == e0.push(new_edge));
            lemma_linked_push(e0, new_edge);
            assert(self.payloads() =~= old(self).payloads());
            assert forall|i: int|
                0 <= i < old(self).node_count() && i != from@ implies self.succ_indices(i) == old(
                self,
            ).succ_indices(i) by {
                assert(self.nodes@[i] == old(self).nodes@[i]);
                lemma_chain_push(e0, new_edge, old(self).nodes@[i].first_edge_idx);
            }
            lemma_chain_push(e0, new_edge, old_head);
            assert(self.succ_indices(from@) =~= seq![to@] + old(self).succ_indices(from@));
        }
    }

    /// Returns a cursor over the successors of `node_idx`, i.e. the nodes
    /// reachable from it via exactly one outgoing edge, yielded in reverse
    /// insertion order of the edges. The cursor borrows the graph and is
    /// exhausted after one pass; it enumerates exactly
    /// `self.succ_indices(node_idx@)`.
    ///
    /// The index must have been issued by `add_node` on this graph.
    pub fn successors<'a>(&'a self, node_idx: NodeIdx) -> (iter: Successors<'a, T>)
        requires
            self.wf(),
            self.valid_idx(node_idx),
        ensures
            iter.wf(),
            iter.source() == *self,
            iter.remaining() == self.succ_indices(node_idx@),
            iter.remaining_payloads() == self.succ_payloads(node_idx@),
    {
        Successors { graph: self, edge_idx: self.nodes[node_idx.0].first_edge_idx }
    }
}

impl<T> Node<T> {
    /// A fresh node holding `data`, with an empty adjacency list.
    fn new(data: T) -> (n: Node<T>)
        ensures
            n.data == data,
            n.first_edge_idx is None,
    {
        Node { data, first_edge_idx: None }
    }
}

/// A one-shot cursor over the successors of one node: it walks the intrusive
/// adjacency chain through the edge arena, holding only the position of the
/// next edge to visit. Obtained from [`Graph::successors`].
pub struct Successors<'a, T> {
    graph: &'a Graph<T>,
    edge_idx: Option<EdgeIdx>,
}

impl<'a, T> Successors<'a, T> {
    /// The graph this cursor reads.
    pub closed spec fn source(self) -> Graph<T> {
        *self.graph
    }

    /// The node indices this cursor has still to yield, in yield order.
    pub closed spec fn remaining(self) -> Seq<int> {
        chain_targets(self.graph.edges@, self.edge_idx)
    }

    /// The payloads this cursor has still to yield, in yield order.
    pub open spec fn remaining_payloads(self) -> Seq<T> {
        payloads_of(self.source().payloads(), self.remaining())
    }

    /// The cursor reads a well-formed graph and stands on an existing edge,
    /// if on any.
    pub closed spec fn wf(self) -> bool {
        &&& self.graph.wf()
        &&& head_in_range(self.edge_idx, self.graph.edges@.len() as int)
    }

    /// Yields a borrow of the payload of the next successor, or `None` once
    /// the cursor is exhausted — and only then: `next` returns `Some` exactly
    /// as many times as the node had outgoing edges when the cursor was made.
    pub fn next(&mut self) -> (r: Option<&'a T>)
        requires
            old(self).wf(),
        ensures
            final(self).wf(),
            final(self).source() == old(self).source(),
            match r {
                Option::Some(p) => {
                    &&& old(self).remaining().len() > 0
                    &&& 0 <= old(self).remaining()[0] < old(self).source().payloads().len()
                    &&& *p == old(self).source().payloads()[old(self).remaining()[0]]
                    &&& final(self).remaining() == old(self).remaining().drop_first()
                },
                Option::None => {
                    &&& old(self).remaining().len() == 0
                    &&& final(self).remaining() == old(self).remaining()
                },
            },
    {
        let g: &'a Graph<T> = self.graph;
        match self.edge_idx {
            None => None,
            Some(e) => {
                let edge = &g.edges[e.0];
                self.edge_idx = edge.next_edge_idx;
                let target = edge.target_node;
                let node = &g.nodes[target.0];
                proof {
                    assert(old(self).remaining() == seq![target@] + chain_targets(
                        g.edges@,
                        edge.next_edge_idx,
                    ));
                    assert(self.remaining() =~= old(self).remaining().drop_first());
                    assert(old(self).source().payloads()[target@] == node.data);
                }
                Some(&node.data)
            },
        }
    }
}

/// Node indices are unique: `add_node` returns the node count of the graph
/// just before the call, and the count strictly grows with each addition (and
/// is never reduced by any operation), so an index issued at graph state `g0`
/// differs from one issued at any later state `g1`.
pub proof fn lemma_issued_indices_distinct<T>(g0: Graph<T>, g1: Graph<T>, i: NodeIdx, j: NodeIdx)
    requires
        i@ == g0.node_count(),
        j@ == g1.node_count(),
        g0.node_count() < g1.node_count(),
    ensures
        i@ != j@,
        i != j,
{
}

/// The most recently added edge is enumerated first: a graph `g1` obtained
/// from `g0` by `add_edge(a, b)` lists `b` at the head of `a`'s successor
/// sequence, ahead of all of `a`'s earlier successors.
pub proof fn lemma_new_edge_first<T>(g0: Graph<T>, g1: Graph<T>, a: NodeIdx, b: NodeIdx)
    requires
        g1.succ_indices(a@) == seq![b@] + g0.succ_indices(a@),
    ensures
        g1.succ_indices(a@).len() == g0.succ_indices(a@).len() + 1,
        g1.succ_indices(a@)[0] == b@,
        g1.succ_indices(a@).contains(b@),
        g1.succ_indices(a@).drop_first() == g0.succ_indices(a@),
{
    assert(g1.succ_indices(a@)[0] == b@);
    assert(g1.succ_indices(a@).drop_first() =~= g0.succ_indices(a@));
}

/// Two edges inserted from the same node come back out in reverse insertion
/// order: after `add_edge(a, b)` and then `add_edge(a, c)` on a node `a`
/// that had no successors, `a`'s successor sequence is exactly `[c, b]`.
pub proof fn lemma_two_edges_reverse_order<T>(
    g0: Graph<T>,
    g1: Graph<T>,
    g2: Graph<T>,
    a: NodeIdx,
    b: NodeIdx,
    c: NodeIdx,
)
    requires
        g0.succ_indices(a@) == Seq::<int>::empty(),
        g1.succ_indices(a@) == seq![b@] + g0.succ_indices(a@),
        g2.succ_indices(a@) == seq![c@] + g1.succ_indices(a@),
    ensures
        g2.succ_indices(a@) == seq![c@, b@],
{
    assert(g2.succ_indices(a@) =~= seq![c@, b@]);
}

/// Self-loops are kept: a graph `g1` obtained from `g0` by `add_edge(a, a)`
/// lists `a` among its own successors.
pub proof fn lemma_self_loop_kept<T>(g0: Graph<T>, g1: Graph<T>, a: NodeIdx)
    requires
        g1.succ_indices(a@) == seq![a@] + g0.succ_indices(a@),
    ensures
        g1.succ_indices(a@).contains(a@),
{
    assert(g1.succ_indices(a@)[0] == a@);
}

/// Parallel edges are kept: inserting the edge `(a, b)` twice in a row makes
/// `b` head the successor sequence of `a` twice, on top of whatever `a`'s
/// successors were before.
pub proof fn lemma_parallel_edges_kept<T>(
    g0: Graph<T>,
    g1: Graph<T>,
    g2: Graph<T>,
    a: NodeIdx,
    b: NodeIdx,
)
    requires
        g1.succ_indices(a@) == seq![b@] + g0.succ_indices(a@),
        g2.succ_indices(a@) == seq![b@] + g1.succ_indices(a@),
    ensures
        g2.succ_indices(a@).len() == g0.succ_indices(a@).len() + 2,
        g2.succ_indices(a@)[0] == b@,
        g2.succ_indices(a@)[1] == b@,
{
}

/// Read-only iteration is repeatable: two cursors taken from the same
/// unmodified graph for the same node stand on the same remaining target
/// sequence, and hence yield the same payload sequence.
pub proof fn lemma_successors_repeatable<'a, T>(
    g: Graph<T>,
    node_idx: NodeIdx,
    it1: Successors<'a, T>,
    it2: Successors<'a, T>,
)
    requires
        it1.source() == g,
        it2.source() == g,
        it1.remaining() == g.succ_indices(node_idx@),
        it2.remaining() == g.succ_indices(node_idx@),
    ensures
        it1.remaining() == it2.remaining(),
        it1.remaining_payloads() == it2.remaining_payloads(),
{
}

/// Pushing an edge whose `next` link stays within the old arena keeps the
/// backwards-linking property of the whole arena.
proof fn lemma_linked_push(edges: Seq<Edge>, e: Edge)
    requires
        edges_linked(edges),
        head_in_range(e.next_edge_idx, edges.len() as int),
    ensures
        edges_linked(edges.push(e)),
{
    assert forall|j: int| 0 <= j < edges.push(e).len() implies head_in_range(
        (#[trigger] edges.push(e)[j]).next_edge_idx,
        j,
    ) by {
        if j < edges.len() {
            assert(edges.push(e)[j] == edges[j]);
        } else {
            assert(edges.push(e)[j] == e);
        }
    }
}

/// Every target on an adjacency chain lies below `node_count`, provided all
/// edge targets of the arena do.
proof fn lemma_chain_targets_in_range(edges: Seq<Edge>, head: Option<EdgeIdx>, node_count: int)
    requires
        edges_linked(edges),
        head_in_range(head, edges.len() as int),
        targets_in_range(edges, node_count),
    ensures
        forall|k: int|
            0 <= k < chain_targets(edges, head).len() ==> 0 <= #[trigger] chain_targets(
                edges,
                head,
            )[k] < node_count,
    decreases rank(head),
{
    match head {
        Option::None => {
            assert(chain_targets(edges, head) =~= Seq::<int>::empty());
        },
        Option::Some(e) => {
            let sub = chain_targets(edges, edges[e.0 as int].next_edge_idx);
            lemma_chain_targets_in_range(edges, edges[e.0 as int].next_edge_idx, node_count);
            assert forall|k: int| 0 <= k < chain_targets(edges, head).len() implies 0
                <= #[trigger] chain_targets(edges, head)[k] < node_count by {
                if k == 0 {
                    assert(chain_targets(edges, head)[0] == edges[e.0 as int].target_node@);
                } else {
                    assert(chain_targets(edges, head)[k] == sub[k - 1]);
                }
            }
        },
    }
}

/// A chain that lies within the old arena reads the same through the arena
/// with one more edge pushed at its end.
proof fn lemma_chain_push(edges: Seq<Edge>, e: Edge, head: Option<EdgeIdx>)
    requires
        edges_linked(edges),
        head_in_range(e.next_edge_idx, edges.len() as int),
        head_in_range(head, edges.len() as int),
    ensures
        chain_targets(edges.push(e), head) == chain_targets(edges, head),
    decreases rank(head),
{
    lemma_linked_push(edges, e);
    match head {
        Option::None => {
            assert(chain_targets(edges.push(e), head) =~= chain_targets(edges, head));
        },
        Option::Some(idx) => {
            assert(edges.push(e)[idx.0 as int] == edges[idx.0 as int]);
            lemma_chain_push(edges, e, edges[idx.0 as int].next_edge_idx);
            assert(chain_targets(edges.push(e), head) =~= chain_targets(edges, head));
        },
    }
}

} // verus!
