//! Conduction as a relation between grid positions.
//!
//! A sequence of wires is read as an undirected multigraph: its nodes are the
//! positions that some wire touches, and two positions are linked when some
//! wire joins them. Everything the engine decides is a statement about which
//! nodes are connected in that graph.

use vstd::prelude::*;
use crate::grid::{GridPosition, Wire};

verus! {

/// Some wire of `elements` ends at `p`.
pub open spec fn is_node(elements: Seq<Wire>, p: GridPosition) -> bool {
    exists|i: int| 0 <= i < elements.len() && (#[trigger] elements[i]).touches(p)
}

/// Some wire of `elements` runs between `p` and `q`.
pub open spec fn linked(elements: Seq<Wire>, p: GridPosition, q: GridPosition) -> bool {
    exists|i: int| 0 <= i < elements.len() && (#[trigger] elements[i]).joins(p, q)
}

/// The positions `path[k]` and `path[k + 1]` are linked.
pub open spec fn hop(elements: Seq<Wire>, path: Seq<GridPosition>, k: int) -> bool {
    linked(elements, path[k], path[k + 1])
}

/// `path` is a walk through the graph: it starts on a node and every two
/// consecutive positions are linked.
pub open spec fn is_path(elements: Seq<Wire>, path: Seq<GridPosition>) -> bool {
    &&& path.len() > 0
    &&& is_node(elements, path[0])
    &&& forall|k: int| 0 <= k < path.len() - 1 ==> #[trigger] hop(elements, path, k)
}

/// `path` is a walk from `a` to `b`.
pub open spec fn runs_between(
    elements: Seq<Wire>,
    path: Seq<GridPosition>,
    a: GridPosition,
    b: GridPosition,
) -> bool {
    is_path(elements, path) && path[0] == a && path.last() == b
}

/// There is a walk from `a` to `b`. A position is connected to itself exactly
/// when it is a node.
pub open spec fn connected(elements: Seq<Wire>, a: GridPosition, b: GridPosition) -> bool {
    exists|path: Seq<GridPosition>| #[trigger] runs_between(elements, path, a, b)
}

/// Two sequences of wires form the same graph: the same nodes and the same
/// links between them.
pub open spec fn same_graph(e1: Seq<Wire>, e2: Seq<Wire>) -> bool {
    &&& forall|p: GridPosition| is_node(e1, p) <==> is_node(e2, p)
    &&& forall|p: GridPosition, q: GridPosition| linked(e1, p, q) <==> linked(e2, p, q)
}

/// Both ends of a link are nodes, and a link can be read in either direction.
pub proof fn lemma_linked(elements: Seq<Wire>, p: GridPosition, q: GridPosition)
    requires
        linked(elements, p, q),
    ensures
        linked(elements, q, p),
        is_node(elements, p),
        is_node(elements, q),
{
    let i = choose|i: int| 0 <= i < elements.len() && (#[trigger] elements[i]).joins(p, q);
    assert(elements[i].joins(q, p));
    assert(elements[i].touches(p));
    assert(elements[i].touches(q));
}

/// Every position on a path is a node.
pub proof fn lemma_path_nodes(elements: Seq<Wire>, path: Seq<GridPosition>, k: int)
    requires
        is_path(elements, path),
        0 <= k < path.len(),
    ensures
        is_node(elements, path[k]),
{
    if k > 0 {
        assert(hop(elements, path, k - 1));
        lemma_linked(elements, path[k - 1], path[k]);
    }
}

/// A prefix of a path is a path.
pub proof fn lemma_path_prefix(elements: Seq<Wire>, path: Seq<GridPosition>, n: int)
    requires
        is_path(elements, path),
        0 < n <= path.len(),
    ensures
        is_path(elements, path.take(n)),
{
    let short = path.take(n);
    assert forall|k: int| 0 <= k < short.len() - 1 implies #[trigger] hop(elements, short, k) by {
        assert(hop(elements, path, k));
    }
}

/// A node is connected to itself.
pub proof fn lemma_connected_refl(elements: Seq<Wire>, a: GridPosition)
    requires
        is_node(elements, a),
    ensures
        connected(elements, a, a),
{
    let path = seq![a];
    assert(runs_between(elements, path, a, a));
}

/// The two ends of a connection are nodes.
pub proof fn lemma_connected_nodes(elements: Seq<Wire>, a: GridPosition, b: GridPosition)
    requires
        connected(elements, a, b),
    ensures
        is_node(elements, a),
        is_node(elements, b),
{
    let path = choose|path: Seq<GridPosition>| #[trigger] runs_between(elements, path, a, b);
    lemma_path_nodes(elements, path, path.len() - 1);
}

/// A connection can be extended by one link.
pub proof fn lemma_connected_step(
    elements: Seq<Wire>,
    a: GridPosition,
    b: GridPosition,
    c: GridPosition,
)
    requires
        connected(elements, a, b),
        linked(elements, b, c),
    ensures
        connected(elements, a, c),
{
    let path = choose|path: Seq<GridPosition>| #[trigger] runs_between(elements, path, a, b);
    let longer = path.push(c);
    assert forall|k: int| 0 <= k < longer.len() - 1 implies #[trigger] hop(elements, longer, k) by {
        if k < path.len() - 1 {
            assert(hop(elements, path, k));
        }
    }
    assert(runs_between(elements, longer, a, c));
}

/// Connection is symmetric.
pub proof fn lemma_connected_sym(elements: Seq<Wire>, a: GridPosition, b: GridPosition)
    requires
        connected(elements, a, b),
    ensures
        connected(elements, b, a),
{
    let path = choose|path: Seq<GridPosition>| #[trigger] runs_between(elements, path, a, b);
    let n = path.len() as int;
    let back = Seq::new(path.len(), |k: int| path[n - 1 - k]);
    lemma_path_nodes(elements, path, n - 1);
    assert forall|k: int| 0 <= k < back.len() - 1 implies #[trigger] hop(elements, back, k) by {
        assert(hop(elements, path, n - 2 - k));
        lemma_linked(elements, path[n - 2 - k], path[n - 1 - k]);
    }
    assert(runs_between(elements, back, b, a));
}

/// Connection is transitive.
pub proof fn lemma_connected_trans(
    elements: Seq<Wire>,
    a: GridPosition,
    b: GridPosition,
    c: GridPosition,
)
    requires
        connected(elements, a, b),
        connected(elements, b, c),
    ensures
        connected(elements, a, c),
{
    let front = choose|path: Seq<GridPosition>| #[trigger] runs_between(elements, path, a, b);
    let back = choose|path: Seq<GridPosition>| #[trigger] runs_between(elements, path, b, c);
    let n = front.len() as int;
    let joined = front + back.subrange(1, back.len() as int);
    assert forall|k: int| 0 <= k < joined.len() - 1 implies #[trigger] hop(elements, joined, k) by {
        if k < n - 1 {
            assert(hop(elements, front, k));
        } else {
            assert(hop(elements, back, k - n + 1));
        }
    }
    assert(runs_between(elements, joined, a, c));
}

/// Two linked positions are connected.
pub proof fn lemma_linked_connected(elements: Seq<Wire>, p: GridPosition, q: GridPosition)
    requires
        linked(elements, p, q),
    ensures
        connected(elements, p, q),
{
    lemma_linked(elements, p, q);
    lemma_connected_refl(elements, p);
    lemma_connected_step(elements, p, p, q);
}

/// A path of one graph is a path of every sequence of wires that forms the
/// same graph.
pub proof fn lemma_same_graph_path(e1: Seq<Wire>, e2: Seq<Wire>, path: Seq<GridPosition>)
    requires
        same_graph(e1, e2),
        is_path(e1, path),
    ensures
        is_path(e2, path),
{
    assert forall|k: int| 0 <= k < path.len() - 1 implies #[trigger] hop(e2, path, k) by {
        assert(hop(e1, path, k));
    }
}

/// Connection depends on the graph alone, not on the wires that form it.
pub proof fn lemma_same_graph_connected(
    e1: Seq<Wire>,
    e2: Seq<Wire>,
    a: GridPosition,
    b: GridPosition,
)
    requires
        same_graph(e1, e2),
    ensures
        connected(e1, a, b) <==> connected(e2, a, b),
{
    if connected(e1, a, b) {
        let path = choose|path: Seq<GridPosition>| #[trigger] runs_between(e1, path, a, b);
        lemma_same_graph_path(e1, e2, path);
        assert(runs_between(e2, path, a, b));
    }
    if connected(e2, a, b) {
        let path = choose|path: Seq<GridPosition>| #[trigger] runs_between(e2, path, a, b);
        lemma_same_graph_path(e2, e1, path);
        assert(runs_between(e1, path, a, b));
    }
}

} // verus!
