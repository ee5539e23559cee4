//! Flooding the graph from a power terminal.
//!
//! A flood starts on the terminal's node and spreads over links through
//! unvisited nodes, leaving its polarity on each. Nodes that already carry
//! the same polarity stop it; a node of the other polarity is a short
//! circuit. What a flood reaches and when it fails is stated over positions
//! alone, so it does not depend on the order in which nodes are visited.

use vstd::prelude::*;
use vstd::set_lib::{lemma_int_range, lemma_len_subset, set_int_range};
use crate::graph::{hop, is_node, is_path, lemma_path_prefix, linked};
use crate::grid::{GridPosition, Wire};
use crate::topology::{Mark, Node, Polarity, Topology};

verus! {

/// A flood met a node of the other polarity: that node is connected to both
/// power terminals.
#[derive(Clone, Copy, Debug, PartialEq, Eq, Structural)]
pub struct ShortCircuit;

/// `p` is a node that no flood has marked yet.
pub open spec fn is_clear(marks: Map<GridPosition, Mark>, p: GridPosition) -> bool {
    marks.dom().contains(p) && marks[p] == Mark::Unvisited
}

/// `path` is a path from `a` to `b` over unvisited nodes only.
pub open spec fn clear_run(
    elements: Seq<Wire>,
    marks: Map<GridPosition, Mark>,
    path: Seq<GridPosition>,
    a: GridPosition,
    b: GridPosition,
) -> bool {
    &&& is_path(elements, path)
    &&& path[0] == a
    &&& path.last() == b
    &&& forall|k: int| 0 <= k < path.len() ==> is_clear(marks, #[trigger] path[k])
}

/// A flood from `source` marks `p`: some path from `source` to `p` runs over
/// unvisited nodes only.
pub open spec fn floods(
    elements: Seq<Wire>,
    marks: Map<GridPosition, Mark>,
    source: GridPosition,
    p: GridPosition,
) -> bool {
    exists|path: Seq<GridPosition>| #[trigger] clear_run(elements, marks, path, source, p)
}

/// A flood from `source` comes to look at `p`: `p` is the source itself or is
/// linked to a position that the flood marks.
pub open spec fn arrives(
    elements: Seq<Wire>,
    marks: Map<GridPosition, Mark>,
    source: GridPosition,
    p: GridPosition,
) -> bool {
    p == source || exists|q: GridPosition| #[trigger]
        floods(elements, marks, source, q) && linked(elements, q, p)
}

/// A flood of `polarity` from `source` comes to a node that carries the other
/// polarity.
pub open spec fn clashes(
    elements: Seq<Wire>,
    marks: Map<GridPosition, Mark>,
    source: GridPosition,
    polarity: Polarity,
) -> bool {
    exists|p: GridPosition|
        marks.dom().contains(p) && marks[p] == polarity.opposite().mark() && #[trigger] arrives(
            elements,
            marks,
            source,
            p,
        )
}

/// The marks after a flood of `polarity` from `source` that met no clash:
/// what the flood reaches carries its mark, everything else is as before.
pub open spec fn flooded(
    elements: Seq<Wire>,
    marks: Map<GridPosition, Mark>,
    source: GridPosition,
    polarity: Polarity,
) -> Map<GridPosition, Mark> {
    Map::new(
        |p: GridPosition| marks.dom().contains(p),
        |p: GridPosition|
            if floods(elements, marks, source, p) {
                polarity.mark()
            } else {
                marks[p]
            },
    )
}

/// An unvisited node at which the flood arrives is marked by it.
pub proof fn lemma_arrival_floods(
    elements: Seq<Wire>,
    marks: Map<GridPosition, Mark>,
    source: GridPosition,
    p: GridPosition,
)
    requires
        arrives(elements, marks, source, p),
        is_clear(marks, p),
        is_node(elements, p),
    ensures
        floods(elements, marks, source, p),
{
    if p == source {
        let path = seq![p];
        assert(clear_run(elements, marks, path, source, p));
    } else {
        let q = choose|q: GridPosition| #[trigger]
            floods(elements, marks, source, q) && linked(elements, q, p);
        let path = choose|path: Seq<GridPosition>| #[trigger]
            clear_run(elements, marks, path, source, q);
        let longer = path.push(p);
        assert forall|k: int| 0 <= k < longer.len() - 1 implies #[trigger] hop(
            elements,
            longer,
            k,
        ) by {
            if k < path.len() - 1 {
                assert(hop(elements, path, k));
            }
        }
        assert forall|k: int| 0 <= k < longer.len() implies is_clear(marks, #[trigger] longer[k]) by {
            if k < path.len() {
                assert(is_clear(marks, path[k]));
            }
        }
        assert(clear_run(elements, marks, longer, source, p));
    }
}

/// A flood from a position that is no unvisited node marks nothing.
pub proof fn lemma_blocked_source(
    elements: Seq<Wire>,
    marks: Map<GridPosition, Mark>,
    source: GridPosition,
    p: GridPosition,
)
    requires
        !is_clear(marks, source),
    ensures
        !floods(elements, marks, source, p),
{
    if floods(elements, marks, source, p) {
        let path = choose|path: Seq<GridPosition>| #[trigger]
            clear_run(elements, marks, path, source, p);
        assert(is_clear(marks, path[0]));
    }
}

/// The walk has changed marks only from unvisited to `mark`, and only on
/// nodes that the flood reaches.
spec fn painted(pre: Topology, cur: Seq<Node>, source: GridPosition, mark: Mark) -> bool {
    &&& cur.len() == pre.nodes@.len()
    &&& forall|k: int|
        0 <= k < cur.len() ==> {
            &&& (#[trigger] cur[k]).position == pre.nodes@[k].position
            &&& (cur[k].mark == pre.nodes@[k].mark || (pre.nodes@[k].mark == Mark::Unvisited
                && cur[k].mark == mark && floods(
                pre.elements(),
                pre.marks(),
                source,
                pre.nodes@[k].position,
            )))
        }
}

/// Every node waiting on the stack is one at which the flood arrives.
spec fn frontier(pre: Topology, stack: Seq<usize>, source: GridPosition) -> bool {
    forall|j: int|
        0 <= j < stack.len() ==> (#[trigger] stack[j]) < pre.nodes@.len() && arrives(
            pre.elements(),
            pre.marks(),
            source,
            pre.nodes@[stack[j] as int].position,
        )
}

/// Node `j` carries `mark` already or waits on the stack.
spec fn settled(cur: Seq<Node>, stack: Seq<usize>, mark: Mark, j: usize) -> bool {
    (j < cur.len() && cur[j as int].mark == mark) || stack.contains(j)
}

/// Seen from node `k`, the far end of edge `e` is settled.
spec fn handled(
    cur: Seq<Node>,
    edges: Seq<(usize, usize)>,
    stack: Seq<usize>,
    mark: Mark,
    k: int,
    e: int,
) -> bool {
    &&& edges[e].0 == k ==> settled(cur, stack, mark, edges[e].1)
    &&& edges[e].1 == k ==> settled(cur, stack, mark, edges[e].0)
}

/// The walk has marked node `k`.
spec fn expanded(pre: Topology, cur: Seq<Node>, mark: Mark, k: int) -> bool {
    pre.nodes@[k].mark == Mark::Unvisited && cur[k].mark == mark
}

/// Every neighbour of every node that the walk has marked, `skip` left
/// aside, is settled.
spec fn closed(pre: Topology, cur: Seq<Node>, stack: Seq<usize>, mark: Mark, skip: int) -> bool {
    forall|k: int, e: int|
        0 <= k < cur.len() && 0 <= e < pre.edges@.len() && k != skip && expanded(pre, cur, mark, k)
            ==> #[trigger] handled(cur, pre.edges@, stack, mark, k, e)
}

/// Edge `e` runs between nodes `i` and `j`.
spec fn edge_between(edges: Seq<(usize, usize)>, e: int, i: usize, j: usize) -> bool {
    0 <= e < edges.len() && (edges[e] == (i, j) || edges[e] == (j, i))
}

/// The state of a walk between two steps. `cur` are the nodes as the walk
/// has marked them, `stack` the nodes still to look at, `start` the source's
/// node. While the neighbours of a node just marked are being pushed, that
/// node is `skip`; otherwise `skip` is negative.
#[verifier::opaque]
spec fn walking(
    pre: Topology,
    cur: Seq<Node>,
    stack: Seq<usize>,
    source: GridPosition,
    polarity: Polarity,
    start: usize,
    skip: int,
) -> bool {
    &&& painted(pre, cur, source, polarity.mark())
    &&& frontier(pre, stack, source)
    &&& closed(pre, cur, stack, polarity.mark(), skip)
    &&& 0 <= start < cur.len()
    &&& pre.nodes@[start as int].position == source
    &&& stack.contains(start) || cur[start as int].mark == polarity.mark()
    &&& skip >= 0 ==> {
        &&& skip < cur.len()
        &&& cur[skip].mark == polarity.mark()
        &&& floods(pre.elements(), pre.marks(), source, pre.nodes@[skip].position)
    }
}

/// What is on `held` is on every stack that it is a prefix of.
proof fn lemma_stack_grows(held: Seq<usize>, stack: Seq<usize>, j: usize)
    requires
        held.len() <= stack.len(),
        stack.subrange(0, held.len() as int) == held,
        held.contains(j),
    ensures
        stack.contains(j),
{
    let at = choose|at: int| 0 <= at < held.len() && held[at] == j;
    assert(stack.subrange(0, held.len() as int)[at] == stack[at]);
}

/// What is on `stack`, its top left aside, is on the stack below the top.
proof fn lemma_stack_shrinks(stack: Seq<usize>, j: usize)
    requires
        stack.len() > 0,
        stack.contains(j),
        j != stack.last(),
    ensures
        stack.drop_last().contains(j),
{
    let at = choose|at: int| 0 <= at < stack.len() && stack[at] == j;
    assert(stack.drop_last()[at] == j);
}

/// The walk starts with the source's node alone on the stack.
proof fn lemma_walk_begins(pre: Topology, source: GridPosition, polarity: Polarity, start: usize)
    requires
        pre.wf(),
        start < pre.nodes@.len(),
        pre.nodes@[start as int].position == source,
    ensures
        walking(pre, pre.nodes@, seq![start], source, polarity, start, -1),
{
    reveal(walking);
    let stack = seq![start];
    assert(stack[0] == start);
}

/// The top of the stack is a node.
proof fn lemma_walk_top(
    pre: Topology,
    cur: Seq<Node>,
    stack: Seq<usize>,
    source: GridPosition,
    polarity: Polarity,
    start: usize,
)
    requires
        walking(pre, cur, stack, source, polarity, start, -1),
        stack.len() > 0,
    ensures
        stack.last() < cur.len(),
        cur.len() == pre.nodes@.len(),
{
    reveal(walking);
    assert(stack[stack.len() - 1] < pre.nodes@.len());
}

/// Popping a node that carries the flood's mark changes nothing else.
proof fn lemma_walk_skips(
    pre: Topology,
    cur: Seq<Node>,
    stack: Seq<usize>,
    source: GridPosition,
    polarity: Polarity,
    start: usize,
)
    requires
        walking(pre, cur, stack, source, polarity, start, -1),
        stack.len() > 0,
        stack.last() < cur.len(),
        cur[stack.last() as int].mark == polarity.mark(),
    ensures
        walking(pre, cur, stack.drop_last(), source, polarity, start, -1),
{
    reveal(walking);
    let rest = stack.drop_last();
    let mark = polarity.mark();
    assert forall|j: int| 0 <= j < rest.len() implies (#[trigger] rest[j]) < pre.nodes@.len()
        && arrives(pre.elements(), pre.marks(), source, pre.nodes@[rest[j] as int].position) by {
        assert(rest[j] == stack[j]);
    }
    assert forall|k: int, e: int|
        0 <= k < cur.len() && 0 <= e < pre.edges@.len() && expanded(
            pre,
            cur,
            mark,
            k,
        ) implies #[trigger] handled(cur, pre.edges@, rest, mark, k, e) by {
        assert(handled(cur, pre.edges@, stack, mark, k, e));
        let a = pre.edges@[e].0;
        let b = pre.edges@[e].1;
        if stack.contains(a) && a != stack.last() {
            lemma_stack_shrinks(stack, a);
        }
        if stack.contains(b) && b != stack.last() {
            lemma_stack_shrinks(stack, b);
        }
    }
    if stack.contains(start) && start != stack.last() {
        lemma_stack_shrinks(stack, start);
    }
}

/// Popping an unvisited node and marking it: the flood reaches it, and only
/// its own neighbours are yet to be settled.
proof fn lemma_walk_marks(
    pre: Topology,
    before: Seq<Node>,
    cur: Seq<Node>,
    stack: Seq<usize>,
    source: GridPosition,
    polarity: Polarity,
    start: usize,
)
    requires
        pre.wf(),
        walking(pre, before, stack, source, polarity, start, -1),
        stack.len() > 0,
        stack.last() < before.len(),
        before[stack.last() as int].mark == Mark::Unvisited,
        cur == before.update(
            stack.last() as int,
            Node { position: before[stack.last() as int].position, mark: polarity.mark() },
        ),
    ensures
        walking(pre, cur, stack.drop_last(), source, polarity, start, stack.last() as int),
{
    reveal(walking);
    let rest = stack.drop_last();
    let i = stack.last();
    let mark = polarity.mark();
    let here = pre.nodes@[i as int].position;
    pre.lemma_mark_of(i as int);
    assert(stack[stack.len() - 1] == i);
    assert(before[i as int].mark == pre.nodes@[i as int].mark);
    lemma_arrival_floods(pre.elements(), pre.marks(), source, here);
    assert forall|k: int| 0 <= k < cur.len() implies {
        &&& (#[trigger] cur[k]).position == pre.nodes@[k].position
        &&& (cur[k].mark == pre.nodes@[k].mark || (pre.nodes@[k].mark == Mark::Unvisited
            && cur[k].mark == mark && floods(
            pre.elements(),
            pre.marks(),
            source,
            pre.nodes@[k].position,
        )))
    } by {
        if k != i {
            assert(cur[k] == before[k]);
        }
    }
    assert forall|j: int| 0 <= j < rest.len() implies (#[trigger] rest[j]) < pre.nodes@.len()
        && arrives(pre.elements(), pre.marks(), source, pre.nodes@[rest[j] as int].position) by {
        assert(rest[j] == stack[j]);
    }
    assert forall|k: int, e: int|
        0 <= k < cur.len() && 0 <= e < pre.edges@.len() && k != i && expanded(
            pre,
            cur,
            mark,
            k,
        ) implies #[trigger] handled(cur, pre.edges@, rest, mark, k, e) by {
        assert(cur[k] == before[k]);
        assert(handled(before, pre.edges@, stack, mark, k, e));
        let a = pre.edges@[e].0;
        let b = pre.edges@[e].1;
        if stack.contains(a) && a != i {
            lemma_stack_shrinks(stack, a);
        }
        if stack.contains(b) && b != i {
            lemma_stack_shrinks(stack, b);
        }
        if a < cur.len() && a != i {
            assert(cur[a as int] == before[a as int]);
        }
        if b < cur.len() && b != i {
            assert(cur[b as int] == before[b as int]);
        }
    }
    if stack.contains(start) && start != i {
        lemma_stack_shrinks(stack, start);
    }
    if start != i {
        assert(cur[start as int] == before[start as int]);
    }
}

/// After the neighbours of the node just marked went on the stack, the walk
/// is between two steps again.
proof fn lemma_walk_spreads(
    pre: Topology,
    cur: Seq<Node>,
    held: Seq<usize>,
    stack: Seq<usize>,
    source: GridPosition,
    polarity: Polarity,
    start: usize,
    i: usize,
)
    requires
        pre.wf(),
        walking(pre, cur, held, source, polarity, start, i as int),
        held.len() <= stack.len(),
        stack.subrange(0, held.len() as int) == held,
        forall|t: int|
            held.len() <= t < stack.len() ==> (#[trigger] stack[t]) < cur.len() && exists|e: int|
                edge_between(pre.edges@, e, i, stack[t]),
        forall|e: int|
            0 <= e < pre.edges@.len() ==> #[trigger] handled(
                cur,
                pre.edges@,
                stack,
                polarity.mark(),
                i as int,
                e,
            ),
    ensures
        walking(pre, cur, stack, source, polarity, start, -1),
{
    reveal(walking);
    let elements = pre.elements();
    let mark = polarity.mark();
    let here = pre.nodes@[i as int].position;
    assert forall|t: int| 0 <= t < stack.len() implies (#[trigger] stack[t]) < pre.nodes@.len()
        && arrives(elements, pre.marks(), source, pre.nodes@[stack[t] as int].position) by {
        if t < held.len() {
            assert(stack.subrange(0, held.len() as int)[t] == stack[t]);
            assert(held[t] < pre.nodes@.len());
        } else {
            let e = choose|e: int| edge_between(pre.edges@, e, i, stack[t]);
            let there = pre.nodes@[stack[t] as int].position;
            assert(elements[e].joins(here, there));
            assert(linked(elements, here, there));
        }
    }
    assert forall|k: int, e: int|
        0 <= k < cur.len() && 0 <= e < pre.edges@.len() && expanded(
            pre,
            cur,
            mark,
            k,
        ) implies #[trigger] handled(cur, pre.edges@, stack, mark, k, e) by {
        if k != i {
            assert(handled(cur, pre.edges@, held, mark, k, e));
            let a = pre.edges@[e].0;
            let b = pre.edges@[e].1;
            if held.contains(a) {
                lemma_stack_grows(held, stack, a);
            }
            if held.contains(b) {
                lemma_stack_grows(held, stack, b);
            }
        }
    }
    if held.contains(start) {
        lemma_stack_grows(held, stack, start);
    }
}

/// Once the stack is empty, every position that the flood reaches has been
/// marked by the walk.
proof fn lemma_flood_complete(
    pre: Topology,
    cur: Seq<Node>,
    source: GridPosition,
    mark: Mark,
    start: usize,
    path: Seq<GridPosition>,
) -> (k: int)
    requires
        pre.wf(),
        painted(pre, cur, source, mark),
        closed(pre, cur, Seq::empty(), mark, -1),
        0 <= start < pre.nodes@.len(),
        pre.nodes@[start as int].position == source,
        cur[start as int].mark == mark,
        clear_run(pre.elements(), pre.marks(), path, source, path.last()),
    ensures
        0 <= k < pre.nodes@.len(),
        pre.nodes@[k].position == path.last(),
        expanded(pre, cur, mark, k),
    decreases path.len(),
{
    let elements = pre.elements();
    let n = path.len() as int;
    assert(is_clear(pre.marks(), path[n - 1]));
    if n == 1 {
        assert(is_clear(pre.marks(), path[0]));
        pre.lemma_mark_of(start as int);
        start as int
    } else {
        let prefix = path.take(n - 1);
        lemma_path_prefix(elements, path, n - 1);
        assert forall|j: int| 0 <= j < prefix.len() implies is_clear(
            pre.marks(),
            #[trigger] prefix[j],
        ) by {
            assert(is_clear(pre.marks(), path[j]));
        }
        let from = lemma_flood_complete(pre, cur, source, mark, start, prefix);
        assert(hop(elements, path, n - 2));
        let to = lemma_far_end(pre, cur, mark, from, path[n - 1]);
        pre.lemma_mark_of(to);
        to
    }
}

/// With an empty stack, a node linked to a node that the walk has marked
/// carries the mark too.
proof fn lemma_far_end(pre: Topology, cur: Seq<Node>, mark: Mark, from: int, p: GridPosition) -> (to:
    int)
    requires
        pre.wf(),
        cur.len() == pre.nodes@.len(),
        closed(pre, cur, Seq::empty(), mark, -1),
        0 <= from < pre.nodes@.len(),
        expanded(pre, cur, mark, from),
        linked(pre.elements(), pre.nodes@[from].position, p),
    ensures
        0 <= to < pre.nodes@.len(),
        pre.nodes@[to].position == p,
        cur[to].mark == mark,
{
    let elements = pre.elements();
    let q = pre.nodes@[from].position;
    let e = choose|e: int| 0 <= e < elements.len() && (#[trigger] elements[e]).joins(q, p);
    let a = pre.edges@[e].0 as int;
    let b = pre.edges@[e].1 as int;
    assert(pre.nodes@[a].position == elements[e].first);
    assert(pre.nodes@[b].position == elements[e].second);
    assert(handled(cur, pre.edges@, Seq::empty(), mark, from, e));
    let to = if elements[e].first == q && elements[e].second == p {
        b
    } else {
        a
    };
    pre.lemma_same_node(from, if to == b { a } else { b });
    assert(settled(cur, Seq::empty(), mark, to as usize));
    assert(!Seq::<usize>::empty().contains(to as usize));
    to
}

/// A graph with the same edges and the same node positions is well formed
/// too, and has the same elements.
proof fn lemma_same_shape(pre: Topology, cur: Topology)
    requires
        pre.wf(),
        cur.edges@ == pre.edges@,
        cur.nodes@.len() == pre.nodes@.len(),
        forall|k: int|
            0 <= k < pre.nodes@.len() ==> (#[trigger] cur.nodes@[k]).position
                == pre.nodes@[k].position,
    ensures
        cur.wf(),
        cur.elements() == pre.elements(),
        cur.positions() == pre.positions(),
        cur.marks().dom() == pre.marks().dom(),
{
    assert(cur.positions() =~= pre.positions());
    assert(cur.elements() =~= pre.elements());
    assert forall|k: int| 0 <= k < cur.nodes@.len() implies is_node(
        cur.elements(),
        #[trigger] cur.nodes@[k].position,
    ) by {
        assert(is_node(pre.elements(), pre.nodes@[k].position));
    }
    assert(cur.marks().dom() =~= pre.marks().dom());
}

/// The marks of a walk in progress, read by position: each is the old one,
/// or the flood's on an unvisited node that the flood reaches.
proof fn lemma_walk_so_far(
    pre: Topology,
    cur: Topology,
    stack: Seq<usize>,
    source: GridPosition,
    polarity: Polarity,
    start: usize,
)
    requires
        pre.wf(),
        cur.edges@ == pre.edges@,
        walking(pre, cur.nodes@, stack, source, polarity, start, -1),
    ensures
        cur.wf(),
        cur.elements() == pre.elements(),
        cur.positions() == pre.positions(),
        cur.marks().dom() == pre.marks().dom(),
        forall|p: GridPosition|
            #![trigger cur.marks()[p]]
            pre.marks().dom().contains(p) ==> cur.marks()[p] == pre.marks()[p] || (is_clear(
                pre.marks(),
                p,
            ) && cur.marks()[p] == polarity.mark() && floods(
                pre.elements(),
                pre.marks(),
                source,
                p,
            )),
{
    reveal(walking);
    lemma_same_shape(pre, cur);
    assert forall|p: GridPosition|
        #![trigger cur.marks()[p]]
        pre.marks().dom().contains(p) implies cur.marks()[p] == pre.marks()[p] || (is_clear(
        pre.marks(),
        p,
    ) && cur.marks()[p] == polarity.mark() && floods(pre.elements(), pre.marks(), source, p)) by {
        let k = pre.lemma_node_of(p);
        pre.lemma_mark_of(k);
        assert(cur.nodes@[k].position == p);
        cur.lemma_mark_of(k);
    }
}

/// A walk that finds a node of the other polarity on top of its stack has
/// found a clash.
proof fn lemma_walk_fails(
    pre: Topology,
    cur: Seq<Node>,
    stack: Seq<usize>,
    source: GridPosition,
    polarity: Polarity,
    start: usize,
)
    requires
        pre.wf(),
        walking(pre, cur, stack, source, polarity, start, -1),
        stack.len() > 0,
        stack.last() < cur.len(),
        cur[stack.last() as int].mark != Mark::Unvisited,
        cur[stack.last() as int].mark != polarity.mark(),
    ensures
        clashes(pre.elements(), pre.marks(), source, polarity),
{
    reveal(walking);
    let i = stack.last();
    assert(stack[stack.len() - 1] == i);
    let p = pre.nodes@[i as int].position;
    pre.lemma_mark_of(i as int);
    assert(cur[i as int].mark == pre.nodes@[i as int].mark);
    assert(pre.marks()[p] == polarity.opposite().mark());
    assert(arrives(pre.elements(), pre.marks(), source, p));
}

/// A walk that emptied its stack has marked exactly what the flood reaches.
proof fn lemma_walk_floods(
    pre: Topology,
    cur: Topology,
    source: GridPosition,
    polarity: Polarity,
    start: usize,
)
    requires
        pre.wf(),
        cur.edges@ == pre.edges@,
        walking(pre, cur.nodes@, Seq::empty(), source, polarity, start, -1),
    ensures
        cur.marks() == flooded(pre.elements(), pre.marks(), source, polarity),
{
    lemma_walk_so_far(pre, cur, Seq::empty(), source, polarity, start);
    reveal(walking);
    let elements = pre.elements();
    let marks = pre.marks();
    let mark = polarity.mark();
    let after = flooded(elements, marks, source, polarity);
    assert(!Seq::<usize>::empty().contains(start));
    assert forall|p: GridPosition| cur.marks().dom().contains(p) implies cur.marks()[p]
        == after[p] by {
        if floods(elements, marks, source, p) {
            let path = choose|path: Seq<GridPosition>| #[trigger]
                clear_run(elements, marks, path, source, p);
            let to = lemma_flood_complete(pre, cur.nodes@, source, mark, start, path);
            assert(cur.nodes@[to].position == p);
            cur.lemma_mark_of(to);
        }
    }
    assert(cur.marks() =~= after);
}

/// A walk that emptied its stack has met no clash.
proof fn lemma_walk_clean(
    pre: Topology,
    cur: Seq<Node>,
    source: GridPosition,
    polarity: Polarity,
    start: usize,
)
    requires
        pre.wf(),
        walking(pre, cur, Seq::empty(), source, polarity, start, -1),
    ensures
        !clashes(pre.elements(), pre.marks(), source, polarity),
{
    reveal(walking);
    let elements = pre.elements();
    let marks = pre.marks();
    let mark = polarity.mark();
    assert(!Seq::<usize>::empty().contains(start));
    if clashes(elements, marks, source, polarity) {
        let p = choose|p: GridPosition|
            marks.dom().contains(p) && marks[p] == polarity.opposite().mark() && #[trigger] arrives(
                elements,
                marks,
                source,
                p,
            );
        let k = if p == source {
            start as int
        } else {
            let q = choose|q: GridPosition| #[trigger]
                floods(elements, marks, source, q) && linked(elements, q, p);
            let path = choose|path: Seq<GridPosition>| #[trigger]
                clear_run(elements, marks, path, source, q);
            let from = lemma_flood_complete(pre, cur, source, mark, start, path);
            lemma_far_end(pre, cur, mark, from, p)
        };
        pre.lemma_mark_of(k);
        assert(cur[k].mark == mark);
        assert(pre.nodes@[k].mark == polarity.opposite().mark());
        assert(false);
    }
}

/// A flood from a position that is no node marks nothing and meets nothing.
proof fn lemma_walk_nowhere(pre: Topology, source: GridPosition, polarity: Polarity)
    requires
        pre.wf(),
        !pre.marks().dom().contains(source),
    ensures
        !clashes(pre.elements(), pre.marks(), source, polarity),
        pre.marks() == flooded(pre.elements(), pre.marks(), source, polarity),
{
    let elements = pre.elements();
    let marks = pre.marks();
    assert forall|p: GridPosition| !floods(elements, marks, source, p) by {
        lemma_blocked_source(elements, marks, source, p);
    }
    assert(marks =~= flooded(elements, marks, source, polarity));
}

/// Pushes on `stack` the far end of every edge at node `i` that does not
/// carry `mark`.
fn spread(
    nodes: &Vec<Node>,
    edges: &Vec<(usize, usize)>,
    i: usize,
    mark: Mark,
    stack: &mut Vec<usize>,
)
    requires
        i < nodes@.len(),
        forall|e: int|
            0 <= e < edges@.len() ==> (#[trigger] edges@[e]).0 < nodes@.len() && edges@[e].1
                < nodes@.len(),
    ensures
        old(stack)@.len() <= final(stack)@.len(),
        final(stack)@.subrange(0, old(stack)@.len() as int) == old(stack)@,
        forall|t: int|
            old(stack)@.len() <= t < final(stack)@.len() ==> (#[trigger] final(stack)@[t])
                < nodes@.len() && exists|e: int| edge_between(edges@, e, i, final(stack)@[t]),
        forall|e: int|
            0 <= e < edges@.len() ==> #[trigger] handled(
                nodes@,
                edges@,
                final(stack)@,
                mark,
                i as int,
                e,
            ),
{
    let ghost held = stack@;
    let mut e: usize = 0;
    proof {
        assert(stack@.subrange(0, held.len() as int) =~= held);
    }
    while e < edges.len()
        invariant
            e <= edges@.len(),
            i < nodes@.len(),
            forall|d: int|
                0 <= d < edges@.len() ==> (#[trigger] edges@[d]).0 < nodes@.len() && edges@[d].1
                    < nodes@.len(),
            held.len() <= stack@.len(),
            stack@.subrange(0, held.len() as int) == held,
            forall|t: int|
                held.len() <= t < stack@.len() ==> (#[trigger] stack@[t]) < nodes@.len()
                    && exists|d: int| edge_between(edges@, d, i, stack@[t]),
            forall|d: int|
                0 <= d < e ==> #[trigger] handled(nodes@, edges@, stack@, mark, i as int, d),
        decreases edges@.len() - e,
    {
        let (a, b) = edges[e];
        let ghost below = stack@;
        let far = if a == i {
            Some(b)
        } else if b == i {
            Some(a)
        } else {
            None
        };
        if let Some(j) = far {
            if nodes[j].mark != mark {
                stack.push(j);
                proof {
                    assert(stack@[below.len() as int] == j);
                    assert(edge_between(edges@, e as int, i, j));
                }
            }
        }
        proof {
            assert(stack@.subrange(0, held.len() as int) =~= held);
            assert(stack@.subrange(0, below.len() as int) =~= below);
            assert forall|t: int| held.len() <= t < stack@.len() implies (#[trigger] stack@[t])
                < nodes@.len() && exists|d: int| edge_between(edges@, d, i, stack@[t]) by {
                if t < below.len() {
                    assert(stack@[t] == below[t]);
                    let d = choose|d: int| edge_between(edges@, d, i, below[t]);
                    assert(edge_between(edges@, d, i, stack@[t]));
                }
            }
            assert forall|d: int| 0 <= d < e + 1 implies #[trigger] handled(
                nodes@,
                edges@,
                stack@,
                mark,
                i as int,
                d,
            ) by {
                if d < e {
                    assert(handled(nodes@, edges@, below, mark, i as int, d));
                    if below.contains(edges@[d].0) {
                        lemma_stack_grows(below, stack@, edges@[d].0);
                    }
                    if below.contains(edges@[d].1) {
                        lemma_stack_grows(below, stack@, edges@[d].1);
                    }
                }
            }
        }
        e += 1;
    }
}

impl Topology {
    /// Floods the graph with `polarity` from the node at `source`.
    ///
    /// Fails exactly when the flood comes to a node of the other polarity. On
    /// success every unvisited node that a path of unvisited nodes joins to
    /// the source carries the flood's mark, and no other mark has changed; a
    /// source that is no node leaves the graph as it is. Positions and edges
    /// never change. After a failure some of the nodes that the flood reaches
    /// may carry its mark already.
    pub fn walk(&mut self, source: GridPosition, polarity: Polarity) -> (r: Result<
        (),
        ShortCircuit,
    >)
        requires
            old(self).wf(),
        ensures
            final(self).wf(),
            final(self).edges@ == old(self).edges@,
            final(self).positions() == old(self).positions(),
            final(self).elements() == old(self).elements(),
            final(self).marks().dom() == old(self).marks().dom(),
            r is Err <==> clashes(old(self).elements(), old(self).marks(), source, polarity),
            r is Ok ==> final(self).marks() == flooded(
                old(self).elements(),
                old(self).marks(),
                source,
                polarity,
            ),
            r is Err ==> forall|p: GridPosition|
                #![trigger final(self).marks()[p]]
                old(self).marks().dom().contains(p) ==> final(self).marks()[p] == old(
                    self,
                ).marks()[p] || (is_clear(old(self).marks(), p) && final(self).marks()[p]
                    == polarity.mark() && floods(
                    old(self).elements(),
                    old(self).marks(),
                    source,
                    p,
                )),
    {
        let ghost pre = *self;
        let mark = polarity.mark();
        let start = match self.find(source) {
            Some(i) => i,
            None => {
                proof {
                    lemma_walk_nowhere(pre, source, polarity);
                }
                return Ok(());
            },
        };
        let ghost n = self.nodes@.len();
        let mut stack: Vec<usize> = Vec::new();
        stack.push(start);
        let ghost mut fresh: Set<int> = Set::new(
            |k: int| 0 <= k < n && pre.nodes@[k].mark == Mark::Unvisited,
        );
        proof {
            let all = set_int_range(0, n as int);
            assert(fresh.subset_of(all));
            lemma_int_range(0, n as int);
            lemma_len_subset(fresh, all);
            assert(stack@ =~= seq![start]);
            lemma_walk_begins(pre, source, polarity, start);
        }
        while stack.len() > 0
            invariant
                pre == *old(self),
                pre.wf(),
                mark == polarity.mark(),
                n == self.nodes@.len(),
                self.edges@ == pre.edges@,
                walking(pre, self.nodes@, stack@, source, polarity, start, -1),
                fresh.finite(),
                forall|k: int|
                    fresh.contains(k) <==> 0 <= k < n && self.nodes@[k].mark == Mark::Unvisited,
            decreases fresh.len(), stack.len(),
        {
            let ghost waiting = stack@;
            let ghost before = self.nodes@;
            proof {
                lemma_walk_top(pre, before, waiting, source, polarity, start);
            }
            let i = stack.pop().unwrap();
            proof {
                assert(waiting[waiting.len() - 1] == i);
                assert(stack@ =~= waiting.drop_last());
            }
            let node = self.nodes[i];
            if node.mark == Mark::Unvisited {
                self.nodes.set(i, Node { position: node.position, mark });
                proof {
                    assert(fresh.contains(i as int));
                    fresh = fresh.remove(i as int);
                    lemma_walk_marks(pre, before, self.nodes@, waiting, source, polarity, start);
                }
                let ghost held = stack@;
                spread(&self.nodes, &self.edges, i, mark, &mut stack);
                proof {
                    lemma_walk_spreads(
                        pre,
                        self.nodes@,
                        held,
                        stack@,
                        source,
                        polarity,
                        start,
                        i,
                    );
                }
            } else if node.mark != mark {
                proof {
                    lemma_walk_fails(pre, before, waiting, source, polarity, start);
                    lemma_walk_so_far(pre, *self, waiting, source, polarity, start);
                }
                return Err(ShortCircuit);
            } else {
                proof {
                    lemma_walk_skips(pre, before, waiting, source, polarity, start);
                }
            }
        }
        proof {
            assert(stack@ =~= Seq::empty());
            lemma_walk_floods(pre, *self, source, polarity, start);
            lemma_walk_clean(pre, self.nodes@, source, polarity, start);
            lemma_walk_so_far(pre, *self, Seq::empty(), source, polarity, start);
        }
        Ok(())
    }
}

} // verus!
