//! The two floods of a tick, and what they leave behind.
//!
//! The positive terminal floods the fresh graph first and cannot fail. The
//! negative terminal floods what is left; it fails exactly when the two
//! terminals are connected. Otherwise every node connected to a terminal
//! carries that terminal's polarity and every other node stays unvisited.

use vstd::prelude::*;
use crate::graph::{
    connected,
    is_node,
    lemma_connected_nodes,
    lemma_connected_step,
    lemma_connected_sym,
    lemma_connected_trans,
    lemma_path_nodes,
    lemma_path_prefix,
    linked,
    runs_between,
};
use crate::grid::{GridPosition, Wire};
use crate::topology::{endpoints, first_seen, Mark, Polarity, Topology};
use crate::walker::{arrives, clashes, clear_run, flooded, floods, is_clear, ShortCircuit};

verus! {

/// The marks of a graph that no flood has touched: every node unvisited.
pub open spec fn blank(elements: Seq<Wire>) -> Map<GridPosition, Mark> {
    Map::new(|p: GridPosition| is_node(elements, p), |p: GridPosition| Mark::Unvisited)
}

/// The marks after the positive flood alone.
pub open spec fn half_lit(elements: Seq<Wire>, positive: GridPosition) -> Map<GridPosition, Mark> {
    Map::new(
        |p: GridPosition| is_node(elements, p),
        |p: GridPosition|
            if connected(elements, positive, p) {
                Mark::Positive
            } else {
                Mark::Unvisited
            },
    )
}

/// The mark that the two floods leave at `p` when the terminals are not
/// connected to each other.
pub open spec fn potential(
    elements: Seq<Wire>,
    positive: GridPosition,
    negative: GridPosition,
    p: GridPosition,
) -> Mark {
    if connected(elements, positive, p) {
        Mark::Positive
    } else if connected(elements, negative, p) {
        Mark::Negative
    } else {
        Mark::Unvisited
    }
}

/// The marks of all nodes after both floods.
pub open spec fn potentials(
    elements: Seq<Wire>,
    positive: GridPosition,
    negative: GridPosition,
) -> Map<GridPosition, Mark> {
    Map::new(
        |p: GridPosition| is_node(elements, p),
        |p: GridPosition| potential(elements, positive, negative, p),
    )
}

/// Over a blank graph a flood reaches exactly what is connected to its
/// source.
pub proof fn lemma_blank_flood(elements: Seq<Wire>, source: GridPosition, p: GridPosition)
    ensures
        floods(elements, blank(elements), source, p) <==> connected(elements, source, p),
{
    let marks = blank(elements);
    if floods(elements, marks, source, p) {
        let path = choose|path: Seq<GridPosition>| #[trigger]
            clear_run(elements, marks, path, source, p);
        assert(runs_between(elements, path, source, p));
    }
    if connected(elements, source, p) {
        let path = choose|path: Seq<GridPosition>| #[trigger]
            runs_between(elements, path, source, p);
        assert forall|k: int| 0 <= k < path.len() implies is_clear(marks, #[trigger] path[k]) by {
            lemma_path_nodes(elements, path, k);
        }
        assert(clear_run(elements, marks, path, source, p));
    }
}

/// The first flood of a tick meets no clash and lights what is connected to
/// its source.
pub proof fn lemma_first_flood(elements: Seq<Wire>, positive: GridPosition)
    ensures
        !clashes(elements, blank(elements), positive, Polarity::Positive),
        flooded(elements, blank(elements), positive, Polarity::Positive) == half_lit(
            elements,
            positive,
        ),
{
    let marks = blank(elements);
    assert forall|p: GridPosition|
        floods(elements, marks, positive, p) <==> connected(elements, positive, p) by {
        lemma_blank_flood(elements, positive, p);
    }
    assert(flooded(elements, marks, positive, Polarity::Positive) =~= half_lit(elements, positive));
}

/// What the second flood reaches is connected to its source.
proof fn lemma_second_reach(
    elements: Seq<Wire>,
    positive: GridPosition,
    negative: GridPosition,
    p: GridPosition,
)
    requires
        floods(elements, half_lit(elements, positive), negative, p),
    ensures
        connected(elements, negative, p),
{
    let marks = half_lit(elements, positive);
    let path = choose|path: Seq<GridPosition>| #[trigger]
        clear_run(elements, marks, path, negative, p);
    assert(runs_between(elements, path, negative, p));
}

/// The second flood clashes exactly when the two terminals are connected.
pub proof fn lemma_second_clash(elements: Seq<Wire>, positive: GridPosition, negative: GridPosition)
    ensures
        clashes(elements, half_lit(elements, positive), negative, Polarity::Negative) <==> connected(
            elements,
            positive,
            negative,
        ),
{
    let marks = half_lit(elements, positive);
    if connected(elements, positive, negative) {
        lemma_connected_nodes(elements, positive, negative);
        assert(arrives(elements, marks, negative, negative));
    }
    if clashes(elements, marks, negative, Polarity::Negative) {
        let p = choose|p: GridPosition|
            marks.dom().contains(p) && marks[p] == Polarity::Negative.opposite().mark()
                && #[trigger] arrives(elements, marks, negative, p);
        assert(connected(elements, positive, p));
        if p != negative {
            let q = choose|q: GridPosition| #[trigger]
                floods(elements, marks, negative, q) && linked(elements, q, p);
            lemma_second_reach(elements, positive, negative, q);
            lemma_connected_step(elements, negative, q, p);
            lemma_connected_sym(elements, negative, p);
            lemma_connected_trans(elements, positive, p, negative);
        }
    }
}

/// Without a short circuit the second flood reaches exactly what is
/// connected to the negative terminal, and the two floods together leave
/// each node the polarity of the terminal that it is connected to.
pub proof fn lemma_second_flood(elements: Seq<Wire>, positive: GridPosition, negative: GridPosition)
    requires
        !connected(elements, positive, negative),
    ensures
        flooded(elements, half_lit(elements, positive), negative, Polarity::Negative) == potentials(
            elements,
            positive,
            negative,
        ),
{
    let marks = half_lit(elements, positive);
    let after = flooded(elements, marks, negative, Polarity::Negative);
    let goal = potentials(elements, positive, negative);
    assert forall|p: GridPosition| is_node(elements, p) implies after[p] == goal[p] by {
        if floods(elements, marks, negative, p) {
            lemma_second_reach(elements, positive, negative, p);
            if connected(elements, positive, p) {
                lemma_connected_sym(elements, negative, p);
                lemma_connected_trans(elements, positive, p, negative);
            }
        } else if connected(elements, negative, p) {
            let path = choose|path: Seq<GridPosition>| #[trigger]
                runs_between(elements, path, negative, p);
            assert forall|k: int| 0 <= k < path.len() implies is_clear(marks, #[trigger] path[k]) by {
                lemma_path_nodes(elements, path, k);
                if connected(elements, positive, path[k]) {
                    lemma_path_prefix(elements, path, k + 1);
                    assert(runs_between(elements, path.take(k + 1), negative, path[k]));
                    lemma_connected_sym(elements, negative, path[k]);
                    lemma_connected_trans(elements, positive, path[k], negative);
                }
            }
            assert(clear_run(elements, marks, path, negative, p));
        }
    }
    assert(after =~= goal);
}

/// Builds the graph of `elements` and floods it from both terminals, the
/// positive one first.
///
/// Fails exactly when the terminals are connected to each other. Otherwise
/// the graph comes back with every node marked by the terminal that it is
/// connected to, and unvisited where it is connected to neither. A terminal
/// that no element touches marks nothing.
pub fn propagate(elements: &Vec<Wire>, positive: GridPosition, negative: GridPosition) -> (r:
    Result<Topology, ShortCircuit>)
    ensures
        r is Err <==> connected(elements@, positive, negative),
        r matches Ok(t) ==> {
            &&& t.wf()
            &&& t.elements() == elements@
            &&& t.positions() == first_seen(endpoints(elements@))
            &&& t.marks() == potentials(elements@, positive, negative)
        },
{
    let mut t = Topology::build(elements);
    proof {
        t.lemma_nodes();
        assert(t.marks() =~= blank(elements@)) by {
            assert forall|p: GridPosition| t.marks().dom().contains(p) implies t.marks()[p]
                == Mark::Unvisited by {
                let k = t.lemma_node_of(p);
                t.lemma_mark_of(k);
            }
        }
        lemma_first_flood(elements@, positive);
    }
    let first = t.walk(positive, Polarity::Positive);
    proof {
        lemma_second_clash(elements@, positive, negative);
        if !connected(elements@, positive, negative) {
            lemma_second_flood(elements@, positive, negative);
        }
    }
    if let Err(clash) = first {
        return Err(clash);
    }
    match t.walk(negative, Polarity::Negative) {
        Ok(()) => Ok(t),
        Err(clash) => Err(clash),
    }
}

} // verus!
