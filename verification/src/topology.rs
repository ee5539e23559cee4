//! The graph that the conducting elements of one tick form.
//!
//! Endpoints are deduplicated into indexed nodes, first seen first, and every
//! element becomes one edge between two node indices. Each node carries the
//! mark that the floods from the two power terminals leave on it.

use vstd::prelude::*;
use crate::graph::is_node;
use crate::grid::{GridPosition, Wire};

verus! {

/// The two poles of the power supply.
#[derive(Clone, Copy, Debug, PartialEq, Eq, Hash, Structural)]
pub enum Polarity {
    Positive,
    Negative,
}

/// What the floods have left on a node. A node cannot carry both polarities:
/// a flood that meets the other polarity is a short circuit.
#[derive(Clone, Copy, Debug, PartialEq, Eq, Hash, Structural)]
pub enum Mark {
    Unvisited,
    Positive,
    Negative,
}

impl Polarity {
    pub open spec fn spec_mark(self) -> Mark {
        match self {
            Polarity::Positive => Mark::Positive,
            Polarity::Negative => Mark::Negative,
        }
    }

    /// The mark that a flood of this polarity leaves.
    #[verifier::when_used_as_spec(spec_mark)]
    pub fn mark(self) -> (m: Mark)
        ensures
            m == self.spec_mark(),
    {
        match self {
            Polarity::Positive => Mark::Positive,
            Polarity::Negative => Mark::Negative,
        }
    }

    pub open spec fn spec_opposite(self) -> Polarity {
        match self {
            Polarity::Positive => Polarity::Negative,
            Polarity::Negative => Polarity::Positive,
        }
    }

    /// The other pole.
    #[verifier::when_used_as_spec(spec_opposite)]
    pub fn opposite(self) -> (o: Polarity)
        ensures
            o == self.spec_opposite(),
    {
        match self {
            Polarity::Positive => Polarity::Negative,
            Polarity::Negative => Polarity::Positive,
        }
    }
}

/// A node of the graph: a grid position and its mark.
#[derive(Clone, Copy, Debug, PartialEq, Eq, Structural)]
pub struct Node {
    pub position: GridPosition,
    pub mark: Mark,
}

/// The positions of a sequence of nodes, in order.
pub open spec fn positions_of(nodes: Seq<Node>) -> Seq<GridPosition> {
    Seq::new(nodes.len(), |i: int| nodes[i].position)
}

/// Both ends of every wire, wire by wire, first end before second.
pub open spec fn endpoints(elements: Seq<Wire>) -> Seq<GridPosition>
    decreases elements.len(),
{
    if elements.len() == 0 {
        Seq::empty()
    } else {
        endpoints(elements.drop_last()).push(elements.last().first).push(elements.last().second)
    }
}

/// `seen` with `p` appended unless it is there already.
pub open spec fn noted(seen: Seq<GridPosition>, p: GridPosition) -> Seq<GridPosition> {
    if seen.contains(p) {
        seen
    } else {
        seen.push(p)
    }
}

/// The distinct positions of `s` in the order of their first occurrence.
pub open spec fn first_seen(s: Seq<GridPosition>) -> Seq<GridPosition>
    decreases s.len(),
{
    if s.len() == 0 {
        Seq::empty()
    } else {
        noted(first_seen(s.drop_last()), s.last())
    }
}

/// The index of the first node at `p`, if there is one.
fn lookup(nodes: &Vec<Node>, p: GridPosition) -> (r: Option<usize>)
    ensures
        match r {
            Some(i) => {
                &&& i < nodes.len()
                &&& nodes[i as int].position == p
                &&& forall|j: int| 0 <= j < i ==> nodes[j].position != p
            },
            None => forall|j: int| 0 <= j < nodes.len() ==> nodes[j].position != p,
        },
{
    let mut i: usize = 0;
    while i < nodes.len()
        invariant
            i <= nodes.len(),
            forall|j: int| 0 <= j < i ==> nodes[j].position != p,
        decreases nodes.len() - i,
    {
        if nodes[i].position == p {
            return Some(i);
        }
        i += 1;
    }
    None
}

/// Finds the node at `p`, adding an unvisited one at the end if there is none.
fn intern(nodes: &mut Vec<Node>, p: GridPosition) -> (idx: usize)
    requires
        positions_of(old(nodes)@).no_duplicates(),
    ensures
        positions_of(final(nodes)@) == noted(positions_of(old(nodes)@), p),
        positions_of(final(nodes)@).no_duplicates(),
        idx < final(nodes).len(),
        final(nodes)[idx as int].position == p,
        final(nodes).len() >= old(nodes).len(),
        forall|k: int| 0 <= k < old(nodes).len() ==> final(nodes)[k] == old(nodes)[k],
        forall|k: int|
            old(nodes).len() <= k < final(nodes).len() ==> final(nodes)[k] == (Node {
                position: p,
                mark: Mark::Unvisited,
            }),
{
    let ghost before = positions_of(nodes@);
    match lookup(nodes, p) {
        Some(i) => {
            proof {
                assert(before[i as int] == p);
            }
            i
        },
        None => {
            let idx = nodes.len();
            nodes.push(Node { position: p, mark: Mark::Unvisited });
            proof {
                assert(!before.contains(p)) by {
                    if before.contains(p) {
                        let j = choose|j: int| 0 <= j < before.len() && before[j] == p;
                        assert(old(nodes)[j].position == p);
                    }
                }
                assert(positions_of(nodes@) =~= before.push(p));
            }
            idx
        },
    }
}

/// The conduction graph of one tick.
#[derive(Debug)]
pub struct Topology {
    /// The deduplicated endpoints, first seen first.
    pub nodes: Vec<Node>,
    /// One pair of node indices per conducting element, in the elements'
    /// order. Parallel elements give parallel edges.
    pub edges: Vec<(usize, usize)>,
}

impl Topology {
    /// The node positions, by node index.
    pub open spec fn positions(&self) -> Seq<GridPosition> {
        positions_of(self.nodes@)
    }

    /// The edges read as wires between positions. For a graph made by
    /// [`Topology::build`] these are the elements it was built from.
    pub open spec fn elements(&self) -> Seq<Wire> {
        Seq::new(
            self.edges@.len(),
            |i: int|
                Wire {
                    first: self.nodes@[self.edges@[i].0 as int].position,
                    second: self.nodes@[self.edges@[i].1 as int].position,
                },
        )
    }

    /// The mark of every node, by position.
    pub open spec fn marks(&self) -> Map<GridPosition, Mark> {
        Map::new(
            |p: GridPosition| self.positions().contains(p),
            |p: GridPosition| self.nodes@[self.positions().index_of(p)].mark,
        )
    }

    /// No position occurs twice among the nodes, every edge names two nodes,
    /// and every node is an end of some edge.
    pub open spec fn wf(&self) -> bool {
        &&& self.positions().no_duplicates()
        &&& forall|i: int|
            0 <= i < self.edges@.len() ==> (#[trigger] self.edges@[i]).0 < self.nodes@.len()
                && self.edges@[i].1 < self.nodes@.len()
        &&& forall|k: int|
            0 <= k < self.nodes@.len() ==> is_node(self.elements(), #[trigger] self.nodes@[k].position)
    }

    /// In a well-formed graph the nodes are the positions that the elements
    /// touch, and a node's mark is found under its position.
    pub proof fn lemma_nodes(&self)
        requires
            self.wf(),
        ensures
            forall|p: GridPosition| self.marks().dom().contains(p) <==> is_node(self.elements(), p),
            forall|k: int|
                0 <= k < self.nodes@.len() ==> self.marks().dom().contains(
                    #[trigger] self.nodes@[k].position,
                ) && self.marks()[self.nodes@[k].position] == self.nodes@[k].mark,
    {
        let positions = self.positions();
        let elements = self.elements();
        assert forall|k: int| 0 <= k < self.nodes@.len() implies self.marks().dom().contains(
            #[trigger] self.nodes@[k].position,
        ) && self.marks()[self.nodes@[k].position] == self.nodes@[k].mark by {
            assert(positions[k] == self.nodes@[k].position);
            let j = positions.index_of(positions[k]);
            assert(j == k);
        }
        assert forall|p: GridPosition| self.marks().dom().contains(p) <==> is_node(
            elements,
            p,
        ) by {
            if self.marks().dom().contains(p) {
                let k = choose|k: int| 0 <= k < positions.len() && positions[k] == p;
                assert(is_node(elements, self.nodes@[k].position));
            }
            if is_node(elements, p) {
                let i = choose|i: int| 0 <= i < elements.len() && (#[trigger] elements[i]).touches(p);
                let a = self.edges@[i].0 as int;
                let b = self.edges@[i].1 as int;
                assert(positions[a] == elements[i].first);
                assert(positions[b] == elements[i].second);
            }
        }
    }

    /// The node at a position that carries a mark.
    pub proof fn lemma_node_of(&self, p: GridPosition) -> (k: int)
        requires
            self.marks().dom().contains(p),
        ensures
            0 <= k < self.nodes@.len(),
            self.nodes@[k].position == p,
    {
        let positions = self.positions();
        let k = choose|k: int| 0 <= k < positions.len() && positions[k] == p;
        k
    }

    /// Two nodes at one position are one node.
    pub proof fn lemma_same_node(&self, j: int, k: int)
        requires
            self.wf(),
            0 <= j < self.nodes@.len(),
            0 <= k < self.nodes@.len(),
            self.nodes@[j].position == self.nodes@[k].position,
        ensures
            j == k,
    {
        let positions = self.positions();
        assert(positions[j] == positions[k]);
    }

    /// The mark of node `k` is found under its position.
    pub proof fn lemma_mark_of(&self, k: int)
        requires
            self.wf(),
            0 <= k < self.nodes@.len(),
        ensures
            self.marks().dom().contains(self.nodes@[k].position),
            self.marks()[self.nodes@[k].position] == self.nodes@[k].mark,
            is_node(self.elements(), self.nodes@[k].position),
    {
        let positions = self.positions();
        assert(positions[k] == self.nodes@[k].position);
        let j = positions.index_of(positions[k]);
        assert(positions[j] == positions[k]);
    }

    /// Builds the graph of `elements`: the nodes are the distinct endpoints in
    /// the order in which they first occur, all unvisited, and edge `i` joins
    /// the nodes at the two ends of element `i`.
    pub fn build(elements: &Vec<Wire>) -> (t: Topology)
        ensures
            t.wf(),
            t.elements() == elements@,
            t.positions() == first_seen(endpoints(elements@)),
            forall|k: int| 0 <= k < t.nodes@.len() ==> (#[trigger] t.nodes@[k]).mark == Mark::Unvisited,
    {
        let mut nodes: Vec<Node> = Vec::new();
        let mut edges: Vec<(usize, usize)> = Vec::new();
        let mut i: usize = 0;
        proof {
            assert(positions_of(nodes@) =~= first_seen(endpoints(elements@.take(0))));
        }
        while i < elements.len()
            invariant
                i <= elements.len(),
                edges@.len() == i,
                positions_of(nodes@) == first_seen(endpoints(elements@.take(i as int))),
                positions_of(nodes@).no_duplicates(),
                forall|e: int|
                    0 <= e < i ==> {
                        &&& (#[trigger] edges@[e]).0 < nodes@.len()
                        &&& edges@[e].1 < nodes@.len()
                        &&& nodes@[edges@[e].0 as int].position == elements@[e].first
                        &&& nodes@[edges@[e].1 as int].position == elements@[e].second
                    },
                forall|k: int| 0 <= k < nodes@.len() ==> (#[trigger] nodes@[k]).mark == Mark::Unvisited,
                forall|k: int|
                    0 <= k < nodes@.len() ==> is_node(
                        elements@.take(i as int),
                        (#[trigger] nodes@[k]).position,
                    ),
            decreases elements.len() - i,
        {
            let wire = elements[i];
            let ghost before = nodes@;
            let a = intern(&mut nodes, wire.first);
            let b = intern(&mut nodes, wire.second);
            edges.push((a, b));
            proof {
                let upto = elements@.take(i as int);
                let next = elements@.take(i as int + 1);
                assert(next.drop_last() =~= upto);
                assert(next.last() == wire);
                let ends = endpoints(upto);
                assert(endpoints(next) == ends.push(wire.first).push(wire.second));
                assert(ends.push(wire.first).push(wire.second).drop_last() =~= ends.push(wire.first));
                assert(ends.push(wire.first).drop_last() =~= ends);
                assert(first_seen(ends.push(wire.first)) == noted(first_seen(ends), wire.first));
                assert(first_seen(endpoints(next)) == noted(
                    first_seen(ends.push(wire.first)),
                    wire.second,
                ));
                assert forall|k: int| 0 <= k < nodes@.len() implies is_node(
                    next,
                    (#[trigger] nodes@[k]).position,
                ) by {
                    if k < before.len() {
                        let e = choose|e: int|
                            0 <= e < upto.len() && (#[trigger] upto[e]).touches(before[k].position);
                        assert(next[e].touches(nodes@[k].position));
                    } else {
                        assert(next[i as int].touches(nodes@[k].position));
                    }
                }
            }
            i += 1;
        }
        let t = Topology { nodes, edges };
        proof {
            assert(elements@.take(i as int) =~= elements@);
            assert(t.elements() =~= elements@);
            assert forall|k: int| 0 <= k < t.nodes@.len() implies is_node(
                t.elements(),
                #[trigger] t.nodes@[k].position,
            ) by {
                assert(is_node(elements@, t.nodes@[k].position));
            }
        }
        t
    }

    /// The index of the node at `p`, if `p` is a node.
    pub fn find(&self, p: GridPosition) -> (r: Option<usize>)
        ensures
            r is None <==> !self.marks().dom().contains(p),
            r matches Some(i) ==> i < self.nodes@.len() && self.nodes@[i as int].position == p
                && forall|j: int| 0 <= j < i ==> self.nodes@[j].position != p,
    {
        let r = lookup(&self.nodes, p);
        proof {
            let positions = self.positions();
            match r {
                Some(i) => {
                    assert(positions[i as int] == p);
                },
                None => {
                    if positions.contains(p) {
                        let j = choose|j: int| 0 <= j < positions.len() && positions[j] == p;
                        assert(self.nodes@[j].position == p);
                    }
                },
            }
        }
        r
    }

    /// The mark of the node at `p`, if `p` is a node.
    pub fn mark_at(&self, p: GridPosition) -> (r: Option<Mark>)
        requires
            self.wf(),
        ensures
            r == if self.marks().dom().contains(p) {
                Some(self.marks()[p])
            } else {
                None
            },
    {
        match self.find(p) {
            Some(i) => {
                proof {
                    self.lemma_nodes();
                }
                Some(self.nodes[i].mark)
            },
            None => None,
        }
    }
}

} // verus!
