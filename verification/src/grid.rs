//! Grid positions and the wires that join them.

use vstd::prelude::*;

verus! {

/// A point of the integer lattice. Two elements that share a position are the
/// same electrical node.
#[derive(Clone, Copy, Debug, PartialEq, Eq, Hash, Structural)]
pub struct GridPosition {
    pub x: usize,
    pub y: usize,
}

impl GridPosition {
    pub fn new(x: usize, y: usize) -> (p: GridPosition)
        ensures
            p.x == x,
            p.y == y,
    {
        GridPosition { x, y }
    }
}

/// A conductor between two grid positions. The pair is unordered as far as
/// conduction goes: see [`Wire::joins`].
#[derive(Clone, Copy, Debug, PartialEq, Eq, Hash, Structural)]
pub struct Wire {
    pub first: GridPosition,
    pub second: GridPosition,
}

impl Wire {
    /// The wire has `p` as one of its ends.
    pub open spec fn touches(self, p: GridPosition) -> bool {
        self.first == p || self.second == p
    }

    /// The wire runs between `p` and `q`, in either orientation.
    pub open spec fn joins(self, p: GridPosition, q: GridPosition) -> bool {
        (self.first == p && self.second == q) || (self.first == q && self.second == p)
    }

    /// The same wire with its ends exchanged.
    pub open spec fn flipped(self) -> Wire {
        Wire { first: self.second, second: self.first }
    }

    pub fn new(first: GridPosition, second: GridPosition) -> (w: Wire)
        ensures
            w.first == first,
            w.second == second,
    {
        Wire { first, second }
    }

    /// Exchanges the two ends.
    pub fn reversed(&self) -> (w: Wire)
        ensures
            w == self.flipped(),
    {
        Wire { first: self.second, second: self.first }
    }
}

} // verus!
