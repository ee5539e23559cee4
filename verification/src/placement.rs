//! The rules of placing and removing elements on the grid.
//!
//! The engine itself takes any wire and any device. These are the rules
//! that an editor holds its user to: wires run along grid lines, a device
//! takes three positions in a column, and each actuator drives a bounded
//! number of contacts.

use vstd::prelude::*;
use crate::devices::{Lamp, RelayCoil, SwitchDevice, SwitchKind};
use crate::grid::{GridPosition, Wire};

verus! {

/// How many contacts of one kind a single relay may drive.
pub const MAX_GANGED_CONTACTS: usize = 5;

/// Whether a wire may run between `a` and `b`: they share a column or a row.
pub fn axis_aligned(a: GridPosition, b: GridPosition) -> (aligned: bool)
    ensures
        aligned == (a.x == b.x || a.y == b.y),
{
    a.x == b.x || a.y == b.y
}

/// `v` lies between `a` and `b`, whichever of the two is the smaller.
pub open spec fn between(a: usize, b: usize, v: usize) -> bool {
    (a <= v && v <= b) || (b <= v && v <= a)
}

impl Wire {
    pub open spec fn spec_covers(&self, p: GridPosition) -> bool {
        if self.first.x == self.second.x {
            p.x == self.first.x && between(self.first.y, self.second.y, p.y)
        } else if self.first.y == self.second.y {
            p.y == self.first.y && between(self.first.x, self.second.x, p.x)
        } else {
            false
        }
    }

    /// Whether the wire runs over `p`: `p` lies on the grid line between its
    /// two ends, ends included. A wire along no grid line covers nothing.
    #[verifier::when_used_as_spec(spec_covers)]
    pub fn covers(&self, p: GridPosition) -> (hit: bool)
        ensures
            hit == self.spec_covers(p),
    {
        if self.first.x == self.second.x {
            if self.first.x != p.x {
                return false;
            }
            let (low, high) = if self.first.y <= self.second.y {
                (self.first.y, self.second.y)
            } else {
                (self.second.y, self.first.y)
            };
            low <= p.y && p.y <= high
        } else if self.first.y == self.second.y {
            if self.first.y != p.y {
                return false;
            }
            let (low, high) = if self.first.x <= self.second.x {
                (self.first.x, self.second.x)
            } else {
                (self.second.x, self.first.x)
            };
            low <= p.x && p.x <= high
        } else {
            false
        }
    }
}

/// The two terminals of a device placed with its body at `centre`: one
/// position above and one below.
pub fn device_terminals(centre: GridPosition) -> (ends: (GridPosition, GridPosition))
    requires
        0 < centre.y < usize::MAX,
    ensures
        ends.0 == (GridPosition { x: centre.x, y: (centre.y + 1) as usize }),
        ends.1 == (GridPosition { x: centre.x, y: (centre.y - 1) as usize }),
{
    (GridPosition { x: centre.x, y: centre.y + 1 }, GridPosition { x: centre.x, y: centre.y - 1 })
}

/// Whether a device with terminals `top` and `bottom` takes up `p`: `p` is
/// one of the terminals or the body, which sits right below `top`.
pub fn device_covers(top: GridPosition, bottom: GridPosition, p: GridPosition) -> (hit: bool)
    requires
        top.y > 0,
    ensures
        hit == (top == p || bottom == p || (GridPosition { x: top.x, y: (top.y - 1) as usize })
            == p),
{
    let body = GridPosition { x: top.x, y: top.y - 1 };
    top == p || bottom == p || body == p
}

/// Whether a lamp with this id stands on the grid already.
pub fn lamp_placed(lamps: &Vec<Lamp>, id: usize) -> (placed: bool)
    ensures
        placed == exists|i: int| 0 <= i < lamps@.len() && (#[trigger] lamps@[i]).id == id,
{
    let mut i: usize = 0;
    while i < lamps.len()
        invariant
            i <= lamps@.len(),
            forall|j: int| 0 <= j < i ==> (#[trigger] lamps@[j]).id != id,
        decreases lamps@.len() - i,
    {
        if lamps[i].id == id {
            return true;
        }
        i += 1;
    }
    false
}

/// Whether a relay coil with this id stands on the grid already.
pub fn coil_placed(coils: &Vec<RelayCoil>, id: usize) -> (placed: bool)
    ensures
        placed == exists|i: int| 0 <= i < coils@.len() && (#[trigger] coils@[i]).id == id,
{
    let mut i: usize = 0;
    while i < coils.len()
        invariant
            i <= coils@.len(),
            forall|j: int| 0 <= j < i ==> (#[trigger] coils@[j]).id != id,
        decreases coils@.len() - i,
    {
        if coils[i].id == id {
            return true;
        }
        i += 1;
    }
    false
}

/// The number of contacts of `kind` that the actuator `id` drives.
pub open spec fn ganged(switches: Seq<SwitchDevice>, id: usize, kind: SwitchKind) -> nat
    decreases switches.len(),
{
    if switches.len() == 0 {
        0
    } else if switches.last().id == id && switches.last().kind == kind {
        ganged(switches.drop_last(), id, kind) + 1
    } else {
        ganged(switches.drop_last(), id, kind)
    }
}

/// Counts the contacts of `kind` that the actuator `id` drives.
pub fn count_ganged(switches: &Vec<SwitchDevice>, id: usize, kind: SwitchKind) -> (count: usize)
    ensures
        count == ganged(switches@, id, kind),
{
    let mut count: usize = 0;
    let mut i: usize = 0;
    while i < switches.len()
        invariant
            i <= switches@.len(),
            count == ganged(switches@.take(i as int), id, kind),
            count <= i,
        decreases switches@.len() - i,
    {
        proof {
            assert(switches@.take(i as int + 1).drop_last() =~= switches@.take(i as int));
        }
        if switches[i].id == id && switches[i].kind == kind {
            count += 1;
        }
        i += 1;
    }
    proof {
        assert(switches@.take(i as int) =~= switches@);
    }
    count
}

/// Whether a further contact of `kind` may be placed for button `id`: a
/// button drives one contact of each kind.
pub fn button_contact_free(switches: &Vec<SwitchDevice>, id: usize, kind: SwitchKind) -> (free:
    bool)
    ensures
        free == (ganged(switches@, id, kind) == 0),
{
    count_ganged(switches, id, kind) == 0
}

/// Whether a further contact of `kind` may be placed for relay `id`: a relay
/// drives up to [`MAX_GANGED_CONTACTS`] contacts of each kind.
pub fn relay_contact_free(switches: &Vec<SwitchDevice>, id: usize, kind: SwitchKind) -> (free:
    bool)
    ensures
        free == (ganged(switches@, id, kind) < MAX_GANGED_CONTACTS),
{
    count_ganged(switches, id, kind) < MAX_GANGED_CONTACTS
}

} // verus!
