//! The devices that sit on the grid besides plain wires: switch contacts
//! with their actuators, and the consumers that the engine drives.

use vstd::prelude::*;
use crate::grid::{GridPosition, Wire};
use crate::topology::Polarity;

verus! {

/// How a switch contact behaves while its actuator rests.
#[derive(Clone, Copy, Debug, PartialEq, Eq, Hash, Structural)]
pub enum SwitchKind {
    NormallyOpen,
    NormallyClosed,
}

impl SwitchKind {
    pub open spec fn spec_conducts(self, active: bool) -> bool {
        (self == SwitchKind::NormallyOpen && active) || (self == SwitchKind::NormallyClosed
            && !active)
    }

    /// Whether a contact of this kind conducts: a normally open one while its
    /// actuator is active, a normally closed one while it is not.
    #[verifier::when_used_as_spec(spec_conducts)]
    pub fn conducts(self, active: bool) -> (c: bool)
        ensures
            c == self.spec_conducts(active),
    {
        match self {
            SwitchKind::NormallyOpen => active,
            SwitchKind::NormallyClosed => !active,
        }
    }
}

/// One contact of a push button or of a relay. It is a wire between `top`
/// and `bottom` that is there only while the contact conducts. Contacts that
/// share an `id` are driven by one actuator.
#[derive(Clone, Copy, Debug, PartialEq, Eq, Hash, Structural)]
pub struct SwitchDevice {
    pub id: usize,
    pub kind: SwitchKind,
    pub top: GridPosition,
    pub bottom: GridPosition,
}

impl SwitchDevice {
    pub open spec fn spec_wire(&self) -> Wire {
        Wire { first: self.top, second: self.bottom }
    }

    /// The wire that the contact is while it conducts.
    #[verifier::when_used_as_spec(spec_wire)]
    pub fn wire(&self) -> (w: Wire)
        ensures
            w == self.spec_wire(),
    {
        Wire { first: self.top, second: self.bottom }
    }
}

/// The actuator of a push button: a latch that is set when the button is
/// pressed and released by the tick that reads it.
#[derive(Clone, Copy, Debug, PartialEq, Eq, Hash, Structural)]
pub struct ButtonLatch {
    pub id: usize,
    pub has_been_pressed: bool,
}

/// A lamp between two grid positions. The lamp itself conducts nothing.
#[derive(Clone, Copy, Debug, PartialEq, Eq, Hash, Structural)]
pub struct Lamp {
    pub id: usize,
    pub top: GridPosition,
    pub bottom: GridPosition,
    pub is_lit: bool,
}

/// A relay coil between two grid positions. `activated` is what the last
/// tick made of it, and what drives the relay's contacts in the next one.
#[derive(Clone, Copy, Debug, PartialEq, Eq, Hash, Structural)]
pub struct RelayCoil {
    pub id: usize,
    pub top: GridPosition,
    pub bottom: GridPosition,
    pub activated: bool,
}

/// One pole of the power supply, anchored on the grid.
#[derive(Clone, Copy, Debug, PartialEq, Eq, Hash, Structural)]
pub struct PowerSource {
    pub polarity: Polarity,
    pub position: GridPosition,
}

/// Why a set of power sources cannot drive a circuit.
#[derive(Clone, Copy, Debug, PartialEq, Eq, Structural)]
pub enum ConfigError {
    /// There are fewer than two sources.
    MissingSource,
    /// The first two sources have the same polarity.
    SamePolarity,
}

/// The positions of the positive and of the negative terminal.
#[derive(Clone, Copy, Debug, PartialEq, Eq, Hash, Structural)]
pub struct Terminals {
    pub positive: GridPosition,
    pub negative: GridPosition,
}

/// Picks the two terminals from the first two power sources.
///
/// Fails with `MissingSource` when there are fewer than two, and with
/// `SamePolarity` when the first two agree in polarity. Sources after the
/// second are not looked at.
pub fn terminals(sources: &Vec<PowerSource>) -> (r: Result<Terminals, ConfigError>)
    ensures
        r == if sources@.len() < 2 {
            Err::<Terminals, ConfigError>(ConfigError::MissingSource)
        } else if sources@[0].polarity == sources@[1].polarity {
            Err(ConfigError::SamePolarity)
        } else if sources@[0].polarity == Polarity::Positive {
            Ok(Terminals { positive: sources@[0].position, negative: sources@[1].position })
        } else {
            Ok(Terminals { positive: sources@[1].position, negative: sources@[0].position })
        },
{
    if sources.len() < 2 {
        return Err(ConfigError::MissingSource);
    }
    let first = sources[0];
    let second = sources[1];
    if first.polarity == second.polarity {
        return Err(ConfigError::SamePolarity);
    }
    if first.polarity == Polarity::Positive {
        Ok(Terminals { positive: first.position, negative: second.position })
    } else {
        Ok(Terminals { positive: second.position, negative: first.position })
    }
}

/// The ids of the buttons whose latch is set, in the buttons' order.
pub open spec fn pressed_ids(buttons: Seq<ButtonLatch>) -> Seq<usize>
    decreases buttons.len(),
{
    if buttons.len() == 0 {
        Seq::empty()
    } else if buttons.last().has_been_pressed {
        pressed_ids(buttons.drop_last()).push(buttons.last().id)
    } else {
        pressed_ids(buttons.drop_last())
    }
}

/// The same buttons with every latch released.
pub open spec fn released(buttons: Seq<ButtonLatch>) -> Seq<ButtonLatch> {
    Seq::new(buttons.len(), |i: int| ButtonLatch { id: buttons[i].id, has_been_pressed: false })
}

/// The ids of the activated coils, in the coils' order.
pub open spec fn energised_ids(coils: Seq<RelayCoil>) -> Seq<usize>
    decreases coils.len(),
{
    if coils.len() == 0 {
        Seq::empty()
    } else if coils.last().activated {
        energised_ids(coils.drop_last()).push(coils.last().id)
    } else {
        energised_ids(coils.drop_last())
    }
}

/// The wires of the contacts that conduct while the actuators in `active`
/// are active and all others rest, in the contacts' order.
pub open spec fn closed_contacts(switches: Seq<SwitchDevice>, active: Set<usize>) -> Seq<Wire>
    decreases switches.len(),
{
    if switches.len() == 0 {
        Seq::empty()
    } else if switches.last().kind.conducts(active.contains(switches.last().id)) {
        closed_contacts(switches.drop_last(), active).push(switches.last().wire())
    } else {
        closed_contacts(switches.drop_last(), active)
    }
}

/// An id is among the pressed ones exactly when some button with that id has
/// its latch set.
pub proof fn lemma_pressed_ids(buttons: Seq<ButtonLatch>, id: usize)
    ensures
        pressed_ids(buttons).contains(id) <==> exists|i: int|
            0 <= i < buttons.len() && (#[trigger] buttons[i]).id == id
                && buttons[i].has_been_pressed,
    decreases buttons.len(),
{
    if buttons.len() > 0 {
        let rest = buttons.drop_last();
        let last = buttons.last();
        lemma_pressed_ids(rest, id);
        let ids = pressed_ids(rest);
        if pressed_ids(buttons).contains(id) {
            let at = choose|at: int|
                0 <= at < pressed_ids(buttons).len() && pressed_ids(buttons)[at] == id;
            if last.has_been_pressed && at == ids.len() {
                assert(buttons[buttons.len() - 1].id == id);
            } else {
                assert(ids[at] == id);
                let i = choose|i: int|
                    0 <= i < rest.len() && (#[trigger] rest[i]).id == id && rest[i].has_been_pressed;
                assert(buttons[i] == rest[i]);
            }
        }
        if exists|i: int|
            0 <= i < buttons.len() && (#[trigger] buttons[i]).id == id
                && buttons[i].has_been_pressed {
            let i = choose|i: int|
                0 <= i < buttons.len() && (#[trigger] buttons[i]).id == id
                    && buttons[i].has_been_pressed;
            if i == buttons.len() - 1 {
                assert(pressed_ids(buttons)[ids.len() as int] == id);
            } else {
                assert(rest[i] == buttons[i]);
                let at = choose|at: int| 0 <= at < ids.len() && ids[at] == id;
                assert(pressed_ids(buttons)[at] == id);
            }
        }
    }
}

/// An id is among the energised ones exactly when some coil with that id is
/// activated.
pub proof fn lemma_energised_ids(coils: Seq<RelayCoil>, id: usize)
    ensures
        energised_ids(coils).contains(id) <==> exists|i: int|
            0 <= i < coils.len() && (#[trigger] coils[i]).id == id && coils[i].activated,
    decreases coils.len(),
{
    if coils.len() > 0 {
        let rest = coils.drop_last();
        let last = coils.last();
        lemma_energised_ids(rest, id);
        let ids = energised_ids(rest);
        if energised_ids(coils).contains(id) {
            let at = choose|at: int|
                0 <= at < energised_ids(coils).len() && energised_ids(coils)[at] == id;
            if last.activated && at == ids.len() {
                assert(coils[coils.len() - 1].id == id);
            } else {
                assert(ids[at] == id);
                let i = choose|i: int|
                    0 <= i < rest.len() && (#[trigger] rest[i]).id == id && rest[i].activated;
                assert(coils[i] == rest[i]);
            }
        }
        if exists|i: int|
            0 <= i < coils.len() && (#[trigger] coils[i]).id == id && coils[i].activated {
            let i = choose|i: int|
                0 <= i < coils.len() && (#[trigger] coils[i]).id == id && coils[i].activated;
            if i == coils.len() - 1 {
                assert(energised_ids(coils)[ids.len() as int] == id);
            } else {
                assert(rest[i] == coils[i]);
                let at = choose|at: int| 0 <= at < ids.len() && ids[at] == id;
                assert(energised_ids(coils)[at] == id);
            }
        }
    }
}

/// A wire is among the closed contacts exactly when it is the wire of some
/// contact that conducts.
pub proof fn lemma_closed_contacts(switches: Seq<SwitchDevice>, active: Set<usize>, w: Wire)
    ensures
        closed_contacts(switches, active).contains(w) <==> exists|i: int|
            0 <= i < switches.len() && (#[trigger] switches[i]).wire() == w
                && switches[i].kind.conducts(active.contains(switches[i].id)),
    decreases switches.len(),
{
    if switches.len() > 0 {
        let rest = switches.drop_last();
        let last = switches.last();
        lemma_closed_contacts(rest, active, w);
        let wires = closed_contacts(rest, active);
        let all = closed_contacts(switches, active);
        if all.contains(w) {
            let at = choose|at: int| 0 <= at < all.len() && all[at] == w;
            if last.kind.conducts(active.contains(last.id)) && at == wires.len() {
                assert(switches[switches.len() - 1].wire() == w);
            } else {
                assert(wires[at] == w);
                let i = choose|i: int|
                    0 <= i < rest.len() && (#[trigger] rest[i]).wire() == w
                        && rest[i].kind.conducts(active.contains(rest[i].id));
                assert(switches[i] == rest[i]);
            }
        }
        if exists|i: int|
            0 <= i < switches.len() && (#[trigger] switches[i]).wire() == w
                && switches[i].kind.conducts(active.contains(switches[i].id)) {
            let i = choose|i: int|
                0 <= i < switches.len() && (#[trigger] switches[i]).wire() == w
                    && switches[i].kind.conducts(active.contains(switches[i].id));
            if i == switches.len() - 1 {
                assert(all[wires.len() as int] == w);
            } else {
                assert(rest[i] == switches[i]);
                let at = choose|at: int| 0 <= at < wires.len() && wires[at] == w;
                assert(all[at] == w);
            }
        }
    }
}

/// Reads every button's latch and releases it: gives the ids of the buttons
/// that were pressed since the last reading.
pub fn capture_buttons(buttons: &mut Vec<ButtonLatch>) -> (active: Vec<usize>)
    ensures
        active@ == pressed_ids(old(buttons)@),
        final(buttons)@ == released(old(buttons)@),
{
    let ghost before = buttons@;
    let mut active: Vec<usize> = Vec::new();
    let mut i: usize = 0;
    while i < buttons.len()
        invariant
            i <= buttons@.len(),
            buttons@.len() == before.len(),
            before == old(buttons)@,
            active@ == pressed_ids(before.take(i as int)),
            forall|j: int| 0 <= j < i ==> #[trigger] buttons@[j] == released(before)[j],
            forall|j: int| i <= j < before.len() ==> #[trigger] buttons@[j] == before[j],
        decreases buttons@.len() - i,
    {
        let button = buttons[i];
        proof {
            assert(before.take(i as int + 1).drop_last() =~= before.take(i as int));
        }
        if button.has_been_pressed {
            active.push(button.id);
        }
        buttons.set(i, ButtonLatch { id: button.id, has_been_pressed: false });
        i += 1;
    }
    proof {
        assert(before.take(i as int) =~= before);
        assert(buttons@ =~= released(before));
    }
    active
}

/// The ids of the coils that the last tick left activated.
pub fn energised_relays(coils: &Vec<RelayCoil>) -> (active: Vec<usize>)
    ensures
        active@ == energised_ids(coils@),
{
    let mut active: Vec<usize> = Vec::new();
    let mut i: usize = 0;
    while i < coils.len()
        invariant
            i <= coils@.len(),
            active@ == energised_ids(coils@.take(i as int)),
        decreases coils@.len() - i,
    {
        proof {
            assert(coils@.take(i as int + 1).drop_last() =~= coils@.take(i as int));
        }
        if coils[i].activated {
            active.push(coils[i].id);
        }
        i += 1;
    }
    proof {
        assert(coils@.take(i as int) =~= coils@);
    }
    active
}

/// Whether `id` is one of `ids`.
pub fn holds(ids: &Vec<usize>, id: usize) -> (found: bool)
    ensures
        found == ids@.contains(id),
{
    let mut i: usize = 0;
    while i < ids.len()
        invariant
            i <= ids@.len(),
            forall|j: int| 0 <= j < i ==> ids@[j] != id,
        decreases ids@.len() - i,
    {
        if ids[i] == id {
            return true;
        }
        i += 1;
    }
    false
}

/// The wires that `switches` contribute while the actuators with an id in
/// `active` are active: one per conducting contact, in the contacts' order.
pub fn effective_edges(switches: &Vec<SwitchDevice>, active: &Vec<usize>) -> (edges: Vec<Wire>)
    ensures
        edges@ == closed_contacts(switches@, active@.to_set()),
{
    let mut edges: Vec<Wire> = Vec::new();
    let mut i: usize = 0;
    while i < switches.len()
        invariant
            i <= switches@.len(),
            edges@ == closed_contacts(switches@.take(i as int), active@.to_set()),
        decreases switches@.len() - i,
    {
        proof {
            assert(switches@.take(i as int + 1).drop_last() =~= switches@.take(i as int));
        }
        let switch = switches[i];
        if switch.kind.conducts(holds(active, switch.id)) {
            edges.push(switch.wire());
        }
        i += 1;
    }
    proof {
        assert(switches@.take(i as int) =~= switches@);
    }
    edges
}

} // verus!
