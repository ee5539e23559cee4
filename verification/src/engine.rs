//! One tick of the simulation.
//!
//! A tick reads the latched actuator state, derives from it the contacts
//! that conduct, floods the graph of wires and conducting contacts from the
//! two terminals, and writes what it finds to the lamps and relay coils. The
//! graph is built from what the tick found on entry alone: what it writes to
//! a coil drives that relay's contacts in the next tick, never in this one.

use vstd::prelude::*;
use crate::devices::{
    capture_buttons,
    closed_contacts,
    effective_edges,
    energised_ids,
    energised_relays,
    pressed_ids,
    released,
    ButtonLatch,
    Lamp,
    RelayCoil,
    SwitchDevice,
};
use crate::graph::connected;
use crate::grid::{GridPosition, Wire};
use crate::power::{potentials, propagate};
use crate::resolver::{
    coil_findings,
    coils_resolved,
    lamp_findings,
    lamps_resolved,
    resolve_coils,
    resolve_lamps,
    Resolution,
};
use crate::topology::Mark;
use crate::walker::ShortCircuit;

verus! {

/// The state of a circuit between two ticks, as mathematics sees it.
#[verifier::ext_equal]
pub struct Snapshot {
    pub wires: Seq<Wire>,
    pub buttons: Seq<ButtonLatch>,
    pub button_switches: Seq<SwitchDevice>,
    pub relay_switches: Seq<SwitchDevice>,
    pub relay_coils: Seq<RelayCoil>,
    pub lamps: Seq<Lamp>,
    pub positive: GridPosition,
    pub negative: GridPosition,
}

impl Snapshot {
    /// The ids of the buttons pressed since the last tick.
    pub open spec fn pressed(self) -> Set<usize> {
        pressed_ids(self.buttons).to_set()
    }

    /// The ids of the relays whose coil the last tick left activated.
    pub open spec fn energised(self) -> Set<usize> {
        energised_ids(self.relay_coils).to_set()
    }

    /// Button contact `i` conducts in the coming tick.
    pub open spec fn button_contact_closed(self, i: int) -> bool {
        self.button_switches[i].kind.conducts(self.pressed().contains(self.button_switches[i].id))
    }

    /// Relay contact `i` conducts in the coming tick.
    pub open spec fn relay_contact_closed(self, i: int) -> bool {
        self.relay_switches[i].kind.conducts(self.energised().contains(self.relay_switches[i].id))
    }

    /// What conducts in the coming tick: the wires, then the conducting
    /// button contacts, then the conducting relay contacts.
    pub open spec fn elements(self) -> Seq<Wire> {
        self.wires + closed_contacts(self.button_switches, self.pressed()) + closed_contacts(
            self.relay_switches,
            self.energised(),
        )
    }

    /// The coming tick finds a short circuit: the two terminals are
    /// connected.
    pub open spec fn shorted(self) -> bool {
        connected(self.elements(), self.positive, self.negative)
    }

    /// The marks that the coming tick's floods leave, if it finds no short
    /// circuit.
    pub open spec fn marks(self) -> Map<GridPosition, Mark> {
        potentials(self.elements(), self.positive, self.negative)
    }

    /// The state after the coming tick. Every button latch is released. On a
    /// short circuit lamps and coils stay as they are; otherwise each is
    /// resolved against the marks.
    pub open spec fn next(self) -> Snapshot {
        Snapshot {
            buttons: released(self.buttons),
            relay_coils: if self.shorted() {
                self.relay_coils
            } else {
                coils_resolved(self.marks(), self.relay_coils)
            },
            lamps: if self.shorted() {
                self.lamps
            } else {
                lamps_resolved(self.marks(), self.lamps)
            },
            ..self
        }
    }
}

/// A circuit: what is placed on the grid, the latched state of the
/// actuators, and the outputs that the last tick computed.
#[derive(Debug)]
pub struct Circuit {
    pub wires: Vec<Wire>,
    pub buttons: Vec<ButtonLatch>,
    pub button_switches: Vec<SwitchDevice>,
    pub relay_switches: Vec<SwitchDevice>,
    pub relay_coils: Vec<RelayCoil>,
    pub lamps: Vec<Lamp>,
    pub positive: GridPosition,
    pub negative: GridPosition,
}

impl View for Circuit {
    type V = Snapshot;

    open spec fn view(&self) -> Snapshot {
        Snapshot {
            wires: self.wires@,
            buttons: self.buttons@,
            button_switches: self.button_switches@,
            relay_switches: self.relay_switches@,
            relay_coils: self.relay_coils@,
            lamps: self.lamps@,
            positive: self.positive,
            negative: self.negative,
        }
    }
}

/// What a tick without a short circuit found at each consumer, in the order
/// of the circuit's lamps and coils.
#[derive(Debug)]
pub struct TickReport {
    pub lamps: Vec<Resolution>,
    pub coils: Vec<Resolution>,
}

/// Appends the wires of `source` to `target`.
fn append(target: &mut Vec<Wire>, source: &Vec<Wire>)
    ensures
        final(target)@ == old(target)@ + source@,
{
    let ghost before = target@;
    let mut i: usize = 0;
    while i < source.len()
        invariant
            i <= source@.len(),
            target@ == before + source@.take(i as int),
        decreases source@.len() - i,
    {
        target.push(source[i]);
        proof {
            assert(target@ =~= before + source@.take(i as int + 1));
        }
        i += 1;
    }
    proof {
        assert(source@.take(i as int) =~= source@);
    }
}

impl Circuit {
    /// An empty circuit between two terminals.
    pub fn new(positive: GridPosition, negative: GridPosition) -> (c: Circuit)
        ensures
            c@ == (Snapshot {
                wires: Seq::empty(),
                buttons: Seq::empty(),
                button_switches: Seq::empty(),
                relay_switches: Seq::empty(),
                relay_coils: Seq::empty(),
                lamps: Seq::empty(),
                positive,
                negative,
            }),
    {
        Circuit {
            wires: Vec::new(),
            buttons: Vec::new(),
            button_switches: Vec::new(),
            relay_switches: Vec::new(),
            relay_coils: Vec::new(),
            lamps: Vec::new(),
            positive,
            negative,
        }
    }

    /// The elements that conduct while the buttons in `pressed` and the
    /// relays in `energised` are active: the wires, then the conducting
    /// button contacts, then the conducting relay contacts.
    pub fn conducting(&self, pressed: &Vec<usize>, energised: &Vec<usize>) -> (elements: Vec<Wire>)
        ensures
            elements@ == self.wires@ + closed_contacts(self.button_switches@, pressed@.to_set())
                + closed_contacts(self.relay_switches@, energised@.to_set()),
    {
        let mut elements: Vec<Wire> = Vec::new();
        append(&mut elements, &self.wires);
        let button_edges = effective_edges(&self.button_switches, pressed);
        append(&mut elements, &button_edges);
        let relay_edges = effective_edges(&self.relay_switches, energised);
        append(&mut elements, &relay_edges);
        proof {
            assert(Seq::<Wire>::empty() + self.wires@ =~= self.wires@);
        }
        elements
    }

    /// Runs one tick.
    ///
    /// Releases every button latch, whatever follows. Fails exactly when the
    /// two terminals are connected through what conducts in this tick, and
    /// then leaves lamps and coils as they were. Otherwise every lamp is lit
    /// exactly when it is powered, every coil with both terminals on nodes
    /// is activated exactly when it is powered, and the report holds what
    /// was found at each.
    pub fn tick(&mut self) -> (r: Result<TickReport, ShortCircuit>)
        ensures
            final(self)@ == old(self)@.next(),
            r is Err <==> old(self)@.shorted(),
            r matches Ok(report) ==> {
                &&& report.lamps@ == lamp_findings(old(self)@.marks(), old(self)@.lamps)
                &&& report.coils@ == coil_findings(old(self)@.marks(), old(self)@.relay_coils)
            },
    {
        let pressed = capture_buttons(&mut self.buttons);
        let energised = energised_relays(&self.relay_coils);
        let elements = self.conducting(&pressed, &energised);
        match propagate(&elements, self.positive, self.negative) {
            Err(clash) => Err(clash),
            Ok(topology) => {
                let lamps = resolve_lamps(&topology, &mut self.lamps);
                let coils = resolve_coils(&topology, &mut self.relay_coils);
                Ok(TickReport { lamps, coils })
            },
        }
    }
}

} // verus!
