//! What holds of every circuit and every tick.
//!
//! Each statement here is about [`Snapshot::next`], the state that
//! [`Circuit::tick`](crate::engine::Circuit::tick) is proved to compute, and
//! about the relations that it is defined over.

use vstd::prelude::*;
use crate::devices::{
    closed_contacts,
    lemma_closed_contacts,
    lemma_energised_ids,
    lemma_pressed_ids,
    Lamp,
    RelayCoil,
    SwitchKind,
};
use crate::engine::Snapshot;
use crate::graph::{
    connected,
    hop,
    is_node,
    lemma_linked_connected,
    lemma_path_nodes,
    lemma_path_prefix,
    lemma_same_graph_connected,
    linked,
    runs_between,
    same_graph,
};
use crate::grid::{GridPosition, Wire};
use crate::power::{potential, potentials};
use crate::resolver::{coils_resolved, lamps_resolved, resolution, Resolution};
use crate::topology::{Mark, Topology};

verus! {

/// Turning a wire round leaves the graph as it is: the same nodes and the
/// same links.
pub proof fn lemma_orientation(elements: Seq<Wire>, i: int)
    requires
        0 <= i < elements.len(),
    ensures
        same_graph(elements, elements.update(i, elements[i].flipped())),
{
    let turned = elements.update(i, elements[i].flipped());
    assert forall|p: GridPosition| is_node(elements, p) <==> is_node(turned, p) by {
        if is_node(elements, p) {
            let j = choose|j: int| 0 <= j < elements.len() && (#[trigger] elements[j]).touches(p);
            assert(turned[j].touches(p));
        }
        if is_node(turned, p) {
            let j = choose|j: int| 0 <= j < turned.len() && (#[trigger] turned[j]).touches(p);
            assert(elements[j].touches(p));
        }
    }
    assert forall|p: GridPosition, q: GridPosition|
        linked(elements, p, q) <==> linked(turned, p, q) by {
        if linked(elements, p, q) {
            let j = choose|j: int| 0 <= j < elements.len() && (#[trigger] elements[j]).joins(p, q);
            assert(turned[j].joins(p, q));
        }
        if linked(turned, p, q) {
            let j = choose|j: int| 0 <= j < turned.len() && (#[trigger] turned[j]).joins(p, q);
            assert(elements[j].joins(p, q));
        }
    }
}

/// Turning a wire round before the graph is built gives a graph with the
/// same nodes and the same links.
pub proof fn lemma_orientation_topology(a: Topology, b: Topology, i: int)
    requires
        a.wf(),
        b.wf(),
        0 <= i < a.elements().len(),
        b.elements() == a.elements().update(i, a.elements()[i].flipped()),
    ensures
        a.marks().dom() == b.marks().dom(),
        same_graph(a.elements(), b.elements()),
{
    lemma_orientation(a.elements(), i);
    a.lemma_nodes();
    b.lemma_nodes();
    assert(a.marks().dom() =~= b.marks().dom());
}

/// The graph does not depend on the order of the elements, nor on how often
/// a wire occurs among them.
pub proof fn lemma_same_wires(e1: Seq<Wire>, e2: Seq<Wire>)
    requires
        forall|w: Wire| e1.contains(w) <==> e2.contains(w),
    ensures
        same_graph(e1, e2),
{
    assert forall|p: GridPosition| is_node(e1, p) <==> is_node(e2, p) by {
        if is_node(e1, p) {
            let j = choose|j: int| 0 <= j < e1.len() && (#[trigger] e1[j]).touches(p);
            assert(e1.contains(e1[j]));
            let k = choose|k: int| 0 <= k < e2.len() && e2[k] == e1[j];
            assert(e2[k].touches(p));
        }
        if is_node(e2, p) {
            let j = choose|j: int| 0 <= j < e2.len() && (#[trigger] e2[j]).touches(p);
            assert(e2.contains(e2[j]));
            let k = choose|k: int| 0 <= k < e1.len() && e1[k] == e2[j];
            assert(e1[k].touches(p));
        }
    }
    assert forall|p: GridPosition, q: GridPosition| linked(e1, p, q) <==> linked(e2, p, q) by {
        if linked(e1, p, q) {
            let j = choose|j: int| 0 <= j < e1.len() && (#[trigger] e1[j]).joins(p, q);
            assert(e1.contains(e1[j]));
            let k = choose|k: int| 0 <= k < e2.len() && e2[k] == e1[j];
            assert(e2[k].joins(p, q));
        }
        if linked(e2, p, q) {
            let j = choose|j: int| 0 <= j < e2.len() && (#[trigger] e2[j]).joins(p, q);
            assert(e2.contains(e2[j]));
            let k = choose|k: int| 0 <= k < e1.len() && e1[k] == e2[j];
            assert(e1[k].joins(p, q));
        }
    }
}

/// The marks that the floods leave depend on the graph alone, not on the
/// wires that form it.
pub proof fn lemma_same_graph_potentials(
    e1: Seq<Wire>,
    e2: Seq<Wire>,
    positive: GridPosition,
    negative: GridPosition,
)
    requires
        same_graph(e1, e2),
    ensures
        connected(e1, positive, negative) <==> connected(e2, positive, negative),
        potentials(e1, positive, negative) == potentials(e2, positive, negative),
{
    lemma_same_graph_connected(e1, e2, positive, negative);
    assert forall|p: GridPosition|
        potential(e1, positive, negative, p) == potential(e2, positive, negative, p) by {
        lemma_same_graph_connected(e1, e2, positive, p);
        lemma_same_graph_connected(e1, e2, negative, p);
    }
    assert(potentials(e1, positive, negative) =~= potentials(e2, positive, negative));
}

/// A tick does not see which way round a wire was placed: with wire `i`
/// turned round it finds the same short circuit or the same marks, and
/// leaves every button, lamp and coil in the same state.
pub proof fn lemma_wire_orientation(s: Snapshot, i: int)
    requires
        0 <= i < s.wires.len(),
    ensures
        ({
            let t = Snapshot { wires: s.wires.update(i, s.wires[i].flipped()), ..s };
            &&& same_graph(t.elements(), s.elements())
            &&& t.shorted() == s.shorted()
            &&& t.marks() == s.marks()
            &&& t.next() == Snapshot { wires: t.wires, ..s.next() }
        }),
{
    let t = Snapshot { wires: s.wires.update(i, s.wires[i].flipped()), ..s };
    assert(t.elements() =~= s.elements().update(i, s.elements()[i].flipped()));
    lemma_orientation(s.elements(), i);
    lemma_same_graph_potentials(s.elements(), t.elements(), s.positive, s.negative);
}

/// Connections survive the addition of elements.
pub proof fn lemma_more_elements(
    elements: Seq<Wire>,
    extra: Seq<Wire>,
    a: GridPosition,
    b: GridPosition,
)
    requires
        connected(elements, a, b),
    ensures
        connected(elements + extra, a, b),
{
    let all = elements + extra;
    let path = choose|path: Seq<GridPosition>| #[trigger] runs_between(elements, path, a, b);
    let first = choose|j: int| 0 <= j < elements.len() && (#[trigger] elements[j]).touches(path[0]);
    assert(all[first].touches(path[0]));
    assert forall|k: int| 0 <= k < path.len() - 1 implies #[trigger] hop(all, path, k) by {
        assert(hop(elements, path, k));
        let j = choose|j: int|
            0 <= j < elements.len() && (#[trigger] elements[j]).joins(path[k], path[k + 1]);
        assert(all[j].joins(path[k], path[k + 1]));
    }
    assert(runs_between(all, path, a, b));
}

/// A short circuit freezes the outputs: the tick leaves every lamp and every
/// coil as it found it.
pub proof fn lemma_short_circuit_freezes(s: Snapshot)
    requires
        connected(s.elements(), s.positive, s.negative),
    ensures
        s.shorted(),
        s.next().lamps == s.lamps,
        s.next().relay_coils == s.relay_coils,
{
}

/// Terminals that plain wires connect are a short circuit, whatever the
/// switches do.
pub proof fn lemma_wired_short(s: Snapshot)
    requires
        connected(s.wires, s.positive, s.negative),
    ensures
        s.shorted(),
        s.next().lamps == s.lamps,
        s.next().relay_coils == s.relay_coils,
{
    let contacts = closed_contacts(s.button_switches, s.pressed()) + closed_contacts(
        s.relay_switches,
        s.energised(),
    );
    lemma_more_elements(s.wires, contacts, s.positive, s.negative);
    assert(s.wires + contacts =~= s.elements());
}

/// Resolving lamps twice against the same marks gives what resolving them
/// once gives.
pub proof fn lemma_lamps_settle(marks: Map<GridPosition, Mark>, lamps: Seq<Lamp>)
    ensures
        lamps_resolved(marks, lamps_resolved(marks, lamps)) == lamps_resolved(marks, lamps),
{
    assert(lamps_resolved(marks, lamps_resolved(marks, lamps)) =~= lamps_resolved(marks, lamps));
}

/// Resolving coils twice against the same marks gives what resolving them
/// once gives.
pub proof fn lemma_coils_settle(
    marks: Map<GridPosition, Mark>,
    coils: Seq<RelayCoil>,
)
    ensures
        coils_resolved(marks, coils_resolved(marks, coils)) == coils_resolved(marks, coils),
{
    assert(coils_resolved(marks, coils_resolved(marks, coils)) =~= coils_resolved(marks, coils));
}

/// A tick on an unchanged circuit repeats itself: if a tick flips no relay
/// latch, then a second tick with the same buttons pressed ends in the same
/// state as the first.
pub proof fn lemma_tick_repeats(s: Snapshot)
    requires
        s.next().relay_coils == s.relay_coils,
    ensures
        (Snapshot { buttons: s.buttons, ..s.next() }).next() == s.next(),
{
    let again = Snapshot { buttons: s.buttons, ..s.next() };
    assert(again.elements() == s.elements());
    lemma_lamps_settle(s.marks(), s.lamps);
    lemma_coils_settle(s.marks(), s.relay_coils);
    assert(again.next() =~= s.next());
}

/// A normally open contact conducts exactly when a normally closed one does
/// not.
pub proof fn lemma_kinds_inverse(active: bool)
    ensures
        SwitchKind::NormallyOpen.conducts(active) == active,
        SwitchKind::NormallyClosed.conducts(active) == !active,
        SwitchKind::NormallyOpen.conducts(active) != SwitchKind::NormallyClosed.conducts(active),
{
}

/// A button contact follows the latch: a normally open one conducts exactly
/// when some button with its id has been pressed, a normally closed one
/// exactly when none has.
pub proof fn lemma_button_contact(s: Snapshot, i: int)
    requires
        0 <= i < s.button_switches.len(),
    ensures
        s.button_contact_closed(i) <==> (s.button_switches[i].kind == SwitchKind::NormallyOpen
            <==> exists|k: int|
            0 <= k < s.buttons.len() && (#[trigger] s.buttons[k]).id == s.button_switches[i].id
                && s.buttons[k].has_been_pressed),
        s.button_contact_closed(i) ==> connected(
            s.elements(),
            s.button_switches[i].top,
            s.button_switches[i].bottom,
        ),
{
    lemma_pressed_ids(s.buttons, s.button_switches[i].id);
    if s.button_contact_closed(i) {
        let contacts = closed_contacts(s.button_switches, s.pressed());
        let w = s.button_switches[i].wire();
        lemma_closed_contacts(s.button_switches, s.pressed(), w);
        let at = choose|at: int| 0 <= at < contacts.len() && contacts[at] == w;
        assert(s.elements()[s.wires.len() + at] == w);
        assert(s.elements()[s.wires.len() + at].joins(w.first, w.second));
        lemma_linked_connected(s.elements(), w.first, w.second);
    }
}

/// A relay contact follows the coil's latch: a normally open one conducts
/// exactly when some coil with its id is activated on entry to the tick, a
/// normally closed one exactly when none is.
pub proof fn lemma_relay_contact(s: Snapshot, i: int)
    requires
        0 <= i < s.relay_switches.len(),
    ensures
        s.relay_contact_closed(i) <==> (s.relay_switches[i].kind == SwitchKind::NormallyOpen
            <==> exists|k: int|
            0 <= k < s.relay_coils.len() && (#[trigger] s.relay_coils[k]).id
                == s.relay_switches[i].id && s.relay_coils[k].activated),
        s.relay_contact_closed(i) ==> connected(
            s.elements(),
            s.relay_switches[i].top,
            s.relay_switches[i].bottom,
        ),
{
    lemma_energised_ids(s.relay_coils, s.relay_switches[i].id);
    if s.relay_contact_closed(i) {
        let buttons = closed_contacts(s.button_switches, s.pressed());
        let contacts = closed_contacts(s.relay_switches, s.energised());
        let w = s.relay_switches[i].wire();
        lemma_closed_contacts(s.relay_switches, s.energised(), w);
        let at = choose|at: int| 0 <= at < contacts.len() && contacts[at] == w;
        assert(s.elements()[s.wires.len() + buttons.len() + at] == w);
        assert(s.elements()[s.wires.len() + buttons.len() + at].joins(w.first, w.second));
        lemma_linked_connected(s.elements(), w.first, w.second);
    }
}

/// Relay feedback lags by one tick. A normally open contact whose relay has
/// no activated coil on entry does not conduct in this tick, even if the
/// tick activates the coil; it conducts in the next.
pub proof fn lemma_relay_lag(s: Snapshot, coil: int, contact: int)
    requires
        0 <= coil < s.relay_coils.len(),
        0 <= contact < s.relay_switches.len(),
        s.relay_switches[contact].id == s.relay_coils[coil].id,
        s.relay_switches[contact].kind == SwitchKind::NormallyOpen,
        forall|k: int|
            0 <= k < s.relay_coils.len() && (#[trigger] s.relay_coils[k]).id
                == s.relay_coils[coil].id ==> !s.relay_coils[k].activated,
        s.next().relay_coils[coil].activated,
    ensures
        !s.relay_contact_closed(contact),
        s.next().relay_contact_closed(contact),
{
    lemma_relay_contact(s, contact);
    lemma_relay_contact(s.next(), contact);
    assert(s.next().relay_coils[coil].id == s.relay_coils[coil].id);
}

/// Ganged contacts move together: two contacts of one relay that are of the
/// same kind conduct in the same ticks.
pub proof fn lemma_ganged_contacts(s: Snapshot, a: int, b: int)
    requires
        0 <= a < s.relay_switches.len(),
        0 <= b < s.relay_switches.len(),
        s.relay_switches[a].id == s.relay_switches[b].id,
        s.relay_switches[a].kind == s.relay_switches[b].kind,
    ensures
        s.relay_contact_closed(a) == s.relay_contact_closed(b),
{
}

/// A position that is connected to neither terminal stays unvisited, and no
/// consumer with a terminal there is powered.
pub proof fn lemma_island_dark(s: Snapshot, p: GridPosition, other: GridPosition)
    requires
        !connected(s.elements(), s.positive, p),
        !connected(s.elements(), s.negative, p),
    ensures
        is_node(s.elements(), p) ==> s.marks()[p] == Mark::Unvisited,
        resolution(s.marks(), p, other) != Resolution::Powered,
        resolution(s.marks(), other, p) != Resolution::Powered,
{
}

/// An island is inert. If no end of the wires in `island` is connected to
/// `terminal`, then what is connected to `terminal` is the same with the
/// island as without it.
pub proof fn lemma_island_inert(
    elements: Seq<Wire>,
    island: Seq<Wire>,
    terminal: GridPosition,
    p: GridPosition,
)
    requires
        forall|j: int|
            0 <= j < island.len() ==> !connected(
                elements + island,
                terminal,
                (#[trigger] island[j]).first,
            ) && !connected(elements + island, terminal, island[j].second),
    ensures
        connected(elements + island, terminal, p) <==> connected(elements, terminal, p),
{
    let all = elements + island;
    if connected(elements, terminal, p) {
        lemma_more_elements(elements, island, terminal, p);
    }
    if connected(all, terminal, p) {
        let path = choose|path: Seq<GridPosition>| #[trigger] runs_between(all, path, terminal, p);
        assert forall|k: int| 0 <= k < path.len() implies is_node(elements, #[trigger] path[k]) by {
            lemma_path_prefix(all, path, k + 1);
            assert(runs_between(all, path.take(k + 1), terminal, path[k]));
            lemma_path_nodes(all, path, k);
            let j = choose|j: int| 0 <= j < all.len() && (#[trigger] all[j]).touches(path[k]);
            if j >= elements.len() {
                assert(island[j - elements.len()] == all[j]);
            }
            assert(elements[j].touches(path[k]));
        }
        assert forall|k: int| 0 <= k < path.len() - 1 implies #[trigger] hop(elements, path, k) by {
            lemma_path_prefix(all, path, k + 1);
            assert(runs_between(all, path.take(k + 1), terminal, path[k]));
            assert(hop(all, path, k));
            let j = choose|j: int|
                0 <= j < all.len() && (#[trigger] all[j]).joins(path[k], path[k + 1]);
            if j >= elements.len() {
                assert(island[j - elements.len()] == all[j]);
            }
            assert(elements[j].joins(path[k], path[k + 1]));
        }
        assert(is_node(elements, path[0]));
        assert(runs_between(elements, path, terminal, p));
    }
}

/// An island triggers no short circuit: if the terminals are not connected
/// without it, they are not connected with it.
pub proof fn lemma_island_no_short(
    elements: Seq<Wire>,
    island: Seq<Wire>,
    positive: GridPosition,
    negative: GridPosition,
)
    requires
        forall|j: int|
            0 <= j < island.len() ==> !connected(
                elements + island,
                positive,
                (#[trigger] island[j]).first,
            ) && !connected(elements + island, positive, island[j].second),
    ensures
        connected(elements + island, positive, negative) <==> connected(
            elements,
            positive,
            negative,
        ),
{
    lemma_island_inert(elements, island, positive, negative);
}

} // verus!
