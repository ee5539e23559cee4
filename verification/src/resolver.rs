//! Deciding from the marks of a flooded graph what each consumer does.
//!
//! A consumer is powered when its two terminals carry opposite polarities.
//! Lamps show exactly that. A relay coil follows it too, except that a coil
//! with a terminal on no conducting element keeps the state it had.

use vstd::prelude::*;
use crate::devices::{Lamp, RelayCoil};
use crate::grid::GridPosition;
use crate::topology::{Mark, Topology};

verus! {

/// What the marks say of a consumer between two positions.
#[derive(Clone, Copy, Debug, PartialEq, Eq, Hash, Structural)]
pub enum Resolution {
    /// One of the terminals is no node: no conducting element ends there.
    Detached,
    /// Both terminals are nodes, the consumer is not powered, and one of
    /// them is unvisited: it lies on an island that neither power terminal
    /// reaches.
    Isolated,
    /// Both terminals carry the same polarity: there is no potential
    /// difference.
    Unpowered,
    /// One terminal is positive and the other negative.
    Powered,
}

/// The resolution of a consumer between `top` and `bottom` under `marks`.
pub open spec fn resolution(
    marks: Map<GridPosition, Mark>,
    top: GridPosition,
    bottom: GridPosition,
) -> Resolution {
    if !marks.dom().contains(top) || !marks.dom().contains(bottom) {
        Resolution::Detached
    } else if (marks[top] == Mark::Positive && marks[bottom] == Mark::Negative) || (marks[top]
        == Mark::Negative && marks[bottom] == Mark::Positive) {
        Resolution::Powered
    } else if marks[top] == Mark::Unvisited || marks[bottom] == Mark::Unvisited {
        Resolution::Isolated
    } else {
        Resolution::Unpowered
    }
}

impl Lamp {
    /// The lamp after a tick that found `finding`: lit exactly when powered.
    pub open spec fn resolved(self, finding: Resolution) -> Lamp {
        Lamp { is_lit: finding == Resolution::Powered, ..self }
    }
}

impl RelayCoil {
    /// The coil after a tick that found `finding`: unchanged when detached,
    /// else activated exactly when powered.
    pub open spec fn resolved(self, finding: Resolution) -> RelayCoil {
        RelayCoil {
            activated: if finding == Resolution::Detached {
                self.activated
            } else {
                finding == Resolution::Powered
            },
            ..self
        }
    }
}

/// The resolution of each lamp, in the lamps' order.
pub open spec fn lamp_findings(marks: Map<GridPosition, Mark>, lamps: Seq<Lamp>) -> Seq<
    Resolution,
> {
    Seq::new(lamps.len(), |i: int| resolution(marks, lamps[i].top, lamps[i].bottom))
}

/// The lamps after resolution under `marks`.
pub open spec fn lamps_resolved(marks: Map<GridPosition, Mark>, lamps: Seq<Lamp>) -> Seq<Lamp> {
    Seq::new(
        lamps.len(),
        |i: int| lamps[i].resolved(resolution(marks, lamps[i].top, lamps[i].bottom)),
    )
}

/// The resolution of each coil, in the coils' order.
pub open spec fn coil_findings(marks: Map<GridPosition, Mark>, coils: Seq<RelayCoil>) -> Seq<
    Resolution,
> {
    Seq::new(coils.len(), |i: int| resolution(marks, coils[i].top, coils[i].bottom))
}

/// The coils after resolution under `marks`.
pub open spec fn coils_resolved(marks: Map<GridPosition, Mark>, coils: Seq<RelayCoil>) -> Seq<
    RelayCoil,
> {
    Seq::new(
        coils.len(),
        |i: int| coils[i].resolved(resolution(marks, coils[i].top, coils[i].bottom)),
    )
}

/// The same lamps, all unlit.
pub open spec fn unlit(lamps: Seq<Lamp>) -> Seq<Lamp> {
    Seq::new(lamps.len(), |i: int| Lamp { is_lit: false, ..lamps[i] })
}

impl Topology {
    /// Resolves a consumer between `top` and `bottom` against the marks of
    /// this graph.
    pub fn resolve(&self, top: GridPosition, bottom: GridPosition) -> (finding: Resolution)
        requires
            self.wf(),
        ensures
            finding == resolution(self.marks(), top, bottom),
    {
        let Some(upper) = self.mark_at(top) else {
            return Resolution::Detached;
        };
        let Some(lower) = self.mark_at(bottom) else {
            return Resolution::Detached;
        };
        if (upper == Mark::Positive && lower == Mark::Negative) || (upper == Mark::Negative
            && lower == Mark::Positive) {
            Resolution::Powered
        } else if upper == Mark::Unvisited || lower == Mark::Unvisited {
            Resolution::Isolated
        } else {
            Resolution::Unpowered
        }
    }
}

/// Puts every lamp out.
pub fn blank_lamps(lamps: &mut Vec<Lamp>)
    ensures
        final(lamps)@ == unlit(old(lamps)@),
{
    let ghost before = lamps@;
    let mut i: usize = 0;
    while i < lamps.len()
        invariant
            i <= lamps@.len(),
            lamps@.len() == before.len(),
            forall|j: int| 0 <= j < i ==> #[trigger] lamps@[j] == unlit(before)[j],
            forall|j: int| i <= j < before.len() ==> #[trigger] lamps@[j] == before[j],
        decreases lamps@.len() - i,
    {
        let lamp = lamps[i];
        lamps.set(i, Lamp { id: lamp.id, top: lamp.top, bottom: lamp.bottom, is_lit: false });
        i += 1;
    }
    proof {
        assert(lamps@ =~= unlit(before));
    }
}

/// Resolves every lamp against the flooded graph: all lamps go out, then
/// each powered one is lit. Gives each lamp's resolution.
pub fn resolve_lamps(topology: &Topology, lamps: &mut Vec<Lamp>) -> (findings: Vec<Resolution>)
    requires
        topology.wf(),
    ensures
        final(lamps)@ == lamps_resolved(topology.marks(), old(lamps)@),
        findings@ == lamp_findings(topology.marks(), old(lamps)@),
{
    let ghost before = lamps@;
    let ghost marks = topology.marks();
    blank_lamps(lamps);
    let mut findings: Vec<Resolution> = Vec::new();
    let mut i: usize = 0;
    while i < lamps.len()
        invariant
            topology.wf(),
            marks == topology.marks(),
            i <= lamps@.len(),
            lamps@.len() == before.len(),
            findings@.len() == i,
            forall|j: int| 0 <= j < i ==> #[trigger] findings@[j] == lamp_findings(marks, before)[j],
            forall|j: int| 0 <= j < i ==> #[trigger] lamps@[j] == lamps_resolved(marks, before)[j],
            forall|j: int| i <= j < before.len() ==> #[trigger] lamps@[j] == unlit(before)[j],
        decreases lamps@.len() - i,
    {
        let lamp = lamps[i];
        let finding = topology.resolve(lamp.top, lamp.bottom);
        if finding == Resolution::Powered {
            lamps.set(i, Lamp { id: lamp.id, top: lamp.top, bottom: lamp.bottom, is_lit: true });
        }
        findings.push(finding);
        i += 1;
    }
    proof {
        assert(lamps@ =~= lamps_resolved(marks, before));
        assert(findings@ =~= lamp_findings(marks, before));
    }
    findings
}

/// Resolves every coil against the flooded graph: a coil with both
/// terminals on nodes is activated exactly when it is powered, any other
/// keeps its state. Gives each coil's resolution.
pub fn resolve_coils(topology: &Topology, coils: &mut Vec<RelayCoil>) -> (findings: Vec<
    Resolution,
>)
    requires
        topology.wf(),
    ensures
        final(coils)@ == coils_resolved(topology.marks(), old(coils)@),
        findings@ == coil_findings(topology.marks(), old(coils)@),
{
    let ghost before = coils@;
    let ghost marks = topology.marks();
    let mut findings: Vec<Resolution> = Vec::new();
    let mut i: usize = 0;
    while i < coils.len()
        invariant
            topology.wf(),
            marks == topology.marks(),
            i <= coils@.len(),
            coils@.len() == before.len(),
            findings@.len() == i,
            forall|j: int| 0 <= j < i ==> #[trigger] findings@[j] == coil_findings(marks, before)[j],
            forall|j: int| 0 <= j < i ==> #[trigger] coils@[j] == coils_resolved(marks, before)[j],
            forall|j: int| i <= j < before.len() ==> #[trigger] coils@[j] == before[j],
        decreases coils@.len() - i,
    {
        let coil = coils[i];
        let finding = topology.resolve(coil.top, coil.bottom);
        if finding != Resolution::Detached {
            coils.set(
                i,
                RelayCoil {
                    id: coil.id,
                    top: coil.top,
                    bottom: coil.bottom,
                    activated: finding == Resolution::Powered,
                },
            );
        }
        findings.push(finding);
        i += 1;
    }
    proof {
        assert(coils@ =~= coils_resolved(marks, before));
        assert(findings@ =~= coil_findings(marks, before));
    }
    findings
}

} // verus!
