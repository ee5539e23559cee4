use circuit_sim::devices::{
    capture_buttons, effective_edges, energised_relays, holds, terminals,
};
use circuit_sim::resolver::Resolution;
use circuit_sim::topology::Polarity;
use circuit_sim::walker::ShortCircuit;
use circuit_sim::{
    ButtonLatch, Circuit, ConfigError, GridPosition, Lamp, PowerSource, RelayCoil, SwitchDevice,
    SwitchKind, Terminals, Wire,
};

fn at(x: usize, y: usize) -> GridPosition {
    GridPosition::new(x, y)
}

fn wire(a: (usize, usize), b: (usize, usize)) -> Wire {
    Wire::new(at(a.0, a.1), at(b.0, b.1))
}

fn lamp(id: usize, x: usize, y: usize) -> Lamp {
    Lamp { id, top: at(x, y + 1), bottom: at(x, y - 1), is_lit: false }
}

fn coil(id: usize, x: usize, y: usize) -> RelayCoil {
    RelayCoil { id, top: at(x, y + 1), bottom: at(x, y - 1), activated: false }
}

fn contact(id: usize, kind: SwitchKind, x: usize, y: usize) -> SwitchDevice {
    SwitchDevice { id, kind, top: at(x, y + 1), bottom: at(x, y - 1) }
}

/// Terminals at (0, 19) and (0, 16), and from each a rail to the right with
/// a node at every grid position up to column 20.
fn bench() -> Circuit {
    let mut c = Circuit::new(at(0, 19), at(0, 16));
    for x in 0..20 {
        c.wires.push(wire((x, 19), (x + 1, 19)));
        c.wires.push(wire((x, 16), (x + 1, 16)));
    }
    c
}

fn lit(c: &Circuit) -> Vec<bool> {
    c.lamps.iter().map(|l| l.is_lit).collect()
}

fn active(c: &Circuit) -> Vec<bool> {
    c.relay_coils.iter().map(|k| k.activated).collect()
}

#[test]
fn lamp_between_the_terminals_is_lit() {
    let mut c = Circuit::new(at(0, 19), at(0, 16));
    c.wires.push(wire((0, 19), (0, 18)));
    c.wires.push(wire((0, 16), (1, 16)));
    c.lamps.push(Lamp { id: 1, top: at(0, 18), bottom: at(0, 16), is_lit: false });
    let report = c.tick().unwrap();
    assert_eq!(report.lamps, vec![Resolution::Powered]);
    assert!(report.coils.is_empty());
    assert_eq!(lit(&c), vec![true]);
}

#[test]
fn lamp_goes_out_when_a_wire_of_the_chain_is_removed() {
    let chain = vec![
        wire((0, 19), (3, 19)),
        wire((3, 19), (3, 18)),
        wire((3, 18), (0, 18)),
        wire((0, 16), (1, 16)),
    ];
    let mut whole = Circuit::new(at(0, 19), at(0, 16));
    whole.wires = chain.clone();
    whole.lamps.push(Lamp { id: 1, top: at(0, 18), bottom: at(0, 16), is_lit: false });
    assert!(whole.tick().is_ok());
    assert_eq!(lit(&whole), vec![true]);
    for gone in 0..chain.len() {
        let mut c = Circuit::new(at(0, 19), at(0, 16));
        c.wires = chain.clone();
        c.wires.remove(gone);
        c.lamps.push(Lamp { id: 1, top: at(0, 18), bottom: at(0, 16), is_lit: true });
        assert!(c.tick().is_ok());
        assert_eq!(lit(&c), vec![false]);
    }
}

#[test]
fn lamp_lights_in_either_orientation() {
    let mut c = bench();
    c.wires.push(wire((4, 19), (4, 18)));
    c.lamps.push(Lamp { id: 1, top: at(4, 16), bottom: at(4, 18), is_lit: false });
    c.lamps.push(Lamp { id: 2, top: at(4, 18), bottom: at(4, 16), is_lit: false });
    assert!(c.tick().is_ok());
    assert_eq!(lit(&c), vec![true, true]);
}

#[test]
fn positions_along_a_wire_are_no_nodes() {
    let mut c = Circuit::new(at(0, 19), at(0, 16));
    c.wires.push(wire((0, 19), (9, 19)));
    c.wires.push(wire((0, 16), (9, 16)));
    c.lamps.push(Lamp { id: 1, top: at(4, 19), bottom: at(4, 16), is_lit: true });
    c.lamps.push(Lamp { id: 2, top: at(9, 19), bottom: at(9, 16), is_lit: false });
    let report = c.tick().unwrap();
    assert_eq!(report.lamps, vec![Resolution::Detached, Resolution::Powered]);
    assert_eq!(lit(&c), vec![false, true]);
}

#[test]
fn lamp_on_one_polarity_stays_dark() {
    let mut c = bench();
    c.lamps.push(Lamp { id: 1, top: at(0, 19), bottom: at(20, 19), is_lit: true });
    let report = c.tick().unwrap();
    assert_eq!(report.lamps, vec![Resolution::Unpowered]);
    assert_eq!(lit(&c), vec![false]);
}

#[test]
fn tick_twice_on_an_unchanged_circuit_gives_the_same_outputs() {
    let mut c = bench();
    c.wires.push(wire((4, 19), (4, 18)));
    c.wires.push(wire((9, 9), (9, 8)));
    c.lamps.push(lamp(1, 4, 17));
    c.lamps.push(lamp(2, 9, 9));
    c.lamps.push(Lamp { id: 3, top: at(9, 9), bottom: at(0, 16), is_lit: true });
    c.relay_coils.push(RelayCoil { id: 1, top: at(7, 7), bottom: at(7, 5), activated: false });
    c.relay_switches.push(contact(1, SwitchKind::NormallyOpen, 12, 12));
    let first = c.tick().unwrap();
    let (lamps, coils) = (c.lamps.clone(), c.relay_coils.clone());
    let second = c.tick().unwrap();
    assert_eq!(first.lamps, second.lamps);
    assert_eq!(first.coils, second.coils);
    assert_eq!(c.lamps, lamps);
    assert_eq!(c.relay_coils, coils);
    assert_eq!(lit(&c), vec![true, false, false]);
}

#[test]
fn wire_orientation_does_not_change_the_outcome() {
    let wires = vec![
        wire((0, 19), (6, 19)),
        wire((6, 19), (6, 18)),
        wire((0, 16), (6, 16)),
        wire((9, 9), (9, 8)),
    ];
    let mut plain = Circuit::new(at(0, 19), at(0, 16));
    plain.wires = wires.clone();
    plain.lamps.push(lamp(1, 6, 17));
    plain.lamps.push(lamp(2, 9, 9));
    assert!(plain.tick().is_ok());
    for turned in 0..wires.len() {
        let mut c = Circuit::new(at(0, 19), at(0, 16));
        c.wires = wires.clone();
        c.wires[turned] = wires[turned].reversed();
        c.lamps.push(lamp(1, 6, 17));
        c.lamps.push(lamp(2, 9, 9));
        assert!(c.tick().is_ok());
        assert_eq!(c.lamps, plain.lamps);
    }
    let mut shorted = Circuit::new(at(0, 19), at(0, 16));
    shorted.wires = vec![wire((0, 16), (0, 19))];
    assert_eq!(shorted.tick().err(), Some(ShortCircuit));
    shorted.wires = vec![wire((0, 19), (0, 16))];
    assert_eq!(shorted.tick().err(), Some(ShortCircuit));
}

#[test]
fn order_and_repetition_of_wires_do_not_change_the_outcome() {
    let wires = vec![
        wire((0, 19), (6, 19)),
        wire((6, 19), (6, 18)),
        wire((0, 16), (6, 16)),
        wire((9, 9), (9, 8)),
    ];
    let lamps = vec![lamp(1, 6, 17), lamp(2, 9, 9), lamp(3, 9, 17)];
    let mut plain = Circuit::new(at(0, 19), at(0, 16));
    plain.wires = wires.clone();
    plain.lamps = lamps.clone();
    let expected = plain.tick().unwrap();
    assert_eq!(lit(&plain), vec![true, false, false]);

    let mut shuffled = Circuit::new(at(0, 19), at(0, 16));
    shuffled.wires = vec![wires[3], wires[1], wires[0], wires[2], wires[1], wires[3]];
    shuffled.lamps = lamps;
    let found = shuffled.tick().unwrap();
    assert_eq!(found.lamps, expected.lamps);
    assert_eq!(shuffled.lamps, plain.lamps);
}

#[test]
fn short_circuit_leaves_the_outputs_as_they_were() {
    let mut c = bench();
    c.wires.push(wire((20, 19), (20, 16)));
    c.wires.push(wire((4, 19), (4, 18)));
    c.lamps.push(Lamp { id: 1, top: at(4, 18), bottom: at(4, 16), is_lit: true });
    c.lamps.push(Lamp { id: 2, top: at(4, 18), bottom: at(4, 16), is_lit: false });
    c.relay_coils.push(RelayCoil { id: 1, top: at(4, 18), bottom: at(4, 16), activated: true });
    c.relay_coils.push(RelayCoil { id: 2, top: at(4, 18), bottom: at(4, 16), activated: false });
    c.buttons.push(ButtonLatch { id: 1, has_been_pressed: true });
    let wires = c.wires.clone();
    assert_eq!(c.tick().err(), Some(ShortCircuit));
    assert_eq!(lit(&c), vec![true, false]);
    assert_eq!(active(&c), vec![true, false]);
    assert_eq!(c.buttons, vec![ButtonLatch { id: 1, has_been_pressed: false }]);
    assert_eq!(c.wires, wires);
}

#[test]
fn short_circuit_through_a_closed_contact_is_found() {
    let mut c = bench();
    c.button_switches.push(SwitchDevice {
        id: 1,
        kind: SwitchKind::NormallyClosed,
        top: at(20, 19),
        bottom: at(20, 16),
    });
    c.buttons.push(ButtonLatch { id: 1, has_been_pressed: false });
    assert_eq!(c.tick().err(), Some(ShortCircuit));
    c.buttons[0].has_been_pressed = true;
    assert!(c.tick().is_ok());
    assert_eq!(c.tick().err(), Some(ShortCircuit));
}

#[test]
fn normally_open_button_conducts_only_when_pressed() {
    let mut c = bench();
    c.button_switches.push(SwitchDevice {
        id: 3,
        kind: SwitchKind::NormallyOpen,
        top: at(5, 19),
        bottom: at(5, 18),
    });
    c.buttons.push(ButtonLatch { id: 3, has_been_pressed: false });
    c.lamps.push(Lamp { id: 1, top: at(5, 18), bottom: at(5, 16), is_lit: false });
    let report = c.tick().unwrap();
    assert_eq!(report.lamps, vec![Resolution::Detached]);
    assert_eq!(lit(&c), vec![false]);
    c.buttons[0].has_been_pressed = true;
    let report = c.tick().unwrap();
    assert_eq!(report.lamps, vec![Resolution::Powered]);
    assert_eq!(lit(&c), vec![true]);
    assert!(!c.buttons[0].has_been_pressed);
    assert!(c.tick().is_ok());
    assert_eq!(lit(&c), vec![false]);
}

#[test]
fn normally_closed_button_conducts_only_when_not_pressed() {
    let mut c = bench();
    c.button_switches.push(SwitchDevice {
        id: 3,
        kind: SwitchKind::NormallyClosed,
        top: at(5, 19),
        bottom: at(5, 18),
    });
    c.buttons.push(ButtonLatch { id: 3, has_been_pressed: false });
    c.lamps.push(Lamp { id: 1, top: at(5, 18), bottom: at(5, 16), is_lit: false });
    assert!(c.tick().is_ok());
    assert_eq!(lit(&c), vec![true]);
    c.buttons[0].has_been_pressed = true;
    assert!(c.tick().is_ok());
    assert_eq!(lit(&c), vec![false]);
    assert!(c.tick().is_ok());
    assert_eq!(lit(&c), vec![true]);
}

#[test]
fn button_of_another_id_does_not_move_the_contact() {
    let mut c = bench();
    c.button_switches.push(contact(3, SwitchKind::NormallyOpen, 5, 18));
    c.buttons.push(ButtonLatch { id: 4, has_been_pressed: true });
    c.buttons.push(ButtonLatch { id: 3, has_been_pressed: false });
    c.lamps.push(Lamp { id: 1, top: at(5, 17), bottom: at(5, 16), is_lit: false });
    assert!(c.tick().is_ok());
    assert_eq!(lit(&c), vec![false]);
}

#[test]
fn conducts_is_the_inverse_for_the_two_kinds() {
    assert!(SwitchKind::NormallyOpen.conducts(true));
    assert!(!SwitchKind::NormallyOpen.conducts(false));
    assert!(!SwitchKind::NormallyClosed.conducts(true));
    assert!(SwitchKind::NormallyClosed.conducts(false));
}

#[test]
fn relay_contact_follows_the_coil_one_tick_later() {
    let mut c = bench();
    // the coil sits between the rails and is powered from the first tick on
    c.relay_coils.push(RelayCoil { id: 2, top: at(8, 19), bottom: at(8, 16), activated: false });
    // its normally open contact feeds the lamp
    c.relay_switches.push(SwitchDevice {
        id: 2,
        kind: SwitchKind::NormallyOpen,
        top: at(5, 19),
        bottom: at(5, 18),
    });
    c.lamps.push(Lamp { id: 1, top: at(5, 18), bottom: at(5, 16), is_lit: false });
    assert!(c.tick().is_ok());
    assert_eq!(active(&c), vec![true]);
    assert_eq!(lit(&c), vec![false]);
    assert!(c.tick().is_ok());
    assert_eq!(active(&c), vec![true]);
    assert_eq!(lit(&c), vec![true]);
}

#[test]
fn relay_that_breaks_its_own_coil_circuit_flips_every_tick() {
    let mut c = bench();
    c.relay_switches.push(SwitchDevice {
        id: 1,
        kind: SwitchKind::NormallyClosed,
        top: at(5, 19),
        bottom: at(5, 18),
    });
    c.wires.push(wire((5, 18), (5, 17)));
    c.relay_coils.push(RelayCoil { id: 1, top: at(5, 17), bottom: at(5, 16), activated: false });
    let mut seen = Vec::new();
    for _ in 0..4 {
        assert!(c.tick().is_ok());
        seen.push(c.relay_coils[0].activated);
    }
    assert_eq!(seen, vec![true, false, true, false]);
}

#[test]
fn coil_without_a_node_keeps_its_state() {
    let mut c = bench();
    c.relay_coils.push(RelayCoil { id: 1, top: at(30, 30), bottom: at(30, 28), activated: true });
    c.relay_coils.push(RelayCoil { id: 2, top: at(0, 19), bottom: at(30, 28), activated: true });
    c.relay_coils.push(RelayCoil { id: 3, top: at(0, 19), bottom: at(20, 19), activated: true });
    let report = c.tick().unwrap();
    assert_eq!(
        report.coils,
        vec![Resolution::Detached, Resolution::Detached, Resolution::Unpowered]
    );
    assert_eq!(active(&c), vec![true, true, false]);
    assert!(c.tick().is_ok());
    assert_eq!(active(&c), vec![true, true, false]);
}

#[test]
fn island_stays_unvisited_and_lights_nothing() {
    let mut c = bench();
    c.wires.push(wire((10, 10), (10, 12)));
    c.wires.push(wire((10, 12), (12, 12)));
    c.wires.push(wire((12, 12), (12, 10)));
    c.wires.push(wire((12, 10), (10, 10)));
    c.lamps.push(Lamp { id: 1, top: at(10, 12), bottom: at(10, 10), is_lit: true });
    c.lamps.push(Lamp { id: 2, top: at(12, 12), bottom: at(0, 16), is_lit: true });
    c.relay_coils.push(RelayCoil { id: 1, top: at(0, 19), bottom: at(12, 10), activated: true });
    let report = c.tick().unwrap();
    assert_eq!(report.lamps, vec![Resolution::Isolated, Resolution::Isolated]);
    assert_eq!(report.coils, vec![Resolution::Isolated]);
    assert_eq!(lit(&c), vec![false, false]);
    assert_eq!(active(&c), vec![false]);
}

#[test]
fn two_lamps_in_series_both_stay_dark() {
    let mut c = bench();
    c.wires.push(wire((5, 17), (6, 17)));
    c.lamps.push(Lamp { id: 1, top: at(0, 19), bottom: at(5, 17), is_lit: false });
    c.lamps.push(Lamp { id: 2, top: at(5, 17), bottom: at(0, 16), is_lit: false });
    let report = c.tick().unwrap();
    assert_eq!(report.lamps, vec![Resolution::Isolated, Resolution::Isolated]);
    assert_eq!(lit(&c), vec![false, false]);
}

#[test]
fn ganged_contacts_move_together() {
    let mut c = bench();
    c.relay_coils.push(RelayCoil { id: 4, top: at(8, 19), bottom: at(8, 16), activated: false });
    c.relay_switches.push(SwitchDevice {
        id: 4,
        kind: SwitchKind::NormallyOpen,
        top: at(5, 19),
        bottom: at(5, 18),
    });
    c.relay_switches.push(SwitchDevice {
        id: 4,
        kind: SwitchKind::NormallyOpen,
        top: at(6, 19),
        bottom: at(6, 18),
    });
    c.relay_switches.push(SwitchDevice {
        id: 4,
        kind: SwitchKind::NormallyClosed,
        top: at(7, 19),
        bottom: at(7, 18),
    });
    c.lamps.push(Lamp { id: 1, top: at(5, 18), bottom: at(5, 16), is_lit: false });
    c.lamps.push(Lamp { id: 2, top: at(6, 18), bottom: at(6, 16), is_lit: false });
    c.lamps.push(Lamp { id: 3, top: at(7, 18), bottom: at(7, 16), is_lit: false });
    assert!(c.tick().is_ok());
    assert_eq!(lit(&c), vec![false, false, true]);
    assert!(c.tick().is_ok());
    assert_eq!(lit(&c), vec![true, true, false]);
}

#[test]
fn relay_with_two_coils_is_active_when_one_of_them_is() {
    let mut c = bench();
    c.relay_coils.push(RelayCoil { id: 4, top: at(8, 19), bottom: at(8, 16), activated: false });
    c.relay_coils.push(RelayCoil { id: 4, top: at(8, 19), bottom: at(9, 19), activated: false });
    c.relay_switches.push(SwitchDevice {
        id: 4,
        kind: SwitchKind::NormallyOpen,
        top: at(5, 19),
        bottom: at(5, 18),
    });
    c.lamps.push(Lamp { id: 1, top: at(5, 18), bottom: at(5, 16), is_lit: false });
    assert!(c.tick().is_ok());
    assert_eq!(active(&c), vec![true, false]);
    assert!(c.tick().is_ok());
    assert_eq!(lit(&c), vec![true]);
}

#[test]
fn empty_circuit_ticks_without_a_finding() {
    let mut c = Circuit::new(at(0, 19), at(0, 16));
    let report = c.tick().unwrap();
    assert!(report.lamps.is_empty());
    assert!(report.coils.is_empty());
}

#[test]
fn conducting_lists_wires_then_button_then_relay_contacts() {
    let mut c = Circuit::new(at(0, 19), at(0, 16));
    c.wires.push(wire((0, 0), (0, 5)));
    c.button_switches.push(contact(1, SwitchKind::NormallyOpen, 1, 1));
    c.button_switches.push(contact(2, SwitchKind::NormallyClosed, 2, 1));
    c.relay_switches.push(contact(1, SwitchKind::NormallyClosed, 3, 1));
    c.relay_switches.push(contact(2, SwitchKind::NormallyOpen, 4, 1));
    assert_eq!(
        c.conducting(&vec![1], &vec![2]),
        vec![
            wire((0, 0), (0, 5)),
            wire((1, 2), (1, 0)),
            wire((2, 2), (2, 0)),
            wire((3, 2), (3, 0)),
            wire((4, 2), (4, 0)),
        ]
    );
    assert_eq!(
        c.conducting(&vec![2], &vec![1]),
        vec![wire((0, 0), (0, 5))]
    );
}

#[test]
fn capture_buttons_reads_and_releases_every_latch() {
    let mut buttons = vec![
        ButtonLatch { id: 1, has_been_pressed: true },
        ButtonLatch { id: 2, has_been_pressed: false },
        ButtonLatch { id: 6, has_been_pressed: true },
    ];
    assert_eq!(capture_buttons(&mut buttons), vec![1, 6]);
    assert_eq!(
        buttons,
        vec![
            ButtonLatch { id: 1, has_been_pressed: false },
            ButtonLatch { id: 2, has_been_pressed: false },
            ButtonLatch { id: 6, has_been_pressed: false },
        ]
    );
    assert_eq!(capture_buttons(&mut buttons), Vec::<usize>::new());
}

#[test]
fn energised_relays_lists_the_activated_coils() {
    let coils = vec![
        RelayCoil { id: 3, top: at(0, 2), bottom: at(0, 0), activated: false },
        RelayCoil { id: 5, top: at(1, 2), bottom: at(1, 0), activated: true },
        RelayCoil { id: 1, top: at(2, 2), bottom: at(2, 0), activated: true },
    ];
    assert_eq!(energised_relays(&coils), vec![5, 1]);
    assert!(coils[1].activated);
}

#[test]
fn holds_finds_an_id_among_ids() {
    assert!(holds(&vec![4, 2, 9], 9));
    assert!(!holds(&vec![4, 2, 9], 3));
    assert!(!holds(&vec![], 0));
}

#[test]
fn effective_edges_keeps_the_conducting_contacts_in_order() {
    let switches = vec![
        contact(1, SwitchKind::NormallyOpen, 0, 5),
        contact(2, SwitchKind::NormallyOpen, 1, 5),
        contact(1, SwitchKind::NormallyClosed, 2, 5),
        contact(2, SwitchKind::NormallyClosed, 3, 5),
    ];
    assert_eq!(
        effective_edges(&switches, &vec![2]),
        vec![wire((1, 6), (1, 4)), wire((2, 6), (2, 4))]
    );
    assert_eq!(
        effective_edges(&switches, &vec![]),
        vec![wire((2, 6), (2, 4)), wire((3, 6), (3, 4))]
    );
}

#[test]
fn contact_gives_the_wire_between_its_terminals() {
    let c = contact(1, SwitchKind::NormallyOpen, 4, 9);
    assert_eq!(c.wire(), wire((4, 10), (4, 8)));
}

#[test]
fn terminals_picks_positive_and_negative() {
    let plus = PowerSource { polarity: Polarity::Positive, position: at(0, 19) };
    let minus = PowerSource { polarity: Polarity::Negative, position: at(0, 16) };
    let expected = Terminals { positive: at(0, 19), negative: at(0, 16) };
    assert_eq!(terminals(&vec![plus, minus]), Ok(expected));
    assert_eq!(terminals(&vec![minus, plus]), Ok(expected));
    assert_eq!(terminals(&vec![minus, plus, plus]), Ok(expected));
}

#[test]
fn terminals_rejects_missing_and_equal_sources() {
    let plus = PowerSource { polarity: Polarity::Positive, position: at(0, 19) };
    let minus = PowerSource { polarity: Polarity::Negative, position: at(0, 16) };
    assert_eq!(terminals(&vec![]), Err(ConfigError::MissingSource));
    assert_eq!(terminals(&vec![plus]), Err(ConfigError::MissingSource));
    assert_eq!(terminals(&vec![plus, plus]), Err(ConfigError::SamePolarity));
    assert_eq!(terminals(&vec![minus, minus, plus]), Err(ConfigError::SamePolarity));
}
