use circuit_sim::placement::{
    axis_aligned, button_contact_free, coil_placed, count_ganged, device_covers, device_terminals,
    lamp_placed, relay_contact_free, MAX_GANGED_CONTACTS,
};
use circuit_sim::{GridPosition, Lamp, RelayCoil, SwitchDevice, SwitchKind, Wire};

fn at(x: usize, y: usize) -> GridPosition {
    GridPosition::new(x, y)
}

fn contact(id: usize, kind: SwitchKind) -> SwitchDevice {
    SwitchDevice { id, kind, top: at(3, 5), bottom: at(3, 3) }
}

#[test]
fn wires_run_along_grid_lines() {
    assert!(axis_aligned(at(2, 3), at(2, 9)));
    assert!(axis_aligned(at(2, 3), at(7, 3)));
    assert!(axis_aligned(at(2, 3), at(2, 3)));
    assert!(!axis_aligned(at(2, 3), at(3, 4)));
}

#[test]
fn vertical_wire_covers_its_column_between_the_ends() {
    let w = Wire::new(at(4, 7), at(4, 2));
    assert!(w.covers(at(4, 2)));
    assert!(w.covers(at(4, 5)));
    assert!(w.covers(at(4, 7)));
    assert!(!w.covers(at(4, 8)));
    assert!(!w.covers(at(4, 1)));
    assert!(!w.covers(at(5, 5)));
    assert!(w.reversed().covers(at(4, 5)));
}

#[test]
fn horizontal_wire_covers_its_row_between_the_ends() {
    let w = Wire::new(at(1, 6), at(9, 6));
    assert!(w.covers(at(1, 6)));
    assert!(w.covers(at(5, 6)));
    assert!(w.covers(at(9, 6)));
    assert!(!w.covers(at(0, 6)));
    assert!(!w.covers(at(10, 6)));
    assert!(!w.covers(at(5, 7)));
}

#[test]
fn wire_of_one_point_covers_that_point() {
    let w = Wire::new(at(3, 3), at(3, 3));
    assert!(w.covers(at(3, 3)));
    assert!(!w.covers(at(3, 4)));
    assert!(!w.covers(at(4, 3)));
}

#[test]
fn slanted_wire_covers_nothing() {
    let w = Wire::new(at(1, 1), at(3, 3));
    assert!(!w.covers(at(1, 1)));
    assert!(!w.covers(at(2, 2)));
}

#[test]
fn device_has_a_terminal_above_and_one_below() {
    assert_eq!(device_terminals(at(6, 10)), (at(6, 11), at(6, 9)));
    assert_eq!(device_terminals(at(0, 1)), (at(0, 2), at(0, 0)));
}

#[test]
fn device_covers_its_terminals_and_its_body() {
    let (top, bottom) = device_terminals(at(6, 10));
    assert!(device_covers(top, bottom, at(6, 11)));
    assert!(device_covers(top, bottom, at(6, 10)));
    assert!(device_covers(top, bottom, at(6, 9)));
    assert!(!device_covers(top, bottom, at(6, 12)));
    assert!(!device_covers(top, bottom, at(6, 8)));
    assert!(!device_covers(top, bottom, at(5, 10)));
}

#[test]
fn lamp_placed_goes_by_the_id() {
    let lamps = vec![
        Lamp { id: 2, top: at(0, 2), bottom: at(0, 0), is_lit: false },
        Lamp { id: 5, top: at(1, 2), bottom: at(1, 0), is_lit: true },
    ];
    assert!(lamp_placed(&lamps, 5));
    assert!(lamp_placed(&lamps, 2));
    assert!(!lamp_placed(&lamps, 1));
    assert!(!lamp_placed(&vec![], 1));
}

#[test]
fn coil_placed_goes_by_the_id() {
    let coils = vec![RelayCoil { id: 4, top: at(0, 2), bottom: at(0, 0), activated: false }];
    assert!(coil_placed(&coils, 4));
    assert!(!coil_placed(&coils, 3));
}

#[test]
fn count_ganged_counts_one_kind_of_one_actuator() {
    let switches = vec![
        contact(1, SwitchKind::NormallyOpen),
        contact(1, SwitchKind::NormallyClosed),
        contact(2, SwitchKind::NormallyOpen),
        contact(1, SwitchKind::NormallyOpen),
    ];
    assert_eq!(count_ganged(&switches, 1, SwitchKind::NormallyOpen), 2);
    assert_eq!(count_ganged(&switches, 1, SwitchKind::NormallyClosed), 1);
    assert_eq!(count_ganged(&switches, 2, SwitchKind::NormallyClosed), 0);
    assert_eq!(count_ganged(&vec![], 1, SwitchKind::NormallyOpen), 0);
}

#[test]
fn button_drives_one_contact_of_each_kind() {
    let switches = vec![contact(1, SwitchKind::NormallyOpen)];
    assert!(!button_contact_free(&switches, 1, SwitchKind::NormallyOpen));
    assert!(button_contact_free(&switches, 1, SwitchKind::NormallyClosed));
    assert!(button_contact_free(&switches, 2, SwitchKind::NormallyOpen));
}

#[test]
fn relay_drives_up_to_five_contacts_of_each_kind() {
    assert_eq!(MAX_GANGED_CONTACTS, 5);
    let mut switches = Vec::new();
    for _ in 0..4 {
        switches.push(contact(3, SwitchKind::NormallyClosed));
        assert!(relay_contact_free(&switches, 3, SwitchKind::NormallyClosed));
    }
    switches.push(contact(3, SwitchKind::NormallyClosed));
    assert!(!relay_contact_free(&switches, 3, SwitchKind::NormallyClosed));
    assert!(relay_contact_free(&switches, 3, SwitchKind::NormallyOpen));
    assert!(relay_contact_free(&switches, 4, SwitchKind::NormallyClosed));
}
