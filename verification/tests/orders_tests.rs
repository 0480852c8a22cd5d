use std::collections::HashSet;
use unit_render::orders::{line_kind_code, order_lines, Command, LineKind, OrderLine, UnitOrders};

fn set(ids: &[u64]) -> HashSet<u64> {
    ids.iter().copied().collect()
}

fn units() -> Vec<UnitOrders> {
    vec![
        UnitOrders { id: 1, has_move_target: true, command: Command::Build(10) },
        UnitOrders { id: 2, has_move_target: false, command: Command::Repair(11) },
        UnitOrders { id: 3, has_move_target: true, command: Command::Other },
        UnitOrders { id: 4, has_move_target: false, command: Command::Build(12) },
    ]
}

#[test]
fn selected_units_only() {
    let lines = order_lines(&units(), &set(&[1, 2]), false, &set(&[10, 11, 12]));
    assert_eq!(
        lines,
        vec![
            OrderLine { unit: 0, kind: LineKind::Move, target: None },
            OrderLine { unit: 0, kind: LineKind::Build, target: Some(10) },
            OrderLine { unit: 1, kind: LineKind::Repair, target: Some(11) },
        ]
    );
}

#[test]
fn see_all_orders_shows_every_unit() {
    let lines = order_lines(&units(), &set(&[]), true, &set(&[10, 11, 12]));
    assert_eq!(lines.len(), 5);
    assert_eq!(lines[3], OrderLine { unit: 2, kind: LineKind::Move, target: None });
    assert_eq!(lines[4], OrderLine { unit: 3, kind: LineKind::Build, target: Some(12) });
}

#[test]
fn lines_to_vanished_units_are_left_out() {
    let lines = order_lines(&units(), &set(&[]), true, &set(&[]));
    assert_eq!(
        lines,
        vec![
            OrderLine { unit: 0, kind: LineKind::Move, target: None },
            OrderLine { unit: 2, kind: LineKind::Move, target: None },
        ]
    );
}

#[test]
fn nothing_selected_nothing_drawn() {
    assert!(order_lines(&units(), &set(&[]), false, &set(&[10, 11, 12])).is_empty());
    assert!(order_lines(&vec![], &set(&[1]), true, &set(&[])).is_empty());
}

#[test]
fn kind_codes() {
    assert_eq!(line_kind_code(LineKind::Move), 0);
    assert_eq!(line_kind_code(LineKind::Build), 1);
    assert_eq!(line_kind_code(LineKind::Repair), 2);
}
