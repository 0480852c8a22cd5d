use unit_render::bars::{bar_code, unit_bars, BarKind};

#[test]
fn no_bars_for_a_healthy_finished_unit() {
    assert_eq!(unit_bars(true, false, false), vec![]);
}

#[test]
fn no_bars_when_not_visible() {
    assert_eq!(unit_bars(false, true, true), vec![]);
}

#[test]
fn health_bar_alone_for_a_damaged_unit() {
    assert_eq!(unit_bars(true, true, false), vec![BarKind::Health]);
}

#[test]
fn construction_bar_below_health_bar() {
    assert_eq!(unit_bars(true, false, true), vec![BarKind::Health, BarKind::Construction]);
    assert_eq!(unit_bars(true, true, true), vec![BarKind::Health, BarKind::Construction]);
}

#[test]
fn bar_codes() {
    assert_eq!(bar_code(BarKind::Health), 0);
    assert_eq!(bar_code(BarKind::Construction), 1);
}
