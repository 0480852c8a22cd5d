use std::collections::HashSet;
use unit_render::orders::{order_lines, Command, UnitOrders};
use unit_render::session::SessionState;
use unit_render::units::{icon_draws, model_draw_list, UnitView};

#[test]
fn reset_forgets_everything() {
    let mut selection = HashSet::new();
    selection.insert(3u64);
    let mut s: SessionState<u8, u16, u32, u64> = SessionState {
        players: vec![1, 2],
        my_player_id: Some(1),
        units: vec![7],
        selection,
        explosions: vec![9],
        projectile_cache: vec![11, 12],
    };
    s.reset();
    assert!(s.players.is_empty());
    assert_eq!(s.my_player_id, None);
    assert!(s.units.is_empty());
    assert!(s.selection.is_empty());
    assert!(s.explosions.is_empty());
    assert!(s.projectile_cache.is_empty());
}

#[test]
fn nothing_drawn_after_reset_with_editor_closed() {
    let mut selection = HashSet::new();
    selection.insert(1u64);
    let mut s: SessionState<u8, UnitOrders, u32, u64> = SessionState {
        players: vec![1],
        my_player_id: Some(1),
        units: vec![UnitOrders { id: 1, has_move_target: true, command: Command::Other }],
        selection,
        explosions: vec![],
        projectile_cache: vec![],
    };
    s.reset();
    let views: Vec<UnitView> = vec![];
    let known: HashSet<u64> = [1u64].into_iter().collect();
    assert!(model_draw_list(false, &views, &s.selection, Some(1), &known).is_empty());
    assert!(icon_draws(&views, &s.selection).is_empty());
    assert!(order_lines(&s.units, &s.selection, true, &known).is_empty());
}
