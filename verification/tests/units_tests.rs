use std::collections::HashSet;
use unit_render::units::{
    icon_draws, model_draw_list, model_draws, FrameModel, IconDraw, ModelDraw, ModelSource, UnitView,
};

fn set(ids: &[u64]) -> HashSet<u64> {
    ids.iter().copied().collect()
}

fn view(id: u64, botdef_id: u64, team: u8, in_screen: bool, near: bool) -> UnitView {
    UnitView { id, botdef_id, team, in_screen, near, far: !near }
}

#[test]
fn near_units_are_models_far_units_are_icons() {
    let units = vec![
        view(1, 100, 5, true, true),
        view(2, 100, 6, true, false),
        view(3, 100, 7, false, true),
        view(4, 999, 8, true, true),
    ];
    let selection = set(&[1, 2]);
    let models = model_draws(&units, &selection, Some(1), &set(&[100]));
    assert_eq!(models, vec![ModelDraw { unit: 0, highlight: 3, team: 5 }]);
    let icons = icon_draws(&units, &selection);
    assert_eq!(icons, vec![IconDraw { unit: 1, team_code: -1 }]);
}

#[test]
fn hovered_unselected_unit_has_level_two() {
    let units = vec![view(9, 1, 12, true, true)];
    let models = model_draws(&units, &set(&[]), Some(9), &set(&[1]));
    assert_eq!(models, vec![ModelDraw { unit: 0, highlight: 2, team: 12 }]);
}

#[test]
fn unit_whose_distance_does_not_compare_is_not_drawn() {
    let units = vec![UnitView { id: 1, botdef_id: 1, team: 0, in_screen: true, near: false, far: false }];
    assert!(model_draws(&units, &set(&[]), None, &set(&[1])).is_empty());
    assert!(icon_draws(&units, &set(&[])).is_empty());
}

#[test]
fn far_unselected_icon_carries_team() {
    let units = vec![view(1, 1, 3, true, false)];
    assert_eq!(icon_draws(&units, &set(&[2])), vec![IconDraw { unit: 0, team_code: 3 }]);
}

#[test]
fn editor_model_comes_first_when_open() {
    let units = vec![view(1, 100, 5, true, true)];
    let list = model_draw_list(true, &units, &set(&[1]), None, &set(&[100]));
    assert_eq!(
        list,
        vec![
            FrameModel { source: ModelSource::Editor, highlight: 0, team: 0 },
            FrameModel { source: ModelSource::Unit(0), highlight: 1, team: 5 },
        ]
    );
    let closed = model_draw_list(false, &units, &set(&[1]), None, &set(&[100]));
    assert_eq!(closed, vec![FrameModel { source: ModelSource::Unit(0), highlight: 1, team: 5 }]);
}
