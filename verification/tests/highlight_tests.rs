use std::collections::HashSet;
use unit_render::highlight::{highlight_level, icon_team_code, pack_highlight_team, unit_highlight};

#[test]
fn highlight_levels_for_all_flags() {
    assert_eq!(highlight_level(false, false), 0);
    assert_eq!(highlight_level(true, false), 1);
    assert_eq!(highlight_level(false, true), 2);
    assert_eq!(highlight_level(true, true), 3);
}

#[test]
fn unit_highlight_reads_selection_and_hover() {
    let mut selection = HashSet::new();
    selection.insert(7u64);
    assert_eq!(unit_highlight(&selection, None, 7), 1);
    assert_eq!(unit_highlight(&selection, Some(7), 7), 3);
    assert_eq!(unit_highlight(&selection, Some(8), 8), 2);
    assert_eq!(unit_highlight(&selection, Some(8), 9), 0);
    assert_eq!(unit_highlight(&HashSet::new(), None, 7), 0);
}

#[test]
fn packing_team_five_selected_gives_105() {
    assert_eq!(pack_highlight_team(1, 5), 105);
    assert_eq!(pack_highlight_team(0, 0), 0);
    assert_eq!(pack_highlight_team(3, 99), 399);
    assert_eq!(pack_highlight_team(255, 255), 25755);
}

#[test]
fn packing_decodes_for_two_digit_teams() {
    for h in 0u8..4 {
        for t in 0u8..100 {
            let p = pack_highlight_team(h, t);
            assert_eq!(p / 100, h as u32);
            assert_eq!(p % 100, t as u32);
        }
    }
}

#[test]
fn icon_team_code_marks_selection() {
    assert_eq!(icon_team_code(true, 4), -1);
    assert_eq!(icon_team_code(false, 4), 4);
    assert_eq!(icon_team_code(false, 0), 0);
    assert_eq!(icon_team_code(false, 255), 255);
}
