//! Highlight levels, the decimal packing of highlight and team written into
//! part instances, and the team code written into unit icons.

use std::collections::HashSet;
use vstd::prelude::*;

verus! {

/// Multiplier that puts the highlight level in the hundreds digit of a
/// packed value, above the two decimal digits of the team.
pub const HIGHLIGHT_PLACE: u32 = 100;

/// Team code written into a unit icon when the unit is selected.
pub const SELECTED_ICON_TEAM: i16 = -1;

/// The highlight level of a unit: 0 plain, 1 selected, 2 under the mouse,
/// 3 selected and under the mouse.
pub open spec fn spec_highlight(selected: bool, hovered: bool) -> u8 {
    match (selected, hovered) {
        (true, false) => 1,
        (false, false) => 0,
        (false, true) => 2,
        (true, true) => 3,
    }
}

/// Highlight level from the two flags.
pub fn highlight_level(selected: bool, hovered: bool) -> (h: u8)
    ensures
        h == spec_highlight(selected, hovered),
        h == (if selected {
            1int
        } else {
            0int
        }) + (if hovered {
            2int
        } else {
            0int
        }),
{
    match (selected, hovered) {
        (true, false) => 1,
        (false, false) => 0,
        (false, true) => 2,
        (true, true) => 3,
    }
}

/// Highlight level of the unit `id`: it is selected when the selection
/// holds it, and hovered when it is the unit under the mouse.
pub fn unit_highlight(selection: &HashSet<u64>, under_mouse: Option<u64>, id: u64) -> (h: u8)
    ensures
        h == spec_highlight(selection@.contains(id), under_mouse == Some(id)),
        h == (if selection@.contains(id) {
            1int
        } else {
            0int
        }) + (if under_mouse == Some(id) {
            2int
        } else {
            0int
        }),
{
    broadcast use vstd::std_specs::hash::group_hash_axioms;

    let selected = selection.contains(&id);
    let hovered = match under_mouse {
        Some(m) => m == id,
        None => false,
    };
    highlight_level(selected, hovered)
}

/// The packed value: highlight in the hundreds, team below it
/// ("selected, team, team" in decimal order; team 5 selected gives 105).
pub open spec fn spec_pack(highlight: u8, team: u8) -> int {
    highlight * 100 + team
}

/// Packs a highlight level and a team into one decimal value.
pub fn pack_highlight_team(highlight: u8, team: u8) -> (packed: u32)
    ensures
        packed == spec_pack(highlight, team),
        packed == highlight * 100 + team,
{
    (highlight as u32) * HIGHLIGHT_PLACE + (team as u32)
}

/// The team code of a unit icon: the selection marker for a selected
/// unit, the team otherwise.
pub fn icon_team_code(selected: bool, team: u8) -> (code: i16)
    ensures
        code == (if selected { -1int } else { team as int }),
{
    if selected {
        SELECTED_ICON_TEAM
    } else {
        team as i16
    }
}

/// Packing loses nothing for teams of at most two decimal digits: the
/// hundreds give the highlight back and the remainder gives the team.
pub proof fn lemma_pack_decodes(highlight: u8, team: u8)
    requires
        team < 100,
    ensures
        spec_pack(highlight, team) / 100 == highlight,
        spec_pack(highlight, team) % 100 == team,
{
    assert((highlight * 100 + team) / 100 == highlight) by (nonlinear_arith)
        requires
            0 <= team < 100,
            0 <= highlight,
    ;
    assert((highlight * 100 + team) % 100 == team) by (nonlinear_arith)
        requires
            0 <= team < 100,
            0 <= highlight,
    ;
}

/// The four highlight levels are distinct: the level tells both flags.
pub proof fn lemma_highlight_injective(s1: bool, h1: bool, s2: bool, h2: bool)
    requires
        spec_highlight(s1, h1) == spec_highlight(s2, h2),
    ensures
        s1 == s2,
        h1 == h2,
{
}

} // verus!
