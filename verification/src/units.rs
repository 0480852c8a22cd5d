//! Which models are drawn each frame and which units are drawn as icons,
//! and what their instance data says of highlight and team.

use std::collections::HashSet;
use vstd::prelude::*;
use crate::highlight::{highlight_level, icon_team_code, spec_highlight, unit_highlight};

verus! {

/// What the choice of drawing for one unit depends on. `near` and `far`
/// tell whether the unit is nearer to the camera than the icon distance,
/// and at least as far; a distance that compares neither way makes both
/// false.
#[derive(Clone, Copy, PartialEq, Eq, Debug)]
pub struct UnitView {
    pub id: u64,
    pub botdef_id: u64,
    pub team: u8,
    pub in_screen: bool,
    pub near: bool,
    pub far: bool,
}

/// A unit drawn as a model: its position in the unit list, and the
/// highlight level and team written into its parts.
#[derive(Clone, Copy, PartialEq, Eq, Debug)]
pub struct ModelDraw {
    pub unit: usize,
    pub highlight: u8,
    pub team: u8,
}

/// A unit drawn as an icon: its position in the unit list and the team
/// code of the icon.
#[derive(Clone, Copy, PartialEq, Eq, Debug)]
pub struct IconDraw {
    pub unit: usize,
    pub team_code: i16,
}

/// The model draw of the unit `u` at position `idx`, if it gets one: it is
/// on screen, near, and its blueprint is known.
pub open spec fn unit_model(
    u: UnitView,
    idx: int,
    selection: Set<u64>,
    under_mouse: Option<u64>,
    botdefs: Set<u64>,
) -> Seq<ModelDraw> {
    if u.in_screen && u.near && botdefs.contains(u.botdef_id) {
        seq![
            ModelDraw {
                unit: idx as usize,
                highlight: spec_highlight(selection.contains(u.id), under_mouse == Some(u.id)),
                team: u.team,
            },
        ]
    } else {
        seq![]
    }
}

/// The model draws of all units, in list order.
pub open spec fn all_models(
    units: Seq<UnitView>,
    selection: Set<u64>,
    under_mouse: Option<u64>,
    botdefs: Set<u64>,
) -> Seq<ModelDraw>
    decreases units.len(),
{
    if units.len() == 0 {
        seq![]
    } else {
        all_models(units.drop_last(), selection, under_mouse, botdefs) + unit_model(
            units.last(),
            units.len() - 1,
            selection,
            under_mouse,
            botdefs,
        )
    }
}

/// The icon draw of the unit `u` at position `idx`, if it gets one: it is
/// on screen and far.
pub open spec fn unit_icon(u: UnitView, idx: int, selection: Set<u64>) -> Seq<IconDraw> {
    if u.in_screen && u.far {
        seq![
            IconDraw {
                unit: idx as usize,
                team_code: (if selection.contains(u.id) {
                    -1int
                } else {
                    u.team as int
                }) as i16,
            },
        ]
    } else {
        seq![]
    }
}

/// The icon draws of all units, in list order.
pub open spec fn all_icons(units: Seq<UnitView>, selection: Set<u64>) -> Seq<IconDraw>
    decreases units.len(),
{
    if units.len() == 0 {
        seq![]
    } else {
        all_icons(units.drop_last(), selection) + unit_icon(
            units.last(),
            units.len() - 1,
            selection,
        )
    }
}

proof fn lemma_models_at(
    units: Seq<UnitView>,
    selection: Set<u64>,
    under_mouse: Option<u64>,
    botdefs: Set<u64>,
    idx: int,
)
    requires
        units.len() <= usize::MAX,
        0 <= idx < units.len(),
    ensures
        (exists|k: int|
            0 <= k < all_models(units, selection, under_mouse, botdefs).len() && (#[trigger] all_models(
                units,
                selection,
                under_mouse,
                botdefs,
            )[k]).unit == idx) <==> (units[idx].in_screen && units[idx].near && botdefs.contains(
            units[idx].botdef_id,
        )),
    decreases units.len(),
{
    let all = all_models(units, selection, under_mouse, botdefs);
    let init = units.drop_last();
    let f = all_models(init, selection, under_mouse, botdefs);
    let g = unit_model(units.last(), units.len() - 1, selection, under_mouse, botdefs);
    assert(all == f + g);
    lemma_models_below(init, selection, under_mouse, botdefs);
    if idx == units.len() - 1 {
        if exists|k: int| 0 <= k < all.len() && (#[trigger] all[k]).unit == idx {
            let k = choose|k: int| 0 <= k < all.len() && (#[trigger] all[k]).unit == idx;
            if k < f.len() {
                assert(all[k] == f[k]);
            } else {
                assert(all[k] == g[k - f.len()]);
            }
        }
        if units[idx].in_screen && units[idx].near && botdefs.contains(units[idx].botdef_id) {
            assert(all[f.len() as int] == g[0]);
        }
    } else {
        lemma_models_at(init, selection, under_mouse, botdefs, idx);
        assert(init[idx] == units[idx]);
        if exists|k: int| 0 <= k < all.len() && (#[trigger] all[k]).unit == idx {
            let k = choose|k: int| 0 <= k < all.len() && (#[trigger] all[k]).unit == idx;
            if k < f.len() {
                assert(all[k] == f[k]);
            } else {
                assert(all[k] == g[k - f.len()]);
            }
        }
        if exists|k: int| 0 <= k < f.len() && (#[trigger] f[k]).unit == idx {
            let k = choose|k: int| 0 <= k < f.len() && (#[trigger] f[k]).unit == idx;
            assert(all[k] == f[k]);
        }
    }
}

proof fn lemma_models_below(
    units: Seq<UnitView>,
    selection: Set<u64>,
    under_mouse: Option<u64>,
    botdefs: Set<u64>,
)
    requires
        units.len() <= usize::MAX,
    ensures
        forall|k: int|
            0 <= k < all_models(units, selection, under_mouse, botdefs).len() ==> (#[trigger] all_models(
                units,
                selection,
                under_mouse,
                botdefs,
            )[k]).unit < units.len(),
    decreases units.len(),
{
    if units.len() > 0 {
        let init = units.drop_last();
        lemma_models_below(init, selection, under_mouse, botdefs);
        let f = all_models(init, selection, under_mouse, botdefs);
        let g = unit_model(units.last(), units.len() - 1, selection, under_mouse, botdefs);
        let all = all_models(units, selection, under_mouse, botdefs);
        assert(all == f + g);
        assert forall|k: int| 0 <= k < all.len() implies (#[trigger] all[k]).unit < units.len() by {
            if k < f.len() {
                assert(all[k] == f[k]);
            } else {
                assert(all[k] == g[k - f.len()]);
            }
        }
    }
}

proof fn lemma_icons_at(units: Seq<UnitView>, selection: Set<u64>, idx: int)
    requires
        units.len() <= usize::MAX,
        0 <= idx < units.len(),
    ensures
        (exists|k: int|
            0 <= k < all_icons(units, selection).len() && (#[trigger] all_icons(
                units,
                selection,
            )[k]).unit == idx) <==> (units[idx].in_screen && units[idx].far),
    decreases units.len(),
{
    let all = all_icons(units, selection);
    let init = units.drop_last();
    let f = all_icons(init, selection);
    let g = unit_icon(units.last(), units.len() - 1, selection);
    assert(all == f + g);
    lemma_icons_below(init, selection);
    if idx == units.len() - 1 {
        if exists|k: int| 0 <= k < all.len() && (#[trigger] all[k]).unit == idx {
            let k = choose|k: int| 0 <= k < all.len() && (#[trigger] all[k]).unit == idx;
            if k < f.len() {
                assert(all[k] == f[k]);
            } else {
                assert(all[k] == g[k - f.len()]);
            }
        }
        if units[idx].in_screen && units[idx].far {
            assert(all[f.len() as int] == g[0]);
        }
    } else {
        lemma_icons_at(init, selection, idx);
        assert(init[idx] == units[idx]);
        if exists|k: int| 0 <= k < all.len() && (#[trigger] all[k]).unit == idx {
            let k = choose|k: int| 0 <= k < all.len() && (#[trigger] all[k]).unit == idx;
            if k < f.len() {
                assert(all[k] == f[k]);
            } else {
                assert(all[k] == g[k - f.len()]);
            }
        }
        if exists|k: int| 0 <= k < f.len() && (#[trigger] f[k]).unit == idx {
            let k = choose|k: int| 0 <= k < f.len() && (#[trigger] f[k]).unit == idx;
            assert(all[k] == f[k]);
        }
    }
}

proof fn lemma_icons_below(units: Seq<UnitView>, selection: Set<u64>)
    requires
        units.len() <= usize::MAX,
    ensures
        forall|k: int|
            0 <= k < all_icons(units, selection).len() ==> (#[trigger] all_icons(
                units,
                selection,
            )[k]).unit < units.len(),
    decreases units.len(),
{
    if units.len() > 0 {
        let init = units.drop_last();
        lemma_icons_below(init, selection);
        let f = all_icons(init, selection);
        let g = unit_icon(units.last(), units.len() - 1, selection);
        let all = all_icons(units, selection);
        assert(all == f + g);
        assert forall|k: int| 0 <= k < all.len() implies (#[trigger] all[k]).unit < units.len() by {
            if k < f.len() {
                assert(all[k] == f[k]);
            } else {
                assert(all[k] == g[k - f.len()]);
            }
        }
    }
}

/// What a model draw says of its unit, in terms of the inputs alone: the
/// unit is in the list, on screen, near, its blueprint is known, and the
/// draw carries its team and its highlight, 1 for selected plus 2 for
/// under the mouse.
pub open spec fn model_draw_fits(
    d: ModelDraw,
    units: Seq<UnitView>,
    selection: Set<u64>,
    under_mouse: Option<u64>,
    botdefs: Set<u64>,
) -> bool {
    let u = units[d.unit as int];
    &&& d.unit < units.len()
    &&& u.in_screen
    &&& u.near
    &&& botdefs.contains(u.botdef_id)
    &&& d.team == u.team
    &&& d.highlight == (if selection.contains(u.id) {
        1int
    } else {
        0int
    }) + (if under_mouse == Some(u.id) {
        2int
    } else {
        0int
    })
}

/// What an icon draw says of its unit, in terms of the inputs alone: the
/// unit is in the list, on screen and far, and the team code is -1 when
/// the selection holds the unit's id and the unit's team otherwise.
pub open spec fn icon_draw_fits(d: IconDraw, units: Seq<UnitView>, selection: Set<u64>) -> bool {
    let u = units[d.unit as int];
    &&& d.unit < units.len()
    &&& u.in_screen
    &&& u.far
    &&& d.team_code == (if selection.contains(u.id) {
        -1int
    } else {
        u.team as int
    })
}

/// Every model draw fits its unit, and the draws come in strictly
/// increasing unit order.
pub proof fn lemma_models_fit(
    units: Seq<UnitView>,
    selection: Set<u64>,
    under_mouse: Option<u64>,
    botdefs: Set<u64>,
)
    requires
        units.len() <= usize::MAX,
    ensures
        forall|k: int|
            0 <= k < all_models(units, selection, under_mouse, botdefs).len() ==> model_draw_fits(
                #[trigger] all_models(units, selection, under_mouse, botdefs)[k],
                units,
                selection,
                under_mouse,
                botdefs,
            ),
        forall|k1: int, k2: int|
            0 <= k1 < k2 < all_models(units, selection, under_mouse, botdefs).len() ==> (
            #[trigger] all_models(units, selection, under_mouse, botdefs)[k1]).unit < (
            #[trigger] all_models(units, selection, under_mouse, botdefs)[k2]).unit,
    decreases units.len(),
{
    if units.len() > 0 {
        let init = units.drop_last();
        lemma_models_fit(init, selection, under_mouse, botdefs);
        let f = all_models(init, selection, under_mouse, botdefs);
        let g = unit_model(units.last(), units.len() - 1, selection, under_mouse, botdefs);
        let all = all_models(units, selection, under_mouse, botdefs);
        assert(all == f + g);
        assert forall|k: int| 0 <= k < all.len() implies model_draw_fits(
            #[trigger] all[k],
            units,
            selection,
            under_mouse,
            botdefs,
        ) by {
            if k < f.len() {
                assert(all[k] == f[k]);
                assert(model_draw_fits(f[k], init, selection, under_mouse, botdefs));
                assert(init[f[k].unit as int] == units[f[k].unit as int]);
            } else {
                assert(all[k] == g[k - f.len()]);
                assert(g[k - f.len()].unit == units.len() - 1);
            }
        }
        assert forall|k1: int, k2: int| 0 <= k1 < k2 < all.len() implies (#[trigger] all[k1]).unit
            < (#[trigger] all[k2]).unit by {
            if k2 < f.len() {
                assert(all[k1] == f[k1]);
                assert(all[k2] == f[k2]);
            } else {
                assert(all[k2] == g[k2 - f.len()]);
                if k1 < f.len() {
                    assert(all[k1] == f[k1]);
                    assert(model_draw_fits(f[k1], init, selection, under_mouse, botdefs));
                } else {
                    assert(g.len() <= 1);
                }
            }
        }
    }
}

/// Every icon draw fits its unit, and the draws come in strictly
/// increasing unit order.
pub proof fn lemma_icons_fit(units: Seq<UnitView>, selection: Set<u64>)
    requires
        units.len() <= usize::MAX,
    ensures
        forall|k: int|
            0 <= k < all_icons(units, selection).len() ==> icon_draw_fits(
                #[trigger] all_icons(units, selection)[k],
                units,
                selection,
            ),
        forall|k1: int, k2: int|
            0 <= k1 < k2 < all_icons(units, selection).len() ==> (#[trigger] all_icons(
                units,
                selection,
            )[k1]).unit < (#[trigger] all_icons(units, selection)[k2]).unit,
    decreases units.len(),
{
    if units.len() > 0 {
        let init = units.drop_last();
        lemma_icons_fit(init, selection);
        let f = all_icons(init, selection);
        let g = unit_icon(units.last(), units.len() - 1, selection);
        let all = all_icons(units, selection);
        assert(all == f + g);
        assert forall|k: int| 0 <= k < all.len() implies icon_draw_fits(
            #[trigger] all[k],
            units,
            selection,
        ) by {
            if k < f.len() {
                assert(all[k] == f[k]);
                assert(icon_draw_fits(f[k], init, selection));
                assert(init[f[k].unit as int] == units[f[k].unit as int]);
            } else {
                assert(all[k] == g[k - f.len()]);
                assert(g[k - f.len()].unit == units.len() - 1);
            }
        }
        assert forall|k1: int, k2: int| 0 <= k1 < k2 < all.len() implies (#[trigger] all[k1]).unit
            < (#[trigger] all[k2]).unit by {
            if k2 < f.len() {
                assert(all[k1] == f[k1]);
                assert(all[k2] == f[k2]);
            } else {
                assert(all[k2] == g[k2 - f.len()]);
                if k1 < f.len() {
                    assert(all[k1] == f[k1]);
                    assert(icon_draw_fits(f[k1], init, selection));
                } else {
                    assert(g.len() <= 1);
                }
            }
        }
    }
}

/// Whether the unit at `idx` gets a model draw.
pub open spec fn drawn_as_model(
    units: Seq<UnitView>,
    selection: Set<u64>,
    under_mouse: Option<u64>,
    botdefs: Set<u64>,
    idx: int,
) -> bool {
    exists|k: int|
        0 <= k < all_models(units, selection, under_mouse, botdefs).len() && (#[trigger] all_models(
            units,
            selection,
            under_mouse,
            botdefs,
        )[k]).unit == idx
}

/// Whether the unit at `idx` gets an icon draw.
pub open spec fn drawn_as_icon(units: Seq<UnitView>, selection: Set<u64>, idx: int) -> bool {
    exists|k: int|
        0 <= k < all_icons(units, selection).len() && (#[trigger] all_icons(units, selection)[k]).unit
            == idx
}

/// A unit on screen whose distance compares one way or the other, and
/// whose blueprint is known, is drawn exactly one way: as a model when it
/// is near, as an icon when it is far. A unit off screen is not drawn.
pub proof fn lemma_drawn_once(
    units: Seq<UnitView>,
    selection: Set<u64>,
    under_mouse: Option<u64>,
    botdefs: Set<u64>,
    idx: int,
)
    requires
        units.len() <= usize::MAX,
        0 <= idx < units.len(),
    ensures
        drawn_as_model(units, selection, under_mouse, botdefs, idx) <==> (units[idx].in_screen
            && units[idx].near && botdefs.contains(units[idx].botdef_id)),
        drawn_as_icon(units, selection, idx) <==> (units[idx].in_screen && units[idx].far),
        units[idx].in_screen && units[idx].near != units[idx].far && botdefs.contains(
            units[idx].botdef_id,
        ) ==> (drawn_as_model(units, selection, under_mouse, botdefs, idx) != drawn_as_icon(
            units,
            selection,
            idx,
        )),
{
    lemma_models_at(units, selection, under_mouse, botdefs, idx);
    lemma_icons_at(units, selection, idx);
}

/// The units drawn as models. `selection` holds the selected units,
/// `under_mouse` the unit under the mouse, and `botdefs` the blueprints
/// that are known; a unit whose blueprint is unknown is not drawn.
pub fn model_draws(
    units: &Vec<UnitView>,
    selection: &HashSet<u64>,
    under_mouse: Option<u64>,
    botdefs: &HashSet<u64>,
) -> (draws: Vec<ModelDraw>)
    ensures
        draws@ == all_models(units@, selection@, under_mouse, botdefs@),
        forall|k: int|
            0 <= k < draws@.len() ==> model_draw_fits(
                #[trigger] draws@[k],
                units@,
                selection@,
                under_mouse,
                botdefs@,
            ),
        forall|i: int|
            0 <= i < units@.len() ==> ((exists|k: int|
                0 <= k < draws@.len() && (#[trigger] draws@[k]).unit == i) <==> (
            #[trigger] units@[i]).in_screen && units@[i].near && botdefs@.contains(
                units@[i].botdef_id,
            )),
        forall|k1: int, k2: int|
            0 <= k1 < k2 < draws@.len() ==> (#[trigger] draws@[k1]).unit < (
            #[trigger] draws@[k2]).unit,
{
    broadcast use vstd::std_specs::hash::group_hash_axioms;

    let mut draws: Vec<ModelDraw> = Vec::new();
    let n = units.len();
    for i in 0..n
        invariant
            n == units@.len(),
            draws@ == all_models(units@.take(i as int), selection@, under_mouse, botdefs@),
    {
        let u = units[i];
        let ghost before = draws@;
        if u.in_screen && u.near && botdefs.contains(&u.botdef_id) {
            let highlight = unit_highlight(selection, under_mouse, u.id);
            draws.push(ModelDraw { unit: i, highlight, team: u.team });
        }
        proof {
            let prefix = units@.take(i + 1);
            assert(prefix.drop_last() =~= units@.take(i as int));
            assert(prefix.last() == u);
            assert(draws@ =~= before + unit_model(u, i as int, selection@, under_mouse, botdefs@));
        }
    }
    assert(units@.take(n as int) =~= units@);
    proof {
        lemma_models_fit(units@, selection@, under_mouse, botdefs@);
        assert forall|i: int| 0 <= i < units@.len() implies ((exists|k: int|
            0 <= k < draws@.len() && (#[trigger] draws@[k]).unit == i) <==> (
        #[trigger] units@[i]).in_screen && units@[i].near && botdefs@.contains(
            units@[i].botdef_id,
        )) by {
            lemma_models_at(units@, selection@, under_mouse, botdefs@, i);
        }
    }
    draws
}

/// The units drawn as icons, with the selection marker as the team code of
/// a selected unit.
pub fn icon_draws(units: &Vec<UnitView>, selection: &HashSet<u64>) -> (draws: Vec<IconDraw>)
    ensures
        draws@ == all_icons(units@, selection@),
        forall|k: int|
            0 <= k < draws@.len() ==> icon_draw_fits(#[trigger] draws@[k], units@, selection@),
        forall|i: int|
            0 <= i < units@.len() ==> ((exists|k: int|
                0 <= k < draws@.len() && (#[trigger] draws@[k]).unit == i) <==> (
            #[trigger] units@[i]).in_screen && units@[i].far),
        forall|k1: int, k2: int|
            0 <= k1 < k2 < draws@.len() ==> (#[trigger] draws@[k1]).unit < (
            #[trigger] draws@[k2]).unit,
{
    broadcast use vstd::std_specs::hash::group_hash_axioms;

    let mut draws: Vec<IconDraw> = Vec::new();
    let n = units.len();
    for i in 0..n
        invariant
            n == units@.len(),
            draws@ == all_icons(units@.take(i as int), selection@),
    {
        let u = units[i];
        let ghost before = draws@;
        if u.in_screen && u.far {
            let selected = selection.contains(&u.id);
            draws.push(IconDraw { unit: i, team_code: icon_team_code(selected, u.team) });
        }
        proof {
            let prefix = units@.take(i + 1);
            assert(prefix.drop_last() =~= units@.take(i as int));
            assert(prefix.last() == u);
            assert(draws@ =~= before + unit_icon(u, i as int, selection@));
        }
    }
    assert(units@.take(n as int) =~= units@);
    proof {
        lemma_icons_fit(units@, selection@);
        assert forall|i: int| 0 <= i < units@.len() implies ((exists|k: int|
            0 <= k < draws@.len() && (#[trigger] draws@[k]).unit == i) <==> (
        #[trigger] units@[i]).in_screen && units@[i].far) by {
            lemma_icons_at(units@, selection@, i);
        }
    }
    draws
}

/// Where the parts of a model drawn this frame come from.
#[derive(Clone, Copy, PartialEq, Eq, Debug)]
pub enum ModelSource {
    /// The model shown in the unit editor: complete, not highlighted, of
    /// team 0.
    Editor,
    /// The unit at this position in the unit list.
    Unit(usize),
}

/// A model drawn this frame, with the highlight level and team written
/// into its parts.
#[derive(Clone, Copy, PartialEq, Eq, Debug)]
pub struct FrameModel {
    pub source: ModelSource,
    pub highlight: u8,
    pub team: u8,
}

/// A unit's model draw as a frame model.
pub open spec fn frame_model_of(d: ModelDraw) -> FrameModel {
    FrameModel { source: ModelSource::Unit(d.unit), highlight: d.highlight, team: d.team }
}

/// The models drawn this frame, in drawing order: the unit editor's model
/// first when the editor is open, then the units' models in list order.
pub open spec fn spec_frame_models(
    editor_open: bool,
    units: Seq<UnitView>,
    selection: Set<u64>,
    under_mouse: Option<u64>,
    botdefs: Set<u64>,
) -> Seq<FrameModel> {
    (if editor_open {
        seq![
            FrameModel { source: ModelSource::Editor, highlight: spec_highlight(false, false), team: 0 },
        ]
    } else {
        seq![]
    }) + all_models(units, selection, under_mouse, botdefs).map_values(
        |d: ModelDraw| frame_model_of(d),
    )
}

/// What a frame model says, in terms of the inputs alone: the editor's
/// model is neither highlighted nor of any team but 0, and a unit's model
/// fits that unit as a model draw does.
pub open spec fn frame_model_fits(
    f: FrameModel,
    units: Seq<UnitView>,
    selection: Set<u64>,
    under_mouse: Option<u64>,
    botdefs: Set<u64>,
) -> bool {
    match f.source {
        ModelSource::Editor => f.highlight == 0 && f.team == 0,
        ModelSource::Unit(i) => model_draw_fits(
            ModelDraw { unit: i, highlight: f.highlight, team: f.team },
            units,
            selection,
            under_mouse,
            botdefs,
        ),
    }
}

/// The models drawn this frame: the editor's model when `editor_open`,
/// then the units drawn as models (see `model_draws`).
pub fn model_draw_list(
    editor_open: bool,
    units: &Vec<UnitView>,
    selection: &HashSet<u64>,
    under_mouse: Option<u64>,
    botdefs: &HashSet<u64>,
) -> (list: Vec<FrameModel>)
    ensures
        list@ == spec_frame_models(editor_open, units@, selection@, under_mouse, botdefs@),
        editor_open ==> list@[0] == (FrameModel { source: ModelSource::Editor, highlight: 0, team: 0 }),
        forall|k: int|
            0 <= k < list@.len() ==> ((#[trigger] list@[k]).source == ModelSource::Editor <==> (
            editor_open && k == 0)),
        forall|k: int|
            0 <= k < list@.len() ==> frame_model_fits(
                #[trigger] list@[k],
                units@,
                selection@,
                under_mouse,
                botdefs@,
            ),
        forall|i: int|
            0 <= i < units@.len() ==> ((exists|k: int|
                0 <= k < list@.len() && (#[trigger] list@[k]).source == ModelSource::Unit(
                    i as usize,
                )) <==> (#[trigger] units@[i]).in_screen && units@[i].near && botdefs@.contains(
                units@[i].botdef_id,
            )),
        forall|k1: int, k2: int|
            0 <= k1 < k2 < list@.len() && (#[trigger] list@[k1]).source is Unit && (
            #[trigger] list@[k2]).source is Unit ==> list@[k1].source->Unit_0
                < list@[k2].source->Unit_0,
{
    let mut list: Vec<FrameModel> = Vec::new();
    if editor_open {
        let highlight = highlight_level(false, false);
        list.push(FrameModel { source: ModelSource::Editor, highlight, team: 0 });
    }
    let ghost head = list@;
    let draws = model_draws(units, selection, under_mouse, botdefs);
    let n = draws.len();
    for i in 0..n
        invariant
            n == draws@.len(),
            list@ == head + draws@.take(i as int).map_values(|d: ModelDraw| frame_model_of(d)),
    {
        let d = draws[i];
        list.push(FrameModel { source: ModelSource::Unit(d.unit), highlight: d.highlight, team: d.team });
        assert(draws@.take(i + 1).map_values(|d: ModelDraw| frame_model_of(d)) =~= draws@.take(
            i as int,
        ).map_values(|d: ModelDraw| frame_model_of(d)).push(frame_model_of(d)));
    }
    assert(draws@.take(n as int) =~= draws@);
    proof {
        let h = head.len();
        assert(h == (if editor_open {
            1int
        } else {
            0int
        }));
        assert forall|k: int| h <= k < list@.len() implies #[trigger] list@[k] == frame_model_of(
            draws@[k - h],
        ) by {}
        assert forall|k: int| 0 <= k < list@.len() implies ((#[trigger] list@[k]).source
            == ModelSource::Editor <==> (editor_open && k == 0)) && frame_model_fits(
            list@[k],
            units@,
            selection@,
            under_mouse,
            botdefs@,
        ) by {
            if k >= h {
                assert(list@[k] == frame_model_of(draws@[k - h]));
                assert(model_draw_fits(draws@[k - h], units@, selection@, under_mouse, botdefs@));
            }
        }
        assert forall|i: int| 0 <= i < units@.len() implies ((exists|k: int|
            0 <= k < list@.len() && (#[trigger] list@[k]).source == ModelSource::Unit(i as usize))
            <==> (#[trigger] units@[i]).in_screen && units@[i].near && botdefs@.contains(
            units@[i].botdef_id,
        )) by {
            if exists|k: int|
                0 <= k < list@.len() && (#[trigger] list@[k]).source == ModelSource::Unit(
                    i as usize,
                ) {
                let k = choose|k: int|
                    0 <= k < list@.len() && (#[trigger] list@[k]).source == ModelSource::Unit(
                        i as usize,
                    );
                assert(k >= h);
                assert(units@.len() == units.len());
                assert(list@[k] == frame_model_of(draws@[k - h]));
                assert(draws@[k - h].unit == i as usize);
                assert(draws@[k - h].unit == i);
            }
            if units@[i].in_screen && units@[i].near && botdefs@.contains(units@[i].botdef_id) {
                let k = choose|k: int| 0 <= k < draws@.len() && (#[trigger] draws@[k]).unit == i;
                assert(list@[k + h] == frame_model_of(draws@[k]));
                assert(list@[k + h].source == ModelSource::Unit(i as usize));
            }
        }
        assert forall|k1: int, k2: int|
            0 <= k1 < k2 < list@.len() && (#[trigger] list@[k1]).source is Unit && (
            #[trigger] list@[k2]).source is Unit implies list@[k1].source->Unit_0
                < list@[k2].source->Unit_0 by {
            assert(k1 >= h);
            assert(list@[k1] == frame_model_of(draws@[k1 - h]));
            assert(list@[k2] == frame_model_of(draws@[k2 - h]));
            assert(draws@[k1 - h].unit < draws@[k2 - h].unit);
        }
    }
    list
}

} // verus!
