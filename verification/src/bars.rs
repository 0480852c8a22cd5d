//! Which status bars a unit shows above it: a health bar whenever any bar
//! is shown, and below it a construction bar while the unit is unfinished.

use vstd::prelude::*;

verus! {

/// The kind of a status bar.
#[derive(Clone, Copy, PartialEq, Eq, Debug)]
pub enum BarKind {
    Health,
    Construction,
}

/// The code of a bar kind in bar instance data.
pub open spec fn spec_bar_code(kind: BarKind) -> u8 {
    match kind {
        BarKind::Health => 0,
        BarKind::Construction => 1,
    }
}

/// The code of a bar kind: 0 health, 1 construction.
pub fn bar_code(kind: BarKind) -> (code: u8)
    ensures
        code == spec_bar_code(kind),
{
    match kind {
        BarKind::Health => 0,
        BarKind::Construction => 1,
    }
}

/// The bars of a unit, from the top down. `visible` says whether the bars
/// of the unit can be seen at all (it is near enough to the camera),
/// `damaged` whether it has lost life and `unfinished` whether it is still
/// under construction. Bar `k` is drawn `k` bar-steps below the first.
pub open spec fn spec_unit_bars(visible: bool, damaged: bool, unfinished: bool) -> Seq<BarKind> {
    if visible && (damaged || unfinished) {
        if unfinished {
            seq![BarKind::Health, BarKind::Construction]
        } else {
            seq![BarKind::Health]
        }
    } else {
        seq![]
    }
}

/// The bars of a unit, from the top down.
pub fn unit_bars(visible: bool, damaged: bool, unfinished: bool) -> (bars: Vec<BarKind>)
    ensures
        bars@ == spec_unit_bars(visible, damaged, unfinished),
        !visible ==> bars@.len() == 0,
        bars@.len() > 0 <==> visible && (damaged || unfinished),
        bars@.len() == 2 <==> visible && unfinished,
        bars@.len() <= 2,
        bars@.len() > 0 ==> bars@[0] == BarKind::Health,
        bars@.len() == 2 ==> bars@[1] == BarKind::Construction,
{
    let mut bars: Vec<BarKind> = Vec::new();
    if visible && (damaged || unfinished) {
        bars.push(BarKind::Health);
        if unfinished {
            bars.push(BarKind::Construction);
        }
    }
    bars
}

} // verus!
