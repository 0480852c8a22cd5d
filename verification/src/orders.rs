//! Which order lines the client draws: from each unit whose orders are on
//! show, a line to its move target, and a line to the unit it builds or
//! repairs while that unit still exists.

use std::collections::HashSet;
use vstd::prelude::*;

verus! {

/// The command a unit is carrying out, as far as order lines go.
#[derive(Clone, Copy, PartialEq, Eq, Debug)]
pub enum Command {
    /// Building the unit with this id.
    Build(u64),
    /// Repairing the unit with this id.
    Repair(u64),
    /// Any command that draws no line.
    Other,
}

/// What the order lines of one unit depend on.
#[derive(Clone, Copy, PartialEq, Eq, Debug)]
pub struct UnitOrders {
    pub id: u64,
    pub has_move_target: bool,
    pub command: Command,
}

/// The kind of an order line.
#[derive(Clone, Copy, PartialEq, Eq, Debug)]
pub enum LineKind {
    Move,
    Build,
    Repair,
}

/// One order line: the position of its unit in the unit list, its kind,
/// and the unit it ends at (none for a line to a move target).
#[derive(Clone, Copy, PartialEq, Eq, Debug)]
pub struct OrderLine {
    pub unit: usize,
    pub kind: LineKind,
    pub target: Option<u64>,
}

/// The code of a line kind in line instance data.
pub open spec fn spec_kind_code(kind: LineKind) -> u8 {
    match kind {
        LineKind::Move => 0,
        LineKind::Build => 1,
        LineKind::Repair => 2,
    }
}

/// The code of a line kind: 0 move, 1 build, 2 repair.
pub fn line_kind_code(kind: LineKind) -> (code: u8)
    ensures
        code == spec_kind_code(kind),
{
    match kind {
        LineKind::Move => 0,
        LineKind::Build => 1,
        LineKind::Repair => 2,
    }
}

/// Whether the orders of `u` are on show: all orders are, or `u` is
/// selected.
pub open spec fn shows_orders(u: UnitOrders, selection: Set<u64>, see_all: bool) -> bool {
    see_all || selection.contains(u.id)
}

/// The lines of the unit `u` at position `idx`.
pub open spec fn unit_lines(
    u: UnitOrders,
    idx: int,
    selection: Set<u64>,
    see_all: bool,
    known: Set<u64>,
) -> Seq<OrderLine> {
    if !shows_orders(u, selection, see_all) {
        seq![]
    } else {
        let mv: Seq<OrderLine> = if u.has_move_target {
            seq![OrderLine { unit: idx as usize, kind: LineKind::Move, target: None }]
        } else {
            seq![]
        };
        let cmd: Seq<OrderLine> = match u.command {
            Command::Build(t) => if known.contains(t) {
                seq![OrderLine { unit: idx as usize, kind: LineKind::Build, target: Some(t) }]
            } else {
                seq![]
            },
            Command::Repair(t) => if known.contains(t) {
                seq![OrderLine { unit: idx as usize, kind: LineKind::Repair, target: Some(t) }]
            } else {
                seq![]
            },
            Command::Other => seq![],
        };
        mv + cmd
    }
}

/// The lines of all units, unit by unit in list order.
pub open spec fn all_lines(
    units: Seq<UnitOrders>,
    selection: Set<u64>,
    see_all: bool,
    known: Set<u64>,
) -> Seq<OrderLine>
    decreases units.len(),
{
    if units.len() == 0 {
        seq![]
    } else {
        all_lines(units.drop_last(), selection, see_all, known) + unit_lines(
            units.last(),
            units.len() - 1,
            selection,
            see_all,
            known,
        )
    }
}

/// What a line says of its unit: the unit's orders are on show, a move
/// line means a move target, and a build or repair line ends at the unit
/// that the command names, which exists.
pub open spec fn line_fits(
    l: OrderLine,
    units: Seq<UnitOrders>,
    selection: Set<u64>,
    see_all: bool,
    known: Set<u64>,
) -> bool {
    let u = units[l.unit as int];
    &&& l.unit < units.len()
    &&& shows_orders(u, selection, see_all)
    &&& match l.kind {
        LineKind::Move => u.has_move_target && l.target is None,
        LineKind::Build => l.target is Some && u.command == Command::Build(l.target->0)
            && known.contains(l.target->0),
        LineKind::Repair => l.target is Some && u.command == Command::Repair(l.target->0)
            && known.contains(l.target->0),
    }
}

/// Every order line comes from a unit whose orders are on show and
/// matches that unit's orders, and the lines come unit by unit in list
/// order.
pub proof fn lemma_lines_fit_units(
    units: Seq<UnitOrders>,
    selection: Set<u64>,
    see_all: bool,
    known: Set<u64>,
)
    requires
        units.len() <= usize::MAX,
    ensures
        forall|k: int|
            0 <= k < all_lines(units, selection, see_all, known).len() ==> line_fits(
                #[trigger] all_lines(units, selection, see_all, known)[k],
                units,
                selection,
                see_all,
                known,
            ),
        forall|k1: int, k2: int|
            0 <= k1 <= k2 < all_lines(units, selection, see_all, known).len() ==> (#[trigger] all_lines(
                units,
                selection,
                see_all,
                known,
            )[k1]).unit <= (#[trigger] all_lines(units, selection, see_all, known)[k2]).unit,
    decreases units.len(),
{
    if units.len() > 0 {
        let init = units.drop_last();
        let idx = units.len() - 1;
        lemma_lines_fit_units(init, selection, see_all, known);
        let f = all_lines(init, selection, see_all, known);
        let g = unit_lines(units.last(), idx, selection, see_all, known);
        let all = all_lines(units, selection, see_all, known);
        assert(all == f + g);
        assert forall|k: int| 0 <= k < all.len() implies line_fits(
            #[trigger] all[k],
            units,
            selection,
            see_all,
            known,
        ) by {
            if k < f.len() {
                assert(all[k] == f[k]);
                assert(line_fits(f[k], init, selection, see_all, known));
                assert(init[f[k].unit as int] == units[f[k].unit as int]);
            } else {
                assert(all[k] == g[k - f.len()]);
                assert(g[k - f.len()].unit == idx);
            }
        }
        assert forall|k1: int, k2: int|
            0 <= k1 <= k2 < all.len() implies (#[trigger] all[k1]).unit <= (
            #[trigger] all[k2]).unit by {
            if k2 >= f.len() {
                assert(all[k2] == g[k2 - f.len()]);
                assert(all[k2].unit == idx);
                if k1 < f.len() {
                    assert(all[k1] == f[k1]);
                    assert(line_fits(f[k1], init, selection, see_all, known));
                } else {
                    assert(all[k1] == g[k1 - f.len()]);
                }
            } else {
                assert(all[k1] == f[k1]);
                assert(all[k2] == f[k2]);
            }
        }
    }
}

/// Order lines come unit by unit in list order, and within a unit the move
/// line comes first and at most one line of each kind is drawn: of two
/// lines, the earlier has the smaller unit, or the same unit and is its
/// move line while the later is not.
pub open spec fn lines_ordered(a: OrderLine, b: OrderLine) -> bool {
    a.unit < b.unit || (a.unit == b.unit && a.kind == LineKind::Move && b.kind != LineKind::Move)
}

/// Any two lines are ordered as `lines_ordered` says.
pub proof fn lemma_lines_ordered(
    units: Seq<UnitOrders>,
    selection: Set<u64>,
    see_all: bool,
    known: Set<u64>,
)
    requires
        units.len() <= usize::MAX,
    ensures
        forall|k1: int, k2: int|
            0 <= k1 < k2 < all_lines(units, selection, see_all, known).len() ==> lines_ordered(
                #[trigger] all_lines(units, selection, see_all, known)[k1],
                #[trigger] all_lines(units, selection, see_all, known)[k2],
            ),
    decreases units.len(),
{
    if units.len() > 0 {
        let init = units.drop_last();
        let idx = units.len() - 1;
        lemma_lines_ordered(init, selection, see_all, known);
        lemma_lines_fit_units(init, selection, see_all, known);
        let f = all_lines(init, selection, see_all, known);
        let u = units.last();
        let g = unit_lines(u, idx, selection, see_all, known);
        let all = all_lines(units, selection, see_all, known);
        assert(all == f + g);
        let mv: Seq<OrderLine> = if u.has_move_target {
            seq![OrderLine { unit: idx as usize, kind: LineKind::Move, target: None }]
        } else {
            seq![]
        };
        assert forall|k1: int, k2: int| 0 <= k1 < k2 < all.len() implies lines_ordered(
            #[trigger] all[k1],
            #[trigger] all[k2],
        ) by {
            if k2 < f.len() {
                assert(all[k1] == f[k1]);
                assert(all[k2] == f[k2]);
            } else {
                assert(all[k2] == g[k2 - f.len()]);
                assert(all[k2].unit == idx);
                if k1 < f.len() {
                    assert(all[k1] == f[k1]);
                    assert(line_fits(f[k1], init, selection, see_all, known));
                } else {
                    assert(all[k1] == g[k1 - f.len()]);
                    assert(g.len() <= mv.len() + 1);
                    assert(k1 - f.len() == 0 && k2 - f.len() == 1);
                    assert(mv.len() == 1);
                    assert(g[0] == mv[0]);
                }
            }
        }
    }
}

/// Every line of every unit is drawn: a unit on show gets a line to its
/// move target if it has one, and a line to the unit it builds or repairs
/// while that unit exists.
pub proof fn lemma_unit_lines_drawn(
    units: Seq<UnitOrders>,
    selection: Set<u64>,
    see_all: bool,
    known: Set<u64>,
    idx: int,
)
    requires
        0 <= idx < units.len(),
    ensures
        forall|j: int|
            0 <= j < unit_lines(units[idx], idx, selection, see_all, known).len() ==> all_lines(
                units,
                selection,
                see_all,
                known,
            ).contains(#[trigger] unit_lines(units[idx], idx, selection, see_all, known)[j]),
    decreases units.len(),
{
    let init = units.drop_last();
    let f = all_lines(init, selection, see_all, known);
    let g = unit_lines(units.last(), units.len() - 1, selection, see_all, known);
    let all = all_lines(units, selection, see_all, known);
    let mine = unit_lines(units[idx], idx, selection, see_all, known);
    assert(all == f + g);
    if idx == units.len() - 1 {
        assert forall|j: int| 0 <= j < mine.len() implies all.contains(#[trigger] mine[j]) by {
            assert(all[f.len() + j] == g[j]);
        }
    } else {
        lemma_unit_lines_drawn(init, selection, see_all, known, idx);
        assert(init[idx] == units[idx]);
        assert forall|j: int| 0 <= j < mine.len() implies all.contains(#[trigger] mine[j]) by {
            assert(f.contains(mine[j]));
            let k = choose|k: int| 0 <= k < f.len() && f[k] == mine[j];
            assert(all[k] == f[k]);
        }
    }
}

/// The order lines to draw for `units`. `selection` holds the selected
/// units, `see_all_orders` shows the orders of every unit, and `known`
/// holds the units that exist, so that a line to a unit that is gone is
/// left out.
pub fn order_lines(
    units: &Vec<UnitOrders>,
    selection: &HashSet<u64>,
    see_all_orders: bool,
    known: &HashSet<u64>,
) -> (lines: Vec<OrderLine>)
    ensures
        lines@ == all_lines(units@, selection@, see_all_orders, known@),
        forall|k: int|
            0 <= k < lines@.len() ==> line_fits(
                #[trigger] lines@[k],
                units@,
                selection@,
                see_all_orders,
                known@,
            ),
        forall|k1: int, k2: int|
            0 <= k1 < k2 < lines@.len() ==> lines_ordered(
                #[trigger] lines@[k1],
                #[trigger] lines@[k2],
            ),
        forall|i: int|
            0 <= i < units@.len() && (see_all_orders || selection@.contains(units@[i].id))
                && (#[trigger] units@[i]).has_move_target ==> lines@.contains(
                OrderLine { unit: i as usize, kind: LineKind::Move, target: None },
            ),
        forall|i: int|
            0 <= i < units@.len() && (see_all_orders || selection@.contains(units@[i].id)) && (
            #[trigger] units@[i]).command is Build && known@.contains(units@[i].command->Build_0)
                ==> lines@.contains(
                OrderLine {
                    unit: i as usize,
                    kind: LineKind::Build,
                    target: Some(units@[i].command->Build_0),
                },
            ),
        forall|i: int|
            0 <= i < units@.len() && (see_all_orders || selection@.contains(units@[i].id)) && (
            #[trigger] units@[i]).command is Repair && known@.contains(units@[i].command->Repair_0)
                ==> lines@.contains(
                OrderLine {
                    unit: i as usize,
                    kind: LineKind::Repair,
                    target: Some(units@[i].command->Repair_0),
                },
            ),
{
    broadcast use vstd::std_specs::hash::group_hash_axioms;

    let mut lines: Vec<OrderLine> = Vec::new();
    let n = units.len();
    for i in 0..n
        invariant
            n == units@.len(),
            lines@ == all_lines(units@.take(i as int), selection@, see_all_orders, known@),
    {
        let u = units[i];
        let ghost before = lines@;
        if see_all_orders || selection.contains(&u.id) {
            if u.has_move_target {
                lines.push(OrderLine { unit: i, kind: LineKind::Move, target: None });
            }
            match u.command {
                Command::Build(t) => {
                    if known.contains(&t) {
                        lines.push(OrderLine { unit: i, kind: LineKind::Build, target: Some(t) });
                    }
                },
                Command::Repair(t) => {
                    if known.contains(&t) {
                        lines.push(OrderLine { unit: i, kind: LineKind::Repair, target: Some(t) });
                    }
                },
                Command::Other => {},
            }
        }
        proof {
            let prefix = units@.take(i + 1);
            assert(prefix.drop_last() =~= units@.take(i as int));
            assert(prefix.last() == u);
            assert(lines@ =~= before + unit_lines(u, i as int, selection@, see_all_orders, known@));
        }
    }
    assert(units@.take(n as int) =~= units@);
    proof {
        lemma_lines_fit_units(units@, selection@, see_all_orders, known@);
        lemma_lines_ordered(units@, selection@, see_all_orders, known@);
        assert forall|i: int| 0 <= i < units@.len() implies {
            let u = #[trigger] units@[i];
            let ul = unit_lines(u, i, selection@, see_all_orders, known@);
            let shown = see_all_orders || selection@.contains(u.id);
            &&& (shown && u.has_move_target) ==> lines@.contains(
                OrderLine { unit: i as usize, kind: LineKind::Move, target: None },
            )
            &&& (shown && u.command is Build && known@.contains(u.command->Build_0))
                ==> lines@.contains(
                OrderLine { unit: i as usize, kind: LineKind::Build, target: Some(u.command->Build_0) },
            )
            &&& (shown && u.command is Repair && known@.contains(u.command->Repair_0))
                ==> lines@.contains(
                OrderLine {
                    unit: i as usize,
                    kind: LineKind::Repair,
                    target: Some(u.command->Repair_0),
                },
            )
        } by {
            let u = units@[i];
            let ul = unit_lines(u, i, selection@, see_all_orders, known@);
            lemma_unit_lines_drawn(units@, selection@, see_all_orders, known@, i);
            let shown = see_all_orders || selection@.contains(u.id);
            if shown {
                let mv: Seq<OrderLine> = if u.has_move_target {
                    seq![OrderLine { unit: i as usize, kind: LineKind::Move, target: None }]
                } else {
                    seq![]
                };
                if u.has_move_target {
                    assert(ul[0] == OrderLine { unit: i as usize, kind: LineKind::Move, target: None });
                }
                match u.command {
                    Command::Build(t) => {
                        if known@.contains(t) {
                            assert(ul[mv.len() as int] == OrderLine {
                                unit: i as usize,
                                kind: LineKind::Build,
                                target: Some(t),
                            });
                        }
                    },
                    Command::Repair(t) => {
                        if known@.contains(t) {
                            assert(ul[mv.len() as int] == OrderLine {
                                unit: i as usize,
                                kind: LineKind::Repair,
                                target: Some(t),
                            });
                        }
                    },
                    Command::Other => {},
                }
            }
        }
    }
    lines
}

} // verus!
