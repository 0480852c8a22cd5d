//! What the client holds of a game session, and clearing it when the
//! player leaves a game.

use std::collections::HashSet;
use vstd::prelude::*;
use crate::orders::{all_lines, UnitOrders};
use crate::units::{all_icons, spec_frame_models, UnitView};

verus! {

/// The game state a client session holds: the players, which of them is
/// this client, the units, the selection, the explosions and the cache of
/// projectiles in flight.
pub struct SessionState<P, U, E, K> {
    pub players: Vec<P>,
    pub my_player_id: Option<u64>,
    pub units: Vec<U>,
    pub selection: HashSet<u64>,
    pub explosions: Vec<E>,
    pub projectile_cache: Vec<K>,
}

impl<P, U, E, K> SessionState<P, U, E, K> {
    /// Whether the session holds nothing: no players, no player of this
    /// client, no units, nothing selected, no explosions, no projectiles.
    pub open spec fn is_cleared(&self) -> bool {
        &&& self.players@.len() == 0
        &&& self.my_player_id is None
        &&& self.units@.len() == 0
        &&& self.selection@.is_empty()
        &&& self.explosions@.len() == 0
        &&& self.projectile_cache@.len() == 0
    }

    /// Forgets the session: no players, no player of this client, no
    /// units, nothing selected, no explosions and no projectiles.
    pub fn reset(&mut self)
        ensures
            final(self).players@.len() == 0,
            final(self).my_player_id is None,
            final(self).units@.len() == 0,
            final(self).selection@.is_empty(),
            final(self).explosions@.len() == 0,
            final(self).projectile_cache@.len() == 0,
            final(self).is_cleared(),
    {
        self.players.clear();
        self.my_player_id = None;
        self.units.clear();
        self.selection.clear();
        self.explosions.clear();
        self.projectile_cache.clear();
    }
}

/// After a reset nothing of the session is drawn: with the unit editor
/// closed no model is drawn, no unit icon and no order line, whatever the
/// unit list's views and orders (one of each per unit of the session),
/// the unit under the mouse, the blueprints and the units that exist.
pub proof fn lemma_nothing_drawn_after_reset<P, U, E, K>(
    s: SessionState<P, U, E, K>,
    views: Seq<UnitView>,
    orders: Seq<UnitOrders>,
    under_mouse: Option<u64>,
    botdefs: Set<u64>,
    see_all_orders: bool,
    known: Set<u64>,
)
    requires
        s.is_cleared(),
        views.len() == s.units@.len(),
        orders.len() == s.units@.len(),
    ensures
        spec_frame_models(false, views, s.selection@, under_mouse, botdefs) == Seq::<
            crate::units::FrameModel,
        >::empty(),
        all_icons(views, s.selection@) == Seq::<crate::units::IconDraw>::empty(),
        all_lines(orders, s.selection@, see_all_orders, known) == Seq::<
            crate::orders::OrderLine,
        >::empty(),
{
    assert(spec_frame_models(false, views, s.selection@, under_mouse, botdefs) =~= Seq::<
        crate::units::FrameModel,
    >::empty());
}

} // verus!
