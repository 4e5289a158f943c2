//! Laws that relate several engine operations.

use vstd::prelude::*;
use crate::tile::Tile;
use crate::engine::flag_spec_tile;

verus! {

/// Flagging is reversible: toggling the flag twice on an unrevealed tile
/// restores both the tile and the mine budget, so a tile that started
/// unflagged ends unflagged.
pub proof fn lemma_flag_toggle_reversible(t: Tile, budget: int)
    requires
        !t.revealed,
    ensures
        flag_spec_tile(flag_spec_tile(t, budget).0, flag_spec_tile(t, budget).1) == (t, budget),
        !t.flagged ==> !flag_spec_tile(flag_spec_tile(t, budget).0, flag_spec_tile(t, budget).1)
            .0.flagged,
{
}

} // verus!
