//! The computer player: picks the column to play in a game.

use crate::game::Game;
use crate::grid::{
    available_columns, free_slots, has_room, is_full, lemma_available_columns,
    lemma_landing_row,
};
use crate::minmax::{is_best_move, minmax_search};
use crate::player::Player;
use crate::winner::has_winner;
use vstd::prelude::*;

verus! {

/// The opening: at most one chip has been played, and the middle column
/// is still empty.
pub open spec fn in_opening<const W: usize, const H: usize>(game: &Game<W, H>) -> bool {
    game.chips_played() < 2 && free_slots(game@, (W / 2) as int) == H
}

/// Returns the column that `player`, who is to move, should play.
///
/// In the opening that is the middle column, taken without any search.
/// Later it is a move that the search finds best. Then the board must
/// have room for a chip, and the player must not have won already.
#[must_use]
pub fn search_best_move<const W: usize, const H: usize>(game: &Game<W, H>, player: Player) -> (col:
    usize)
    requires
        in_opening(game) || (!is_full(game@) && !has_winner(game@, player)),
    ensures
        available_columns(game@).contains(col),
        has_room(game@, col as int),
        in_opening(game) ==> col == W / 2,
        !in_opening(game) ==> is_best_move(game@, player, player, 0, col as int),
{
    proof {
        use_type_invariant(game);
        lemma_available_columns(game@);
    }
    // The middle column is the one to take while it is free.
    if game.round() < 2 {
        let middle = game.board().width() / 2;
        if game.board().free_slots_in_column(middle) == game.board().height() {
            proof {
                lemma_landing_row(game@, middle as int);
                assert(available_columns(game@).contains((middle as int) as usize));
            }
            return middle;
        }
    }
    let col = minmax_search::<W, H>(game.board().clone(), player);
    proof {
        assert(has_room(game@, col as int));
    }
    col
}

} // verus!
