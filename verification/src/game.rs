//! A game in progress: the board and the number of chips played so far.

use crate::board::{Gameboard, GameboardError};
use crate::grid::{
    chip_count, chips_in_column, drop_chip, free_slots, has_room, has_size,
    lemma_chip_count_bounded, lemma_chip_count_of_empty, lemma_column_adds_up, lemma_drop_chip,
    lemma_drop_chip_adds_one, well_stacked, Grid, SERIES_LEN,
};
use crate::player::Player;
use vstd::prelude::*;

verus! {

/// A game with all its state.
///
/// Chips enter the board only through [`Game::insert_player_chip`], so none
/// of them floats, and the round counts them.
#[derive(Debug, PartialOrd, PartialEq, Eq)]
pub struct Game<const W: usize, const H: usize> {
    board: Gameboard<W, H>,
    round: usize,
}

impl<const W: usize, const H: usize> View for Game<W, H> {
    type V = Grid;

    closed spec fn view(&self) -> Grid {
        self.board@
    }
}

impl<const W: usize, const H: usize> Clone for Game<W, H> {
    fn clone(&self) -> (copy: Self)
        ensures
            copy@ == self@,
            copy.chips_played() == self.chips_played(),
    {
        proof {
            use_type_invariant(self);
        }
        Game { board: self.board.clone(), round: self.round }
    }
}

impl<const W: usize, const H: usize> Game<W, H> {
    /// The number of chips played so far.
    pub closed spec fn chips_played(&self) -> nat {
        self.round as nat
    }

    /// What holds of every game: the board has its size, no chip floats,
    /// and the round is the number of chips on the board.
    #[verifier::type_invariant]
    pub open spec fn well_formed(&self) -> bool {
        &&& SERIES_LEN <= W
        &&& SERIES_LEN <= H
        &&& W * H <= usize::MAX
        &&& has_size(self@, W as int, H as int)
        &&& well_stacked(self@)
        &&& self.chips_played() == chip_count(self@)
    }

    /// Starts a game on an empty board.
    #[must_use]
    pub fn new() -> (game: Self)
        requires
            SERIES_LEN <= W,
            SERIES_LEN <= H,
            W * H <= usize::MAX,
        ensures
            game.well_formed(),
            game.chips_played() == 0,
            forall|row: int, col: int|
                0 <= row < H && 0 <= col < W ==> (#[trigger] game@[row][col]) is None,
    {
        let board = Gameboard::new();
        proof {
            lemma_chip_count_of_empty(board@);
        }
        Self { board, round: 0 }
    }

    /// Drops a chip of `player` into the column and counts it. A column
    /// that does not exist or is full leaves the game as it was.
    pub fn insert_player_chip(&mut self, column_index: usize, player: Player) -> (result: Result<
        (),
        GameboardError,
    >)
        ensures
            final(self).well_formed(),
            result is Ok <==> has_room(old(self)@, column_index as int),
            result is Ok ==> final(self)@ == drop_chip(old(self)@, column_index as int, player)
                && final(self).chips_played() == old(self).chips_played() + 1,
            result is Err ==> final(self)@ == old(self)@ && final(self).chips_played() == old(
                self,
            ).chips_played(),
            result == Err::<(), GameboardError>(GameboardError::InvalidColumn) <==> column_index
                >= W,
            result == Err::<(), GameboardError>(GameboardError::ColumnFull) <==> column_index < W
                && !has_room(old(self)@, column_index as int),
    {
        proof {
            use_type_invariant(&*self);
        }
        let mut board = self.board.clone();
        match board.insert_player_chip(column_index, player) {
            Err(e) => Err(e),
            Ok(()) => {
                proof {
                    lemma_drop_chip(self@, column_index as int, player);
                    lemma_drop_chip_adds_one(self@, column_index as int, player);
                    lemma_chip_count_bounded(board@);
                }
                *self = Game { board, round: self.round + 1 };
                Ok(())
            },
        }
    }

    /// At every point of a game, in every column, the chips and the cells
    /// that the column can still take add up to the height of the board.
    pub proof fn lemma_columns_add_up(&self, col: int)
        requires
            self.well_formed(),
            0 <= col < W,
        ensures
            free_slots(self@, col) + chips_in_column(self@, col) == H,
    {
        lemma_column_adds_up(self@, col);
    }

    /// The board of the game.
    #[must_use]
    pub fn board(&self) -> (board: &Gameboard<W, H>)
        ensures
            board@ == self@,
            well_stacked(board@),
    {
        proof {
            use_type_invariant(self);
        }
        &self.board
    }

    /// The number of chips played so far, which is the number of chips on
    /// the board.
    #[must_use]
    pub fn round(&self) -> (round: usize)
        ensures
            round == self.chips_played(),
            round == chip_count(self@),
    {
        proof {
            use_type_invariant(self);
        }
        self.round
    }
}

} // verus!
