//! The playing field: a board of fixed size that takes one chip at a time.

use crate::grid::{
    available_below, available_columns, column_numbers, drop_chip, free_slots, has_room,
    has_size, height, is_full, landing_row, lemma_drop_chip_stacks, lemma_landing_row,
    lemma_landing_row_is, well_stacked, width, with_cell, with_room, Grid, SERIES_LEN,
};
use crate::player::Player;
use vstd::prelude::*;

verus! {

/// Why a chip could not be placed.
#[derive(Debug, PartialOrd, PartialEq, Clone, Copy, Eq, Structural)]
pub enum GameboardError {
    /// The column has no empty cell left.
    ColumnFull,
    /// The board has no column of that number.
    InvalidColumn,
}

/// A board of `W` columns and `H` rows.
///
/// Row 0 is the bottom row, column 0 the leftmost column.
#[derive(Debug, PartialOrd, PartialEq, Eq)]
pub struct Gameboard<const W: usize, const H: usize>([[Option<Player>; W]; H]);

impl<const W: usize, const H: usize> View for Gameboard<W, H> {
    type V = Grid;

    closed spec fn view(&self) -> Grid {
        Seq::new(H as nat, |row: int| self.0@[row]@)
    }
}

impl<const W: usize, const H: usize> Clone for Gameboard<W, H> {
    fn clone(&self) -> (copy: Self)
        ensures
            copy@ == self@,
    {
        proof {
            use_type_invariant(self);
        }
        Gameboard(self.0)
    }
}

impl<const W: usize, const H: usize> Gameboard<W, H> {
    /// A line of four fits in either direction, and the cells can be counted.
    #[verifier::type_invariant]
    pub open spec fn valid_size(&self) -> bool {
        SERIES_LEN <= W && SERIES_LEN <= H && W * H <= usize::MAX
    }

    /// The view of a board has the size of the board.
    pub proof fn lemma_size(&self)
        requires
            self.valid_size(),
        ensures
            has_size(self@, W as int, H as int),
    {
        assert(self@[0] == self.0@[0]@);
        assert forall|row: int| 0 <= row < self@.len() implies (#[trigger] self@[row]).len()
            == W by {
            assert(self@[row] == self.0@[row]@);
        }
    }

    /// Creates an empty board.
    #[must_use]
    pub fn new() -> (board: Self)
        requires
            SERIES_LEN <= W,
            SERIES_LEN <= H,
            W * H <= usize::MAX,
        ensures
            has_size(board@, W as int, H as int),
            forall|row: int, col: int|
                0 <= row < H && 0 <= col < W ==> (#[trigger] board@[row][col]) is None,
            well_stacked(board@),
    {
        let board = Self([[None;W];H]);
        proof {
            board.lemma_size();
            assert forall|row: int, col: int| 0 <= row < H && 0 <= col < W implies (
            #[trigger] board@[row][col]) is None by {
                assert(board@[row] == board.0@[row]@);
            }
        }
        board
    }

    /// The cells of the board, row by row from the bottom up.
    #[must_use]
    pub fn board(&self) -> (cells: &[[Option<Player>; W]; H])
        ensures
            forall|row: int, col: int|
                0 <= row < H && 0 <= col < W ==> (#[trigger] cells@[row]@[col]) == self@[row][col],
    {
        &self.0
    }

    /// Number of columns.
    #[must_use]
    pub fn width(&self) -> (w: usize)
        ensures
            w == W,
            w == width(self@),
    {
        proof {
            use_type_invariant(self);
            self.lemma_size();
        }
        W
    }

    /// Number of rows.
    #[must_use]
    pub fn height(&self) -> (h: usize)
        ensures
            h == H,
            h == height(self@),
    {
        proof {
            use_type_invariant(self);
            self.lemma_size();
        }
        H
    }

    /// Puts `cell` at `(row, col)`, whatever was there and whatever lies
    /// below. This is the way to set up a position that no game leads to.
    pub fn set_cell(&mut self, row: usize, col: usize, cell: Option<Player>)
        requires
            row < H,
            col < W,
        ensures
            final(self)@ == with_cell(old(self)@, row as int, col as int, cell),
    {
        proof {
            use_type_invariant(&*self);
        }
        self.0[row][col] = cell;
        proof {
            let expected = with_cell(old(self)@, row as int, col as int, cell);
            assert(old(self)@[row as int] == old(self).0@[row as int]@);
            assert forall|r: int| 0 <= r < H implies #[trigger] self@[r] == expected[r] by {
                assert(self@[r] == self.0@[r]@);
                assert(old(self)@[r] == old(self).0@[r]@);
            }
        }
    }

    /// Returns the row of the lowest empty cell of the column, or `None` if
    /// the column is full.
    #[must_use]
    pub fn next_slot_in_column(&self, column_index: usize) -> (slot: Option<usize>)
        requires
            column_index < W,
        ensures
            slot == if has_room(self@, column_index as int) {
                Some(landing_row(self@, column_index as int) as usize)
            } else {
                None
            },
    {
        proof {
            use_type_invariant(self);
            self.lemma_size();
        }
        let mut row_index: usize = 0;
        while row_index < H
            invariant
                row_index <= H,
                column_index < W,
                has_size(self@, W as int, H as int),
                forall|below: int|
                    0 <= below < row_index ==> (#[trigger] self@[below][column_index as int])
                        is Some,
            decreases H - row_index,
        {
            proof {
                assert(self@[row_index as int] == self.0@[row_index as int]@);
            }
            if self.0[row_index][column_index].is_none() {
                proof {
                    lemma_landing_row_is(self@, column_index as int, row_index as int);
                }
                return Some(row_index);
            }
            row_index += 1;
        }
        proof {
            lemma_landing_row_is(self@, column_index as int, H as int);
        }
        None
    }

    /// Returns the columns that can take another chip, in ascending order.
    #[must_use]
    pub fn available_columns_iter(&self) -> (columns: Vec<usize>)
        ensures
            columns@ == available_columns(self@),
    {
        proof {
            use_type_invariant(self);
            self.lemma_size();
        }
        let mut columns: Vec<usize> = Vec::new();
        let mut col: usize = 0;
        while col < W
            invariant
                col <= W,
                has_size(self@, W as int, H as int),
                columns@ == available_below(self@, col as int),
            decreases W - col,
        {
            proof {
                assert(column_numbers(col + 1) == column_numbers(col as int).push(col));
                column_numbers(col as int).lemma_filter_push(col, with_room(self@));
            }
            if self.next_slot_in_column(col).is_some() {
                columns.push(col);
            }
            col += 1;
        }
        columns
    }

    /// Returns the number of empty cells of the column from its lowest
    /// empty cell upwards: what the column can still take.
    #[must_use]
    pub fn free_slots_in_column(&self, column: usize) -> (free: usize)
        requires
            column < W,
        ensures
            free == free_slots(self@, column as int),
    {
        proof {
            use_type_invariant(self);
            self.lemma_size();
            lemma_landing_row(self@, column as int);
        }
        match self.next_slot_in_column(column) {
            Some(row) => H - row,
            None => 0,
        }
    }

    /// Returns whether no column can take another chip.
    #[must_use]
    pub fn gameover(&self) -> (over: bool)
        ensures
            over == is_full(self@),
    {
        self.available_columns_iter().len() == 0
    }

    /// Drops a chip of `player` into the column: it comes to rest in the
    /// lowest empty cell. A column that does not exist or is full leaves
    /// the board as it was.
    pub fn insert_player_chip(&mut self, column_index: usize, player: Player) -> (result: Result<
        (),
        GameboardError,
    >)
        ensures
            result is Ok <==> has_room(old(self)@, column_index as int),
            result is Ok ==> final(self)@ == drop_chip(old(self)@, column_index as int, player),
            result is Err ==> final(self)@ == old(self)@,
            result == Err::<(), GameboardError>(GameboardError::InvalidColumn) <==> column_index
                >= W,
            result == Err::<(), GameboardError>(GameboardError::ColumnFull) <==> column_index < W
                && !has_room(old(self)@, column_index as int),
            well_stacked(old(self)@) ==> well_stacked(final(self)@),
    {
        proof {
            use_type_invariant(&*self);
            self.lemma_size();
            lemma_landing_row(self@, column_index as int);
            if has_room(self@, column_index as int) && well_stacked(self@) {
                lemma_drop_chip_stacks(self@, column_index as int, player);
            }
        }
        if column_index >= W {
            return Err(GameboardError::InvalidColumn);
        }
        match self.next_slot_in_column(column_index) {
            None => Err(GameboardError::ColumnFull),
            Some(row_index) => {
                self.set_cell(row_index, column_index, Some(player));
                Ok(())
            },
        }
    }
}

} // verus!
