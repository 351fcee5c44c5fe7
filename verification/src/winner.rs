//! Win detection: four chips of one player in a row, a column or a diagonal.

use crate::board::Gameboard;
use crate::grid::{
    chip_count, drop_chip, has_room, has_size, in_bounds, landing_row, lemma_chip_count_bounded,
    lemma_chip_count_of_empty, lemma_drop_chip, lemma_landing_row, occupied_cells, rectangular,
    width, Grid, SERIES_LEN,
};
use crate::player::Player;
use vstd::prelude::*;
use vstd::set_lib::lemma_len_subset;

verus! {

/// The cell exists and holds a chip of `player`.
pub open spec fn owned(grid: Grid, player: Player, row: int, col: int) -> bool {
    in_bounds(grid, row, col) && grid[row][col] == Some(player)
}

/// Four chips of `player` in a line: the first at `(row, col)`, each next
/// one `drow` rows and `dcol` columns further.
pub open spec fn series_at(
    grid: Grid,
    player: Player,
    row: int,
    col: int,
    drow: int,
    dcol: int,
) -> bool {
    &&& owned(grid, player, row, col)
    &&& owned(grid, player, row + drow, col + dcol)
    &&& owned(grid, player, row + 2 * drow, col + 2 * dcol)
    &&& owned(grid, player, row + 3 * drow, col + 3 * dcol)
}

/// Four chips of `player` side by side, the leftmost at `(row, col)`.
pub open spec fn row_of_four(grid: Grid, player: Player, row: int, col: int) -> bool {
    series_at(grid, player, row, col, 0, 1)
}

/// Four chips of `player` on top of each other, the lowest at `(row, col)`.
pub open spec fn column_of_four(grid: Grid, player: Player, row: int, col: int) -> bool {
    series_at(grid, player, row, col, 1, 0)
}

/// Four chips of `player` on a diagonal that climbs to the right, the
/// lowest at `(row, col)`.
pub open spec fn rising_four(grid: Grid, player: Player, row: int, col: int) -> bool {
    series_at(grid, player, row, col, 1, 1)
}

/// Four chips of `player` on a diagonal that climbs to the left, the
/// lowest at `(row, col)`.
pub open spec fn falling_four(grid: Grid, player: Player, row: int, col: int) -> bool {
    series_at(grid, player, row, col, 1, -1)
}

/// Some row holds four chips of `player` side by side.
pub open spec fn wins_horizontally(grid: Grid, player: Player) -> bool {
    exists|row: int, col: int| row_of_four(grid, player, row, col)
}

/// Some column holds four chips of `player` on top of each other.
pub open spec fn wins_vertically(grid: Grid, player: Player) -> bool {
    exists|row: int, col: int| column_of_four(grid, player, row, col)
}

/// Some diagonal that climbs to the left holds four chips of `player` in a line.
pub open spec fn wins_on_falling_diagonal(grid: Grid, player: Player) -> bool {
    exists|row: int, col: int| falling_four(grid, player, row, col)
}

/// Some diagonal that climbs to the right holds four chips of `player` in a line.
pub open spec fn wins_on_rising_diagonal(grid: Grid, player: Player) -> bool {
    exists|row: int, col: int| rising_four(grid, player, row, col)
}

/// Some diagonal holds four chips of `player` in a line.
pub open spec fn wins_diagonally(grid: Grid, player: Player) -> bool {
    wins_on_falling_diagonal(grid, player) || wins_on_rising_diagonal(grid, player)
}

/// `player` has four chips in a line somewhere on the grid.
pub open spec fn has_winner(grid: Grid, player: Player) -> bool {
    wins_horizontally(grid, player) || wins_vertically(grid, player) || wins_diagonally(
        grid,
        player,
    )
}

impl<const W: usize, const H: usize> Gameboard<W, H> {
    /// Returns whether some column holds four chips of `player` on top of each other.
    #[must_use]
    pub fn check_for_winner_vertically(&self, player: Player) -> (won: bool)
        ensures
            won == wins_vertically(self@, player),
    {
        proof {
            use_type_invariant(self);
            self.lemma_size();
        }
        let cells = self.board();
        let rows_to_check = H - SERIES_LEN + 1;
        for col in 0..W
            invariant
                rows_to_check == H - 3,
                has_size(self@, W as int, H as int),
                forall|r: int, c: int|
                    0 <= r < H && 0 <= c < W ==> (#[trigger] cells@[r]@[c]) == self@[r][c],
                forall|r: int, c: int|
                    0 <= c < col ==> !#[trigger] column_of_four(self@, player, r, c),
        {
            for row in 0..rows_to_check
                invariant
                    rows_to_check == H - 3,
                    col < W,
                    has_size(self@, W as int, H as int),
                    forall|r: int, c: int|
                        0 <= r < H && 0 <= c < W ==> (#[trigger] cells@[r]@[c]) == self@[r][c],
                    forall|r: int|
                        0 <= r < row ==> !#[trigger] column_of_four(self@, player, r, col as int),
            {
                if cells[row][col] == Some(player) && cells[row + 1][col] == Some(player)
                    && cells[row + 2][col] == Some(player) && cells[row + 3][col] == Some(
                    player,
                ) {
                    assert(column_of_four(self@, player, row as int, col as int));
                    return true;
                }
            }
        }
        false
    }

    /// Returns whether some row holds four chips of `player` side by side.
    #[must_use]
    pub fn check_for_winner_horizontally(&self, player: Player) -> (won: bool)
        ensures
            won == wins_horizontally(self@, player),
    {
        proof {
            use_type_invariant(self);
            self.lemma_size();
        }
        let cells = self.board();
        let cols_to_check = W - SERIES_LEN + 1;
        for row in 0..H
            invariant
                cols_to_check == W - 3,
                has_size(self@, W as int, H as int),
                forall|r: int, c: int|
                    0 <= r < H && 0 <= c < W ==> (#[trigger] cells@[r]@[c]) == self@[r][c],
                forall|r: int, c: int|
                    0 <= r < row ==> !#[trigger] row_of_four(self@, player, r, c),
        {
            for col in 0..cols_to_check
                invariant
                    cols_to_check == W - 3,
                    row < H,
                    has_size(self@, W as int, H as int),
                    forall|r: int, c: int|
                        0 <= r < H && 0 <= c < W ==> (#[trigger] cells@[r]@[c]) == self@[r][c],
                    forall|c: int|
                        0 <= c < col ==> !#[trigger] row_of_four(self@, player, row as int, c),
            {
                if cells[row][col] == Some(player) && cells[row][col + 1] == Some(player)
                    && cells[row][col + 2] == Some(player) && cells[row][col + 3] == Some(
                    player,
                ) {
                    assert(row_of_four(self@, player, row as int, col as int));
                    return true;
                }
            }
        }
        false
    }

    /// Returns whether some diagonal holds four chips of `player` in a line.
    ///
    /// Diagonals too short for four chips are never visited.
    #[must_use]
    pub fn check_for_winner_diagonally(&self, player: Player) -> (won: bool)
        ensures
            won == wins_diagonally(self@, player),
    {
        proof {
            use_type_invariant(self);
            self.lemma_size();
            assert(W + H <= W * H) by (nonlinear_arith)
                requires
                    4 <= W,
                    4 <= H,
            ;
            assert(4 * W <= W * H) by (nonlinear_arith)
                requires
                    4 <= H,
            ;
            assert(4 * H <= W * H) by (nonlinear_arith)
                requires
                    4 <= W,
            ;
        }
        let cells = self.board();

        // Diagonals that climb to the left: on each, row + column is the
        // same number d. Only those with 3 <= d <= H + W - 5 hold four cells.
        let d_min = SERIES_LEN - 1;
        let d_max = H + W - SERIES_LEN - 1;
        let mut d = d_min;
        while d <= d_max
            invariant
                d_min == 3,
                d_max == H + W - 5,
                d_min <= d <= d_max + 1,
                4 <= W,
                4 <= H,
                W + H <= usize::MAX,
                has_size(self@, W as int, H as int),
                forall|r: int, c: int|
                    0 <= r < H && 0 <= c < W ==> (#[trigger] cells@[r]@[c]) == self@[r][c],
                forall|r: int, c: int|
                    r + c < d ==> !#[trigger] falling_four(self@, player, r, c),
            decreases d_max + 1 - d,
        {
            let row_begin = if d >= W - 1 {
                d - (W - 1)
            } else {
                0
            };
            let row_end = if d < H {
                d
            } else {
                H - 1
            };
            // Every diagonal that is visited holds at least four cells.
            assert(row_end - row_begin + 1 >= SERIES_LEN);

            // Further up no line of four starts on this diagonal.
            let mut row = row_begin;
            while row <= row_end + 1 - SERIES_LEN
                invariant
                    row_begin <= row <= row_end - 2,
                    row_begin == if d >= W - 1 {
                        d - (W - 1)
                    } else {
                        0
                    },
                    row_end == if d < H {
                        d as int
                    } else {
                        H - 1
                    },
                    3 <= d <= H + W - 5,
                    4 <= W,
                    4 <= H,
                    has_size(self@, W as int, H as int),
                    forall|r: int, c: int|
                        0 <= r < H && 0 <= c < W ==> (#[trigger] cells@[r]@[c]) == self@[r][c],
                    forall|r: int, c: int|
                        r + c == d && r < row ==> !#[trigger] falling_four(self@, player, r, c),
                decreases row_end - row,
            {
                let col = d - row;
                if cells[row][col] == Some(player) && cells[row + 1][col - 1] == Some(player)
                    && cells[row + 2][col - 2] == Some(player) && cells[row + 3][col - 3] == Some(
                    player,
                ) {
                    assert(falling_four(self@, player, row as int, col as int));
                    return true;
                }
                row += 1;
            }
            d += 1;
        }

        // Diagonals that climb to the right: on each, row - column is the
        // same number d. Only those with 4 - W <= d <= H - 4 hold four cells.
        let d_low: isize = SERIES_LEN as isize - W as isize;
        let d_high: isize = H as isize - SERIES_LEN as isize;
        let mut d = d_low;
        while d <= d_high
            invariant
                d_low == 4 - W,
                d_high == H - 4,
                d_low <= d <= d_high + 1,
                4 <= W,
                4 <= H,
                4 * W <= usize::MAX,
                4 * H <= usize::MAX,
                has_size(self@, W as int, H as int),
                forall|r: int, c: int|
                    0 <= r < H && 0 <= c < W ==> (#[trigger] cells@[r]@[c]) == self@[r][c],
                forall|r: int, c: int| !#[trigger] falling_four(self@, player, r, c),
                forall|r: int, c: int|
                    r - c < d ==> !#[trigger] rising_four(self@, player, r, c),
            decreases d_high + 1 - d,
        {
            let row_begin = if d >= 0 {
                d as usize
            } else {
                0
            };
            let row_end_exclusive = if W as isize + d < H as isize {
                (W as isize + d) as usize
            } else {
                H
            };
            // Every diagonal that is visited holds at least four cells.
            assert(row_end_exclusive - row_begin >= SERIES_LEN);

            // Further up no line of four starts on this diagonal.
            let mut row = row_begin;
            while row < row_end_exclusive + 1 - SERIES_LEN
                invariant
                    row_begin <= row <= row_end_exclusive - 3,
                    row_begin == if d >= 0 {
                        d as int
                    } else {
                        0
                    },
                    row_end_exclusive == if W + d < H {
                        W + d
                    } else {
                        H as int
                    },
                    4 - W <= d <= H - 4,
                    4 <= W,
                    4 <= H,
                    4 * W <= usize::MAX,
                    4 * H <= usize::MAX,
                    has_size(self@, W as int, H as int),
                    forall|r: int, c: int|
                        0 <= r < H && 0 <= c < W ==> (#[trigger] cells@[r]@[c]) == self@[r][c],
                    forall|r: int, c: int|
                        r - c == d && r < row ==> !#[trigger] rising_four(self@, player, r, c),
                decreases row_end_exclusive - row,
            {
                let col = (row as isize - d) as usize;
                if cells[row][col] == Some(player) && cells[row + 1][col + 1] == Some(player)
                    && cells[row + 2][col + 2] == Some(player) && cells[row + 3][col + 3] == Some(
                    player,
                ) {
                    assert(rising_four(self@, player, row as int, col as int));
                    return true;
                }
                row += 1;
            }
            d += 1;
        }

        false
    }

    /// Returns whether `player` has four chips in a line anywhere on the board.
    #[must_use]
    pub fn check_for_winner(&self, player: Player) -> (won: bool)
        ensures
            won == has_winner(self@, player),
    {
        self.check_for_winner_horizontally(player) || self.check_for_winner_vertically(player)
            || self.check_for_winner_diagonally(player)
    }
}

/// The grid seen in a mirror: the columns in reverse order.
pub open spec fn mirrored(grid: Grid) -> Grid {
    Seq::new(
        grid.len(),
        |row: int| Seq::new(grid[row].len(), |col: int| grid[row][grid[row].len() - 1 - col]),
    )
}

/// On an empty grid nobody has won.
pub proof fn lemma_no_winner_on_empty_grid(grid: Grid, player: Player)
    requires
        forall|row: int, col: int|
            in_bounds(grid, row, col) ==> (#[trigger] grid[row][col]) is None,
    ensures
        !has_winner(grid, player),
{
    lemma_chip_count_of_empty(grid);
    lemma_no_winner_below_four_chips(grid, player);
}

/// A line of four needs four chips: with fewer than four chips on the
/// grid nobody has won.
pub proof fn lemma_no_winner_below_four_chips(grid: Grid, player: Player)
    requires
        chip_count(grid) < 4,
    ensures
        !has_winner(grid, player),
{
    assert forall|row: int, col: int| !row_of_four(grid, player, row, col) by {
        lemma_series_holds_four_chips(grid, player, row, col, 0, 1);
    }
    assert forall|row: int, col: int| !column_of_four(grid, player, row, col) by {
        lemma_series_holds_four_chips(grid, player, row, col, 1, 0);
    }
    assert forall|row: int, col: int| !rising_four(grid, player, row, col) by {
        lemma_series_holds_four_chips(grid, player, row, col, 1, 1);
    }
    assert forall|row: int, col: int| !falling_four(grid, player, row, col) by {
        lemma_series_holds_four_chips(grid, player, row, col, 1, -1);
    }
}

proof fn lemma_series_holds_four_chips(
    grid: Grid,
    player: Player,
    row: int,
    col: int,
    drow: int,
    dcol: int,
)
    requires
        drow != 0 || dcol != 0,
    ensures
        series_at(grid, player, row, col, drow, dcol) ==> chip_count(grid) >= 4,
{
    if series_at(grid, player, row, col, drow, dcol) {
        let line = set![
            (row, col),
            (row + drow, col + dcol),
            (row + 2 * drow, col + 2 * dcol),
            (row + 3 * drow, col + 3 * dcol),
        ];
        assert(line.len() == 4);
        lemma_chip_count_bounded(grid);
        assert(line.subset_of(occupied_cells(grid)));
        lemma_len_subset(line, occupied_cells(grid));
    }
}

/// A chip of one player neither makes nor breaks a line of the other, and
/// a line, once made, stays.
pub proof fn lemma_drop_chip_and_winner(grid: Grid, col: int, mover: Player, player: Player)
    requires
        rectangular(grid),
        has_room(grid, col),
    ensures
        has_winner(grid, player) ==> has_winner(drop_chip(grid, col, mover), player),
        mover != player ==> (has_winner(drop_chip(grid, col, mover), player) <==> has_winner(
            grid,
            player,
        )),
{
    let after = drop_chip(grid, col, mover);
    let landing = landing_row(grid, col);
    lemma_landing_row(grid, col);
    lemma_drop_chip(grid, col, mover);
    assert forall|r: int, c: int| owned(grid, player, r, c) implies owned(after, player, r, c) by {
        assert(after[r][c] == grid[r][c]);
    }
    assert forall|r: int, c: int, dr: int, dc: int|
        series_at(grid, player, r, c, dr, dc) implies #[trigger] series_at(
        after,
        player,
        r,
        c,
        dr,
        dc,
    ) by {}
    if has_winner(grid, player) {
        lemma_series_of_winner(grid, player);
        let (r, c, dr, dc) = choose|r: int, c: int, dr: int, dc: int|
            is_direction(dr, dc) && #[trigger] series_at(grid, player, r, c, dr, dc);
        assert(series_at(after, player, r, c, dr, dc));
        lemma_winner_of_series(after, player, r, c, dr, dc);
    }
    if mover != player && has_winner(after, player) {
        lemma_series_of_winner(after, player);
        let (r, c, dr, dc) = choose|r: int, c: int, dr: int, dc: int|
            is_direction(dr, dc) && #[trigger] series_at(after, player, r, c, dr, dc);
        assert forall|r: int, c: int| owned(after, player, r, c) implies owned(
            grid,
            player,
            r,
            c,
        ) by {
            if !(r == landing && c == col) {
                assert(after[r][c] == grid[r][c]);
            }
        }
        assert(series_at(grid, player, r, c, dr, dc));
        lemma_winner_of_series(grid, player, r, c, dr, dc);
    }
}

/// The four directions in which a line counts: along a row, up a column,
/// and up either diagonal.
pub open spec fn is_direction(drow: int, dcol: int) -> bool {
    (drow == 0 && dcol == 1) || (drow == 1 && (dcol == 0 || dcol == 1 || dcol == -1))
}

/// Whoever has won has a line of four in one of the four directions.
pub proof fn lemma_series_of_winner(grid: Grid, player: Player)
    requires
        has_winner(grid, player),
    ensures
        exists|r: int, c: int, dr: int, dc: int|
            is_direction(dr, dc) && #[trigger] series_at(grid, player, r, c, dr, dc),
{
    if wins_horizontally(grid, player) {
        let (r, c) = choose|r: int, c: int| row_of_four(grid, player, r, c);
        assert(is_direction(0, 1) && series_at(grid, player, r, c, 0, 1));
    } else if wins_vertically(grid, player) {
        let (r, c) = choose|r: int, c: int| column_of_four(grid, player, r, c);
        assert(is_direction(1, 0) && series_at(grid, player, r, c, 1, 0));
    } else if wins_on_rising_diagonal(grid, player) {
        let (r, c) = choose|r: int, c: int| rising_four(grid, player, r, c);
        assert(is_direction(1, 1) && series_at(grid, player, r, c, 1, 1));
    } else {
        let (r, c) = choose|r: int, c: int| falling_four(grid, player, r, c);
        assert(is_direction(1, -1) && series_at(grid, player, r, c, 1, -1));
    }
}

/// Whoever has a line of four in one of the four directions has won.
pub proof fn lemma_winner_of_series(
    grid: Grid,
    player: Player,
    row: int,
    col: int,
    drow: int,
    dcol: int,
)
    requires
        is_direction(drow, dcol),
        series_at(grid, player, row, col, drow, dcol),
    ensures
        has_winner(grid, player),
{
    if drow == 0 {
        assert(row_of_four(grid, player, row, col));
    } else if dcol == 0 {
        assert(column_of_four(grid, player, row, col));
    } else if dcol == 1 {
        assert(rising_four(grid, player, row, col));
    } else {
        assert(falling_four(grid, player, row, col));
    }
}

/// The mirror image of a grid has a winner exactly where the grid has one:
/// rows stay rows, columns stay columns, and the two kinds of diagonal
/// change places.
pub proof fn lemma_mirror_keeps_winner(grid: Grid, player: Player)
    requires
        rectangular(grid),
    ensures
        wins_horizontally(mirrored(grid), player) == wins_horizontally(grid, player),
        wins_vertically(mirrored(grid), player) == wins_vertically(grid, player),
        wins_on_rising_diagonal(mirrored(grid), player) == wins_on_falling_diagonal(grid, player),
        wins_on_falling_diagonal(mirrored(grid), player) == wins_on_rising_diagonal(grid, player),
        has_winner(mirrored(grid), player) == has_winner(grid, player),
{
    let mirror = mirrored(grid);
    lemma_mirror_twice(grid);
    lemma_mirror_carries_lines(grid, player);
    lemma_mirror_carries_lines(mirror, player);
}

/// The mirror image of the mirror image is the grid itself.
pub proof fn lemma_mirror_twice(grid: Grid)
    requires
        rectangular(grid),
    ensures
        rectangular(mirrored(grid)),
        width(mirrored(grid)) == width(grid),
        mirrored(mirrored(grid)) == grid,
{
    let mirror = mirrored(grid);
    if grid.len() > 0 {
        assert(grid[0].len() == width(grid));
        assert(mirror[0].len() == width(grid));
    }
    assert forall|row: int| 0 <= row < mirror.len() implies (#[trigger] mirror[row]).len()
        == width(mirror) by {
        assert(grid[row].len() == width(grid));
    }
    assert forall|row: int| 0 <= row < grid.len() implies #[trigger] mirrored(mirror)[row]
        == grid[row] by {
        assert(mirror[row].len() == grid[row].len());
        assert(mirrored(mirror)[row] =~= grid[row]);
    }
    assert(mirrored(mirror) =~= grid);
}

proof fn lemma_mirror_carries_lines(grid: Grid, player: Player)
    requires
        rectangular(grid),
    ensures
        wins_horizontally(grid, player) ==> wins_horizontally(mirrored(grid), player),
        wins_vertically(grid, player) ==> wins_vertically(mirrored(grid), player),
        wins_on_rising_diagonal(grid, player) ==> wins_on_falling_diagonal(mirrored(grid), player),
        wins_on_falling_diagonal(grid, player) ==> wins_on_rising_diagonal(mirrored(grid), player),
{
    let mirror = mirrored(grid);
    let last = width(grid) - 1;
    lemma_mirror_twice(grid);
    assert forall|r: int, c: int| owned(grid, player, r, c) implies owned(
        mirror,
        player,
        r,
        last - c,
    ) by {
        assert(grid[r].len() == width(grid));
        assert(mirror[r][last - c] == grid[r][c]);
    }
    if wins_horizontally(grid, player) {
        let (r, c) = choose|r: int, c: int| row_of_four(grid, player, r, c);
        assert(row_of_four(mirror, player, r, last - c - 3));
    }
    if wins_vertically(grid, player) {
        let (r, c) = choose|r: int, c: int| column_of_four(grid, player, r, c);
        assert(column_of_four(mirror, player, r, last - c));
    }
    if wins_on_rising_diagonal(grid, player) {
        let (r, c) = choose|r: int, c: int| rising_four(grid, player, r, c);
        assert(falling_four(mirror, player, r, last - c));
    }
    if wins_on_falling_diagonal(grid, player) {
        let (r, c) = choose|r: int, c: int| falling_four(grid, player, r, c);
        assert(rising_four(mirror, player, r, last - c));
    }
}

} // verus!
