//! The mathematical model of the playing field: a grid of cells in which
//! chips stack bottom-up.

use crate::player::Player;
use vstd::prelude::*;
use vstd::set_lib::{lemma_int_range, lemma_len_subset, lemma_len_union, set_int_range};

verus! {

/// Number of chips in a line that wins the game.
pub const SERIES_LEN: usize = 4;

/// The mathematical model of a board: its rows from the bottom up, each row
/// holding one cell per column.
pub type Grid = Seq<Seq<Option<Player>>>;

/// Number of rows of a grid.
pub open spec fn height(grid: Grid) -> int {
    grid.len() as int
}

/// Number of columns of a grid.
pub open spec fn width(grid: Grid) -> int {
    if grid.len() == 0 {
        0
    } else {
        grid[0].len() as int
    }
}

/// Every row has the same number of cells.
pub open spec fn rectangular(grid: Grid) -> bool {
    forall|row: int| 0 <= row < grid.len() ==> (#[trigger] grid[row]).len() == width(grid)
}

/// The grid has exactly `w` columns and `h` rows.
pub open spec fn has_size(grid: Grid, w: int, h: int) -> bool {
    height(grid) == h && width(grid) == w && rectangular(grid)
}

/// `(row, col)` names a cell of the grid.
pub open spec fn in_bounds(grid: Grid, row: int, col: int) -> bool {
    0 <= row < height(grid) && 0 <= col < width(grid)
}

/// The lowest empty row of column `col` at or above `row`, or the height
/// of the grid if every such cell is taken.
pub open spec fn lowest_empty_from(grid: Grid, col: int, row: int) -> int
    decreases height(grid) - row,
{
    if row >= height(grid) {
        height(grid)
    } else if grid[row][col] is None {
        row
    } else {
        lowest_empty_from(grid, col, row + 1)
    }
}

/// The row in which a chip dropped into column `col` comes to rest: the
/// lowest empty row, or the height of the grid if the column is full.
pub open spec fn landing_row(grid: Grid, col: int) -> int {
    lowest_empty_from(grid, col, 0)
}

/// Column `col` exists and can take another chip.
pub open spec fn has_room(grid: Grid, col: int) -> bool {
    0 <= col < width(grid) && landing_row(grid, col) < height(grid)
}

/// The grid with `cell` at `(row, col)`, and every other cell as it is.
pub open spec fn with_cell(grid: Grid, row: int, col: int, cell: Option<Player>) -> Grid {
    grid.update(row, grid[row].update(col, cell))
}

/// The grid after `player` has dropped a chip into column `col`: the chip
/// lies in the landing row of the column.
pub open spec fn drop_chip(grid: Grid, col: int, player: Player) -> Grid {
    with_cell(grid, landing_row(grid, col), col, Some(player))
}

/// No chip floats: below every chip the column is filled.
pub open spec fn well_stacked(grid: Grid) -> bool {
    forall|row: int, col: int|
        in_bounds(grid, row, col) && landing_row(grid, col) <= row ==> (#[trigger] grid[row][col])
            is None
}

/// What column `col` can still take: the cells from its lowest empty cell
/// upwards.
pub open spec fn free_slots(grid: Grid, col: int) -> int {
    height(grid) - landing_row(grid, col)
}

/// The column numbers `0, 1, ..` up to, and without, `w`.
pub open spec fn column_numbers(w: int) -> Seq<usize> {
    Seq::new(w as nat, |col: int| col as usize)
}

/// The test that a column number names a column with room.
pub open spec fn with_room(grid: Grid) -> spec_fn(usize) -> bool {
    |col: usize| has_room(grid, col as int)
}

/// The columns below `w` that can take another chip, in ascending order.
pub open spec fn available_below(grid: Grid, w: int) -> Seq<usize> {
    column_numbers(w).filter(with_room(grid))
}

/// The columns that can take another chip, in ascending order.
pub open spec fn available_columns(grid: Grid) -> Seq<usize> {
    available_below(grid, width(grid))
}

/// No column can take another chip.
pub open spec fn is_full(grid: Grid) -> bool {
    available_columns(grid).len() == 0
}

/// Where a chip lands: every cell below is taken, and the landing cell
/// itself, if the column has one left, is empty.
pub proof fn lemma_landing_row(grid: Grid, col: int)
    ensures
        0 <= landing_row(grid, col) <= height(grid),
        forall|row: int| 0 <= row < landing_row(grid, col) ==> (#[trigger] grid[row][col]) is Some,
        landing_row(grid, col) < height(grid) ==> grid[landing_row(grid, col)][col] is None,
{
    lemma_lowest_empty_from(grid, col, 0);
}

proof fn lemma_lowest_empty_from(grid: Grid, col: int, from: int)
    requires
        0 <= from,
    ensures
        from <= height(grid) ==> from <= lowest_empty_from(grid, col, from) <= height(grid),
        forall|row: int|
            from <= row < lowest_empty_from(grid, col, from) ==> (#[trigger] grid[row][col])
                is Some,
        lowest_empty_from(grid, col, from) < height(grid) ==> grid[lowest_empty_from(
            grid,
            col,
            from,
        )][col] is None,
    decreases height(grid) - from,
{
    if from < height(grid) && grid[from][col] is Some {
        lemma_lowest_empty_from(grid, col, from + 1);
    }
}

/// The landing row is the only row of its column that is empty, or the
/// end of the column, with every cell below it taken.
pub proof fn lemma_landing_row_is(grid: Grid, col: int, row: int)
    requires
        0 <= row <= height(grid),
        forall|below: int| 0 <= below < row ==> (#[trigger] grid[below][col]) is Some,
        row < height(grid) ==> grid[row][col] is None,
    ensures
        landing_row(grid, col) == row,
{
    lemma_landing_row(grid, col);
    let found = landing_row(grid, col);
    if found < row {
        assert(grid[found][col] is Some);
    } else if row < found {
        assert(grid[row][col] is Some);
    }
}

/// A column has room exactly when one of its cells is empty.
pub proof fn lemma_has_room(grid: Grid, col: int)
    ensures
        has_room(grid, col) <==> 0 <= col < width(grid) && exists|row: int|
            0 <= row < height(grid) && (#[trigger] grid[row][col]) is None,
{
    lemma_landing_row(grid, col);
    let landing = landing_row(grid, col);
    if landing < height(grid) {
        assert(grid[landing][col] is None);
    } else {
        assert forall|row: int| 0 <= row < height(grid) implies (#[trigger] grid[row][col])
            is Some by {}
    }
}

/// What dropping a chip changes: one cell, the landing cell of the column,
/// which now belongs to the player. The size of the grid stays, and so do
/// the landing rows of the other columns.
pub proof fn lemma_drop_chip(grid: Grid, col: int, player: Player)
    requires
        rectangular(grid),
        has_room(grid, col),
    ensures
        has_size(drop_chip(grid, col, player), width(grid), height(grid)),
        drop_chip(grid, col, player)[landing_row(grid, col)][col] == Some(player),
        forall|r: int, c: int|
            in_bounds(grid, r, c) && !(r == landing_row(grid, col) && c == col) ==> (
            #[trigger] drop_chip(grid, col, player)[r][c]) == grid[r][c],
        forall|c: int|
            0 <= c < width(grid) && c != col ==> #[trigger] landing_row(
                drop_chip(grid, col, player),
                c,
            ) == landing_row(grid, c),
        landing_row(grid, col) < landing_row(drop_chip(grid, col, player), col),
{
    let row = landing_row(grid, col);
    let after = drop_chip(grid, col, player);
    lemma_landing_row(grid, col);
    assert(grid[row].len() == width(grid));
    assert(grid[0].len() == width(grid));
    assert(after[0].len() == width(grid));
    assert forall|r: int| 0 <= r < after.len() implies (#[trigger] after[r]).len() == width(
        after,
    ) by {
        assert(grid[r].len() == width(grid));
    }
    assert forall|r: int, c: int| in_bounds(grid, r, c) && !(r == row && c == col) implies (
    #[trigger] after[r][c]) == grid[r][c] by {
        assert(grid[r].len() == width(grid));
    }
    assert forall|c: int| 0 <= c < width(grid) && c != col implies #[trigger] landing_row(
        after,
        c,
    ) == landing_row(grid, c) by {
        lemma_landing_row(grid, c);
        let other = landing_row(grid, c);
        assert forall|below: int| 0 <= below < other implies (#[trigger] after[below][c])
            is Some by {
            assert(grid[below][c] is Some);
            assert(after[below][c] == grid[below][c]);
        }
        if other < height(grid) {
            assert(after[other][c] == grid[other][c]);
        }
        lemma_landing_row_is(after, c, other);
    }
    assert(row < landing_row(after, col)) by {
        lemma_landing_row(after, col);
        let found = landing_row(after, col);
        if found < row {
            assert(grid[found][col] is Some);
            assert(after[found][col] == grid[found][col]);
        }
    }
}

/// Dropping a chip onto well-stacked chips leaves them well stacked, with
/// the column one chip higher.
pub proof fn lemma_drop_chip_stacks(grid: Grid, col: int, player: Player)
    requires
        rectangular(grid),
        has_room(grid, col),
        well_stacked(grid),
    ensures
        well_stacked(drop_chip(grid, col, player)),
        landing_row(drop_chip(grid, col, player), col) == landing_row(grid, col) + 1,
{
    let row = landing_row(grid, col);
    let after = drop_chip(grid, col, player);
    lemma_landing_row(grid, col);
    lemma_drop_chip(grid, col, player);
    assert(landing_row(after, col) == row + 1) by {
        assert forall|below: int| 0 <= below < row + 1 implies (#[trigger] after[below][col])
            is Some by {
            if below < row {
                assert(grid[below][col] is Some);
                assert(after[below][col] == grid[below][col]);
            }
        }
        if row + 1 < height(grid) {
            assert(grid[row + 1][col] is None);
            assert(after[row + 1][col] == grid[row + 1][col]);
        }
        lemma_landing_row_is(after, col, row + 1);
    }
    assert forall|r: int, c: int|
        in_bounds(after, r, c) && landing_row(after, c) <= r implies (#[trigger] after[r][c])
        is None by {
        if c != col {
            assert(landing_row(after, c) == landing_row(grid, c));
        }
        assert(grid[r][c] is None);
        assert(after[r][c] == grid[r][c]);
    }
}

proof fn lemma_columns_below(grid: Grid, w: int)
    requires
        0 <= w <= usize::MAX,
    ensures
        forall|i: int|
            0 <= i < available_below(grid, w).len() ==> (#[trigger] available_below(grid, w)[i])
                < w,
        forall|i: int, j: int|
            0 <= i < j < available_below(grid, w).len() ==> (#[trigger] available_below(grid, w)[i])
                < (#[trigger] available_below(grid, w)[j]),
    decreases w,
{
    let room = with_room(grid);
    let columns = available_below(grid, w);
    if w == 0 {
        column_numbers(w).lemma_filter_len(room);
    } else {
        let fewer = available_below(grid, w - 1);
        lemma_columns_below(grid, w - 1);
        assert(column_numbers(w) =~= column_numbers(w - 1).push((w - 1) as usize));
        column_numbers(w - 1).lemma_filter_push((w - 1) as usize, room);
        assert(columns == if room((w - 1) as usize) {
            fewer.push((w - 1) as usize)
        } else {
            fewer
        });
        assert forall|i: int| 0 <= i < columns.len() implies (#[trigger] columns[i]) < w by {
            if i < fewer.len() {
                assert(columns[i] == fewer[i]);
            }
        }
        assert forall|i: int, j: int| 0 <= i < j < columns.len() implies (#[trigger] columns[i])
            < (#[trigger] columns[j]) by {
            assert(columns[i] == fewer[i]);
            if j < fewer.len() {
                assert(columns[j] == fewer[j]);
            }
        }
    }
}

/// The available columns are those that have room, each once, in
/// ascending order; and the grid is full when there is none.
pub proof fn lemma_available_columns(grid: Grid)
    requires
        width(grid) <= usize::MAX,
    ensures
        forall|i: int|
            0 <= i < available_columns(grid).len() ==> has_room(
                grid,
                (#[trigger] available_columns(grid)[i]) as int,
            ),
        forall|col: int|
            has_room(grid, col) ==> #[trigger] available_columns(grid).contains(col as usize),
        forall|i: int, j: int|
            0 <= i < j < available_columns(grid).len() ==> (#[trigger] available_columns(grid)[i])
                < (#[trigger] available_columns(grid)[j]),
        is_full(grid) <==> forall|col: int| !has_room(grid, col),
{
    let room = with_room(grid);
    let numbers = column_numbers(width(grid));
    let columns = available_columns(grid);
    lemma_columns_below(grid, width(grid));
    assert forall|i: int| 0 <= i < columns.len() implies has_room(
        grid,
        (#[trigger] columns[i]) as int,
    ) by {
        numbers.lemma_filter_pred(room, i);
    }
    assert forall|col: int| has_room(grid, col) implies #[trigger] columns.contains(
        col as usize,
    ) by {
        assert(numbers[col] == col as usize);
        numbers.lemma_filter_contains(room, col);
    }
    if forall|col: int| !has_room(grid, col) {
        if columns.len() > 0 {
            assert(has_room(grid, columns[0] as int));
        }
    }
    if columns.len() == 0 {
        assert forall|col: int| !has_room(grid, col) by {
            if has_room(grid, col) {
                assert(columns.contains(col as usize));
            }
        }
    }
}

/// The cells of the grid that hold a chip, each as `(row, col)`.
pub open spec fn occupied_cells(grid: Grid) -> Set<(int, int)> {
    Set::new(|cell: (int, int)| in_bounds(grid, cell.0, cell.1) && grid[cell.0][cell.1] is Some)
}

/// Number of chips on the grid.
pub open spec fn chip_count(grid: Grid) -> nat {
    occupied_cells(grid).len()
}

/// The rows of column `col` that hold a chip.
pub open spec fn occupied_rows(grid: Grid, col: int) -> Set<int> {
    Set::new(|row: int| in_bounds(grid, row, col) && grid[row][col] is Some)
}

/// Number of chips in column `col`.
pub open spec fn chips_in_column(grid: Grid, col: int) -> nat {
    occupied_rows(grid, col).len()
}

/// All cells of a grid of `w` columns and `h` rows.
pub open spec fn all_cells(w: int, h: int) -> Set<(int, int)> {
    Set::new(|cell: (int, int)| 0 <= cell.0 < h && 0 <= cell.1 < w)
}

proof fn lemma_cells_of_row(w: int, row: int)
    requires
        0 <= w,
    ensures
        Set::new(|cell: (int, int)| cell.0 == row && 0 <= cell.1 < w).finite(),
        Set::new(|cell: (int, int)| cell.0 == row && 0 <= cell.1 < w).len() == w,
    decreases w,
{
    let cells = Set::new(|cell: (int, int)| cell.0 == row && 0 <= cell.1 < w);
    if w == 0 {
        assert(cells =~= Set::empty());
    } else {
        let fewer = Set::new(|cell: (int, int)| cell.0 == row && 0 <= cell.1 < w - 1);
        lemma_cells_of_row(w - 1, row);
        assert(cells =~= fewer.insert((row, w - 1)));
    }
}

/// A grid has finitely many cells, no more than columns times rows.
pub proof fn lemma_all_cells(w: int, h: int)
    requires
        0 <= w,
        0 <= h,
    ensures
        all_cells(w, h).finite(),
        all_cells(w, h).len() <= w * h,
    decreases h,
{
    if h == 0 {
        assert(all_cells(w, h) =~= Set::empty());
    } else {
        let top = Set::new(|cell: (int, int)| cell.0 == h - 1 && 0 <= cell.1 < w);
        lemma_all_cells(w, h - 1);
        lemma_cells_of_row(w, h - 1);
        lemma_len_union(all_cells(w, h - 1), top);
        assert(all_cells(w, h) =~= all_cells(w, h - 1).union(top));
        assert(w * (h - 1) + w == w * h) by (nonlinear_arith);
    }
}

/// The chips on a grid can be counted, and there are no more of them than cells.
pub proof fn lemma_chip_count_bounded(grid: Grid)
    ensures
        occupied_cells(grid).finite(),
        chip_count(grid) <= width(grid) * height(grid),
{
    lemma_all_cells(width(grid), height(grid));
    lemma_len_subset(occupied_cells(grid), all_cells(width(grid), height(grid)));
}

/// A grid without a chip has a chip count of zero.
pub proof fn lemma_chip_count_of_empty(grid: Grid)
    requires
        forall|row: int, col: int|
            in_bounds(grid, row, col) ==> (#[trigger] grid[row][col]) is None,
    ensures
        chip_count(grid) == 0,
{
    assert(occupied_cells(grid) =~= Set::empty());
}

/// A chip dropped into a column is one chip more on the grid.
pub proof fn lemma_drop_chip_adds_one(grid: Grid, col: int, player: Player)
    requires
        rectangular(grid),
        has_room(grid, col),
    ensures
        chip_count(drop_chip(grid, col, player)) == chip_count(grid) + 1,
{
    let row = landing_row(grid, col);
    let after = drop_chip(grid, col, player);
    lemma_landing_row(grid, col);
    lemma_drop_chip(grid, col, player);
    lemma_chip_count_bounded(grid);
    assert(occupied_cells(after) =~= occupied_cells(grid).insert((row, col))) by {
        assert forall|cell: (int, int)|
            occupied_cells(after).contains(cell) <==> occupied_cells(grid).insert(
                (row, col),
            ).contains(cell) by {
            if in_bounds(grid, cell.0, cell.1) && cell != (row, col) {
                assert(after[cell.0][cell.1] == grid[cell.0][cell.1]);
            }
        }
    }
}

/// On a grid without floating chips, the chips of a column and the cells
/// it can still take add up to the height of the grid.
pub proof fn lemma_column_adds_up(grid: Grid, col: int)
    requires
        rectangular(grid),
        well_stacked(grid),
        0 <= col < width(grid),
    ensures
        free_slots(grid, col) + chips_in_column(grid, col) == height(grid),
{
    let top = landing_row(grid, col);
    lemma_landing_row(grid, col);
    lemma_int_range(0, top);
    assert(occupied_rows(grid, col) =~= set_int_range(0, top)) by {
        assert forall|row: int|
            occupied_rows(grid, col).contains(row) <==> set_int_range(0, top).contains(row) by {
            if 0 <= row < top {
                assert(grid[row][col] is Some);
            } else if top <= row < height(grid) {
                assert(grid[row][col] is None);
            }
        }
    }
}

} // verus!
