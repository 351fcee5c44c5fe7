//! Minimax search for the best move, down to a fixed depth.
//!
//! A position is scored for one player, the target: positive when the
//! target has won, negative when the opponent has, zero when the board is
//! full or the search has reached its horizon. A win scores the higher the
//! sooner it comes, a loss the lower. The player to move picks the reply
//! with the best score: the highest when the target moves, the lowest when
//! the opponent does.

use crate::board::Gameboard;
use crate::grid::{
    available_columns, drop_chip, has_room, is_full, landing_row, lemma_available_columns,
    lemma_drop_chip, rectangular, width, Grid,
};
use crate::player::Player;
use crate::winner::{has_winner, lemma_drop_chip_and_winner};
use rayon::iter::{IntoParallelIterator, ParallelIterator};
use vstd::prelude::*;

verus! {

/// The deepest level of the search tree whose positions are still expanded.
pub const MAX_DEPTH: usize = 10;

/// The deepest level whose replies are searched in parallel. With seven
/// columns and a cutoff of two, that makes up to 7 + 49 + 343 tasks.
const PARALLEL_CUTOFF_DEPTH: usize = 2;

/// The score of a win at depth zero: one more than [`MAX_DEPTH`], so that
/// no win or loss within the horizon scores zero, as a draw does.
pub const SCORE_FACTOR: i32 = 11;

/// Whether the score `new` is strictly better than `best` for the player
/// to move: higher for the target, lower for the opponent.
pub open spec fn improves(maximizing: bool, new: int, best: int) -> bool {
    if maximizing {
        new > best
    } else {
        new < best
    }
}

/// The score that every other score improves on.
pub open spec fn worst_score(maximizing: bool) -> int {
    if maximizing {
        i32::MIN as int
    } else {
        i32::MAX as int
    }
}

/// Whether the search goes on below a position: the player to move has
/// not won, the board has room, and the depth is within the horizon.
pub open spec fn expands(grid: Grid, mover: Player, depth: nat) -> bool {
    &&& !has_winner(grid, mover)
    &&& !is_full(grid)
    &&& depth <= MAX_DEPTH
}

/// The score of a position at `depth` plies below the root, for `target`,
/// with `mover` to move.
pub open spec fn position_score(grid: Grid, target: Player, mover: Player, depth: nat) -> int
    decreases MAX_DEPTH + 1 - depth, 1nat, 0nat,
{
    if mover == target && has_winner(grid, target) {
        SCORE_FACTOR - depth
    } else if mover != target && has_winner(grid, mover) {
        depth - SCORE_FACTOR
    } else if is_full(grid) {
        0
    } else if depth > MAX_DEPTH {
        0
    } else {
        best_score_among(grid, target, mover, depth, available_columns(grid))
    }
}

/// The best score that `mover` can reach with a chip in one of `columns`;
/// the worst score of all if there is no column to choose from.
pub open spec fn best_score_among(
    grid: Grid,
    target: Player,
    mover: Player,
    depth: nat,
    columns: Seq<usize>,
) -> int
    decreases MAX_DEPTH + 1 - depth, 0nat, columns.len(),
{
    if depth > MAX_DEPTH || columns.len() == 0 {
        worst_score(mover == target)
    } else {
        let earlier = best_score_among(grid, target, mover, depth, columns.drop_last());
        let last = position_score(
            drop_chip(grid, columns.last() as int, mover),
            target,
            mover.opponent(),
            depth + 1,
        );
        if improves(mover == target, last, earlier) {
            last
        } else {
            earlier
        }
    }
}

/// The score of the position that `mover` reaches with a chip in `col`.
pub open spec fn move_score(
    grid: Grid,
    target: Player,
    mover: Player,
    depth: nat,
    col: int,
) -> int {
    position_score(drop_chip(grid, col, mover), target, mover.opponent(), depth + 1)
}

/// `col` is a legal move, and no legal move has a strictly better score.
pub open spec fn is_best_move(
    grid: Grid,
    target: Player,
    mover: Player,
    depth: nat,
    col: int,
) -> bool {
    &&& has_room(grid, col)
    &&& forall|other: int|
        has_room(grid, other) ==> !improves(
            mover == target,
            #[trigger] move_score(grid, target, mover, depth, other),
            move_score(grid, target, mover, depth, col),
        )
}

/// Within the horizon a win scores above zero and a loss below, and each
/// the further from zero the sooner it comes.
pub proof fn lemma_sooner_counts_more(sooner: nat, later: nat)
    requires
        sooner < later <= MAX_DEPTH,
    ensures
        SCORE_FACTOR - sooner > SCORE_FACTOR - later > 0,
        sooner - SCORE_FACTOR < later - SCORE_FACTOR < 0,
{
}

/// A score is never further from zero than a win or a loss at its depth.
pub proof fn lemma_position_score_bounds(grid: Grid, target: Player, mover: Player, depth: nat)
    requires
        depth <= MAX_DEPTH + 1,
    ensures
        depth - SCORE_FACTOR <= position_score(grid, target, mover, depth) <= SCORE_FACTOR - depth,
    decreases MAX_DEPTH + 1 - depth, 1nat, 0nat,
{
    if expands(grid, mover, depth) {
        lemma_best_score_bounds(grid, target, mover, depth, available_columns(grid));
    }
}

/// The best score among some columns is never further from zero than a win
/// or a loss one ply further down.
pub proof fn lemma_best_score_bounds(
    grid: Grid,
    target: Player,
    mover: Player,
    depth: nat,
    columns: Seq<usize>,
)
    requires
        depth <= MAX_DEPTH,
        columns.len() > 0,
    ensures
        depth + 1 - SCORE_FACTOR <= best_score_among(grid, target, mover, depth, columns)
            <= SCORE_FACTOR - depth - 1,
    decreases MAX_DEPTH + 1 - depth, 0nat, columns.len(),
{
    lemma_position_score_bounds(
        drop_chip(grid, columns.last() as int, mover),
        target,
        mover.opponent(),
        depth + 1,
    );
    if columns.len() > 1 {
        lemma_best_score_bounds(grid, target, mover, depth, columns.drop_last());
    } else {
        assert(best_score_among(grid, target, mover, depth, columns.drop_last()) == worst_score(
            mover == target,
        ));
    }
}

/// The best score among some columns is the score of one of them, and
/// none of them has a strictly better one.
pub proof fn lemma_best_score_among(
    grid: Grid,
    target: Player,
    mover: Player,
    depth: nat,
    columns: Seq<usize>,
)
    requires
        depth <= MAX_DEPTH,
        columns.len() > 0,
    ensures
        exists|i: int|
            0 <= i < columns.len() && best_score_among(grid, target, mover, depth, columns)
                == move_score(grid, target, mover, depth, #[trigger] columns[i] as int),
        forall|i: int|
            0 <= i < columns.len() ==> !improves(
                mover == target,
                move_score(grid, target, mover, depth, #[trigger] columns[i] as int),
                best_score_among(grid, target, mover, depth, columns),
            ),
    decreases columns.len(),
{
    let last = columns.len() - 1;
    let fewer = columns.drop_last();
    let best = best_score_among(grid, target, mover, depth, columns);
    lemma_position_score_bounds(
        drop_chip(grid, columns.last() as int, mover),
        target,
        mover.opponent(),
        depth + 1,
    );
    if columns.len() == 1 {
        assert(best_score_among(grid, target, mover, depth, fewer) == worst_score(mover == target));
        assert(best == move_score(grid, target, mover, depth, columns[last] as int));
    } else {
        lemma_best_score_among(grid, target, mover, depth, fewer);
        let i = choose|i: int|
            0 <= i < fewer.len() && best_score_among(grid, target, mover, depth, fewer)
                == move_score(grid, target, mover, depth, #[trigger] fewer[i] as int);
        assert(fewer[i] == columns[i]);
        if best == best_score_among(grid, target, mover, depth, fewer) {
            assert(best == move_score(grid, target, mover, depth, columns[i] as int));
        } else {
            assert(best == move_score(grid, target, mover, depth, columns[last] as int));
        }
        assert forall|j: int| 0 <= j < columns.len() implies !improves(
            mover == target,
            move_score(grid, target, mover, depth, #[trigger] columns[j] as int),
            best,
        ) by {
            if j < last {
                assert(fewer[j] == columns[j]);
            }
        }
    }
}

/// An available column that no available column improves on is a best
/// move, and its score is the best score among the available columns.
pub proof fn lemma_best_of_available(
    grid: Grid,
    target: Player,
    mover: Player,
    depth: nat,
    best: int,
)
    requires
        width(grid) <= usize::MAX,
        depth <= MAX_DEPTH,
        0 <= best < available_columns(grid).len(),
        forall|k: int|
            0 <= k < available_columns(grid).len() ==> !improves(
                mover == target,
                move_score(
                    grid,
                    target,
                    mover,
                    depth,
                    #[trigger] available_columns(grid)[k] as int,
                ),
                move_score(grid, target, mover, depth, available_columns(grid)[best] as int),
            ),
    ensures
        is_best_move(grid, target, mover, depth, available_columns(grid)[best] as int),
        move_score(grid, target, mover, depth, available_columns(grid)[best] as int)
            == best_score_among(grid, target, mover, depth, available_columns(grid)),
{
    let columns = available_columns(grid);
    let score = move_score(grid, target, mover, depth, columns[best] as int);
    lemma_available_columns(grid);
    assert forall|other: int| has_room(grid, other) implies !improves(
        mover == target,
        #[trigger] move_score(grid, target, mover, depth, other),
        score,
    ) by {
        assert(columns.contains(other as usize));
        let k = choose|k: int| 0 <= k < columns.len() && columns[k] == other as usize;
        assert(columns[k] as int == other);
    }
    lemma_best_score_among(grid, target, mover, depth, columns);
    let top = choose|i: int|
        0 <= i < columns.len() && best_score_among(grid, target, mover, depth, columns)
            == move_score(grid, target, mover, depth, #[trigger] columns[i] as int);
    assert(!improves(
        mover == target,
        move_score(grid, target, mover, depth, columns[top] as int),
        score,
    ));
    assert(!improves(
        mover == target,
        move_score(grid, target, mover, depth, columns[best] as int),
        best_score_among(grid, target, mover, depth, columns),
    ));
}

/// If none of the available columns before one has its score, then no
/// column below it with room has.
pub proof fn lemma_first_of_available(
    grid: Grid,
    target: Player,
    mover: Player,
    depth: nat,
    best: int,
)
    requires
        width(grid) <= usize::MAX,
        0 <= best < available_columns(grid).len(),
        forall|k: int|
            0 <= k < best ==> move_score(
                grid,
                target,
                mover,
                depth,
                #[trigger] available_columns(grid)[k] as int,
            ) != move_score(grid, target, mover, depth, available_columns(grid)[best] as int),
    ensures
        forall|other: int|
            has_room(grid, other) && other < available_columns(grid)[best]
                ==> #[trigger] move_score(grid, target, mover, depth, other) != move_score(
                grid,
                target,
                mover,
                depth,
                available_columns(grid)[best] as int,
            ),
{
    let columns = available_columns(grid);
    lemma_available_columns(grid);
    assert forall|other: int|
        has_room(grid, other) && other < columns[best] implies #[trigger] move_score(
        grid,
        target,
        mover,
        depth,
        other,
    ) != move_score(grid, target, mover, depth, columns[best] as int) by {
        assert(columns.contains(other as usize));
        let k = choose|k: int| 0 <= k < columns.len() && columns[k] == other as usize;
        assert(columns[k] as int == other);
        if k > best {
            assert(columns[best] < columns[k]);
        }
    }
}

/// The score of a move lies between a loss and a win at the next depth.
pub proof fn lemma_move_score_bounds(
    grid: Grid,
    target: Player,
    mover: Player,
    depth: nat,
    col: int,
)
    requires
        depth <= MAX_DEPTH,
    ensures
        depth + 1 - SCORE_FACTOR <= move_score(grid, target, mover, depth, col) <= SCORE_FACTOR
            - depth - 1,
{
    lemma_position_score_bounds(drop_chip(grid, col, mover), target, mover.opponent(), depth + 1);
}

/// A move that wins at once beats every move that does not.
///
/// Let the target be to move, with the horizon at least two plies away,
/// on a board on which neither player has won. Then a move that completes
/// a line of four for the target scores as a win two plies further down,
/// where the search sees it, and every other move scores strictly less:
/// whatever it leads to, a win included, comes later.
pub proof fn lemma_immediate_win_is_preferred(
    grid: Grid,
    target: Player,
    depth: nat,
    winning: int,
    other: int,
)
    requires
        rectangular(grid),
        width(grid) <= usize::MAX,
        depth + 2 <= MAX_DEPTH,
        !has_winner(grid, target),
        !has_winner(grid, target.opponent()),
        has_room(grid, winning),
        has_room(grid, other),
        has_winner(drop_chip(grid, winning, target), target),
        !has_winner(drop_chip(grid, other, target), target),
    ensures
        move_score(grid, target, target, depth, winning) == SCORE_FACTOR - depth - 2,
        move_score(grid, target, target, depth, other) < SCORE_FACTOR - depth - 2,
{
    let opponent = target.opponent();
    let won = drop_chip(grid, winning, target);
    let undecided = drop_chip(grid, other, target);
    lemma_drop_chip(grid, winning, target);
    lemma_drop_chip(grid, other, target);
    lemma_drop_chip_and_winner(grid, winning, target, opponent);
    lemma_drop_chip_and_winner(grid, other, target, opponent);

    // After the winning move the other column still has room, so the
    // opponent moves once more, and whatever the reply, the line stands.
    assert(has_room(won, other)) by {
        assert(landing_row(won, other) == landing_row(grid, other));
    }
    lemma_available_columns(won);
    let replies = available_columns(won);
    assert(replies.len() > 0) by {
        assert(replies.contains(other as usize));
    }
    lemma_best_score_among(won, target, opponent, depth + 1, replies);
    assert forall|i: int| 0 <= i < replies.len() implies move_score(
        won,
        target,
        opponent,
        depth + 1,
        #[trigger] replies[i] as int,
    ) == SCORE_FACTOR - depth - 2 by {
        lemma_drop_chip_and_winner(won, replies[i] as int, opponent, target);
    }

    // After the other move the target has no line, and one more chip of
    // the opponent does not make one.
    if !is_full(undecided) {
        lemma_available_columns(undecided);
        let answers = available_columns(undecided);
        let first = answers[0] as int;
        let next = drop_chip(undecided, first, opponent);
        lemma_best_score_among(undecided, target, opponent, depth + 1, answers);
        lemma_drop_chip_and_winner(undecided, first, opponent, target);
        if expands(next, target, depth + 2) {
            lemma_best_score_bounds(next, target, target, depth + 2, available_columns(next));
        }
        assert(move_score(undecided, target, opponent, depth + 1, first) < SCORE_FACTOR - depth
            - 2);
    }
}

/// Where the target can win at once, every best move does.
///
/// So the search, which returns a best move, takes the win in one ply
/// before any win in more.
pub proof fn lemma_best_move_wins_at_once(
    grid: Grid,
    target: Player,
    depth: nat,
    winning: int,
    col: int,
)
    requires
        rectangular(grid),
        width(grid) <= usize::MAX,
        depth + 2 <= MAX_DEPTH,
        !has_winner(grid, target),
        !has_winner(grid, target.opponent()),
        has_room(grid, winning),
        has_winner(drop_chip(grid, winning, target), target),
        is_best_move(grid, target, target, depth, col),
    ensures
        has_winner(drop_chip(grid, col, target), target),
{
    if !has_winner(drop_chip(grid, col, target), target) {
        lemma_immediate_win_is_preferred(grid, target, depth, winning, col);
        assert(improves(
            true,
            move_score(grid, target, target, depth, winning),
            move_score(grid, target, target, depth, col),
        ));
    }
}

/// Returns whether the score `new` is strictly better than `best` for the
/// player to move.
fn better_score(maximizing: bool, new: i32, best: i32) -> (better: bool)
    ensures
        better == improves(maximizing, new as int, best as int),
{
    if maximizing {
        new > best
    } else {
        new < best
    }
}

/// Returns `next` if its score is strictly better than that of `best`, and
/// `best` otherwise.
fn keep_better(maximizing: bool, best: (usize, i32), next: (usize, i32)) -> (kept: (usize, i32))
    ensures
        kept == if improves(maximizing, next.1 as int, best.1 as int) {
            next
        } else {
            best
        },
{
    if better_score(maximizing, next.1, best.1) {
        next
    } else {
        best
    }
}

/// Returns what stands for "no move yet": no column, and the score that
/// the search starts from.
fn no_move(initial_score: i32) -> (seed: (usize, i32))
    ensures
        seed == (usize::MAX, initial_score),
{
    (usize::MAX, initial_score)
}

/// Plays a chip of `current_player` into `col` on a copy of the board and
/// returns the column with the score of the position reached.
fn simulate_move<const W: usize, const H: usize>(
    gameboard: &Gameboard<W, H>,
    col: usize,
    target_player: Player,
    current_player: Player,
    depth: usize,
) -> (outcome: (usize, i32))
    requires
        has_room(gameboard@, col as int),
        depth <= MAX_DEPTH,
    ensures
        outcome.0 == col,
        outcome.1 == move_score(
            gameboard@,
            target_player,
            current_player,
            depth as nat,
            col as int,
        ),
    decreases MAX_DEPTH + 1 - depth, 0nat,
{
    let mut gameboard_clone = gameboard.clone();
    gameboard_clone.insert_player_chip(col, current_player).unwrap();

    // The column is known here: of the deeper search only the score counts.
    let (_, score) = minmax_search_recursive(
        gameboard_clone,
        target_player,
        current_player.opponent(),
        depth + 1,
    );
    (col, score)
}

/// Searches the moves into `columns` in parallel and reduces their
/// outcomes to the best one.
///
/// This is rayon's `into_par_iter`, `map` and `reduce`: every column goes
/// through [`simulate_move`], and the outcomes are combined, two at a
/// time, by [`keep_better`], with [`no_move`] as the identity. rayon does
/// not say in which order it combines. Whatever the order, `keep_better`
/// hands back one of its two arguments, and never the one with the
/// strictly worse score. So the result is the identity or the outcome of
/// one of the columns, and no column has an outcome with a strictly better
/// score. Among columns with equal scores any one may come back.
#[verifier::external_body]
fn reduce_in_parallel<const W: usize, const H: usize>(
    gameboard: &Gameboard<W, H>,
    columns: Vec<usize>,
    target_player: Player,
    current_player: Player,
    depth: usize,
    maximizing: bool,
    initial_score: i32,
) -> (best: (usize, i32))
    requires
        depth <= MAX_DEPTH,
        forall|i: int|
            0 <= i < columns.len() ==> has_room(gameboard@, #[trigger] columns[i] as int),
    ensures
        best == (usize::MAX, initial_score) || exists|i: int|
            0 <= i < columns.len() && best.0 == #[trigger] columns[i] && best.1 == move_score(
                gameboard@,
                target_player,
                current_player,
                depth as nat,
                columns[i] as int,
            ),
        forall|i: int|
            0 <= i < columns.len() ==> !improves(
                maximizing,
                move_score(
                    gameboard@,
                    target_player,
                    current_player,
                    depth as nat,
                    #[trigger] columns[i] as int,
                ),
                best.1 as int,
            ),
{
    columns
        .into_par_iter()
        .map(|col| simulate_move(gameboard, col, target_player, current_player, depth))
        .reduce(|| no_move(initial_score), |best, next| keep_better(maximizing, best, next))
}

/// Searches all legal moves of `current_player` and returns the best one
/// with its score.
///
/// Near the root the moves are searched in parallel, and among moves with
/// equal scores any one may be returned. Further down they are searched
/// one after the other, and the lowest column with the best score is
/// returned.
fn search_best_move_in_depth<const W: usize, const H: usize>(
    gameboard: &Gameboard<W, H>,
    target_player: Player,
    current_player: Player,
    depth: usize,
) -> (result: (Option<usize>, i32))
    requires
        !is_full(gameboard@),
        depth <= MAX_DEPTH,
    ensures
        result.1 == best_score_among(
            gameboard@,
            target_player,
            current_player,
            depth as nat,
            available_columns(gameboard@),
        ),
        result.0 matches Some(col) && is_best_move(
            gameboard@,
            target_player,
            current_player,
            depth as nat,
            col as int,
        ) && result.1 == move_score(
            gameboard@,
            target_player,
            current_player,
            depth as nat,
            col as int,
        ),
        depth > PARALLEL_CUTOFF_DEPTH ==> forall|other: int|
            has_room(gameboard@, other) && other < result.0.unwrap() ==> result.1
                != #[trigger] move_score(
                gameboard@,
                target_player,
                current_player,
                depth as nat,
                other,
            ),
    decreases MAX_DEPTH + 1 - depth, 1nat,
{
    let maximizing = current_player == target_player;
    let initial_score = if maximizing {
        i32::MIN
    } else {
        i32::MAX
    };
    let columns = gameboard.available_columns_iter();
    let ghost grid = gameboard@;
    let ghost depth_n = depth as nat;
    proof {
        use_type_invariant(gameboard);
        gameboard.lemma_size();
        lemma_available_columns(grid);
    }

    if depth <= PARALLEL_CUTOFF_DEPTH {
        // Near the root: one task for each move.
        let reduced = reduce_in_parallel(
            gameboard,
            columns,
            target_player,
            current_player,
            depth,
            maximizing,
            initial_score,
        );
        proof {
            lemma_move_score_bounds(
                grid,
                target_player,
                current_player,
                depth_n,
                columns[0] as int,
            );
            let i = choose|i: int|
                0 <= i < columns.len() && reduced.0 == #[trigger] columns[i] && reduced.1
                    == move_score(grid, target_player, current_player, depth_n, columns[i] as int);
            lemma_move_score_bounds(
                grid,
                target_player,
                current_player,
                depth_n,
                columns[i] as int,
            );
            lemma_best_of_available(grid, target_player, current_player, depth_n, i);
        }
        (Some(reduced.0), reduced.1)
    } else {
        // Further down: one move after the other.
        let mut best_score = initial_score;
        let mut best_col = None;
        let ghost mut best_index: int = -1;
        for i in 0..columns.len()
            invariant
                depth <= MAX_DEPTH,
                maximizing == (current_player == target_player),
                initial_score == worst_score(maximizing),
                grid == gameboard@,
                depth_n == depth as nat,
                columns@ == available_columns(grid),
                forall|k: int|
                    0 <= k < columns.len() ==> has_room(grid, #[trigger] columns[k] as int),
                i == 0 ==> best_col is None && best_index == -1 && best_score == initial_score,
                i > 0 ==> 0 <= best_index < i && best_col == Some(columns[best_index])
                    && best_score == move_score(
                    grid,
                    target_player,
                    current_player,
                    depth_n,
                    columns[best_index] as int,
                ),
                forall|k: int|
                    0 <= k < i ==> !improves(
                        maximizing,
                        move_score(
                            grid,
                            target_player,
                            current_player,
                            depth_n,
                            #[trigger] columns[k] as int,
                        ),
                        best_score as int,
                    ),
                forall|k: int|
                    0 <= k < best_index ==> best_score != move_score(
                        grid,
                        target_player,
                        current_player,
                        depth_n,
                        #[trigger] columns[k] as int,
                    ),
            decreases columns.len() - i,
        {
            let col = columns[i];
            let (_, score) = simulate_move(gameboard, col, target_player, current_player, depth);
            proof {
                lemma_move_score_bounds(grid, target_player, current_player, depth_n, col as int);
            }
            if better_score(maximizing, score, best_score) {
                best_score = score;
                best_col = Some(col);
                proof {
                    best_index = i as int;
                }
            }
        }
        proof {
            lemma_best_of_available(grid, target_player, current_player, depth_n, best_index);
            lemma_first_of_available(grid, target_player, current_player, depth_n, best_index);
        }
        (best_col, best_score)
    }
}

/// Scores the position for `target_player`, with `current_player` to
/// move, and returns the best move with the score. A position below which
/// the search does not go on has a score and no move.
fn minmax_search_recursive<const W: usize, const H: usize>(
    gameboard: Gameboard<W, H>,
    target_player: Player,
    current_player: Player,
    depth: usize,
) -> (result: (Option<usize>, i32))
    requires
        depth <= MAX_DEPTH + 1,
    ensures
        result.1 == position_score(gameboard@, target_player, current_player, depth as nat),
        result.0 is Some <==> expands(gameboard@, current_player, depth as nat),
        result.0 matches Some(col) ==> is_best_move(
            gameboard@,
            target_player,
            current_player,
            depth as nat,
            col as int,
        ),
    decreases MAX_DEPTH + 1 - depth, 2nat,
{
    // Can the search stop here?
    if target_player == current_player && gameboard.check_for_winner(target_player) {
        // The target has won: the sooner the better.
        return (None, SCORE_FACTOR - depth as i32);
    } else if target_player != current_player && gameboard.check_for_winner(current_player) {
        // The opponent has won: the later the less bad.
        return (None, -SCORE_FACTOR + depth as i32);
    } else if gameboard.gameover() {
        // A draw.
        return (None, 0);
    }
    // Beyond the horizon nothing is known: that counts as a draw.
    if depth > MAX_DEPTH {
        return (None, 0);
    }
    search_best_move_in_depth(&gameboard, target_player, current_player, depth)
}

/// Searches the best move for `current_player`, who is to move.
///
/// The move returned is legal, and no legal move leads to a position with
/// a higher score. The board must have room for a chip, and the player
/// must not have won already: then there is nothing left to search for.
#[must_use]
pub fn minmax_search<const W: usize, const H: usize>(
    gameboard: Gameboard<W, H>,
    current_player: Player,
) -> (col: usize)
    requires
        !is_full(gameboard@),
        !has_winner(gameboard@, current_player),
    ensures
        available_columns(gameboard@).contains(col),
        is_best_move(gameboard@, current_player, current_player, 0, col as int),
{
    let ghost grid = gameboard@;
    proof {
        use_type_invariant(&gameboard);
        gameboard.lemma_size();
        lemma_available_columns(grid);
    }
    let col = minmax_search_recursive(gameboard, current_player, current_player, 0).0.expect(
        "should have legal move",
    );
    assert(available_columns(grid).contains((col as int) as usize));
    col
}

} // verus!
