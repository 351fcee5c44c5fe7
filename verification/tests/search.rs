use viergewinnt::Player::{Player1 as A, Player2 as B};
use viergewinnt::{minmax_search, search_best_move, Game, Gameboard, Player};

fn board_from_columns(columns: [&[Player]; 4]) -> Gameboard<4, 4> {
    let mut board = Gameboard::<4, 4>::new();
    for (col, chips) in columns.iter().enumerate() {
        for chip in chips.iter() {
            board.insert_player_chip(col, *chip).unwrap();
        }
    }
    board
}

#[test]
fn test_minmax() {
    let mut board = Gameboard::<4, 4>::new();
    board.insert_player_chip(0, Player::Player1).unwrap();
    board.insert_player_chip(0, Player::Player2).unwrap();
    board.insert_player_chip(0, Player::Player1).unwrap();
    board.insert_player_chip(0, Player::Player2).unwrap();

    board.insert_player_chip(1, Player::Player1).unwrap();
    board.insert_player_chip(1, Player::Player2).unwrap();
    board.insert_player_chip(1, Player::Player1).unwrap();
    board.insert_player_chip(1, Player::Player2).unwrap();

    board.insert_player_chip(2, Player::Player1).unwrap();
    board.insert_player_chip(2, Player::Player1).unwrap();
    board.insert_player_chip(2, Player::Player1).unwrap();

    board.insert_player_chip(3, Player::Player2).unwrap();
    board.insert_player_chip(3, Player::Player2).unwrap();
    board.insert_player_chip(3, Player::Player2).unwrap();

    let best_move = minmax_search(board, Player::Player1);
    assert_eq!(best_move, 2);
}

#[test]
fn search_takes_the_win_in_the_last_column() {
    // Player2 completes the column on the right; every other move lets
    // Player1 complete the one next to it.
    let board = board_from_columns([&[A, B, A, B], &[A, B, A, B], &[A, A, A], &[B, B, B]]);
    assert_eq!(minmax_search(board, B), 3);
}

#[test]
fn search_prefers_the_win_at_once_to_a_later_win() {
    // Column 0 completes four of Player1 on top of each other. Columns 1
    // and 2 would win as well, but only some moves later.
    let board = board_from_columns([&[A, A, A], &[B, B], &[B, A], &[B]]);
    assert_eq!(minmax_search(board.clone(), A), 0);
    assert!(board.available_columns_iter().contains(&0));
}

#[test]
fn search_takes_a_win_along_a_row() {
    // Player1 holds the bottom row but for column 3, and nothing else wins.
    let board = board_from_columns([&[A, B, B], &[A, B, A], &[A, B], &[]]);
    assert_eq!(minmax_search(board, A), 3);
}

#[test]
fn search_takes_a_win_along_a_diagonal() {
    // Column 3 completes the diagonal of Player2 that falls from the top
    // of column 0; a chip in column 2 would let Player1 win.
    let board = board_from_columns([&[A, B, A, B], &[A, A, B, A], &[A, B, B], &[]]);
    assert_eq!(minmax_search(board, B), 3);
}

#[test]
fn search_blocks_what_would_lose_at_once() {
    // Player2 has three chips in column 1. Player1 has no winning move,
    // and every move but the one on top of them loses to the fourth.
    let board = board_from_columns([&[A], &[B, B, B], &[A, B, A], &[A]]);
    assert_eq!(minmax_search(board, A), 1);
}

#[test]
fn search_finds_a_win_some_moves_ahead() {
    // No move of Player1 wins at once. Column 1 forces a win later; the
    // others lead to a draw.
    let board = board_from_columns([&[A, A, B], &[B], &[], &[B, A, B, A]]);
    assert_eq!(minmax_search(board, A), 1);
}

#[test]
fn search_puts_off_a_loss_that_cannot_be_avoided() {
    // Player2 loses with every move, and last with the one on top of
    // the three chips in column 0.
    let board = board_from_columns([&[A, A, A], &[B, B, A], &[A], &[B, B]]);
    assert_eq!(minmax_search(board, B), 0);

    let other = board_from_columns([&[A, B, A, B], &[A, A], &[B], &[A, B, B, A]]);
    assert_eq!(minmax_search(other, B), 1);
}

#[test]
fn search_sees_a_threat_on_a_board_with_few_chips() {
    // Player1 holds the bottom row but for column 2. Eleven cells are
    // empty, and the search has to follow the game almost to its end.
    let board = board_from_columns([&[A, B, B], &[A], &[], &[A]]);
    assert_eq!(minmax_search(board, B), 2);
}

#[test]
fn search_returns_an_available_column() {
    let boards = [
        board_from_columns([&[A, B, A, B], &[B, A, B, A], &[A, B, A], &[B, A, B, A]]),
        board_from_columns([&[A, B, A, B], &[B, A, B], &[B, A, B, A], &[A, B, A]]),
        board_from_columns([&[A, B, A], &[B, A, B, A], &[B, A, B, A], &[A, B]]),
        board_from_columns([&[A, B, B, A], &[B, A, A, B], &[], &[A, B, A, B]]),
    ];
    for board in boards {
        for player in [A, B] {
            if board.check_for_winner(player) {
                continue;
            }
            let col = minmax_search(board.clone(), player);
            assert!(board.available_columns_iter().contains(&col));
            assert!(board.free_slots_in_column(col) > 0);
        }
    }
}

#[test]
fn search_with_one_column_left_returns_it() {
    let board = board_from_columns([&[A, B, A, B], &[B, A, B, A], &[B, A, B], &[A, B, A, B]]);
    assert_eq!(board.available_columns_iter(), vec![2]);
    assert_eq!(minmax_search(board.clone(), A), 2);
    assert_eq!(minmax_search(board, B), 2);
}

#[test]
fn search_leaves_the_board_of_the_caller_alone() {
    let board = board_from_columns([&[A, B, A, B], &[A, B, A, B], &[A, A, A], &[B, B, B]]);
    let before = board.clone();
    let _ = minmax_search(board.clone(), A);
    assert_eq!(board, before);
}

#[test]
fn opening_move_is_the_middle_column() {
    let game = Game::<7, 6>::new();
    assert_eq!(search_best_move(&game, Player::Player1), 3);
    assert_eq!(search_best_move(&game, Player::Player2), 3);
    assert_eq!(game.round(), 0);
}

#[test]
fn second_move_is_the_middle_column_while_it_is_empty() {
    let mut game = Game::<7, 6>::new();
    game.insert_player_chip(0, Player::Player1).unwrap();
    assert_eq!(game.round(), 1);
    assert_eq!(search_best_move(&game, Player::Player2), 3);

    let mut small = Game::<4, 4>::new();
    small.insert_player_chip(3, Player::Player1).unwrap();
    assert_eq!(search_best_move(&small, Player::Player2), 2);
}

#[test]
fn later_moves_come_from_the_search() {
    let mut game = Game::<4, 4>::new();
    let moves: [(usize, Player); 14] = [
        (0, A), (0, B), (0, A), (0, B),
        (1, A), (1, B), (1, A), (1, B),
        (2, A), (3, B), (2, A), (3, B),
        (2, A), (3, B),
    ];
    for (col, player) in moves {
        game.insert_player_chip(col, player).unwrap();
    }
    assert_eq!(game.round(), 14);
    assert_eq!(search_best_move(&game, A), 2);
    assert_eq!(search_best_move(&game, B), 3);
    assert_eq!(game.round(), 14);
}
