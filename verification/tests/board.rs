use viergewinnt::{Game, Gameboard, GameboardError, Player};

fn fill_column(board: &mut Gameboard<7, 6>, col: usize) {
    for _ in 0..board.height() {
        let _ = board.insert_player_chip(col, Player::Player1);
    }
}

fn occupied_in_column<const W: usize, const H: usize>(
    board: &Gameboard<W, H>,
    col: usize,
) -> usize {
    board.board().iter().filter(|row| row[col].is_some()).count()
}

#[test]
fn test_next_slot_in_column() {
    let mut board = Gameboard::<7, 6>::new();
    assert_eq!(board.next_slot_in_column(0), Some(0));

    for i in 0..board.height() - 1 {
        board.set_cell(i, 0, Some(Player::Player1));
        assert_eq!(board.next_slot_in_column(0), Some(i + 1));
    }

    board.set_cell(board.height() - 1, 0, Some(Player::Player1));
    assert_eq!(board.next_slot_in_column(0), None);
}

#[test]
fn test_free_slots_in_column() {
    let mut board = Gameboard::<7, 6>::new();
    assert_eq!(board.free_slots_in_column(0), 6);

    for i in 0..board.height() {
        board.set_cell(i, 0, Some(Player::Player1));
        assert_eq!(board.free_slots_in_column(0), 6 - i - 1);
    }

    assert_eq!(board.free_slots_in_column(0), 0);
}

#[test]
fn test_legal_moves_iter() {
    {
        let mut board = Gameboard::<7, 6>::new();

        assert_eq!(
            board.available_columns_iter().as_slice(),
            &[0, 1, 2, 3, 4, 5, 6]
        );

        fill_column(&mut board, 1);
        fill_column(&mut board, 3);
        fill_column(&mut board, 5);
        fill_column(&mut board, 6);
        assert_eq!(board.available_columns_iter().as_slice(), &[0, 2, 4]);

        fill_column(&mut board, 0);
        fill_column(&mut board, 2);
        fill_column(&mut board, 4);
        assert_eq!(board.available_columns_iter().as_slice(), &[]);
        assert!(board.gameover());
    }
    {
        let mut board = Gameboard::<4, 4>::new();
        board.set_cell(0, 0, Some(Player::Player2));
        board.set_cell(0, 1, Some(Player::Player2));
        board.set_cell(0, 2, Some(Player::Player1));
        board.set_cell(0, 3, Some(Player::Player2));
        board.set_cell(1, 0, Some(Player::Player1));
        board.set_cell(1, 1, Some(Player::Player1));
        board.set_cell(1, 2, Some(Player::Player2));
        board.set_cell(1, 3, Some(Player::Player1));
        board.set_cell(2, 0, Some(Player::Player2));
        board.set_cell(2, 1, Some(Player::Player1));
        board.set_cell(2, 2, Some(Player::Player1));
        board.set_cell(2, 3, Some(Player::Player2));
        board.set_cell(3, 0, Some(Player::Player1));
        board.set_cell(3, 1, Some(Player::Player2));

        assert_eq!(board.available_columns_iter().as_slice(), &[2, 3]);
        board.set_cell(3, 2, Some(Player::Player1));
        board.set_cell(3, 3, Some(Player::Player2));
        assert!(board.gameover());
    }
    {
        let mut board = Gameboard::<4, 4>::new();
        board.set_cell(0, 0, Some(Player::Player2));
        board.set_cell(0, 2, Some(Player::Player1));
        board.set_cell(1, 0, Some(Player::Player2));
        board.set_cell(1, 2, Some(Player::Player1));
        board.set_cell(2, 2, Some(Player::Player1));
        board.set_cell(3, 2, Some(Player::Player1));

        assert_eq!(board.available_columns_iter().as_slice(), &[0, 1, 3]);
    }
}

#[test]
fn new_board_is_empty() {
    let board = Gameboard::<7, 6>::new();
    assert_eq!(board.width(), 7);
    assert_eq!(board.height(), 6);
    for row in board.board().iter() {
        for cell in row.iter() {
            assert_eq!(*cell, None);
        }
    }
    assert!(!board.gameover());
}

#[test]
fn chips_stack_from_the_bottom() {
    let mut board = Gameboard::<7, 6>::new();
    assert_eq!(board.insert_player_chip(2, Player::Player1), Ok(()));
    assert_eq!(board.insert_player_chip(2, Player::Player2), Ok(()));
    assert_eq!(board.insert_player_chip(5, Player::Player2), Ok(()));
    assert_eq!(board.board()[0][2], Some(Player::Player1));
    assert_eq!(board.board()[1][2], Some(Player::Player2));
    assert_eq!(board.board()[2][2], None);
    assert_eq!(board.board()[0][5], Some(Player::Player2));
    assert_eq!(occupied_in_column(&board, 2), 2);
    assert_eq!(board.next_slot_in_column(2), Some(2));
    assert_eq!(board.free_slots_in_column(2), 4);
}

#[test]
fn chip_lands_in_the_lowest_empty_cell_below_a_floating_chip() {
    let mut board = Gameboard::<4, 4>::new();
    board.set_cell(1, 0, Some(Player::Player2));
    assert_eq!(board.next_slot_in_column(0), Some(0));
    assert_eq!(board.free_slots_in_column(0), 4);
    board.insert_player_chip(0, Player::Player1).unwrap();
    assert_eq!(board.board()[0][0], Some(Player::Player1));
    assert_eq!(board.board()[1][0], Some(Player::Player2));
    assert_eq!(board.next_slot_in_column(0), Some(2));
    assert_eq!(board.free_slots_in_column(0), 2);
}

#[test]
fn insert_rejects_a_column_that_does_not_exist() {
    let mut board = Gameboard::<7, 6>::new();
    assert_eq!(
        board.insert_player_chip(7, Player::Player1),
        Err(GameboardError::InvalidColumn)
    );
    assert_eq!(
        board.insert_player_chip(usize::MAX, Player::Player2),
        Err(GameboardError::InvalidColumn)
    );
    assert_eq!(board, Gameboard::<7, 6>::new());
}

#[test]
fn insert_rejects_a_full_column() {
    let mut board = Gameboard::<7, 6>::new();
    fill_column(&mut board, 4);
    let before = board.clone();
    assert_eq!(
        board.insert_player_chip(4, Player::Player2),
        Err(GameboardError::ColumnFull)
    );
    assert_eq!(board, before);
    assert_eq!(board.next_slot_in_column(4), None);
    assert_eq!(board.free_slots_in_column(4), 0);
}

#[test]
fn set_cell_changes_one_cell() {
    let mut board = Gameboard::<4, 4>::new();
    board.set_cell(2, 3, Some(Player::Player2));
    for row in 0..4 {
        for col in 0..4 {
            let expected = if row == 2 && col == 3 {
                Some(Player::Player2)
            } else {
                None
            };
            assert_eq!(board.board()[row][col], expected);
        }
    }
    board.set_cell(2, 3, None);
    assert_eq!(board, Gameboard::<4, 4>::new());
}

#[test]
fn clone_is_independent_of_the_board() {
    let mut board = Gameboard::<4, 4>::new();
    board.insert_player_chip(1, Player::Player1).unwrap();
    let copy = board.clone();
    board.insert_player_chip(1, Player::Player2).unwrap();
    assert_eq!(copy.free_slots_in_column(1), 3);
    assert_eq!(board.free_slots_in_column(1), 2);
}

#[test]
fn free_slots_and_chips_fill_every_column_during_a_game() {
    let mut game = Game::<7, 6>::new();
    let moves: [usize; 14] = [3, 3, 3, 2, 4, 3, 3, 3, 0, 6, 6, 0, 0, 3];
    let mut player = Player::Player1;
    for col in moves {
        let _ = game.insert_player_chip(col, player);
        player = player.opponent();
        for c in 0..7 {
            assert_eq!(
                game.board().free_slots_in_column(c) + occupied_in_column(game.board(), c),
                6
            );
        }
    }
    assert_eq!(game.board().free_slots_in_column(3), 0);
    assert_eq!(game.board().free_slots_in_column(0), 3);
    assert_eq!(game.board().free_slots_in_column(1), 6);
}

#[test]
fn game_counts_the_chips_played() {
    let mut game = Game::<7, 6>::new();
    assert_eq!(game.round(), 0);
    assert_eq!(game.insert_player_chip(3, Player::Player1), Ok(()));
    assert_eq!(game.round(), 1);
    assert_eq!(
        game.insert_player_chip(9, Player::Player2),
        Err(GameboardError::InvalidColumn)
    );
    assert_eq!(game.round(), 1);
    for _ in 0..5 {
        game.insert_player_chip(3, Player::Player2).unwrap();
    }
    assert_eq!(game.round(), 6);
    assert_eq!(
        game.insert_player_chip(3, Player::Player1),
        Err(GameboardError::ColumnFull)
    );
    assert_eq!(game.round(), 6);
    assert_eq!(game.board().board()[0][3], Some(Player::Player1));
    assert_eq!(game.board().board()[5][3], Some(Player::Player2));
    assert_eq!(game.board().available_columns_iter(), vec![0, 1, 2, 4, 5, 6]);
}

#[test]
fn opponent_is_the_other_player() {
    assert_eq!(Player::Player1.opponent(), Player::Player2);
    assert_eq!(Player::Player2.opponent(), Player::Player1);
    assert_eq!(Player::Player1.opponent().opponent(), Player::Player1);
    assert_eq!(Player::Player2.opponent().opponent(), Player::Player2);
}
