use tictactoe::board::{diagonal_offsets, Board, BoardStatus, PlaceError};
use tictactoe::lane::{check_lane, Square};
use tictactoe::lane::Square::{Blank, O, X};

fn play(board: &mut Board, moves: &[(usize, usize)]) {
    for &m in moves {
        assert_eq!(board.place_piece(m), Ok(()));
    }
}

#[test]
fn fresh_board_is_empty_and_in_progress() {
    for size in 1..6 {
        let board = Board::new(size);
        assert_eq!(board.turn(), 0);
        assert_eq!(board.size(), size);
        for w in 1..=size {
            assert_eq!(board.check_status(w), BoardStatus::InProgress);
        }
        for r in 0..size {
            for c in 0..size {
                assert_eq!(board.cell(r, c), Some(Square::Blank));
            }
        }
        assert_eq!(board.cell(size, 0), None);
        assert_eq!(board.cell(0, size), None);
    }
}

#[test]
fn placing_on_empty_cell_increments_turn() {
    let mut board = Board::new(3);
    assert_eq!(board.place_piece((1, 2)), Ok(()));
    assert_eq!(board.turn(), 1);
    assert_eq!(board.cell(1, 2), Some(Square::X));
    assert_eq!(board.cell(2, 1), Some(Square::Blank));
}

#[test]
fn placing_on_occupied_cell_fails_without_change() {
    let mut board = Board::new(3);
    play(&mut board, &[(0, 0)]);
    assert_eq!(board.place_piece((0, 0)), Err(PlaceError::Occupied(0, 0)));
    assert_eq!(board.place_piece((0, 0)), Err(PlaceError::Occupied(0, 0)));
    assert_eq!(board.turn(), 1);
    assert_eq!(board.cell(0, 0), Some(Square::X));
}

#[test]
fn placing_out_of_bounds_fails_without_change() {
    let mut board = Board::new(3);
    assert_eq!(board.place_piece((3, 0)), Err(PlaceError::OutOfBounds(3, 0)));
    assert_eq!(board.place_piece((0, 7)), Err(PlaceError::OutOfBounds(0, 7)));
    assert_eq!(board.turn(), 0);
}

#[test]
fn marks_alternate_starting_with_x() {
    let mut board = Board::new(4);
    let moves = [(0, 0), (3, 3), (1, 2), (2, 1), (0, 3), (3, 0)];
    for (k, &m) in moves.iter().enumerate() {
        assert_eq!(board.place_piece(m), Ok(()));
        let expected = if k % 2 == 0 { Square::X } else { Square::O };
        assert_eq!(board.cell(m.0, m.1), Some(expected));
        assert_eq!(board.turn(), k + 1);
    }
}

#[test]
fn row_win_on_three_by_three() {
    let mut board = Board::new(3);
    play(&mut board, &[(0, 0), (1, 0), (0, 1), (1, 1)]);
    assert_eq!(board.check_status(3), BoardStatus::InProgress);
    play(&mut board, &[(0, 2)]);
    assert_eq!(board.check_status(3), BoardStatus::Win(Square::X));
}

#[test]
fn column_win_on_three_by_three() {
    let mut board = Board::new(3);
    play(&mut board, &[(0, 0), (0, 1), (1, 0), (1, 1)]);
    assert_eq!(board.check_status(3), BoardStatus::InProgress);
    play(&mut board, &[(2, 0)]);
    assert_eq!(board.check_status(3), BoardStatus::Win(Square::X));
}

#[test]
fn main_diagonal_win_on_three_by_three() {
    let mut board = Board::new(3);
    play(&mut board, &[(0, 0), (0, 1), (1, 1), (0, 2)]);
    assert_eq!(board.check_status(3), BoardStatus::InProgress);
    play(&mut board, &[(2, 2)]);
    assert_eq!(board.check_status(3), BoardStatus::Win(Square::X));
}

#[test]
fn second_player_win_is_reported_as_o() {
    let mut board = Board::new(3);
    play(&mut board, &[(0, 0), (1, 0), (0, 1), (1, 1), (2, 2), (1, 2)]);
    assert_eq!(board.check_status(3), BoardStatus::Win(Square::O));
}

#[test]
fn anti_diagonal_is_not_a_win() {
    let mut board = Board::new(3);
    play(&mut board, &[(0, 2), (0, 0), (1, 1), (0, 1), (2, 0)]);
    assert_eq!(board.cell(0, 2), Some(Square::X));
    assert_eq!(board.cell(1, 1), Some(Square::X));
    assert_eq!(board.cell(2, 0), Some(Square::X));
    assert_eq!(board.check_status(3), BoardStatus::InProgress);
}

#[test]
fn full_board_without_run_is_a_draw() {
    let mut board = Board::new(3);
    let moves = [(0, 0), (0, 1), (0, 2), (1, 1), (1, 0), (1, 2), (2, 1), (2, 0), (2, 2)];
    for (k, &m) in moves.iter().enumerate() {
        assert_eq!(board.place_piece(m), Ok(()));
        if k < 8 {
            assert_eq!(board.check_status(3), BoardStatus::InProgress);
        }
    }
    assert_eq!(board.check_status(3), BoardStatus::Draw);
    assert_eq!(board.turn(), 9);
    for r in 0..3 {
        for c in 0..3 {
            assert_eq!(board.place_piece((r, c)), Err(PlaceError::Occupied(r, c)));
        }
    }
    assert_eq!(board.turn(), 9);
}

#[test]
fn win_on_the_last_cell_is_not_a_draw() {
    let mut board = Board::new(3);
    play(&mut board, &[(0, 0), (0, 1), (0, 2), (1, 0), (1, 1), (1, 2), (2, 1), (2, 0)]);
    assert_eq!(board.check_status(3), BoardStatus::InProgress);
    play(&mut board, &[(2, 2)]);
    assert_eq!(board.turn(), 9);
    assert_eq!(board.check_status(3), BoardStatus::Win(Square::X));
}

#[test]
fn threshold_four_needs_four_in_a_row() {
    let mut board = Board::new(5);
    play(&mut board, &[(0, 0), (1, 0), (0, 1), (1, 1), (0, 2)]);
    assert_eq!(board.check_status(4), BoardStatus::InProgress);
    play(&mut board, &[(2, 4), (0, 3)]);
    assert_eq!(board.check_status(4), BoardStatus::Win(Square::X));
}

#[test]
fn threshold_smaller_than_side_finds_offset_diagonals() {
    let mut board = Board::new(5);
    // X on the diagonal that starts at (1, 0).
    play(&mut board, &[(1, 0), (0, 4), (2, 1), (0, 3)]);
    assert_eq!(board.check_status(3), BoardStatus::InProgress);
    play(&mut board, &[(3, 2)]);
    assert_eq!(board.check_status(3), BoardStatus::Win(Square::X));

    let mut board = Board::new(5);
    // X on the diagonal that starts at (0, 2).
    play(&mut board, &[(0, 2), (4, 0), (1, 3), (3, 0)]);
    assert_eq!(board.check_status(3), BoardStatus::InProgress);
    play(&mut board, &[(2, 4)]);
    assert_eq!(board.check_status(3), BoardStatus::Win(Square::X));
}

#[test]
fn threshold_one_wins_after_any_move() {
    let mut board = Board::new(3);
    assert_eq!(board.check_status(1), BoardStatus::InProgress);
    play(&mut board, &[(2, 1)]);
    assert_eq!(board.check_status(1), BoardStatus::Win(Square::X));
}

#[test]
fn one_by_one_board() {
    let mut board = Board::new(1);
    assert_eq!(board.check_status(1), BoardStatus::InProgress);
    play(&mut board, &[(0, 0)]);
    assert_eq!(board.check_status(1), BoardStatus::Win(Square::X));
    assert_eq!(board.place_piece((0, 0)), Err(PlaceError::Occupied(0, 0)));
}

#[test]
fn lane_scanning() {
    assert!(check_lane(&vec![X, X, X], 3));
    assert!(!check_lane(&vec![X, X], 3));
    assert!(!check_lane(&vec![], 1));
    assert!(!check_lane(&vec![X, O, X], 2));
    assert!(check_lane(&vec![X, O, O, X], 2));
    assert!(!check_lane(&vec![Blank, Blank, Blank], 3));
    assert!(!check_lane(&vec![X, Blank, X, X], 3));
    assert!(check_lane(&vec![Blank, O, O, O, O, X], 4));
    assert!(!check_lane(&vec![O, O, O, X, O], 4));
}

#[test]
fn diagonal_extraction() {
    let mut board = Board::new(4);
    play(&mut board, &[(0, 1), (1, 2), (2, 3), (1, 0), (3, 2)]);
    assert_eq!(board.get_diagonal((0, 0)), Ok(vec![Blank, Blank, Blank, Blank]));
    assert_eq!(board.get_diagonal((0, 1)), Ok(vec![X, O, X]));
    assert_eq!(board.get_diagonal((1, 0)), Ok(vec![O, Blank, X]));
    assert_eq!(board.get_diagonal((0, 3)), Ok(vec![Blank]));
    assert_eq!(board.get_diagonal((4, 0)), Ok(vec![]));
    assert_eq!(board.get_diagonal((1, 1)), Err((1, 1)));
    assert_eq!(board.get_diagonal((0, 5)), Err((0, 5)));
}

#[test]
fn diagonal_offset_enumeration() {
    assert_eq!(diagonal_offsets(3, 3), vec![(0, 0)]);
    assert_eq!(diagonal_offsets(3, 2), vec![(0, 0), (0, 1), (1, 0)]);
    assert_eq!(
        diagonal_offsets(5, 3),
        vec![(0, 0), (0, 1), (1, 0), (0, 2), (2, 0)]
    );
    assert_eq!(diagonal_offsets(4, 1).len(), 7);
}

#[test]
fn square_characters() {
    assert_eq!(Square::X.to_char(), 'X');
    assert_eq!(Square::O.to_char(), 'O');
    assert_eq!(Square::Blank.to_char(), ' ');
}
