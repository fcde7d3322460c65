use tictactoe::board::{Board, BoardStatus};
use tictactoe::game::{play_turn, TurnOutcome};
use tictactoe::input::{parse_move, InputError};
use tictactoe::lane::Square;

#[test]
fn render_empty_two_by_two() {
    let board = Board::new(2);
    assert_eq!(board.render(), "---------\n|   |   |\n---------\n|   |   |\n---------\n");
}

#[test]
fn render_shows_marks() {
    let mut board = Board::new(2);
    assert_eq!(board.place_piece((0, 1)), Ok(()));
    assert_eq!(board.place_piece((1, 0)), Ok(()));
    assert_eq!(board.render(), "---------\n|   | X |\n---------\n| O |   |\n---------\n");
}

#[test]
fn parse_move_reads_one_based_pairs() {
    assert_eq!(parse_move(b"1 1\n", 3), Ok((0, 0)));
    assert_eq!(parse_move(b"  3\t2  ", 3), Ok((2, 1)));
    assert_eq!(parse_move(b"03 10", 10), Ok((2, 9)));
}

#[test]
fn parse_move_counts_words() {
    assert_eq!(parse_move(b"", 3), Err(InputError::WrongCount));
    assert_eq!(parse_move(b"   \n", 3), Err(InputError::WrongCount));
    assert_eq!(parse_move(b"2\n", 3), Err(InputError::WrongCount));
    assert_eq!(parse_move(b"1 2 3", 3), Err(InputError::WrongCount));
    assert_eq!(parse_move(b"a b c d", 3), Err(InputError::WrongCount));
}

#[test]
fn parse_move_wants_digits() {
    assert_eq!(parse_move(b"x 1", 3), Err(InputError::NotNumeric));
    assert_eq!(parse_move(b"1 -2", 3), Err(InputError::NotNumeric));
    assert_eq!(parse_move(b"1,2 3", 3), Err(InputError::NotNumeric));
    assert_eq!(parse_move(b"9 +1", 3), Err(InputError::NotNumeric));
}

#[test]
fn parse_move_wants_cells_of_the_board() {
    assert_eq!(parse_move(b"0 1", 3), Err(InputError::OutOfRange));
    assert_eq!(parse_move(b"1 4", 3), Err(InputError::OutOfRange));
    assert_eq!(
        parse_move(b"99999999999999999999999999 1", 3),
        Err(InputError::OutOfRange)
    );
}

#[test]
fn play_turn_runs_a_game() {
    let mut board = Board::new(3);
    assert_eq!(
        play_turn(&mut board, b"1 1\n", 3),
        TurnOutcome::Placed(0, 0, BoardStatus::InProgress)
    );
    assert_eq!(play_turn(&mut board, b"1 1\n", 3), TurnOutcome::Occupied(0, 0));
    assert_eq!(
        play_turn(&mut board, b"one two\n", 3),
        TurnOutcome::Invalid(InputError::NotNumeric)
    );
    assert_eq!(board.turn(), 1);
    assert_eq!(
        play_turn(&mut board, b"2 1\n", 3),
        TurnOutcome::Placed(1, 0, BoardStatus::InProgress)
    );
    assert_eq!(
        play_turn(&mut board, b"1 2\n", 3),
        TurnOutcome::Placed(0, 1, BoardStatus::InProgress)
    );
    assert_eq!(
        play_turn(&mut board, b"2 2\n", 3),
        TurnOutcome::Placed(1, 1, BoardStatus::InProgress)
    );
    assert_eq!(
        play_turn(&mut board, b"1 3\n", 3),
        TurnOutcome::Placed(0, 2, BoardStatus::Win(Square::X))
    );
}
