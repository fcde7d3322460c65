//! One turn of an interactive game: a typed line in, an outcome out.
use crate::board::{mark_for, status_of, with_cell, Board, BoardStatus};
use crate::input::{move_of, parse_move, InputError};
use crate::lane::Square;
use vstd::prelude::*;

verus! {

/// What became of one typed line.
#[derive(Clone, Copy, PartialEq, Eq, Structural, Debug)]
pub enum TurnOutcome {
    /// The line names no cell of the board; nothing was placed.
    Invalid(InputError),
    /// The named cell (0-based) already holds a mark; nothing was placed.
    Occupied(usize, usize),
    /// A piece was placed at the named cell (0-based); the status after it.
    Placed(usize, usize, BoardStatus),
}

/// Plays the move typed as `line` (two 1-based numbers, row then column):
/// places the piece of the player to move and reports the game's status, or
/// reports why the line was not played.
pub fn play_turn(board: &mut Board, line: &[u8], win_threshold: usize) -> (r: TurnOutcome)
    requires
        old(board).wf(),
        1 <= win_threshold <= old(board).side(),
    ensures
        final(board).wf(),
        final(board).side() == old(board).side(),
        match move_of(line@, old(board).side()) {
            Err(e) => r == TurnOutcome::Invalid(e) && *final(board) == *old(board),
            Ok((row, col)) => if old(board).cells()[row as int][col as int] != Square::Blank {
                r == TurnOutcome::Occupied(row, col) && *final(board) == *old(board)
            } else {
                &&& final(board).cells() == with_cell(
                    old(board).cells(),
                    row as int,
                    col as int,
                    mark_for(old(board).turns()),
                )
                &&& final(board).turns() == old(board).turns() + 1
                &&& r == TurnOutcome::Placed(
                    row,
                    col,
                    status_of(final(board).cells(), final(board).turns(), win_threshold as int),
                )
            },
        },
{
    match parse_move(line, board.size()) {
        Err(e) => TurnOutcome::Invalid(e),
        Ok((row, col)) => match board.place_piece((row, col)) {
            Ok(()) => TurnOutcome::Placed(row, col, board.check_status(win_threshold)),
            Err(_) => TurnOutcome::Occupied(row, col),
        },
    }
}

} // verus!
