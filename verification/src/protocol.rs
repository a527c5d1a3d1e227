//! The lines that an engine and the one who runs it exchange: the
//! greeting, the position, and the move.

use crate::board::{Board, BoardError, Turn};
use crate::text::{all_symbols, position_of};
use vstd::prelude::*;
use vstd::string::StrSliceExecFns;

verus! {

/// The value of a decimal digit; `None` for any other character.
pub open spec fn digit_of(c: char) -> Option<usize> {
    if c == '0' {
        Some(0usize)
    } else if c == '1' {
        Some(1usize)
    } else if c == '2' {
        Some(2usize)
    } else if c == '3' {
        Some(3usize)
    } else if c == '4' {
        Some(4usize)
    } else if c == '5' {
        Some(5usize)
    } else if c == '6' {
        Some(6usize)
    } else if c == '7' {
        Some(7usize)
    } else if c == '8' {
        Some(8usize)
    } else if c == '9' {
        Some(9usize)
    } else {
        None
    }
}

/// The cell that a line names: the line is one or two decimal digits, and
/// their value is below 64.
pub open spec fn cell_of_text(text: Seq<char>) -> Option<usize> {
    if text.len() == 1 {
        digit_of(text[0])
    } else if text.len() == 2 {
        match (digit_of(text[0]), digit_of(text[1])) {
            (Some(tens), Some(ones)) => if tens * 10 + ones < 64 {
                Some((tens * 10 + ones) as usize)
            } else {
                None
            },
            _ => None,
        }
    } else {
        None
    }
}

/// The digit for a value below 10.
pub open spec fn digit_for(value: int) -> char {
    if value == 0 {
        '0'
    } else if value == 1 {
        '1'
    } else if value == 2 {
        '2'
    } else if value == 3 {
        '3'
    } else if value == 4 {
        '4'
    } else if value == 5 {
        '5'
    } else if value == 6 {
        '6'
    } else if value == 7 {
        '7'
    } else if value == 8 {
        '8'
    } else {
        '9'
    }
}

/// The line that names a cell: its index in decimal digits, without a
/// leading zero.
pub open spec fn text_of_cell(cell: int) -> Seq<char> {
    if cell < 10 {
        seq![digit_for(cell)]
    } else {
        seq![digit_for(cell / 10), digit_for(cell % 10)]
    }
}

/// The line of a cell names that cell.
pub proof fn lemma_cell_text(cell: int)
    requires
        0 <= cell < 64,
    ensures
        cell_of_text(text_of_cell(cell)) == Some(cell as usize),
{
}

fn digit_value(c: char) -> (value: Option<usize>)
    ensures
        value == digit_of(c),
        value matches Some(v) ==> v < 10,
{
    if c == '0' {
        Some(0)
    } else if c == '1' {
        Some(1)
    } else if c == '2' {
        Some(2)
    } else if c == '3' {
        Some(3)
    } else if c == '4' {
        Some(4)
    } else if c == '5' {
        Some(5)
    } else if c == '6' {
        Some(6)
    } else if c == '7' {
        Some(7)
    } else if c == '8' {
        Some(8)
    } else if c == '9' {
        Some(9)
    } else {
        None
    }
}

fn digit_char(value: usize) -> (c: char)
    requires
        value < 10,
    ensures
        c == digit_for(value as int),
{
    if value == 0 {
        '0'
    } else if value == 1 {
        '1'
    } else if value == 2 {
        '2'
    } else if value == 3 {
        '3'
    } else if value == 4 {
        '4'
    } else if value == 5 {
        '5'
    } else if value == 6 {
        '6'
    } else if value == 7 {
        '7'
    } else if value == 8 {
        '8'
    } else {
        '9'
    }
}

/// Reads the move that an engine answers with.
pub fn parse_cell(line: &str) -> (cell: Option<usize>)
    ensures
        cell == cell_of_text(line@),
        cell matches Some(c) ==> c < 64,
{
    let n = line.unicode_len();
    if n == 1 {
        digit_value(line.get_char(0))
    } else if n == 2 {
        match (digit_value(line.get_char(0)), digit_value(line.get_char(1))) {
            (Some(tens), Some(ones)) => {
                let value = tens * 10 + ones;
                if value < 64 {
                    Some(value)
                } else {
                    None
                }
            },
            _ => None,
        }
    } else {
        None
    }
}

/// Writes the move that an engine answers with.
pub fn cell_text(cell: usize) -> (text: String)
    requires
        cell < 64,
    ensures
        text@ == text_of_cell(cell as int),
{
    let mut text = String::new();
    if cell >= 10 {
        text.push(digit_char(cell / 10));
        text.push(digit_char(cell % 10));
    } else {
        text.push(digit_char(cell));
    }
    assert(text@ =~= text_of_cell(cell as int));
    text
}

/// Whether two texts are the same.
pub fn same_text(a: &str, b: &str) -> (same: bool)
    ensures
        same == (a@ == b@),
{
    let n = a.unicode_len();
    if n != b.unicode_len() {
        return false;
    }
    let mut i: usize = 0;
    while i < n
        invariant
            i <= n,
            n == a@.len(),
            n == b@.len(),
            forall|j: int| 0 <= j < i ==> a@[j] == b@[j],
        decreases n - i,
    {
        if a.get_char(i) != b.get_char(i) {
            return false;
        }
        i += 1;
    }
    assert(a@ =~= b@);
    true
}

/// What a line asks of an engine.
#[derive(Clone, Copy, Debug, PartialEq, Eq, Structural)]
pub enum Request {
    /// The greeting `ping`, to be answered with `pong`.
    Ping,
    /// A position, to be answered with a move.
    Position,
}

/// Whether a line is the greeting.
pub open spec fn is_ping(text: Seq<char>) -> bool {
    text == "ping"@
}

/// Takes in a line for an engine that plays `turn`. The greeting leaves
/// the board as it is; any other line of at most 64 characters is read as
/// a position with `turn` to move.
pub fn read_request(board: &mut Board, line: &str, turn: Turn) -> (request: Result<
    Request,
    BoardError,
>)
    requires
        line@.len() <= 64,
    ensures
        request == (if is_ping(line@) {
            Ok::<Request, BoardError>(Request::Ping)
        } else if all_symbols(line@) {
            Ok(Request::Position)
        } else {
            Err(BoardError::InvalidCharactor)
        }),
        request == Ok::<Request, BoardError>(Request::Position) ==> final(board)@ == position_of(
            line@,
            turn,
        ),
        request != Ok::<Request, BoardError>(Request::Position) ==> final(board)@ == old(board)@,
{
    if same_text(line, "ping") {
        return Ok(Request::Ping);
    }
    match board.set_board_str(line, turn) {
        Ok(()) => Ok(Request::Position),
        Err(e) => Err(e),
    }
}

/// The side that an engine is started for: `BLACK` or `WHITE`.
pub fn turn_of_argument(argument: &str) -> (turn: Option<Turn>)
    ensures
        turn == (if argument@ == "BLACK"@ {
            Some(Turn::Black)
        } else if argument@ == "WHITE"@ {
            Some(Turn::White)
        } else {
            None
        }),
{
    if same_text(argument, "BLACK") {
        Some(Turn::Black)
    } else if same_text(argument, "WHITE") {
        Some(Turn::White)
    } else {
        None
    }
}

/// The argument that starts an engine for `turn`.
pub fn argument_of_turn(turn: Turn) -> (argument: &'static str)
    ensures
        argument@ == (match turn {
            Turn::Black => "BLACK"@,
            Turn::White => "WHITE"@,
        }),
{
    match turn {
        Turn::Black => "BLACK",
        Turn::White => "WHITE",
    }
}

} // verus!
