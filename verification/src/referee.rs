//! The referee of a game between two engines: what to ask of whom, what to
//! make of the answer, and how to keep the score over many games.
//!
//! The referee decides; it neither starts an engine nor talks to one.

use crate::board::{
    lemma_move_keeps_valid, lemma_swap_keeps_valid, Board, BoardError, Position, Turn,
};
use crate::protocol::{cell_of_text, parse_cell};
use crate::text::line_of;
use vstd::prelude::*;

verus! {

/// What the referee does next.
pub enum Step {
    /// The engine that plays `turn` is to be sent `line` and asked for its
    /// move.
    Ask { turn: Turn, line: String },
    /// The game has ended with `black` stones of Black and `white` stones
    /// of White; `winner` is the side with more stones, if there is one.
    Over { winner: Option<Turn>, black: i32, white: i32 },
}

/// The position in which the next move is asked for: the position itself,
/// or the position after the pass where the mover has to pass and the game
/// has not ended.
pub open spec fn asked_in(pos: Position) -> Position {
    if !pos.is_terminal() && pos.must_pass() {
        pos.swapped()
    } else {
        pos
    }
}

/// A game under the eyes of the referee.
pub struct Game {
    board: Board,
}

impl Game {
    /// No cell of the board of a game holds two stones.
    #[verifier::type_invariant]
    closed spec fn board_is_valid(self) -> bool {
        self.board@.is_valid()
    }

    /// The position of the game.
    pub closed spec fn position(&self) -> Position {
        self.board@
    }

    /// A game at its start.
    pub fn new() -> (game: Game)
        ensures
            game.position() == crate::board::start_position(),
    {
        proof {
            crate::board::lemma_start_moves();
        }
        Game { board: Board::new() }
    }

    /// The board of the game.
    pub fn board(&self) -> (board: Board)
        ensures
            board@ == self.position(),
            board@.is_valid(),
    {
        proof {
            use_type_invariant(self);
        }
        self.board
    }

    /// What is to be done next. Where the side to move has to pass, the
    /// pass is made, and the other side is to be asked.
    pub fn next_step(&mut self) -> (step: Step)
        ensures
            final(self).position() == asked_in(old(self).position()),
            old(self).position().is_terminal() ==> step == (Step::Over {
                winner: old(self).position().winner(),
                black: old(self).position().black_count() as i32,
                white: old(self).position().white_count() as i32,
            }),
            !old(self).position().is_terminal() ==> step is Ask && step->turn == asked_in(
                old(self).position(),
            ).turn && step->line@ == line_of(asked_in(old(self).position())),
            !old(self).position().is_terminal() ==> !final(self).position().must_pass(),
    {
        proof {
            use_type_invariant(&*self);
        }
        let ghost pos = self.board@;
        if self.board.is_game_over() {
            let winner = self.board.get_winner().unwrap();
            return Step::Over {
                winner,
                black: self.board.black_piece_num(),
                white: self.board.white_piece_num(),
            };
        }
        if self.board.is_pass() {
            let mut board = self.board;
            board.do_pass().unwrap();
            proof {
                lemma_swap_keeps_valid(pos);
            }
            self.board = board;
        }
        let line = self.board.get_board_line().unwrap();
        Step::Ask { turn: self.board.get_turn(), line }
    }

    /// Takes the answer of the engine that was asked: the line of a legal
    /// move is played.
    pub fn take_reply(&mut self, reply: &str) -> (result: Result<usize, BoardError>)
        ensures
            result == (match cell_of_text(reply@) {
                None => Err::<usize, BoardError>(BoardError::InvalidPosition),
                Some(cell) => if old(self).position().is_legal(cell as int) {
                    Ok(cell)
                } else {
                    Err(BoardError::InvalidMove)
                },
            }),
            result matches Ok(cell) ==> final(self).position() == old(self).position().after_move(
                cell as int,
            ),
            result is Err ==> final(self).position() == old(self).position(),
    {
        proof {
            use_type_invariant(&*self);
        }
        let ghost pos = self.board@;
        let cell = match parse_cell(reply) {
            Some(cell) => cell,
            None => {
                return Err(BoardError::InvalidPosition);
            },
        };
        let mut board = self.board;
        match board.do_move(cell) {
            Ok(()) => {
                proof {
                    lemma_move_keeps_valid(pos, cell as int);
                }
                self.board = board;
                Ok(cell)
            },
            Err(e) => Err(e),
        }
    }
}

/// The score of two engines over the games that they have played.
#[derive(Clone, Copy, Debug, PartialEq, Eq, Structural)]
pub struct Tally {
    /// The games that the first engine has won.
    pub first_wins: usize,
    /// The games that the second engine has won.
    pub second_wins: usize,
    /// The games that were drawn.
    pub draws: usize,
    /// The stones of the first engine at the ends of the games.
    pub first_pieces: usize,
    /// The stones of the second engine at the ends of the games.
    pub second_pieces: usize,
}

/// How many games of `n` the first engine plays as Black: half of them.
/// `None` where `n` is 0 or odd, and no match can be played.
pub fn games_as_black(n: usize) -> (half: Option<usize>)
    ensures
        half == (if n > 0 && n % 2 == 0 {
            Some(n / 2)
        } else {
            None
        }),
{
    if n == 0 || n % 2 != 0 {
        None
    } else {
        Some(n / 2)
    }
}

impl Tally {
    /// The score before the first game.
    pub fn new() -> (tally: Tally)
        ensures
            tally == (Tally {
                first_wins: 0,
                second_wins: 0,
                draws: 0,
                first_pieces: 0,
                second_pieces: 0,
            }),
    {
        Tally { first_wins: 0, second_wins: 0, draws: 0, first_pieces: 0, second_pieces: 0 }
    }

    /// The score after one more game, in which the first engine played
    /// `first_turn` and which ended with `black` stones of Black and
    /// `white` stones of White, for `winner` if there is one. `None` where
    /// a count would pass the greatest `usize`.
    pub fn with_game(
        &self,
        first_turn: Turn,
        winner: Option<Turn>,
        black: usize,
        white: usize,
    ) -> (tally: Option<Tally>)
        ensures
            tally matches Some(t) ==> {
                &&& t.first_wins == self.first_wins + if winner == Some(first_turn) {
                    1int
                } else {
                    0int
                }
                &&& t.second_wins == self.second_wins + if winner == Some(first_turn.other()) {
                    1int
                } else {
                    0int
                }
                &&& t.draws == self.draws + if winner is None {
                    1int
                } else {
                    0int
                }
                &&& t.first_pieces == self.first_pieces + if first_turn == Turn::Black {
                    black
                } else {
                    white
                }
                &&& t.second_pieces == self.second_pieces + if first_turn == Turn::Black {
                    white
                } else {
                    black
                }
            },
            tally is None ==> self.first_wins == usize::MAX || self.second_wins == usize::MAX
                || self.draws == usize::MAX || self.first_pieces + black > usize::MAX
                || self.first_pieces + white > usize::MAX || self.second_pieces + black
                > usize::MAX || self.second_pieces + white > usize::MAX,
    {
        let mut tally = *self;
        match winner {
            Some(turn) => {
                if turn == first_turn {
                    if tally.first_wins == usize::MAX {
                        return None;
                    }
                    tally.first_wins += 1;
                } else {
                    if tally.second_wins == usize::MAX {
                        return None;
                    }
                    tally.second_wins += 1;
                }
            },
            None => {
                if tally.draws == usize::MAX {
                    return None;
                }
                tally.draws += 1;
            },
        }
        let (first, second) = match first_turn {
            Turn::Black => (black, white),
            Turn::White => (white, black),
        };
        if first > usize::MAX - tally.first_pieces || second > usize::MAX - tally.second_pieces {
            return None;
        }
        tally.first_pieces += first;
        tally.second_pieces += second;
        Some(tally)
    }
}

} // verus!
