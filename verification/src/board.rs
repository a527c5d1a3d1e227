//! The board: two masks, the side to move, and the moves of the game.

use crate::bits::{
    bit_of, cell_mask, cells_of, cells_upto, count_cells, has_cell, lemma_cell_test,
    lemma_cells_of, lemma_cells_upto, lemma_mask_where, nth_cell,
};
use crate::chance::random_usize;
use crate::flips::flips_from;
use crate::movegen::{
    get_legal_partial, legal_moves_scalar, lemma_pass_by_lines, lemma_scalar_moves, scalar_moves,
    INNER_CELLS, INNER_COLUMNS, INNER_ROWS,
};
use crate::rules::{flip_mask, legal_at, legal_mask};
use crate::utils::StackVec64;
use vstd::prelude::*;

verus! {

/// What the operations of a board can fail with.
#[derive(Clone, Copy, Debug, PartialEq, Eq, Structural)]
pub enum BoardError {
    /// The cell index is not below 64.
    InvalidPosition,
    /// The cell is no legal move.
    InvalidMove,
    /// A pass while a legal move exists, or after the game has ended.
    InvalidPass,
    /// Some cell holds a stone of both sides.
    InvalidState,
    /// The game has not ended yet.
    GameNotOverYet,
    /// A board text holds a character other than the three symbols.
    InvalidCharactor,
    /// There is no legal move to choose from.
    NoLegalMove,
}

/// One of the two sides.
#[derive(Clone, Copy, PartialEq, Eq, Hash, Debug, Structural)]
pub enum Turn {
    Black,
    White,
}

impl Turn {
    /// The other side.
    pub open spec fn other(self) -> Turn {
        match self {
            Turn::Black => Turn::White,
            Turn::White => Turn::Black,
        }
    }

    /// The other side.
    pub fn opposite(&self) -> (turn: Turn)
        ensures
            turn == self.other(),
    {
        match self {
            Turn::Black => Turn::White,
            Turn::White => Turn::Black,
        }
    }
}

/// What a cell holds.
#[derive(Clone, Copy, PartialEq, Eq, Debug, Structural)]
pub enum Color {
    Empty,
    Black,
    White,
}

impl Color {
    /// The colour of the other side; an empty cell stays empty.
    pub open spec fn other(self) -> Color {
        match self {
            Color::Empty => Color::Empty,
            Color::Black => Color::White,
            Color::White => Color::Black,
        }
    }

    /// The colour of the other side; an empty cell stays empty.
    pub fn opposite(&self) -> (color: Color)
        ensures
            color == self.other(),
    {
        match self {
            Color::Empty => Color::Empty,
            Color::Black => Color::White,
            Color::White => Color::Black,
        }
    }
}

/// What a board stands for: the cells of the side to move, the cells of the
/// other side, and the side to move.
pub struct Position {
    pub mover: u64,
    pub opponent: u64,
    pub turn: Turn,
}

impl Position {
    /// No cell holds a stone of both sides.
    pub open spec fn is_valid(self) -> bool {
        self.mover & self.opponent == 0
    }

    /// Whether `cell` is a legal move for the mover.
    pub open spec fn is_legal(self, cell: int) -> bool {
        legal_at(self.mover, self.opponent, cell)
    }

    /// The mask of the legal moves of the mover.
    pub open spec fn legal_moves(self) -> u64 {
        legal_mask(self.mover, self.opponent)
    }

    /// The side to move has no legal move.
    pub open spec fn must_pass(self) -> bool {
        self.legal_moves() == 0
    }

    /// The same stones with the other side to move.
    pub open spec fn swapped(self) -> Position {
        Position { mover: self.opponent, opponent: self.mover, turn: self.turn.other() }
    }

    /// Neither side has a legal move.
    pub open spec fn is_terminal(self) -> bool {
        self.must_pass() && self.swapped().must_pass()
    }

    /// The stones after the mover placed a stone on `cell`, the mover still
    /// being the same side.
    pub open spec fn placed(self, cell: int) -> Position {
        let flips = flip_mask(self.mover, self.opponent, cell);
        Position {
            mover: self.mover ^ (flips | cell_mask(cell)),
            opponent: self.opponent ^ flips,
            turn: self.turn,
        }
    }

    /// The position after the mover played on `cell`.
    pub open spec fn after_move(self, cell: int) -> Position {
        self.placed(cell).swapped()
    }

    /// `next` follows on this position in one step of the game: by a legal
    /// move, or by the pass that the mover is forced to while the game has
    /// not ended.
    pub open spec fn steps_to(self, next: Position) -> bool {
        ||| self.must_pass() && !self.is_terminal() && next == self.swapped()
        ||| exists|cell: int| self.is_legal(cell) && next == #[trigger] self.after_move(cell)
    }

    /// `end` follows on this position in `steps` steps of the game.
    pub open spec fn leads_to(self, end: Position, steps: nat) -> bool
        decreases steps,
    {
        if steps == 0 {
            self == end
        } else {
            exists|next: Position, rest: nat|
                #[trigger] is_next(next, rest) && rest + 1 == steps && self.steps_to(next)
                    && next.leads_to(end, rest)
        }
    }

    /// The number of empty cells.
    pub open spec fn empty_count(self) -> int {
        count_cells(!(self.mover | self.opponent)) as int
    }

    /// The number of the mover's stones.
    pub open spec fn mover_count(self) -> int {
        count_cells(self.mover) as int
    }

    /// The number of the opponent's stones.
    pub open spec fn opponent_count(self) -> int {
        count_cells(self.opponent) as int
    }

    /// The number of Black's stones.
    pub open spec fn black_count(self) -> int {
        if self.turn == Turn::Black {
            self.mover_count()
        } else {
            self.opponent_count()
        }
    }

    /// The number of White's stones.
    pub open spec fn white_count(self) -> int {
        if self.turn == Turn::White {
            self.mover_count()
        } else {
            self.opponent_count()
        }
    }

    /// The side with more stones, if there is one.
    pub open spec fn winner(self) -> Option<Turn> {
        if self.mover_count() > self.opponent_count() {
            Some(self.turn)
        } else if self.mover_count() < self.opponent_count() {
            Some(self.turn.other())
        } else {
            None
        }
    }
}

/// Marks the position that comes next on a line of play, and the steps that
/// are left behind it.
pub open spec fn is_next(next: Position, rest: nat) -> bool {
    true
}

/// The mover's stones at the start of a game.
pub const START_MOVER: u64 = 0x0000_0008_1000_0000;

/// The opponent's stones at the start of a game.
pub const START_OPPONENT: u64 = 0x0000_0010_0800_0000;

/// The position at the start of a game: two stones each, Black to move.
pub open spec fn start_position() -> Position {
    Position { mover: START_MOVER, opponent: START_OPPONENT, turn: Turn::Black }
}

/// A board of 8 by 8 cells.
///
/// Cell `i` lies in row `i / 8` and column `i % 8`; in the two masks it is
/// the bit `63 - i`. A board may remember the legal moves of its position.
#[derive(Clone, Copy, Debug)]
pub struct Board {
    player_board: u64,
    opponent_board: u64,
    turn: Turn,
    legal_moves_cache: Option<u64>,
}

impl View for Board {
    type V = Position;

    closed spec fn view(&self) -> Position {
        Position { mover: self.player_board, opponent: self.opponent_board, turn: self.turn }
    }
}

impl PartialEq for Board {
    /// Two boards are equal when they show the same position; what they
    /// remember of their legal moves does not count.
    fn eq(&self, other: &Board) -> (equal: bool) {
        self.player_board == other.player_board && self.opponent_board == other.opponent_board
            && self.turn == other.turn
    }
}

impl Eq for Board {

}

impl vstd::std_specs::cmp::PartialEqSpecImpl for Board {
    open spec fn obeys_eq_spec() -> bool {
        true
    }

    open spec fn eq_spec(&self, other: &Board) -> bool {
        self@ == other@
    }
}

impl Default for Board {
    fn default() -> (board: Board)
        ensures
            board@ == start_position(),
    {
        Board {
            player_board: START_MOVER,
            opponent_board: START_OPPONENT,
            turn: Turn::Black,
            legal_moves_cache: None,
        }
    }
}

impl Board {
    /// What a board remembers of its legal moves is true of its position.
    #[verifier::type_invariant]
    closed spec fn cache_holds(self) -> bool {
        self.legal_moves_cache matches Some(moves) ==> moves == legal_mask(
            self.player_board,
            self.opponent_board,
        )
    }

    /// A board at the start of a game.
    pub fn new() -> (board: Board)
        ensures
            board@ == start_position(),
    {
        Board {
            player_board: START_MOVER,
            opponent_board: START_OPPONENT,
            turn: Turn::Black,
            legal_moves_cache: None,
        }
    }

    /// The mover's mask, the opponent's mask and the side to move.
    pub fn get_board(&self) -> (state: (u64, u64, Turn))
        ensures
            state == (self@.mover, self@.opponent, self@.turn),
    {
        (self.player_board, self.opponent_board, self.turn)
    }

    /// Whether no cell holds a stone of both sides.
    pub fn is_valid(&self) -> (valid: bool)
        ensures
            valid == self@.is_valid(),
    {
        self.player_board & self.opponent_board == 0
    }

    /// The side to move.
    pub fn get_turn(&self) -> (turn: Turn)
        ensures
            turn == self@.turn,
    {
        self.turn
    }

    /// Replaces the position.
    pub fn set_board(&mut self, player_board: u64, opponent_board: u64, turn: Turn)
        ensures
            final(self)@ == (Position { mover: player_board, opponent: opponent_board, turn }),
    {
        *self = Board { player_board, opponent_board, turn, legal_moves_cache: None };
    }

    /// The number of the mover's stones.
    pub fn player_piece_num(&self) -> (n: i32)
        ensures
            n == self@.mover_count(),
            0 <= n <= 64,
    {
        proof {
            crate::bits::lemma_count_bound(self.player_board, 64);
        }
        self.player_board.count_ones() as i32
    }

    /// The number of the opponent's stones.
    pub fn opponent_piece_num(&self) -> (n: i32)
        ensures
            n == self@.opponent_count(),
            0 <= n <= 64,
    {
        proof {
            crate::bits::lemma_count_bound(self.opponent_board, 64);
        }
        self.opponent_board.count_ones() as i32
    }

    /// The legal moves of the side to move, as a mask.
    pub fn get_legal_moves(&mut self) -> (moves: u64)
        ensures
            moves == old(self)@.legal_moves(),
            final(self)@ == old(self)@,
    {
        proof {
            use_type_invariant(&*self);
        }
        if let Some(legal_moves) = self.legal_moves_cache {
            return legal_moves;
        }
        let legal_moves = legal_moves_scalar(self.player_board, self.opponent_board);
        self.legal_moves_cache = Some(legal_moves);
        legal_moves
    }
    /// The number of Black's stones.
    pub fn black_piece_num(&self) -> (n: i32)
        ensures
            n == self@.black_count(),
    {
        if self.turn == Turn::Black {
            self.player_piece_num()
        } else {
            self.opponent_piece_num()
        }
    }

    /// The number of White's stones.
    pub fn white_piece_num(&self) -> (n: i32)
        ensures
            n == self@.white_count(),
    {
        if self.turn == Turn::White {
            self.player_piece_num()
        } else {
            self.opponent_piece_num()
        }
    }

    /// The number of stones on the board, a cell that both sides claim
    /// counted twice.
    pub fn piece_sum(&self) -> (n: i32)
        ensures
            n == self@.mover_count() + self@.opponent_count(),
    {
        self.player_piece_num() + self.opponent_piece_num()
    }

    /// How many stones the mover has more than the opponent.
    pub fn diff_piece_num(&self) -> (n: i32)
        ensures
            n == self@.mover_count() - self@.opponent_count(),
    {
        self.player_piece_num() - self.opponent_piece_num()
    }

    /// Whether `pos` is a legal move.
    pub fn is_legal_move(&mut self, pos: usize) -> (legal: bool)
        requires
            pos < 64,
        ensures
            legal == old(self)@.is_legal(pos as int),
            final(self)@ == old(self)@,
    {
        proof {
            lemma_mask_where(|cell: int| legal_at(self@.mover, self@.opponent, cell));
            crate::bits::lemma_cell_test(self@.legal_moves(), pos as int);
        }
        self.get_legal_moves() & bit_of(pos) != 0
    }

    /// Places a stone of the mover on the cell of `pos` and flips what it
    /// outflanks. The side to move stays the same.
    pub fn reverse(&mut self, pos: u64)
        requires
            exists|cell: int| 0 <= cell < 64 && pos == cell_mask(cell),
        ensures
            forall|cell: int|
                0 <= cell < 64 && pos == cell_mask(cell) ==> final(self)@ == old(self)@.placed(
                    cell,
                ),
    {
        let ghost origin = choose|cell: int| 0 <= cell < 64 && pos == cell_mask(cell);
        proof {
            assert forall|cell: int| 0 <= cell < 64 && pos == cell_mask(cell) implies cell
                == origin by {
                crate::bits::lemma_cell_mask_injective(cell, origin);
            }
        }
        let reversed = flips_from(self.player_board, self.opponent_board, pos, Ghost(origin));
        *self = Board {
            player_board: self.player_board ^ (reversed | pos),
            opponent_board: self.opponent_board ^ reversed,
            turn: self.turn,
            legal_moves_cache: None,
        };
    }

    /// Plays on `pos`: places a stone of the mover there, flips what it
    /// outflanks, and hands the move to the other side.
    pub fn do_move(&mut self, pos: usize) -> (result: Result<(), BoardError>)
        ensures
            result == (if pos >= 64 {
                Err::<(), BoardError>(BoardError::InvalidPosition)
            } else if !old(self)@.is_legal(pos as int) {
                Err(BoardError::InvalidMove)
            } else {
                Ok(())
            }),
            result is Ok ==> final(self)@ == old(self)@.after_move(pos as int),
            result is Err ==> final(self)@ == old(self)@,
    {
        if pos >= 64 {
            return Err(BoardError::InvalidPosition);
        }
        let pos_bit = bit_of(pos);
        if self.is_legal_move(pos) {
            self.reverse(pos_bit);
            *self = Board {
                player_board: self.opponent_board,
                opponent_board: self.player_board,
                turn: self.turn.opposite(),
                legal_moves_cache: None,
            };
        } else {
            return Err(BoardError::InvalidMove);
        }
        Ok(())
    }

    /// Hands the move to the other side without placing a stone.
    pub fn do_pass(&mut self) -> (result: Result<(), BoardError>)
        ensures
            result == (if old(self)@.must_pass() && !old(self)@.is_terminal() {
                Ok::<(), BoardError>(())
            } else {
                Err(BoardError::InvalidPass)
            }),
            result is Ok ==> final(self)@ == old(self)@.swapped(),
            result is Err ==> final(self)@ == old(self)@,
    {
        if !self.is_pass() || self.is_game_over() {
            return Err(BoardError::InvalidPass);
        }
        *self = Board {
            player_board: self.opponent_board,
            opponent_board: self.player_board,
            turn: self.turn.opposite(),
            legal_moves_cache: None,
        };
        Ok(())
    }

    /// Whether the side to move has no legal move.
    pub fn is_pass(&self) -> (pass: bool)
        ensures
            pass == self@.must_pass(),
    {
        proof {
            use_type_invariant(self);
            lemma_pass_by_lines(self.player_board, self.opponent_board);
        }
        if let Some(legal_moves) = self.legal_moves_cache {
            return legal_moves == 0;
        }
        let mask_v: u64 = self.opponent_board & INNER_COLUMNS;
        let mask_h: u64 = self.opponent_board & INNER_ROWS;
        let mask_a: u64 = self.opponent_board & INNER_CELLS;
        let empty: u64 = !(self.player_board | self.opponent_board);
        if get_legal_partial(mask_v, self.player_board, 1) & empty != 0 {
            return false;
        }
        if get_legal_partial(mask_h, self.player_board, 8) & empty != 0 {
            return false;
        }
        if get_legal_partial(mask_a, self.player_board, 9) & empty != 0 {
            return false;
        }
        if get_legal_partial(mask_a, self.player_board, 7) & empty != 0 {
            return false;
        }
        true
    }

    /// Whether the game has ended: neither side has a legal move.
    pub fn is_game_over(&self) -> (over: bool)
        ensures
            over == self@.is_terminal(),
    {
        if self.is_pass() {
            let opponent_board = Board {
                player_board: self.opponent_board,
                opponent_board: self.player_board,
                turn: self.turn.opposite(),
                legal_moves_cache: None,
            };
            if opponent_board.is_pass() {
                return true;
            }
        }
        false
    }

    /// Whether the mover has won the game that has ended.
    pub fn is_win(&self) -> (result: Result<bool, BoardError>)
        ensures
            result == (if self@.is_terminal() {
                Ok::<bool, BoardError>(self@.mover_count() > self@.opponent_count())
            } else {
                Err(BoardError::GameNotOverYet)
            }),
    {
        if self.is_game_over() {
            Ok(self.player_piece_num() > self.opponent_piece_num())
        } else {
            Err(BoardError::GameNotOverYet)
        }
    }

    /// Whether the mover has lost the game that has ended.
    pub fn is_lose(&self) -> (result: Result<bool, BoardError>)
        ensures
            result == (if self@.is_terminal() {
                Ok::<bool, BoardError>(self@.mover_count() < self@.opponent_count())
            } else {
                Err(BoardError::GameNotOverYet)
            }),
    {
        if self.is_game_over() {
            Ok(self.player_piece_num() < self.opponent_piece_num())
        } else {
            Err(BoardError::GameNotOverYet)
        }
    }

    /// Whether the game that has ended is a draw.
    pub fn is_draw(&self) -> (result: Result<bool, BoardError>)
        ensures
            result == (if self@.is_terminal() {
                Ok::<bool, BoardError>(self@.mover_count() == self@.opponent_count())
            } else {
                Err(BoardError::GameNotOverYet)
            }),
    {
        if self.is_game_over() {
            Ok(self.player_piece_num() == self.opponent_piece_num())
        } else {
            Err(BoardError::GameNotOverYet)
        }
    }

    /// Whether Black has won the game that has ended.
    pub fn is_black_win(&self) -> (result: Result<bool, BoardError>)
        ensures
            result == (if self@.is_terminal() {
                Ok::<bool, BoardError>(self@.black_count() > self@.white_count())
            } else {
                Err(BoardError::GameNotOverYet)
            }),
    {
        if self.is_game_over() {
            Ok(self.black_piece_num() > self.white_piece_num())
        } else {
            Err(BoardError::GameNotOverYet)
        }
    }

    /// Whether White has won the game that has ended.
    pub fn is_white_win(&self) -> (result: Result<bool, BoardError>)
        ensures
            result == (if self@.is_terminal() {
                Ok::<bool, BoardError>(self@.white_count() > self@.black_count())
            } else {
                Err(BoardError::GameNotOverYet)
            }),
    {
        if self.is_game_over() {
            Ok(self.white_piece_num() > self.black_piece_num())
        } else {
            Err(BoardError::GameNotOverYet)
        }
    }

    /// The side that has won the game that has ended; `None` for a draw.
    pub fn get_winner(&self) -> (result: Result<Option<Turn>, BoardError>)
        ensures
            result == (if self@.is_terminal() {
                Ok::<Option<Turn>, BoardError>(self@.winner())
            } else {
                Err(BoardError::GameNotOverYet)
            }),
    {
        if self.is_game_over() {
            if self.player_piece_num() > self.opponent_piece_num() {
                Ok(Some(self.turn))
            } else if self.player_piece_num() < self.opponent_piece_num() {
                Ok(Some(self.turn.opposite()))
            } else {
                Ok(None)
            }
        } else {
            Err(BoardError::GameNotOverYet)
        }
    }
    /// The legal moves of the side to move, in ascending order.
    pub fn get_legal_moves_vec(&mut self) -> (moves: StackVec64<usize>)
        ensures
            moves@ == cells_of(old(self)@.legal_moves()),
            final(self)@ == old(self)@,
    {
        let legal_moves = self.get_legal_moves();
        let mut legal_moves_vec: StackVec64<usize> = StackVec64::new();
        let mut i: usize = 0;
        while i < 64
            invariant
                i <= 64,
                legal_moves_vec@ == cells_upto(legal_moves, i as nat),
            decreases 64 - i,
        {
            proof {
                lemma_cells_upto(legal_moves, i as nat);
                lemma_cell_test(legal_moves, i as int);
            }
            if legal_moves & bit_of(i) != 0 {
                legal_moves_vec.push(i);
            }
            i += 1;
        }
        legal_moves_vec
    }

    /// For each cell, in row-major order, whether it is a legal move.
    pub fn get_legal_moves_tf(&mut self) -> (legal: Vec<bool>)
        ensures
            legal@ == Seq::new(64, |cell: int| old(self)@.is_legal(cell)),
            final(self)@ == old(self)@,
    {
        let ghost pos = self@;
        let legal_moves = self.get_legal_moves();
        let mut legal_moves_tf: Vec<bool> = Vec::with_capacity(64);
        let mut i: usize = 0;
        while i < 64
            invariant
                i <= 64,
                legal_moves == pos.legal_moves(),
                legal_moves_tf@ == Seq::new(64, |cell: int| pos.is_legal(cell)).subrange(
                    0,
                    i as int,
                ),
            decreases 64 - i,
        {
            proof {
                lemma_mask_where(|cell: int| legal_at(pos.mover, pos.opponent, cell));
                lemma_cell_test(legal_moves, i as int);
            }
            legal_moves_tf.push(legal_moves & bit_of(i) != 0);
            i += 1;
            assert(legal_moves_tf@ =~= Seq::new(64, |cell: int| pos.is_legal(cell)).subrange(
                0,
                i as int,
            ));
        }
        assert(legal_moves_tf@ =~= Seq::new(64, |cell: int| pos.is_legal(cell)));
        legal_moves_tf
    }

    /// The boards after each legal move, in ascending order of the moves;
    /// `None` where the side to move has no legal move.
    pub fn get_child_boards(&mut self) -> (children: Option<Vec<Board>>)
        ensures
            final(self)@ == old(self)@,
            old(self)@.must_pass() ==> children is None,
            !old(self)@.must_pass() ==> children is Some && are_children(
                old(self)@,
                children->Some_0@,
                64,
            ),
    {
        if self.is_pass() {
            return None;
        }
        let ghost pos = self@;
        let legal_moves = self.get_legal_moves();
        let mut child_boards: Vec<Board> = Vec::new();
        let mut i: usize = 0;
        while i < 64
            invariant
                i <= 64,
                self@ == pos,
                legal_moves == pos.legal_moves(),
                are_children(pos, child_boards@, i as nat),
            decreases 64 - i,
        {
            proof {
                lemma_mask_where(|cell: int| legal_at(pos.mover, pos.opponent, cell));
                lemma_cell_test(legal_moves, i as int);
            }
            if legal_moves & bit_of(i) != 0 {
                let mut child_board = *self;
                let moved = child_board.do_move(i);
                assert(moved is Ok);
                child_boards.push(child_board);
            }
            i += 1;
        }
        Some(child_boards)
    }

    /// The legal move at the place `sample % n` of the `n` legal moves in
    /// ascending order.
    pub fn choose_move(&mut self, sample: usize) -> (result: Result<usize, BoardError>)
        ensures
            final(self)@ == old(self)@,
            old(self)@.must_pass() ==> result == Err::<usize, BoardError>(BoardError::NoLegalMove),
            !old(self)@.must_pass() ==> result == Ok::<usize, BoardError>(
                cells_of(old(self)@.legal_moves())[sample as int % cells_of(
                    old(self)@.legal_moves(),
                ).len() as int],
            ),
            !old(self)@.must_pass() ==> old(self)@.is_legal(result->Ok_0 as int),
    {
        let legal_moves = self.get_legal_moves();
        proof {
            lemma_cells_of(legal_moves);
        }
        if legal_moves == 0 {
            return Err(BoardError::NoLegalMove);
        }
        let random_index = sample % (legal_moves.count_ones() as usize);
        proof {
            lemma_mask_where(|x: int| legal_at(self@.mover, self@.opponent, x));
        }
        Ok(nth_cell(legal_moves, random_index))
    }

    /// A legal move drawn at random, each with the same chance.
    pub fn get_random_move(&mut self) -> (result: Result<usize, BoardError>)
        ensures
            final(self)@ == old(self)@,
            old(self)@.must_pass() ==> result == Err::<usize, BoardError>(BoardError::NoLegalMove),
            !old(self)@.must_pass() ==> result is Ok && old(self)@.is_legal(
                result->Ok_0 as int,
            ),
    {
        self.choose_move(random_usize())
    }
}

/// `children` holds the boards after the legal moves of `pos` among the
/// cells `0..upto`, in ascending order of the moves.
pub open spec fn are_children(pos: Position, children: Seq<Board>, upto: nat) -> bool {
    let moves = cells_upto(pos.legal_moves(), upto);
    &&& children.len() == moves.len()
    &&& forall|i: int|
        0 <= i < children.len() ==> (#[trigger] children[i])@ == pos.after_move(moves[i] as int)
}

/// A legal move on a valid position leads to a valid position.
pub proof fn lemma_move_keeps_valid(pos: Position, cell: int)
    requires
        pos.is_valid(),
        pos.is_legal(cell),
    ensures
        pos.after_move(cell).is_valid(),
{
    broadcast use crate::bits::group_cell_ops;

    let flips = flip_mask(pos.mover, pos.opponent, cell);
    let next = pos.after_move(cell);
    crate::rules::lemma_flips_are_opponent(pos.mover, pos.opponent, cell);
    crate::bits::lemma_mask_empty(pos.mover & pos.opponent);
    crate::bits::lemma_mask_empty(next.mover & next.opponent);
    assert forall|x: int| 0 <= x < 64 implies !has_cell(next.mover & next.opponent, x) by {
        assert(!has_cell(pos.mover & pos.opponent, x));
        assert(has_cell(flips, x) ==> has_cell(pos.opponent, x));
    }
}

/// Swapping the sides keeps a position valid.
pub proof fn lemma_swap_keeps_valid(pos: Position)
    requires
        pos.is_valid(),
    ensures
        pos.swapped().is_valid(),
{
    let a = pos.mover;
    let b = pos.opponent;
    assert(b & a == a & b) by (bit_vector);
}

/// A legal move on a valid position fills one empty cell.
pub proof fn lemma_move_fills(pos: Position, cell: int)
    requires
        pos.is_valid(),
        pos.is_legal(cell),
    ensures
        pos.after_move(cell).empty_count() == pos.empty_count() - 1,
        pos.swapped().empty_count() == pos.empty_count(),
{
    broadcast use crate::bits::group_cell_ops;

    let flips = flip_mask(pos.mover, pos.opponent, cell);
    let next = pos.after_move(cell);
    let before = !(pos.mover | pos.opponent);
    let after = !(next.mover | next.opponent);
    crate::rules::lemma_flips_are_opponent(pos.mover, pos.opponent, cell);
    crate::bits::lemma_mask_empty(pos.mover & pos.opponent);
    assert forall|x: int| 0 <= x < 64 implies has_cell(before, x) == (has_cell(after, x) || x
        == cell) by {
        assert(!has_cell(pos.mover & pos.opponent, x));
        assert(has_cell(flips, x) ==> has_cell(pos.opponent, x));
    }
    assert(!has_cell(after, cell));
    crate::bits::lemma_count_one_more(before, after, cell, 64);
    let a = pos.mover;
    let b = pos.opponent;
    assert(b | a == a | b) by (bit_vector);
}

/// One more step at the end of a line of play.
pub proof fn lemma_leads_on(from: Position, to: Position, next: Position, steps: nat)
    requires
        from.leads_to(to, steps),
        to.steps_to(next),
    ensures
        from.leads_to(next, steps + 1),
    decreases steps,
{
    if steps == 0 {
        assert(is_next(next, 0) && from.steps_to(next) && next.leads_to(next, 0));
    } else {
        let (second, rest) = choose|second: Position, rest: nat|
            #[trigger] is_next(second, rest) && rest + 1 == steps && from.steps_to(second)
                && second.leads_to(to, rest);
        lemma_leads_on(second, to, next, rest);
        assert(is_next(second, steps) && from.steps_to(second) && second.leads_to(next, steps));
    }
}

/// At the start of a game no cell holds two stones, and the mover has four
/// legal moves: the cells 19, 26, 37 and 44.
pub proof fn lemma_start_moves()
    ensures
        start_position().is_valid(),
        start_position().legal_moves() == 0x0000_1020_0408_0000,
{
    lemma_scalar_moves(START_MOVER, START_OPPONENT);
    assert(scalar_moves(0x0000_0008_1000_0000, 0x0000_0010_0800_0000) == 0x0000_1020_0408_0000)
        by (bit_vector);
    assert(0x0000_0008_1000_0000u64 & 0x0000_0010_0800_0000u64 == 0) by (bit_vector);
}

/// What a legal move on a valid position does to the numbers of stones: it
/// flips at least one stone; the side that has moved gains the stone that
/// it placed and the stones that it flipped, and the other side loses the
/// stones that were flipped.
pub proof fn lemma_move_counts(pos: Position, cell: int)
    requires
        pos.is_valid(),
        pos.is_legal(cell),
    ensures
        count_cells(flip_mask(pos.mover, pos.opponent, cell)) >= 1,
        pos.after_move(cell).opponent_count() == pos.mover_count() + count_cells(
            flip_mask(pos.mover, pos.opponent, cell),
        ) + 1,
        pos.after_move(cell).mover_count() == pos.opponent_count() - count_cells(
            flip_mask(pos.mover, pos.opponent, cell),
        ),
{
    broadcast use crate::bits::group_cell_ops;

    let flips = flip_mask(pos.mover, pos.opponent, cell);
    let next = pos.after_move(cell);
    crate::rules::lemma_flips_are_opponent(pos.mover, pos.opponent, cell);
    crate::rules::lemma_legal_move_flips(pos.mover, pos.opponent, cell);
    crate::bits::lemma_mask_empty(pos.mover & pos.opponent);
    crate::bits::lemma_cells_of(flips);
    assert forall|x: int| 0 <= x < 64 implies !(has_cell(pos.mover, x) && has_cell(
        pos.opponent,
        x,
    )) by {
        assert(!has_cell(pos.mover & pos.opponent, x));
    }
    // the side that was moved against: its stones but the flipped ones
    crate::bits::lemma_count_parts(pos.opponent, next.mover, flips, 64);
    // the side that has moved: its stones, the flipped ones, the placed one
    let gained = flips | cell_mask(cell);
    crate::bits::lemma_count_parts(gained, flips, cell_mask(cell), 64);
    crate::bits::lemma_count_single(cell, 64);
    crate::bits::lemma_count_parts(next.opponent, pos.mover, gained, 64);
}

} // verus!
