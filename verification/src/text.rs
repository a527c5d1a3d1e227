//! The text forms of a position: the line of 64 symbols, and the grid.

use crate::bits::{
    bit_of, cell_mask, group_cell_ops, has_cell, lemma_cell_test, lemma_mask_where,
    lemma_masks_equal, mask_where,
};
use crate::board::{Board, BoardError, Color, Position, Turn};
use vstd::prelude::*;
use vstd::string::StrSliceExecFns;
use vstd::string::StringExecFns;

verus! {

/// The symbol of a stone of Black.
pub const LINE_CHAR_BLACK: char = 'X';

/// The symbol of a stone of White.
pub const LINE_CHAR_WHITE: char = 'O';

/// The symbol of an empty cell.
pub const LINE_CHAR_EMPTY: char = '-';

/// The symbol of the stones of `turn`.
pub open spec fn symbol_of(turn: Turn) -> char {
    match turn {
        Turn::Black => 'X',
        Turn::White => 'O',
    }
}

/// Whether `c` is one of the three symbols of a line.
pub open spec fn is_symbol(c: char) -> bool {
    c == 'X' || c == 'O' || c == '-'
}

/// Every character of `text` is one of the three symbols.
pub open spec fn all_symbols(text: Seq<char>) -> bool {
    forall|i: int| 0 <= i < text.len() ==> is_symbol(#[trigger] text[i])
}

/// The symbol that stands for `cell` in the line of `pos`.
pub open spec fn cell_symbol(pos: Position, cell: int) -> char {
    if has_cell(pos.mover, cell) {
        symbol_of(pos.turn)
    } else if has_cell(pos.opponent, cell) {
        symbol_of(pos.turn.other())
    } else {
        '-'
    }
}

/// The line of a position: one symbol for each cell, in row-major order.
pub open spec fn line_of(pos: Position) -> Seq<char> {
    Seq::new(64, |cell: int| cell_symbol(pos, cell))
}

/// Whether `text` shows `symbol` at `cell`.
pub open spec fn shows(text: Seq<char>, symbol: char, cell: int) -> bool {
    0 <= cell < text.len() && text[cell] == symbol
}

/// The cells of the board at which `text` shows `symbol`.
pub open spec fn stones_in(text: Seq<char>, symbol: char) -> u64 {
    mask_where(|cell: int| shows(text, symbol, cell))
}

/// The position that `text` shows, with `turn` to move.
pub open spec fn position_of(text: Seq<char>, turn: Turn) -> Position {
    Position {
        mover: stones_in(text, symbol_of(turn)),
        opponent: stones_in(text, symbol_of(turn.other())),
        turn,
    }
}

/// What the cell holds, the mover's stones shown as Black.
pub open spec fn color_for_mover(pos: Position, cell: int) -> Color {
    if has_cell(pos.mover, cell) {
        Color::Black
    } else if has_cell(pos.opponent, cell) {
        Color::White
    } else {
        Color::Empty
    }
}

/// The colour of the stones of `turn`.
pub open spec fn color_of(turn: Turn) -> Color {
    match turn {
        Turn::Black => Color::Black,
        Turn::White => Color::White,
    }
}

/// What the cell holds, each stone shown in its own colour.
pub open spec fn color_at(pos: Position, cell: int) -> Color {
    if has_cell(pos.mover, cell) {
        color_of(pos.turn)
    } else if has_cell(pos.opponent, cell) {
        color_of(pos.turn.other())
    } else {
        Color::Empty
    }
}

/// The label of row `row` in the grid.
pub open spec fn row_label(row: int) -> char {
    if row == 0 {
        '1'
    } else if row == 1 {
        '2'
    } else if row == 2 {
        '3'
    } else if row == 3 {
        '4'
    } else if row == 4 {
        '5'
    } else if row == 5 {
        '6'
    } else if row == 6 {
        '7'
    } else {
        '8'
    }
}

/// One row of the grid: its label, a bar, its eight symbols, a line feed.
pub open spec fn grid_row(pos: Position, row: int) -> Seq<char> {
    seq![row_label(row), '|'] + line_of(pos).subrange(row * 8, row * 8 + 8) + seq!['\n']
}

/// The first `rows` rows of the grid, under its two header lines.
pub open spec fn grid_upto(pos: Position, rows: nat) -> Seq<char>
    decreases rows,
{
    if rows == 0 {
        " |abcdefgh\n-+--------\n"@
    } else {
        grid_upto(pos, (rows - 1) as nat) + grid_row(pos, rows - 1)
    }
}

/// The grid of a position.
pub open spec fn grid_of(pos: Position) -> Seq<char> {
    grid_upto(pos, 8)
}

/// A position is valid exactly when no cell is held by both sides.
pub proof fn lemma_valid_cells(pos: Position)
    ensures
        pos.is_valid() == (forall|cell: int|
            0 <= cell < 64 ==> !(has_cell(pos.mover, cell) && has_cell(pos.opponent, cell))),
{
    broadcast use group_cell_ops;

    crate::bits::lemma_mask_empty(pos.mover & pos.opponent);
    if pos.is_valid() {
        assert forall|cell: int| 0 <= cell < 64 implies !(has_cell(pos.mover, cell) && has_cell(
            pos.opponent,
            cell,
        )) by {
            assert(!has_cell(pos.mover & pos.opponent, cell));
        }
    }
}

/// Which cells `stones_in` holds.
pub proof fn lemma_stones_in(text: Seq<char>, symbol: char)
    ensures
        forall|cell: int| #[trigger]
            has_cell(stones_in(text, symbol), cell) == (0 <= cell < 64 && cell < text.len()
                && text[cell] == symbol),
{
    lemma_mask_where(|cell: int| shows(text, symbol, cell));
}

/// Reading the line of a valid position gives the position back.
pub proof fn lemma_decode_encode(pos: Position)
    requires
        pos.is_valid(),
    ensures
        all_symbols(line_of(pos)),
        line_of(pos).len() == 64,
        position_of(line_of(pos), pos.turn) == pos,
{
    let text = line_of(pos);
    let mine = symbol_of(pos.turn);
    let theirs = symbol_of(pos.turn.other());
    lemma_valid_cells(pos);
    lemma_stones_in(text, mine);
    lemma_stones_in(text, theirs);
    assert forall|cell: int| 0 <= cell < 64 implies has_cell(stones_in(text, mine), cell)
        == has_cell(pos.mover, cell) by {
        assert(text[cell] == cell_symbol(pos, cell));
    }
    assert forall|cell: int| 0 <= cell < 64 implies has_cell(stones_in(text, theirs), cell)
        == has_cell(pos.opponent, cell) by {
        assert(text[cell] == cell_symbol(pos, cell));
    }
    lemma_masks_equal(stones_in(text, mine), pos.mover);
    lemma_masks_equal(stones_in(text, theirs), pos.opponent);
}

/// A text of 64 symbols shows a valid position, and the line of that
/// position is the text.
pub proof fn lemma_encode_decode(text: Seq<char>, turn: Turn)
    requires
        text.len() == 64,
        all_symbols(text),
    ensures
        position_of(text, turn).is_valid(),
        line_of(position_of(text, turn)) == text,
{
    let pos = position_of(text, turn);
    lemma_decode_valid(text, turn);
    lemma_stones_in(text, symbol_of(turn));
    lemma_stones_in(text, symbol_of(turn.other()));
    assert forall|cell: int| 0 <= cell < 64 implies line_of(pos)[cell] == text[cell] by {
        assert(is_symbol(text[cell]));
        assert(line_of(pos)[cell] == cell_symbol(pos, cell));
    }
    assert(line_of(pos) =~= text);
}

/// Whatever a text shows, no cell of it holds a stone of both sides.
pub proof fn lemma_decode_valid(text: Seq<char>, turn: Turn)
    ensures
        position_of(text, turn).is_valid(),
{
    let pos = position_of(text, turn);
    lemma_stones_in(text, symbol_of(turn));
    lemma_stones_in(text, symbol_of(turn.other()));
    lemma_valid_cells(pos);
}

/// `String::push` appends one character to the string.
pub assume_specification[ String::push ](s: &mut String, c: char)
    ensures
        final(s)@ == old(s)@.push(c),
;

/// The entry for `cell` in one plane of the matrix of a position: plane 0
/// marks the mover's stones with 1, plane 1 the opponent's, plane 2 the
/// empty cells; all other entries are 0.
pub open spec fn plane_value(pos: Position, plane: int, cell: int) -> i32 {
    if plane == 0 {
        if has_cell(pos.mover, cell) {
            1
        } else {
            0
        }
    } else if plane == 1 {
        if has_cell(pos.opponent, cell) {
            1
        } else {
            0
        }
    } else {
        if !has_cell(pos.mover, cell) && !has_cell(pos.opponent, cell) {
            1
        } else {
            0
        }
    }
}

/// What `cell` holds on a board, as the two tests of its bit show it.
enum Holder {
    Nobody,
    Mover,
    Opponent,
    Both,
}

/// The symbol under which the grid lists row `row`.
fn label_of(row: usize) -> (label: char)
    requires
        row < 8,
    ensures
        label == row_label(row as int),
{
    if row == 0 {
        '1'
    } else if row == 1 {
        '2'
    } else if row == 2 {
        '3'
    } else if row == 3 {
        '4'
    } else if row == 4 {
        '5'
    } else if row == 5 {
        '6'
    } else if row == 6 {
        '7'
    } else {
        '8'
    }
}

fn char_of(turn: Turn) -> (symbol: char)
    ensures
        symbol == symbol_of(turn),
{
    match turn {
        Turn::Black => LINE_CHAR_BLACK,
        Turn::White => LINE_CHAR_WHITE,
    }
}

impl Board {
    /// Who holds `cell`.
    fn holder(&self, cell: usize) -> (holder: Holder)
        requires
            cell < 64,
        ensures
            holder == (if has_cell(self@.mover, cell as int) {
                if has_cell(self@.opponent, cell as int) {
                    Holder::Both
                } else {
                    Holder::Mover
                }
            } else if has_cell(self@.opponent, cell as int) {
                Holder::Opponent
            } else {
                Holder::Nobody
            }),
    {
        let (player_board, opponent_board, _turn) = self.get_board();
        let bit = bit_of(cell);
        proof {
            lemma_cell_test(player_board, cell as int);
            lemma_cell_test(opponent_board, cell as int);
        }
        if player_board & bit == 0 {
            if opponent_board & bit == 0 {
                Holder::Nobody
            } else {
                Holder::Opponent
            }
        } else if opponent_board & bit == 0 {
            Holder::Mover
        } else {
            Holder::Both
        }
    }

    /// Replaces the position by the one that `board_str` shows, with `turn`
    /// to move. The text lists the cells in row-major order: `X` for a
    /// stone of Black, `O` for a stone of White, `-` for an empty cell.
    /// Cells that a text of fewer than 64 symbols does not list are empty.
    pub fn set_board_str(&mut self, board_str: &str, turn: Turn) -> (result: Result<
        (),
        BoardError,
    >)
        requires
            board_str@.len() <= 64,
        ensures
            result == (if all_symbols(board_str@) {
                Ok::<(), BoardError>(())
            } else {
                Err(BoardError::InvalidCharactor)
            }),
            result is Ok ==> final(self)@ == position_of(board_str@, turn),
            result is Err ==> final(self)@ == old(self)@,
    {
        broadcast use group_cell_ops;

        let ghost text = board_str@;
        let n = board_str.unicode_len();
        let mut black_board: u64 = 0;
        let mut white_board: u64 = 0;
        let mut i: usize = 0;
        while i < n
            invariant
                i <= n,
                n == text.len(),
                n <= 64,
                text == board_str@,
                forall|j: int| 0 <= j < i ==> is_symbol(#[trigger] text[j]),
                forall|x: int| #[trigger]
                    has_cell(black_board, x) == (0 <= x < i && text[x] == 'X'),
                forall|x: int| #[trigger]
                    has_cell(white_board, x) == (0 <= x < i && text[x] == 'O'),
            decreases n - i,
        {
            broadcast use group_cell_ops;

            let c = board_str.get_char(i);
            let ghost black_before = black_board;
            let ghost white_before = white_board;
            if c == LINE_CHAR_BLACK {
                black_board |= bit_of(i);
            } else if c == LINE_CHAR_WHITE {
                white_board |= bit_of(i);
            } else if c == LINE_CHAR_EMPTY {
            } else {
                assert(!is_symbol(text[i as int]));
                return Err(BoardError::InvalidCharactor);
            }
            assert forall|x: int| #[trigger]
                has_cell(black_board, x) == (0 <= x < i + 1 && text[x] == 'X') by {
                assert(has_cell(black_before | cell_mask(i as int), x) == (has_cell(
                    black_before,
                    x,
                ) || has_cell(cell_mask(i as int), x)));
            }
            assert forall|x: int| #[trigger]
                has_cell(white_board, x) == (0 <= x < i + 1 && text[x] == 'O') by {
                assert(has_cell(white_before | cell_mask(i as int), x) == (has_cell(
                    white_before,
                    x,
                ) || has_cell(cell_mask(i as int), x)));
            }
            i += 1;
        }
        proof {
            lemma_stones_in(text, 'X');
            lemma_stones_in(text, 'O');
            lemma_masks_equal(black_board, stones_in(text, 'X'));
            lemma_masks_equal(white_board, stones_in(text, 'O'));
        }
        match turn {
            Turn::Black => self.set_board(black_board, white_board, Turn::Black),
            Turn::White => self.set_board(white_board, black_board, Turn::White),
        }
        Ok(())
    }

    /// The line of the position: 64 symbols in row-major order.
    pub fn get_board_line(&self) -> (result: Result<String, BoardError>)
        ensures
            self@.is_valid() ==> result is Ok && result->Ok_0@ == line_of(self@),
            !self@.is_valid() ==> result == Err::<String, BoardError>(BoardError::InvalidState),
    {
        proof {
            lemma_valid_cells(self@);
        }
        let mut board_str = String::new();
        let player_char = char_of(self.get_turn());
        let opponent_char = char_of(self.get_turn().opposite());
        let mut i: usize = 0;
        while i < 64
            invariant
                i <= 64,
                player_char == symbol_of(self@.turn),
                opponent_char == symbol_of(self@.turn.other()),
                board_str@ == line_of(self@).subrange(0, i as int),
                forall|cell: int|
                    0 <= cell < i ==> !(has_cell(self@.mover, cell) && has_cell(
                        self@.opponent,
                        cell,
                    )),
            decreases 64 - i,
        {
            let ghost before = board_str@;
            match self.holder(i) {
                Holder::Nobody => board_str.push(LINE_CHAR_EMPTY),
                Holder::Mover => board_str.push(player_char),
                Holder::Opponent => board_str.push(opponent_char),
                Holder::Both => {
                    proof {
                        lemma_valid_cells(self@);
                    }
                    assert(has_cell(self@.mover, i as int) && has_cell(self@.opponent, i as int));
                    return Err(BoardError::InvalidState);
                },
            }
            assert(board_str@ == before.push(cell_symbol(self@, i as int)));
            i += 1;
            assert(board_str@ =~= line_of(self@).subrange(0, i as int));
        }
        assert(board_str@ =~= line_of(self@));
        Ok(board_str)
    }

    /// What each cell holds, in row-major order, the mover's stones shown
    /// as Black and the opponent's as White.
    pub fn get_board_vec_black(&self) -> (result: Result<Vec<Color>, BoardError>)
        ensures
            self@.is_valid() ==> result is Ok && result->Ok_0@ == Seq::new(
                64,
                |cell: int| color_for_mover(self@, cell),
            ),
            !self@.is_valid() ==> result == Err::<Vec<Color>, BoardError>(
                BoardError::InvalidState,
            ),
    {
        proof {
            lemma_valid_cells(self@);
        }
        let ghost all = Seq::new(64, |cell: int| color_for_mover(self@, cell));
        let mut board_vec: Vec<Color> = Vec::with_capacity(64);
        let mut i: usize = 0;
        while i < 64
            invariant
                i <= 64,
                all == Seq::new(64, |cell: int| color_for_mover(self@, cell)),
                board_vec@ == all.subrange(0, i as int),
                forall|cell: int|
                    0 <= cell < i ==> !(has_cell(self@.mover, cell) && has_cell(
                        self@.opponent,
                        cell,
                    )),
            decreases 64 - i,
        {
            let color = match self.holder(i) {
                Holder::Nobody => Color::Empty,
                Holder::Mover => Color::Black,
                Holder::Opponent => Color::White,
                Holder::Both => {
                    proof {
                        lemma_valid_cells(self@);
                    }
                    assert(has_cell(self@.mover, i as int) && has_cell(self@.opponent, i as int));
                    return Err(BoardError::InvalidState);
                },
            };
            board_vec.push(color);
            i += 1;
            assert(board_vec@ =~= all.subrange(0, i as int));
        }
        assert(board_vec@ =~= all);
        Ok(board_vec)
    }

    /// What each cell holds, in row-major order, each stone in its own
    /// colour.
    pub fn get_board_vec_turn(&self) -> (result: Result<Vec<Color>, BoardError>)
        ensures
            self@.is_valid() ==> result is Ok && result->Ok_0@ == Seq::new(
                64,
                |cell: int| color_at(self@, cell),
            ),
            !self@.is_valid() ==> result == Err::<Vec<Color>, BoardError>(
                BoardError::InvalidState,
            ),
    {
        proof {
            lemma_valid_cells(self@);
        }
        let ghost all = Seq::new(64, |cell: int| color_at(self@, cell));
        let mut board_vec: Vec<Color> = Vec::with_capacity(64);
        let player_color = match self.get_turn() {
            Turn::Black => Color::Black,
            Turn::White => Color::White,
        };
        let opponent_color = player_color.opposite();
        let mut i: usize = 0;
        while i < 64
            invariant
                i <= 64,
                player_color == color_of(self@.turn),
                opponent_color == color_of(self@.turn.other()),
                all == Seq::new(64, |cell: int| color_at(self@, cell)),
                board_vec@ == all.subrange(0, i as int),
                forall|cell: int|
                    0 <= cell < i ==> !(has_cell(self@.mover, cell) && has_cell(
                        self@.opponent,
                        cell,
                    )),
            decreases 64 - i,
        {
            let color = match self.holder(i) {
                Holder::Nobody => Color::Empty,
                Holder::Mover => player_color,
                Holder::Opponent => opponent_color,
                Holder::Both => {
                    proof {
                        lemma_valid_cells(self@);
                    }
                    assert(has_cell(self@.mover, i as int) && has_cell(self@.opponent, i as int));
                    return Err(BoardError::InvalidState);
                },
            };
            board_vec.push(color);
            i += 1;
            assert(board_vec@ =~= all.subrange(0, i as int));
        }
        assert(board_vec@ =~= all);
        Ok(board_vec)
    }

    /// The grid of the position: two header lines, and a line for each row.
    pub fn to_string(&self) -> (result: Result<String, BoardError>)
        ensures
            self@.is_valid() ==> result is Ok && result->Ok_0@ == grid_of(self@),
            !self@.is_valid() ==> result == Err::<String, BoardError>(BoardError::InvalidState),
    {
        proof {
            lemma_valid_cells(self@);
        }
        let mut board_str = String::new();
        let player_char = char_of(self.get_turn());
        let opponent_char = char_of(self.get_turn().opposite());
        board_str.append(" |abcdefgh\n-+--------\n");
        assert(board_str@ =~= grid_upto(self@, 0));
        let mut i: usize = 0;
        while i < 8
            invariant
                i <= 8,
                player_char == symbol_of(self@.turn),
                opponent_char == symbol_of(self@.turn.other()),
                board_str@ == grid_upto(self@, i as nat),
                forall|cell: int|
                    0 <= cell < i * 8 ==> !(has_cell(self@.mover, cell) && has_cell(
                        self@.opponent,
                        cell,
                    )),
            decreases 8 - i,
        {
            let ghost rows = board_str@;
            board_str.push(label_of(i));
            board_str.push('|');
            let mut j: usize = 0;
            while j < 8
                invariant
                    i < 8,
                    j <= 8,
                    player_char == symbol_of(self@.turn),
                    opponent_char == symbol_of(self@.turn.other()),
                    board_str@ == rows + seq![row_label(i as int), '|'] + line_of(self@).subrange(
                        i * 8,
                        i * 8 + j,
                    ),
                    forall|cell: int|
                        0 <= cell < i * 8 + j ==> !(has_cell(self@.mover, cell) && has_cell(
                            self@.opponent,
                            cell,
                        )),
                decreases 8 - j,
            {
                let ghost before = board_str@;
                match self.holder(i * 8 + j) {
                    Holder::Nobody => board_str.push(LINE_CHAR_EMPTY),
                    Holder::Mover => board_str.push(player_char),
                    Holder::Opponent => board_str.push(opponent_char),
                    Holder::Both => {
                        proof {
                            lemma_valid_cells(self@);
                        }
                        assert(has_cell(self@.mover, i * 8 + j) && has_cell(
                            self@.opponent,
                            i * 8 + j,
                        ));
                        return Err(BoardError::InvalidState);
                    },
                }
                assert(board_str@ == before.push(cell_symbol(self@, i * 8 + j)));
                j += 1;
                assert(board_str@ =~= rows + seq![row_label(i as int), '|'] + line_of(
                    self@,
                ).subrange(i * 8, i * 8 + j));
            }
            board_str.push('\n');
            assert(board_str@ =~= rows + grid_row(self@, i as int));
            i += 1;
        }
        Ok(board_str)
    }
    /// The position as three planes of 8 rows of 8 entries: the mover's
    /// stones, the opponent's stones, the empty cells.
    pub fn get_board_matrix(&self) -> (result: Result<Vec<Vec<Vec<i32>>>, BoardError>)
        ensures
            self@.is_valid() ==> result is Ok && is_matrix_of(self@, result->Ok_0),
            !self@.is_valid() ==> result == Err::<Vec<Vec<Vec<i32>>>, BoardError>(
                BoardError::InvalidState,
            ),
    {
        let mut mine: Vec<Vec<i32>> = Vec::with_capacity(8);
        let mut theirs: Vec<Vec<i32>> = Vec::with_capacity(8);
        let mut empty: Vec<Vec<i32>> = Vec::with_capacity(8);
        let mut x: usize = 0;
        while x < 8
            invariant
                x <= 8,
                is_plane_of(self@, 0, mine@, x as int),
                is_plane_of(self@, 1, theirs@, x as int),
                is_plane_of(self@, 2, empty@, x as int),
                forall|cell: int|
                    0 <= cell < x * 8 ==> !(has_cell(self@.mover, cell) && has_cell(
                        self@.opponent,
                        cell,
                    )),
            decreases 8 - x,
        {
            let mut mine_row: Vec<i32> = Vec::with_capacity(8);
            let mut theirs_row: Vec<i32> = Vec::with_capacity(8);
            let mut empty_row: Vec<i32> = Vec::with_capacity(8);
            let mut y: usize = 0;
            while y < 8
                invariant
                    x < 8,
                    y <= 8,
                    is_row_of(self@, 0, x as int, mine_row@, y as int),
                    is_row_of(self@, 1, x as int, theirs_row@, y as int),
                    is_row_of(self@, 2, x as int, empty_row@, y as int),
                    forall|cell: int|
                        0 <= cell < x * 8 + y ==> !(has_cell(self@.mover, cell) && has_cell(
                            self@.opponent,
                            cell,
                        )),
                decreases 8 - y,
            {
                match self.holder(x * 8 + y) {
                    Holder::Nobody => {
                        mine_row.push(0);
                        theirs_row.push(0);
                        empty_row.push(1);
                    },
                    Holder::Mover => {
                        mine_row.push(1);
                        theirs_row.push(0);
                        empty_row.push(0);
                    },
                    Holder::Opponent => {
                        mine_row.push(0);
                        theirs_row.push(1);
                        empty_row.push(0);
                    },
                    Holder::Both => {
                        proof {
                            lemma_valid_cells(self@);
                        }
                        assert(has_cell(self@.mover, x * 8 + y) && has_cell(
                            self@.opponent,
                            x * 8 + y,
                        ));
                        return Err(BoardError::InvalidState);
                    },
                }
                y += 1;
            }
            mine.push(mine_row);
            theirs.push(theirs_row);
            empty.push(empty_row);
            x += 1;
        }
        let mut board_matrix: Vec<Vec<Vec<i32>>> = Vec::with_capacity(3);
        board_matrix.push(mine);
        board_matrix.push(theirs);
        board_matrix.push(empty);
        proof {
            lemma_valid_cells(self@);
        }
        Ok(board_matrix)
    }
}

/// `row` holds the first `upto` entries of row `x` of plane `plane`.
pub open spec fn is_row_of(pos: Position, plane: int, x: int, row: Seq<i32>, upto: int) -> bool {
    &&& row.len() == upto
    &&& forall|y: int| 0 <= y < upto ==> #[trigger] row[y] == plane_value(pos, plane, x * 8 + y)
}

/// `rows` holds the first `upto` rows of plane `plane`.
pub open spec fn is_plane_of(pos: Position, plane: int, rows: Seq<Vec<i32>>, upto: int) -> bool {
    &&& rows.len() == upto
    &&& forall|x: int| 0 <= x < upto ==> is_row_of(pos, plane, x, (#[trigger] rows[x])@, 8)
}

/// `matrix` holds the three planes of `pos`.
pub open spec fn is_matrix_of(pos: Position, matrix: Vec<Vec<Vec<i32>>>) -> bool {
    &&& matrix@.len() == 3
    &&& forall|plane: int|
        0 <= plane < 3 ==> is_plane_of(pos, plane, (#[trigger] matrix@[plane])@, 8)
}

} // verus!
