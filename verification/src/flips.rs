//! The stones that a move flips: a walk along each of the eight rays, and
//! the proof that it collects the runs that the rules name.

use crate::bits::{
    bit_of, cell_mask, group_cell_ops, has_cell, lemma_mask_where_unique,
};
use crate::rules::{
    flip_mask, flipped_along, flipped_at, is_direction, on_board, run_then, stone_at, within_run,
};
use vstd::prelude::*;

verus! {

/// Cells on which a step to the west can land: all but the last column.
pub const LAND_WEST: u64 = 0xFEFE_FEFE_FEFE_FEFE;

/// Cells on which a step to the north can land: all but the last row.
pub const LAND_NORTH: u64 = 0xFFFF_FFFF_FFFF_FF00;

/// Cells on which a step to the north-west can land.
pub const LAND_NORTH_WEST: u64 = 0xFEFE_FEFE_FEFE_FE00;

/// Cells on which a step to the north-east can land.
pub const LAND_NORTH_EAST: u64 = 0x7F7F_7F7F_7F7F_7F00;

/// Cells on which a step to the east can land: all but the first column.
pub const LAND_EAST: u64 = 0x7F7F_7F7F_7F7F_7F7F;

/// Cells on which a step to the south can land: all but the first row.
pub const LAND_SOUTH: u64 = 0x00FF_FFFF_FFFF_FFFF;

/// Cells on which a step to the south-east can land.
pub const LAND_SOUTH_EAST: u64 = 0x007F_7F7F_7F7F_7F7F;

/// Cells on which a step to the south-west can land.
pub const LAND_SOUTH_WEST: u64 = 0x00FE_FEFE_FEFE_FEFE;

/// `mask` holds exactly the cells on which a step by `(dr, dc)` can land
/// without leaving the board on the way.
pub open spec fn lands(mask: u64, dr: int, dc: int) -> bool {
    forall|x: int|
        0 <= x < 64 ==> #[trigger] has_cell(mask, x) == ((dc == 1 ==> x % 8 != 0) && (dc == -1 ==> x
            % 8 != 7) && (dr == 1 ==> x / 8 != 0) && (dr == -1 ==> x / 8 != 7))
}

proof fn lemma_land_bits(i: u64)
    by (bit_vector)
    requires
        i < 64,
    ensures
        ((0xFEFE_FEFE_FEFE_FEFEu64 >> i) & 1 == 1) <==> i % 8 != 0,
        ((0xFFFF_FFFF_FFFF_FF00u64 >> i) & 1 == 1) <==> i >= 8,
        ((0xFEFE_FEFE_FEFE_FE00u64 >> i) & 1 == 1) <==> (i % 8 != 0 && i >= 8),
        ((0x7F7F_7F7F_7F7F_7F00u64 >> i) & 1 == 1) <==> (i % 8 != 7 && i >= 8),
        ((0x7F7F_7F7F_7F7F_7F7Fu64 >> i) & 1 == 1) <==> i % 8 != 7,
        ((0x00FF_FFFF_FFFF_FFFFu64 >> i) & 1 == 1) <==> i < 56,
        ((0x007F_7F7F_7F7F_7F7Fu64 >> i) & 1 == 1) <==> (i % 8 != 7 && i < 56),
        ((0x00FE_FEFE_FEFE_FEFEu64 >> i) & 1 == 1) <==> (i % 8 != 0 && i < 56),
{
}

/// Each of the eight landing masks belongs to its direction.
pub proof fn lemma_land_masks()
    ensures
        lands(LAND_WEST, 0, -1),
        lands(LAND_NORTH, -1, 0),
        lands(LAND_NORTH_WEST, -1, -1),
        lands(LAND_NORTH_EAST, -1, 1),
        lands(LAND_EAST, 0, 1),
        lands(LAND_SOUTH, 1, 0),
        lands(LAND_SOUTH_EAST, 1, 1),
        lands(LAND_SOUTH_WEST, 1, -1),
{
    assert forall|x: int| 0 <= x < 64 implies #[trigger] has_cell(LAND_WEST, x) == (x % 8 != 7) by {
        lemma_land_bits((63 - x) as u64);
    }
    assert forall|x: int| 0 <= x < 64 implies #[trigger] has_cell(LAND_NORTH, x) == (x / 8
        != 7) by {
        lemma_land_bits((63 - x) as u64);
    }
    assert forall|x: int| 0 <= x < 64 implies #[trigger] has_cell(LAND_NORTH_WEST, x) == (x % 8 != 7
        && x / 8 != 7) by {
        lemma_land_bits((63 - x) as u64);
    }
    assert forall|x: int| 0 <= x < 64 implies #[trigger] has_cell(LAND_NORTH_EAST, x) == (x % 8 != 0
        && x / 8 != 7) by {
        lemma_land_bits((63 - x) as u64);
    }
    assert forall|x: int| 0 <= x < 64 implies #[trigger] has_cell(LAND_EAST, x) == (x % 8 != 0) by {
        lemma_land_bits((63 - x) as u64);
    }
    assert forall|x: int| 0 <= x < 64 implies #[trigger] has_cell(LAND_SOUTH, x) == (x / 8
        != 0) by {
        lemma_land_bits((63 - x) as u64);
    }
    assert forall|x: int| 0 <= x < 64 implies #[trigger] has_cell(LAND_SOUTH_EAST, x) == (x % 8 != 0
        && x / 8 != 0) by {
        lemma_land_bits((63 - x) as u64);
    }
    assert forall|x: int| 0 <= x < 64 implies #[trigger] has_cell(LAND_SOUTH_WEST, x) == (x % 8 != 7
        && x / 8 != 0) by {
        lemma_land_bits((63 - x) as u64);
    }
}

/// The mask of the cell `(row, col)`, or 0 where that is no cell of the board.
pub open spec fn cursor_at(row: int, col: int) -> u64 {
    if on_board(row, col) {
        cell_mask(row * 8 + col)
    } else {
        0
    }
}

proof fn lemma_cursor_bits(edge: u64, m: u64, b: u64, s: u64)
    by (bit_vector)
    requires
        b < 64,
        s < 64,
    ensures
        edge & ((1u64 << b) << s) == (if b + s < 64 && (edge >> ((b + s) as u64)) & 1 == 1 {
            1u64 << ((b + s) as u64)
        } else {
            0u64
        }),
        edge & ((1u64 << b) >> s) == (if b >= s && (edge >> ((b - s) as u64)) & 1 == 1 {
            1u64 << ((b - s) as u64)
        } else {
            0u64
        }),
        ((1u64 << b) & m != 0) == ((m >> b) & 1 == 1),
        0u64 & m == 0,
{
}

/// One step of the walk moves the cursor to the next cell of the ray, or
/// off the board.
proof fn lemma_cursor_step(edge: u64, row: int, col: int, dr: int, dc: int, shift: u64)
    requires
        on_board(row, col),
        is_direction(dr, dc),
        lands(edge, dr, dc),
        shift == 8 * dr + dc || shift == -(8 * dr + dc),
    ensures
        shift == -(8 * dr + dc) ==> edge & (cursor_at(row, col) << shift) == cursor_at(
            row + dr,
            col + dc,
        ),
        shift == 8 * dr + dc ==> edge & (cursor_at(row, col) >> shift) == cursor_at(
            row + dr,
            col + dc,
        ),
{
    let x = row * 8 + col;
    let next = x + 8 * dr + dc;
    lemma_cursor_bits(edge, 0, (63 - x) as u64, shift);
    if 0 <= next < 64 {
        assert(has_cell(edge, next) == on_board(row + dr, col + dc));
    }
}

/// The cursor meets `mask` exactly where `mask` has a stone under it.
proof fn lemma_cursor_test(mask: u64, row: int, col: int)
    ensures
        (cursor_at(row, col) & mask != 0) == stone_at(mask, row, col),
{
    if on_board(row, col) {
        lemma_cursor_bits(0, mask, (63 - (row * 8 + col)) as u64, 0);
    } else {
        lemma_cursor_bits(0, mask, 0, 0);
    }
}

/// How many cells lie between `(row, col)`, included, and the edge of the
/// board along `(dr, dc)`; 0 off the board.
pub open spec fn room(row: int, col: int, dr: int, dc: int) -> int {
    if !on_board(row, col) {
        0
    } else if dr == 1 {
        8 - row
    } else if dr == -1 {
        row + 1
    } else if dc == 1 {
        8 - col
    } else {
        col + 1
    }
}

/// What the walk knows after `walked` opponent cells, with the cursor on
/// `(row, col)`: every run from the start decomposes into those cells and a
/// run from the cursor, and `seen` holds those cells.
pub open spec fn walk_inv(
    opponent: u64,
    end: u64,
    start_row: int,
    start_col: int,
    row: int,
    col: int,
    dr: int,
    dc: int,
    walked: nat,
    seen: u64,
) -> bool {
    &&& forall|m: nat| #[trigger]
        run_then(opponent, end, row, col, dr, dc, m) ==> run_then(
            opponent,
            end,
            start_row,
            start_col,
            dr,
            dc,
            m + walked,
        )
    &&& forall|run: nat| #[trigger]
        run_then(opponent, end, start_row, start_col, dr, dc, run) ==> run >= walked && run_then(
            opponent,
            end,
            row,
            col,
            dr,
            dc,
            (run - walked) as nat,
        )
    &&& forall|run: nat, y: int|
        run >= walked ==> #[trigger] within_run(start_row, start_col, dr, dc, run, y) == (has_cell(
            seen,
            y,
        ) || within_run(row, col, dr, dc, (run - walked) as nat, y))
}

proof fn lemma_walk_start(opponent: u64, end: u64, row: int, col: int, dr: int, dc: int)
    ensures
        walk_inv(opponent, end, row, col, row, col, dr, dc, 0, 0),
{
    broadcast use group_cell_ops;

    assert forall|run: nat, y: int| run >= 0 implies #[trigger] within_run(
        row,
        col,
        dr,
        dc,
        run,
        y,
    ) == (has_cell(0, y) || within_run(row, col, dr, dc, (run - 0) as nat, y)) by {
        assert((run - 0) as nat == run);
    }
    assert forall|m: nat| #[trigger]
        run_then(opponent, end, row, col, dr, dc, m) implies run_then(
        opponent,
        end,
        row,
        col,
        dr,
        dc,
        m + 0,
    ) by {
        assert(m + 0 == m);
    }
    assert forall|run: nat| #[trigger]
        run_then(opponent, end, row, col, dr, dc, run) implies run >= 0 && run_then(
        opponent,
        end,
        row,
        col,
        dr,
        dc,
        (run - 0) as nat,
    ) by {
        assert((run - 0) as nat == run);
    }
}

proof fn lemma_walk_step(
    mover: u64,
    opponent: u64,
    start_row: int,
    start_col: int,
    row: int,
    col: int,
    dr: int,
    dc: int,
    walked: nat,
    seen: u64,
)
    requires
        walk_inv(
            opponent,
            mover & !opponent,
            start_row,
            start_col,
            row,
            col,
            dr,
            dc,
            walked,
            seen,
        ),
        stone_at(opponent, row, col),
    ensures
        walk_inv(
            opponent,
            mover & !opponent,
            start_row,
            start_col,
            row + dr,
            col + dc,
            dr,
            dc,
            walked + 1,
            seen | cell_mask(row * 8 + col),
        ),
{
    broadcast use group_cell_ops;

    let end = mover & !opponent;
    let seen2 = seen | cell_mask(row * 8 + col);
    assert(!run_then(opponent, end, row, col, dr, dc, 0));
    assert forall|m: nat| #[trigger]
        run_then(opponent, end, row + dr, col + dc, dr, dc, m) implies run_then(
        opponent,
        end,
        start_row,
        start_col,
        dr,
        dc,
        m + (walked + 1),
    ) by {
        assert(run_then(opponent, end, row, col, dr, dc, m + 1));
    }
    assert forall|run: nat| #[trigger]
        run_then(opponent, end, start_row, start_col, dr, dc, run) implies run >= walked + 1
        && run_then(opponent, end, row + dr, col + dc, dr, dc, (run - (walked + 1)) as nat) by {
        assert(run_then(opponent, end, row, col, dr, dc, (run - walked) as nat));
    }
    assert forall|run: nat, y: int| run >= walked + 1 implies #[trigger] within_run(
        start_row,
        start_col,
        dr,
        dc,
        run,
        y,
    ) == (has_cell(seen2, y) || within_run(
        row + dr,
        col + dc,
        dr,
        dc,
        (run - (walked + 1)) as nat,
        y,
    )) by {
        assert(within_run(start_row, start_col, dr, dc, run, y) == (has_cell(seen, y) || within_run(
            row,
            col,
            dr,
            dc,
            (run - walked) as nat,
            y,
        )));
    }
}

proof fn lemma_walk_end(
    mover: u64,
    opponent: u64,
    origin: int,
    row: int,
    col: int,
    dr: int,
    dc: int,
    walked: nat,
    seen: u64,
    flips: u64,
)
    requires
        walk_inv(
            opponent,
            mover & !opponent,
            origin / 8 + dr,
            origin % 8 + dc,
            row,
            col,
            dr,
            dc,
            walked,
            seen,
        ),
        !stone_at(opponent, row, col),
        flips == (if stone_at(mover, row, col) {
            seen
        } else {
            0
        }),
    ensures
        forall|y: int| #[trigger]
            has_cell(flips, y) == flipped_along(mover, opponent, origin, dr, dc, y),
{
    broadcast use group_cell_ops;

    let end = mover & !opponent;
    let start_row = origin / 8 + dr;
    let start_col = origin % 8 + dc;
    assert forall|y: int| #[trigger]
        has_cell(flips, y) == flipped_along(mover, opponent, origin, dr, dc, y) by {
        if flipped_along(mover, opponent, origin, dr, dc, y) {
            let run = choose|run: nat|
                #[trigger] run_then(opponent, end, start_row, start_col, dr, dc, run) && within_run(
                    start_row,
                    start_col,
                    dr,
                    dc,
                    run,
                    y,
                );
            assert(run_then(opponent, end, row, col, dr, dc, (run - walked) as nat));
            assert(run == walked);
            assert(stone_at(end, row, col));
            assert(has_cell(seen, y));
        }
        if has_cell(flips, y) {
            assert(stone_at(mover, row, col));
            assert(stone_at(end, row, col));
            assert(run_then(opponent, end, row, col, dr, dc, 0));
            assert(run_then(opponent, end, start_row, start_col, dr, dc, 0 + walked));
            assert(within_run(start_row, start_col, dr, dc, walked, y));
        }
    }
}

/// The stones flipped along the ray that a left shift by `shift` follows.
fn ray_flips_up(
    pos: u64,
    edge: u64,
    shift: u64,
    player: u64,
    opponent: u64,
    Ghost(origin): Ghost<int>,
    Ghost(dr): Ghost<int>,
    Ghost(dc): Ghost<int>,
) -> (flips: u64)
    requires
        0 <= origin < 64,
        pos == cell_mask(origin),
        is_direction(dr, dc),
        lands(edge, dr, dc),
        shift == -(8 * dr + dc),
    ensures
        forall|y: int| #[trigger]
            has_cell(flips, y) == flipped_along(player, opponent, origin, dr, dc, y),
{
    let ghost mut row = origin / 8 + dr;
    let ghost mut col = origin % 8 + dc;
    let ghost mut walked = 0nat;
    proof {
        lemma_cursor_step(edge, origin / 8, origin % 8, dr, dc, shift);
    }
    let mut mask: u64 = edge & (pos << shift);
    let mut tmp: u64 = 0;
    proof {
        lemma_cursor_test(opponent, row, col);
        lemma_walk_start(opponent, player & !opponent, row, col, dr, dc);
    }
    while mask & opponent != 0
        invariant
            0 <= origin < 64,
            is_direction(dr, dc),
            lands(edge, dr, dc),
            shift == -(8 * dr + dc),
            mask == cursor_at(row, col),
            (mask & opponent != 0) == stone_at(opponent, row, col),
            walk_inv(
                opponent,
                player & !opponent,
                origin / 8 + dr,
                origin % 8 + dc,
                row,
                col,
                dr,
                dc,
                walked,
                tmp,
            ),
        decreases room(row, col, dr, dc),
    {
        proof {
            lemma_walk_step(
                player,
                opponent,
                origin / 8 + dr,
                origin % 8 + dc,
                row,
                col,
                dr,
                dc,
                walked,
                tmp,
            );
            lemma_cursor_step(edge, row, col, dr, dc, shift);
        }
        tmp |= mask;
        mask = edge & (mask << shift);
        proof {
            row = row + dr;
            col = col + dc;
            walked = walked + 1;
            lemma_cursor_test(opponent, row, col);
        }
    }
    proof {
        lemma_cursor_test(player, row, col);
    }
    let flips: u64 = if mask & player != 0 {
        tmp
    } else {
        0
    };
    proof {
        lemma_walk_end(player, opponent, origin, row, col, dr, dc, walked, tmp, flips);
    }
    flips
}

/// The stones flipped along the ray that a right shift by `shift` follows.
fn ray_flips_down(
    pos: u64,
    edge: u64,
    shift: u64,
    player: u64,
    opponent: u64,
    Ghost(origin): Ghost<int>,
    Ghost(dr): Ghost<int>,
    Ghost(dc): Ghost<int>,
) -> (flips: u64)
    requires
        0 <= origin < 64,
        pos == cell_mask(origin),
        is_direction(dr, dc),
        lands(edge, dr, dc),
        shift == 8 * dr + dc,
    ensures
        forall|y: int| #[trigger]
            has_cell(flips, y) == flipped_along(player, opponent, origin, dr, dc, y),
{
    let ghost mut row = origin / 8 + dr;
    let ghost mut col = origin % 8 + dc;
    let ghost mut walked = 0nat;
    proof {
        lemma_cursor_step(edge, origin / 8, origin % 8, dr, dc, shift);
    }
    let mut mask: u64 = edge & (pos >> shift);
    let mut tmp: u64 = 0;
    proof {
        lemma_cursor_test(opponent, row, col);
        lemma_walk_start(opponent, player & !opponent, row, col, dr, dc);
    }
    while mask & opponent != 0
        invariant
            0 <= origin < 64,
            is_direction(dr, dc),
            lands(edge, dr, dc),
            shift == 8 * dr + dc,
            mask == cursor_at(row, col),
            (mask & opponent != 0) == stone_at(opponent, row, col),
            walk_inv(
                opponent,
                player & !opponent,
                origin / 8 + dr,
                origin % 8 + dc,
                row,
                col,
                dr,
                dc,
                walked,
                tmp,
            ),
        decreases room(row, col, dr, dc),
    {
        proof {
            lemma_walk_step(
                player,
                opponent,
                origin / 8 + dr,
                origin % 8 + dc,
                row,
                col,
                dr,
                dc,
                walked,
                tmp,
            );
            lemma_cursor_step(edge, row, col, dr, dc, shift);
        }
        tmp |= mask;
        mask = edge & (mask >> shift);
        proof {
            row = row + dr;
            col = col + dc;
            walked = walked + 1;
            lemma_cursor_test(opponent, row, col);
        }
    }
    proof {
        lemma_cursor_test(player, row, col);
    }
    let flips: u64 = if mask & player != 0 {
        tmp
    } else {
        0
    };
    proof {
        lemma_walk_end(player, opponent, origin, row, col, dr, dc, walked, tmp, flips);
    }
    flips
}

/// The stones that a stone of `player` placed on the cell of `pos` flips.
pub(crate) fn flips_from(player: u64, opponent: u64, pos: u64, Ghost(origin): Ghost<int>) -> (flips:
    u64)
    requires
        0 <= origin < 64,
        pos == cell_mask(origin),
    ensures
        flips == flip_mask(player, opponent, origin),
{
    proof {
        lemma_land_masks();
    }
    let o = Ghost(origin);
    let west = ray_flips_up(pos, LAND_WEST, 1, player, opponent, o, Ghost(0), Ghost(-1));
    let north = ray_flips_up(pos, LAND_NORTH, 8, player, opponent, o, Ghost(-1), Ghost(0));
    let north_west = ray_flips_up(
        pos,
        LAND_NORTH_WEST,
        9,
        player,
        opponent,
        o,
        Ghost(-1),
        Ghost(-1),
    );
    let north_east = ray_flips_up(
        pos,
        LAND_NORTH_EAST,
        7,
        player,
        opponent,
        o,
        Ghost(-1),
        Ghost(1),
    );
    let east = ray_flips_down(pos, LAND_EAST, 1, player, opponent, o, Ghost(0), Ghost(1));
    let south = ray_flips_down(pos, LAND_SOUTH, 8, player, opponent, o, Ghost(1), Ghost(0));
    let south_east = ray_flips_down(
        pos,
        LAND_SOUTH_EAST,
        9,
        player,
        opponent,
        o,
        Ghost(1),
        Ghost(1),
    );
    let south_west = ray_flips_down(
        pos,
        LAND_SOUTH_WEST,
        7,
        player,
        opponent,
        o,
        Ghost(1),
        Ghost(-1),
    );
    let reversed: u64 = west | north | north_west | north_east | east | south | south_east
        | south_west;
    proof {
        broadcast use group_cell_ops;

        assert forall|y: int| 0 <= y < 64 implies has_cell(reversed, y) == flipped_at(
            player,
            opponent,
            origin,
            y,
        ) by {
            if flipped_at(player, opponent, origin, y) {
                let (dr, dc) = choose|dr: int, dc: int|
                    is_direction(dr, dc) && #[trigger] flipped_along(
                        player,
                        opponent,
                        origin,
                        dr,
                        dc,
                        y,
                    );
                assert(dr == -1 || dr == 0 || dr == 1);
                assert(dc == -1 || dc == 0 || dc == 1);
            }
            if has_cell(reversed, y) {
                assert(is_direction(0, -1) && is_direction(-1, 0) && is_direction(-1, -1)
                    && is_direction(-1, 1));
                assert(is_direction(0, 1) && is_direction(1, 0) && is_direction(1, 1)
                    && is_direction(1, -1));
            }
        }
        lemma_mask_where_unique(reversed, |cell: int| flipped_at(player, opponent, origin, cell));
    }
    reversed
}

/// The stones that a stone of `player` placed on `cell` flips.
pub fn flips_of(player: u64, opponent: u64, cell: usize) -> (flips: u64)
    requires
        cell < 64,
    ensures
        flips == flip_mask(player, opponent, cell as int),
{
    flips_from(player, opponent, bit_of(cell), Ghost(cell as int))
}

} // verus!
