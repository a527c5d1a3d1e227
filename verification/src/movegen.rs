//! Bit-parallel move generation, and the proof that it computes the legal
//! moves of the rules.

use crate::bits::{group_cell_ops, has_cell, lemma_mask_where, lemma_mask_where_unique};
use crate::rules::{
    is_direction, legal_at, legal_mask, lemma_run_bound, on_board, outflanks, run_then, stone_at,
};
use vstd::prelude::*;

verus! {

/// Whether a run of between 1 and `budget` cells of `through`, which starts at
/// `cell` and advances by `step`, is directly followed by a cell of `anchor`.
pub open spec fn reach(anchor: u64, through: u64, cell: int, step: int, budget: nat) -> bool
    decreases budget,
{
    budget > 0 && has_cell(through, cell) && (has_cell(anchor, cell + step) || reach(
        anchor,
        through,
        cell + step,
        step,
        (budget - 1) as nat,
    ))
}

/// Two steps of the fill at once: what reaches in up to `n` cells, and what
/// lies two cells of `through` before that, reaches in up to `n + 2`.
pub proof fn lemma_reach_double(anchor: u64, through: u64, f: u64, g: u64, step: int, n: nat)
    requires
        n >= 2,
        forall|x: int| #[trigger] has_cell(f, x) == reach(anchor, through, x, step, n),
        forall|x: int|
            #[trigger] has_cell(g, x) == (has_cell(f, x) || (has_cell(f, x + 2 * step) && has_cell(
                through,
                x,
            ) && has_cell(through, x + step))),
    ensures
        forall|x: int| #[trigger] has_cell(g, x) == reach(anchor, through, x, step, n + 2),
{
    assert forall|x: int| #[trigger] has_cell(g, x) == reach(anchor, through, x, step, n + 2) by {
        lemma_reach_two_more(anchor, through, x, step, n);
        if reach(anchor, through, x, step, 2) {
            lemma_reach_mono(anchor, through, x, step, 2, n);
        }
        if reach(anchor, through, x, step, n) {
            lemma_reach_mono(anchor, through, x, step, n, n + 2);
        }
    }
}

/// What a smaller budget reaches, a greater one reaches too.
pub proof fn lemma_reach_mono(anchor: u64, through: u64, cell: int, step: int, m: nat, n: nat)
    requires
        m <= n,
        reach(anchor, through, cell, step, m),
    ensures
        reach(anchor, through, cell, step, n),
    decreases m,
{
    if m > 0 && !has_cell(anchor, cell + step) {
        lemma_reach_mono(anchor, through, cell + step, step, (m - 1) as nat, (n - 1) as nat);
    }
}

/// A budget of two more cells reaches what two cells reach, and what lies
/// two cells of `through` before what the budget reaches.
pub proof fn lemma_reach_two_more(anchor: u64, through: u64, cell: int, step: int, n: nat)
    ensures
        reach(anchor, through, cell, step, n + 2) == (reach(anchor, through, cell, step, 2) || (
        has_cell(through, cell) && has_cell(through, cell + step) && reach(
            anchor,
            through,
            cell + 2 * step,
            step,
            n,
        ))),
{
    reveal_with_fuel(reach, 3);
}

/// Cells that are neither in the first nor in the last column.
pub const INNER_COLUMNS: u64 = 0x7E7E_7E7E_7E7E_7E7E;

/// Cells that are neither in the first nor in the last row.
pub const INNER_ROWS: u64 = 0x00FF_FFFF_FFFF_FF00;

/// Cells that touch no edge of the board.
pub const INNER_CELLS: u64 = 0x007E_7E7E_7E7E_7E00;

/// `mask` may bound the cells that a fill along `(dr, dc)` passes through:
/// it keeps a fill that moves sideways out of the first and the last column,
/// where the next step would leave the row, and it holds every cell that has
/// a neighbour on the board both ways along `(dr, dc)`.
pub open spec fn fits(mask: u64, dr: int, dc: int) -> bool {
    forall|x: int|
        0 <= x < 64 ==> {
            &&& #[trigger] has_cell(mask, x) && dc != 0 ==> 1 <= x % 8 <= 6
            &&& (dc != 0 ==> 1 <= x % 8 <= 6) && (dr != 0 ==> 1 <= x / 8 <= 6) ==> has_cell(
                mask,
                x,
            )
        }
}

proof fn lemma_inner_bits(i: u64)
    by (bit_vector)
    requires
        i < 64,
    ensures
        ((0x7E7E_7E7E_7E7E_7E7Eu64 >> i) & 1 == 1) <==> (1 <= i % 8 && i % 8 <= 6),
        ((0x00FF_FFFF_FFFF_FF00u64 >> i) & 1 == 1) <==> (8 <= i && i < 56),
        ((0x007E_7E7E_7E7E_7E00u64 >> i) & 1 == 1) <==> (1 <= i % 8 && i % 8 <= 6 && 8 <= i && i
            < 56),
{
}

/// Which cells the three inner masks hold.
pub proof fn lemma_inner_masks()
    ensures
        forall|x: int| #[trigger] has_cell(INNER_COLUMNS, x) == (0 <= x < 64 && 1 <= x % 8 <= 6),
        forall|x: int| #[trigger] has_cell(INNER_ROWS, x) == (0 <= x < 64 && 1 <= x / 8 <= 6),
        forall|x: int| #[trigger]
            has_cell(INNER_CELLS, x) == (0 <= x < 64 && 1 <= x % 8 <= 6 && 1 <= x / 8 <= 6),
{
    assert forall|x: int| #[trigger]
        has_cell(INNER_COLUMNS, x) == (0 <= x < 64 && 1 <= x % 8 <= 6) by {
        if 0 <= x < 64 {
            lemma_inner_bits((63 - x) as u64);
        }
    }
    assert forall|x: int| #[trigger]
        has_cell(INNER_ROWS, x) == (0 <= x < 64 && 1 <= x / 8 <= 6) by {
        if 0 <= x < 64 {
            lemma_inner_bits((63 - x) as u64);
        }
    }
    assert forall|x: int| #[trigger]
        has_cell(INNER_CELLS, x) == (0 <= x < 64 && 1 <= x % 8 <= 6 && 1 <= x / 8 <= 6) by {
        if 0 <= x < 64 {
            lemma_inner_bits((63 - x) as u64);
        }
    }
}

proof fn lemma_reach_to_run(
    mover: u64,
    opponent: u64,
    mask: u64,
    row: int,
    col: int,
    dr: int,
    dc: int,
    budget: nat,
) -> (run: nat)
    requires
        on_board(row, col),
        is_direction(dr, dc),
        fits(mask, dr, dc),
        reach(mover, opponent & mask, row * 8 + col, 8 * dr + dc, budget),
    ensures
        1 <= run <= budget,
        run_then(opponent, mover, row, col, dr, dc, run),
    decreases budget,
{
    broadcast use group_cell_ops;

    let x = row * 8 + col;
    let d = 8 * dr + dc;
    assert(has_cell(opponent & mask, x));
    assert(has_cell(mask, x) && has_cell(opponent, x));
    if has_cell(mover, x + d) {
        assert(on_board(row + dr, col + dc));
        assert(run_then(opponent, mover, row + dr, col + dc, dr, dc, 0));
        1
    } else {
        assert(reach(mover, opponent & mask, x + d, d, (budget - 1) as nat));
        assert(has_cell(opponent & mask, x + d));
        assert(on_board(row + dr, col + dc));
        let rest = lemma_reach_to_run(
            mover,
            opponent,
            mask,
            row + dr,
            col + dc,
            dr,
            dc,
            (budget - 1) as nat,
        );
        rest + 1
    }
}

proof fn lemma_run_to_reach(
    mover: u64,
    opponent: u64,
    mask: u64,
    row: int,
    col: int,
    dr: int,
    dc: int,
    run: nat,
)
    requires
        on_board(row - dr, col - dc),
        is_direction(dr, dc),
        fits(mask, dr, dc),
        run >= 1,
        run_then(opponent, mover, row, col, dr, dc, run),
    ensures
        reach(mover, opponent & mask, row * 8 + col, 8 * dr + dc, run),
    decreases run,
{
    broadcast use group_cell_ops;

    let x = row * 8 + col;
    assert(stone_at(opponent, row, col));
    assert(run_then(opponent, mover, row + dr, col + dc, dr, dc, (run - 1) as nat));
    assert(on_board(row + dr, col + dc));
    assert(has_cell(mask, x));
    assert(has_cell(opponent & mask, x));
    if run > 1 {
        lemma_run_to_reach(mover, opponent, mask, row + dr, col + dc, dr, dc, (run - 1) as nat);
    }
}

/// Along one direction, the fill through the bounded opponent cells finds
/// exactly the cells from which a stone outflanks the opponent.
pub proof fn lemma_reach_outflanks(
    mover: u64,
    opponent: u64,
    mask: u64,
    cell: int,
    dr: int,
    dc: int,
)
    requires
        0 <= cell < 64,
        is_direction(dr, dc),
        fits(mask, dr, dc),
    ensures
        reach(mover, opponent & mask, cell + 8 * dr + dc, 8 * dr + dc, 6) == outflanks(
            mover,
            opponent,
            cell,
            dr,
            dc,
        ),
{
    broadcast use group_cell_ops;

    let row = cell / 8;
    let col = cell % 8;
    let w = opponent & mask;
    let d = 8 * dr + dc;
    if reach(mover, w, cell + d, d, 6) {
        assert(has_cell(w, cell + d));
        assert(has_cell(mask, cell + d));
        assert(on_board(row + dr, col + dc));
        assert((row + dr) * 8 + (col + dc) == cell + d);
        let run = lemma_reach_to_run(mover, opponent, mask, row + dr, col + dc, dr, dc, 6);
        assert(outflanks(mover, opponent, cell, dr, dc));
    }
    if outflanks(mover, opponent, cell, dr, dc) {
        let run = choose|run: nat|
            run >= 1 && #[trigger] run_then(opponent, mover, row + dr, col + dc, dr, dc, run);
        lemma_run_bound(opponent, mover, row + dr, col + dc, dr, dc, run);
        lemma_run_to_reach(mover, opponent, mask, row + dr, col + dc, dr, dc, run);
        assert((row + dr) * 8 + (col + dc) == cell + d);
        lemma_reach_mono(mover, w, cell + d, d, run, 6);
    }
}

/// The fill toward lower cell indices: the cells of `watch` from which a run
/// of up to six cells of `watch`, stepping `shift` cells up the row-major
/// order, leads to a cell of `player`. `watch2` is `watch & (watch << shift)`.
pub open spec fn fill_up(watch: u64, watch2: u64, player: u64, shift: u64) -> u64 {
    let f1 = (player << shift) & watch;
    let f2 = f1 | ((f1 << shift) & watch);
    let f4 = f2 | ((f2 << ((shift + shift) as u64)) & watch2);
    f4 | ((f4 << ((shift + shift) as u64)) & watch2)
}

/// The mirror image of [`fill_up`], toward higher cell indices. `watch2` is
/// `watch & (watch >> shift)`.
pub open spec fn fill_down(watch: u64, watch2: u64, player: u64, shift: u64) -> u64 {
    let f1 = (player >> shift) & watch;
    let f2 = f1 | ((f1 >> shift) & watch);
    let f4 = f2 | ((f2 >> ((shift + shift) as u64)) & watch2);
    f4 | ((f4 >> ((shift + shift) as u64)) & watch2)
}

/// Candidate cells along one line of the board, as the scalar path computes
/// them.
pub open spec fn partial_moves(watch: u64, player: u64, shift: u64) -> u64 {
    (fill_up(watch, watch & (watch << shift), player, shift) << shift) | (fill_down(
        watch,
        watch & (watch >> shift),
        player,
        shift,
    ) >> shift)
}

/// Candidate cells along one line of the board, as one lane of the wide path
/// computes them: the second pair mask is the first one shifted back.
pub open spec fn lane_moves(watch: u64, player: u64, shift: u64) -> u64 {
    let pre = watch & (watch << shift);
    (fill_up(watch, pre, player, shift) << shift) | (fill_down(
        watch,
        pre >> shift,
        player,
        shift,
    ) >> shift)
}

/// The legal moves as the scalar path computes them.
pub open spec fn scalar_moves(mover: u64, opponent: u64) -> u64 {
    (partial_moves(opponent & INNER_COLUMNS, mover, 1) | partial_moves(opponent, mover, 8)
        | partial_moves(opponent & INNER_COLUMNS, mover, 9) | partial_moves(
        opponent & INNER_COLUMNS,
        mover,
        7,
    )) & !(mover | opponent)
}

/// The shift of each lane of the wide path.
pub open spec fn lane_shift(lane: int) -> u64 {
    if lane == 0 {
        1
    } else if lane == 1 {
        8
    } else if lane == 2 {
        9
    } else {
        7
    }
}

/// The mask that bounds the opponent cells of each lane of the wide path.
pub open spec fn lane_bound(lane: int) -> u64 {
    if lane == 0 {
        INNER_COLUMNS
    } else if lane == 1 {
        INNER_ROWS
    } else {
        INNER_CELLS
    }
}

/// The candidates of the first `lanes` lanes of the wide path.
pub open spec fn lanes_upto(mover: u64, opponent: u64, lanes: nat) -> u64
    decreases lanes,
{
    if lanes == 0 {
        0
    } else {
        lanes_upto(mover, opponent, (lanes - 1) as nat) | lane_moves(
            opponent & lane_bound(lanes - 1),
            mover,
            lane_shift(lanes - 1),
        )
    }
}

/// The legal moves as the wide path computes them.
pub open spec fn wide_moves(mover: u64, opponent: u64) -> u64 {
    lanes_upto(mover, opponent, 4) & !(mover | opponent)
}

proof fn lemma_pair_mask(w: u64, s: u64)
    by (bit_vector)
    requires
        s < 64,
    ensures
        (w & (w << s)) >> s == w & (w >> s),
        w & 0xFFFF_FFFF_FFFF_FFFFu64 == w,
{
}

/// A lane of the wide path finds what the scalar path finds along its line.
pub proof fn lemma_lane_moves(watch: u64, player: u64, shift: u64)
    requires
        shift < 64,
    ensures
        lane_moves(watch, player, shift) == partial_moves(watch, player, shift),
{
    lemma_pair_mask(watch, shift);
}

/// What the candidates along one line are: the cells from which a run of one
/// to six cells of `watch`, in either direction along the line, leads to a
/// cell of `player`.
pub proof fn lemma_partial_moves(watch: u64, player: u64, shift: u64)
    requires
        1 <= shift < 32,
    ensures
        forall|x: int| #[trigger]
            has_cell(partial_moves(watch, player, shift), x) == (0 <= x < 64 && (reach(
                player,
                watch,
                x + shift,
                shift as int,
                6,
            ) || reach(player, watch, x - shift, -(shift as int), 6))),
{
    broadcast use group_cell_ops;

    let d = shift as int;
    let shift2 = (shift + shift) as u64;
    let up1 = (player << shift) & watch;
    let up2 = up1 | ((up1 << shift) & watch);
    let up_pair = watch & (watch << shift);
    let up4 = up2 | ((up2 << shift2) & up_pair);
    let up6 = up4 | ((up4 << shift2) & up_pair);
    let down1 = (player >> shift) & watch;
    let down2 = down1 | ((down1 >> shift) & watch);
    let down_pair = watch & (watch >> shift);
    let down4 = down2 | ((down2 >> shift2) & down_pair);
    let down6 = down4 | ((down4 >> shift2) & down_pair);
    reveal_with_fuel(reach, 3);
    assert forall|x: int| #[trigger] has_cell(up2, x) == reach(player, watch, x, d, 2) by {}
    assert forall|x: int| #[trigger] has_cell(down2, x) == reach(player, watch, x, -d, 2) by {}
    lemma_reach_double(player, watch, up2, up4, d, 2);
    lemma_reach_double(player, watch, down2, down4, -d, 2);
    lemma_reach_double(player, watch, up4, up6, d, 4);
    lemma_reach_double(player, watch, down4, down6, -d, 4);
    assert(up6 == fill_up(watch, up_pair, player, shift));
    assert(down6 == fill_down(watch, down_pair, player, shift));
}

/// The candidates along one line and the two directions that belong to it.
proof fn lemma_line(mover: u64, opponent: u64, mask: u64, shift: u64, dr: int, dc: int)
    requires
        is_direction(dr, dc),
        fits(mask, dr, dc),
        1 <= shift < 32,
        shift == 8 * dr + dc,
    ensures
        fits(mask, -dr, -dc),
        forall|x: int| #[trigger]
            has_cell(partial_moves(opponent & mask, mover, shift), x) == (0 <= x < 64 && (outflanks(
                mover,
                opponent,
                x,
                dr,
                dc,
            ) || outflanks(mover, opponent, x, -dr, -dc))),
{
    lemma_partial_moves(opponent & mask, mover, shift);
    assert forall|x: int| #[trigger]
        has_cell(partial_moves(opponent & mask, mover, shift), x) == (0 <= x < 64 && (outflanks(
            mover,
            opponent,
            x,
            dr,
            dc,
        ) || outflanks(mover, opponent, x, -dr, -dc))) by {
        if 0 <= x < 64 {
            lemma_reach_outflanks(mover, opponent, mask, x, dr, dc);
            lemma_reach_outflanks(mover, opponent, mask, x, -dr, -dc);
        }
    }
}

/// A cell is legal exactly when it is empty and some line gives it as a
/// candidate.
proof fn lemma_legal_by_lines(mover: u64, opponent: u64, x: int)
    requires
        0 <= x < 64,
    ensures
        legal_at(mover, opponent, x) == (!has_cell(mover, x) && !has_cell(opponent, x) && (
        outflanks(mover, opponent, x, 0, 1) || outflanks(mover, opponent, x, 0, -1) || outflanks(
            mover,
            opponent,
            x,
            1,
            0,
        ) || outflanks(mover, opponent, x, -1, 0) || outflanks(mover, opponent, x, 1, 1)
            || outflanks(mover, opponent, x, -1, -1) || outflanks(mover, opponent, x, 1, -1)
            || outflanks(mover, opponent, x, -1, 1))),
{
    assert(is_direction(0, 1) && is_direction(0, -1) && is_direction(1, 0) && is_direction(-1, 0));
    assert(is_direction(1, 1) && is_direction(-1, -1) && is_direction(1, -1) && is_direction(
        -1,
        1,
    ));
    if legal_at(mover, opponent, x) {
        let (dr, dc) = choose|dr: int, dc: int|
            is_direction(dr, dc) && #[trigger] outflanks(mover, opponent, x, dr, dc);
        assert(dr == -1 || dr == 0 || dr == 1);
        assert(dc == -1 || dc == 0 || dc == 1);
    }
}

/// The scalar path computes the legal moves.
pub proof fn lemma_scalar_moves(mover: u64, opponent: u64)
    ensures
        scalar_moves(mover, opponent) == legal_mask(mover, opponent),
{
    broadcast use group_cell_ops;

    lemma_inner_masks();
    lemma_pair_mask(opponent, 0);
    lemma_line(mover, opponent, INNER_COLUMNS, 1, 0, 1);
    lemma_line(mover, opponent, 0xFFFF_FFFF_FFFF_FFFF, 8, 1, 0);
    lemma_line(mover, opponent, INNER_COLUMNS, 9, 1, 1);
    lemma_line(mover, opponent, INNER_COLUMNS, 7, 1, -1);
    let m = scalar_moves(mover, opponent);
    assert forall|x: int| 0 <= x < 64 implies has_cell(m, x) == legal_at(mover, opponent, x) by {
        lemma_legal_by_lines(mover, opponent, x);
    }
    lemma_mask_where_unique(m, |cell: int| legal_at(mover, opponent, cell));
}

/// The wide path computes the legal moves.
pub proof fn lemma_wide_moves(mover: u64, opponent: u64)
    ensures
        wide_moves(mover, opponent) == legal_mask(mover, opponent),
{
    broadcast use group_cell_ops;

    lemma_inner_masks();
    lemma_line(mover, opponent, INNER_COLUMNS, 1, 0, 1);
    lemma_line(mover, opponent, INNER_ROWS, 8, 1, 0);
    lemma_line(mover, opponent, INNER_CELLS, 9, 1, 1);
    lemma_line(mover, opponent, INNER_CELLS, 7, 1, -1);
    lemma_lane_moves(opponent & INNER_COLUMNS, mover, 1);
    lemma_lane_moves(opponent & INNER_ROWS, mover, 8);
    lemma_lane_moves(opponent & INNER_CELLS, mover, 9);
    lemma_lane_moves(opponent & INNER_CELLS, mover, 7);
    reveal_with_fuel(lanes_upto, 5);
    let m = wide_moves(mover, opponent);
    assert forall|x: int| 0 <= x < 64 implies has_cell(m, x) == legal_at(mover, opponent, x) by {
        lemma_legal_by_lines(mover, opponent, x);
    }
    lemma_mask_where_unique(m, |cell: int| legal_at(mover, opponent, cell));
}

/// The scalar path and the wide path give the same mask on every pair of
/// masks, and that mask holds exactly the legal moves.
pub proof fn lemma_paths_agree(mover: u64, opponent: u64)
    ensures
        scalar_moves(mover, opponent) == wide_moves(mover, opponent),
        forall|cell: int| #[trigger]
            has_cell(scalar_moves(mover, opponent), cell) == legal_at(mover, opponent, cell),
{
    lemma_scalar_moves(mover, opponent);
    lemma_wide_moves(mover, opponent);
    lemma_mask_where(|cell: int| legal_at(mover, opponent, cell));
}

/// Candidate cells along one line of the board.
pub fn get_legal_partial(watch: u64, player: u64, shift: u64) -> (moves: u64)
    requires
        1 <= shift < 32,
    ensures
        moves == partial_moves(watch, player, shift),
{
    let mut flip_l: u64 = (player << shift) & watch;
    let mut flip_r: u64 = (player >> shift) & watch;
    flip_l |= (flip_l << shift) & watch;
    flip_r |= (flip_r >> shift) & watch;
    let watch_l: u64 = watch & (watch << shift);
    let watch_r: u64 = watch & (watch >> shift);
    let shift2: u64 = shift + shift;
    flip_l |= (flip_l << shift2) & watch_l;
    flip_r |= (flip_r >> shift2) & watch_r;
    flip_l |= (flip_l << shift2) & watch_l;
    flip_r |= (flip_r >> shift2) & watch_r;
    (flip_l << shift) | (flip_r >> shift)
}

/// The legal moves of the side that holds `mover`, by the scalar path: one
/// fill per line of the board, one line after the other.
pub fn legal_moves_scalar(mover: u64, opponent: u64) -> (moves: u64)
    ensures
        moves == scalar_moves(mover, opponent),
        moves == legal_mask(mover, opponent),
{
    proof {
        lemma_scalar_moves(mover, opponent);
    }
    let mask: u64 = opponent & INNER_COLUMNS;
    (get_legal_partial(mask, mover, 1) | get_legal_partial(opponent, mover, 8) | get_legal_partial(
        mask,
        mover,
        9,
    ) | get_legal_partial(mask, mover, 7)) & !(mover | opponent)
}

/// The legal moves of the side that holds `mover`, by the wide path: the
/// four lines of the board are four lanes that run the same steps, each
/// with its own shift and its own bound on the opponent cells.
pub fn legal_moves_wide(mover: u64, opponent: u64) -> (moves: u64)
    ensures
        moves == wide_moves(mover, opponent),
        moves == legal_mask(mover, opponent),
{
    proof {
        lemma_wide_moves(mover, opponent);
    }
    let shifts: [u64; 4] = [1, 8, 9, 7];
    let bounds: [u64; 4] = [INNER_COLUMNS, INNER_ROWS, INNER_CELLS, INNER_CELLS];
    let mut found: u64 = 0;
    let mut lane: usize = 0;
    while lane < 4
        invariant
            lane <= 4,
            found == lanes_upto(mover, opponent, lane as nat),
            forall|i: int| 0 <= i < 4 ==> #[trigger] shifts[i] == lane_shift(i),
            forall|i: int| 0 <= i < 4 ==> #[trigger] bounds[i] == lane_bound(i),
        decreases 4 - lane,
    {
        let shift: u64 = shifts[lane];
        let moo: u64 = opponent & bounds[lane];
        assert(shift == lane_shift(lane as int) && moo == opponent & lane_bound(lane as int));
        let mut flip_l: u64 = moo & (mover << shift);
        let mut flip_r: u64 = moo & (mover >> shift);
        flip_l |= moo & (flip_l << shift);
        flip_r |= moo & (flip_r >> shift);
        let pre_l: u64 = moo & (moo << shift);
        let pre_r: u64 = pre_l >> shift;
        let shift2: u64 = shift + shift;
        flip_l |= pre_l & (flip_l << shift2);
        flip_r |= pre_r & (flip_r >> shift2);
        flip_l |= pre_l & (flip_l << shift2);
        flip_r |= pre_r & (flip_r >> shift2);
        let lane_found: u64 = (flip_l << shift) | (flip_r >> shift);
        proof {
            lemma_lane_commuted(moo, mover, shift);
        }
        found |= lane_found;
        lane += 1;
    }
    found & !(mover | opponent)
}

proof fn lemma_lane_commuted(moo: u64, mover: u64, shift: u64)
    by (bit_vector)
    requires
        shift == 1 || shift == 7 || shift == 8 || shift == 9,
    ensures
        ({
            let l1 = moo & (mover << shift);
            let r1 = moo & (mover >> shift);
            let l2 = l1 | (moo & (l1 << shift));
            let r2 = r1 | (moo & (r1 >> shift));
            let pre_l = moo & (moo << shift);
            let pre_r = pre_l >> shift;
            let shift2 = (shift + shift) as u64;
            let l4 = l2 | (pre_l & (l2 << shift2));
            let r4 = r2 | (pre_r & (r2 >> shift2));
            let l6 = l4 | (pre_l & (l4 << shift2));
            let r6 = r4 | (pre_r & (r4 >> shift2));
            (l6 << shift) | (r6 >> shift)
        }) == lane_moves(moo, mover, shift),
{
}

proof fn lemma_union_empty(a: u64, b: u64, c: u64, d: u64, e: u64)
    by (bit_vector)
    ensures
        (((((0u64 | a) | b) | c) | d) & e == 0) <==> (a & e == 0 && b & e == 0 && c & e == 0 && d
            & e == 0),
{
}

/// The side to move has no legal move exactly when none of the four lines
/// gives an empty cell as a candidate.
pub proof fn lemma_pass_by_lines(mover: u64, opponent: u64)
    ensures
        (legal_mask(mover, opponent) == 0) == ({
            let empty = !(mover | opponent);
            &&& partial_moves(opponent & INNER_COLUMNS, mover, 1) & empty == 0
            &&& partial_moves(opponent & INNER_ROWS, mover, 8) & empty == 0
            &&& partial_moves(opponent & INNER_CELLS, mover, 9) & empty == 0
            &&& partial_moves(opponent & INNER_CELLS, mover, 7) & empty == 0
        }),
{
    lemma_wide_moves(mover, opponent);
    lemma_lane_moves(opponent & INNER_COLUMNS, mover, 1);
    lemma_lane_moves(opponent & INNER_ROWS, mover, 8);
    lemma_lane_moves(opponent & INNER_CELLS, mover, 9);
    lemma_lane_moves(opponent & INNER_CELLS, mover, 7);
    reveal_with_fuel(lanes_upto, 5);
    lemma_union_empty(
        partial_moves(opponent & INNER_COLUMNS, mover, 1),
        partial_moves(opponent & INNER_ROWS, mover, 8),
        partial_moves(opponent & INNER_CELLS, mover, 9),
        partial_moves(opponent & INNER_CELLS, mover, 7),
        !(mover | opponent),
    );
}

} // verus!
