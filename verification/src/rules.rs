//! The rules of the game, stated over rows and columns.
//!
//! A position is a pair of masks: the cells of the side to move (the mover)
//! and the cells of the other side (the opponent). Nothing here assumes that
//! the two masks are disjoint.

use crate::bits::{has_cell, lemma_mask_where, mask_where};
use vstd::prelude::*;

verus! {

/// Whether row `row` and column `col` name a cell of the board.
pub open spec fn on_board(row: int, col: int) -> bool {
    0 <= row < 8 && 0 <= col < 8
}

/// Whether `mask` holds the cell in row `row` and column `col` of the board.
pub open spec fn stone_at(mask: u64, row: int, col: int) -> bool {
    on_board(row, col) && has_cell(mask, row * 8 + col)
}

/// One of the eight steps from a cell to a neighbour.
pub open spec fn is_direction(dr: int, dc: int) -> bool {
    -1 <= dr <= 1 && -1 <= dc <= 1 && !(dr == 0 && dc == 0)
}

/// Walking from `(row, col)` by `(dr, dc)`: exactly `run` cells of `through`,
/// and then a cell of `end`.
pub open spec fn run_then(
    through: u64,
    end: u64,
    row: int,
    col: int,
    dr: int,
    dc: int,
    run: nat,
) -> bool
    decreases run,
{
    if run == 0 {
        stone_at(end, row, col)
    } else {
        stone_at(through, row, col) && run_then(
            through,
            end,
            row + dr,
            col + dc,
            dr,
            dc,
            (run - 1) as nat,
        )
    }
}

/// Whether `cell` lies among the first `run` cells of the walk from
/// `(row, col)` by `(dr, dc)`.
pub open spec fn within_run(row: int, col: int, dr: int, dc: int, run: nat, cell: int) -> bool
    decreases run,
{
    run > 0 && (cell == row * 8 + col || within_run(
        row + dr,
        col + dc,
        dr,
        dc,
        (run - 1) as nat,
        cell,
    ))
}

/// A stone placed on `cell` outflanks the opponent along `(dr, dc)`: next to
/// it starts a run of one or more opponent stones, closed by a mover stone.
pub open spec fn outflanks(mover: u64, opponent: u64, cell: int, dr: int, dc: int) -> bool {
    exists|run: nat|
        run >= 1 && #[trigger] run_then(
            opponent,
            mover,
            cell / 8 + dr,
            cell % 8 + dc,
            dr,
            dc,
            run,
        )
}

/// `cell` is a legal move: it is empty, and a stone placed there outflanks
/// the opponent along at least one of the eight directions.
pub open spec fn legal_at(mover: u64, opponent: u64, cell: int) -> bool {
    &&& 0 <= cell < 64
    &&& !has_cell(mover, cell)
    &&& !has_cell(opponent, cell)
    &&& exists|dr: int, dc: int|
        is_direction(dr, dc) && #[trigger] outflanks(mover, opponent, cell, dr, dc)
}

/// The mask of the legal moves.
pub open spec fn legal_mask(mover: u64, opponent: u64) -> u64 {
    mask_where(|cell: int| legal_at(mover, opponent, cell))
}

/// A stone placed on `origin` flips `cell` along `(dr, dc)`: `cell` belongs
/// to the run of opponent stones that starts next to `origin` and is closed
/// by a stone that is the mover's alone.
pub open spec fn flipped_along(
    mover: u64,
    opponent: u64,
    origin: int,
    dr: int,
    dc: int,
    cell: int,
) -> bool {
    exists|run: nat|
        #[trigger] run_then(
            opponent,
            mover & !opponent,
            origin / 8 + dr,
            origin % 8 + dc,
            dr,
            dc,
            run,
        ) && within_run(origin / 8 + dr, origin % 8 + dc, dr, dc, run, cell)
}

/// A stone placed on `origin` flips `cell`.
pub open spec fn flipped_at(mover: u64, opponent: u64, origin: int, cell: int) -> bool {
    exists|dr: int, dc: int|
        is_direction(dr, dc) && #[trigger] flipped_along(mover, opponent, origin, dr, dc, cell)
}

/// The mask of the stones that a stone placed on `origin` flips.
pub open spec fn flip_mask(mover: u64, opponent: u64, origin: int) -> u64 {
    mask_where(|cell: int| flipped_at(mover, opponent, origin, cell))
}

/// A run that fits on the board leaves room for the stone that closes it.
pub proof fn lemma_run_bound(
    through: u64,
    end: u64,
    row: int,
    col: int,
    dr: int,
    dc: int,
    run: nat,
)
    requires
        run_then(through, end, row, col, dr, dc, run),
    ensures
        dr == 1 ==> row + run <= 7,
        dr == -1 ==> row - run >= 0,
        dc == 1 ==> col + run <= 7,
        dc == -1 ==> col - run >= 0,
    decreases run,
{
    if run > 0 {
        lemma_run_bound(through, end, row + dr, col + dc, dr, dc, (run - 1) as nat);
    }
}

/// The cells of a run are cells of `through`.
pub proof fn lemma_within_run_cells(
    through: u64,
    end: u64,
    row: int,
    col: int,
    dr: int,
    dc: int,
    run: nat,
    cell: int,
)
    requires
        run_then(through, end, row, col, dr, dc, run),
        within_run(row, col, dr, dc, run, cell),
    ensures
        has_cell(through, cell),
    decreases run,
{
    if run > 0 && cell != row * 8 + col {
        lemma_within_run_cells(through, end, row + dr, col + dc, dr, dc, (run - 1) as nat, cell);
    }
}

/// Every flipped stone was an opponent stone.
pub proof fn lemma_flips_are_opponent(mover: u64, opponent: u64, origin: int)
    ensures
        forall|cell: int| #[trigger]
            has_cell(flip_mask(mover, opponent, origin), cell) ==> has_cell(opponent, cell),
{
    lemma_mask_where(|cell: int| flipped_at(mover, opponent, origin, cell));
    assert forall|cell: int| #[trigger]
        has_cell(flip_mask(mover, opponent, origin), cell) implies has_cell(opponent, cell) by {
        assert(flipped_at(mover, opponent, origin, cell));
        let (dr, dc) = choose|dr: int, dc: int|
            is_direction(dr, dc) && #[trigger] flipped_along(mover, opponent, origin, dr, dc, cell);
        let run = choose|run: nat|
            #[trigger] run_then(
                opponent,
                mover & !opponent,
                origin / 8 + dr,
                origin % 8 + dc,
                dr,
                dc,
                run,
            ) && within_run(origin / 8 + dr, origin % 8 + dc, dr, dc, run, cell);
        lemma_within_run_cells(
            opponent,
            mover & !opponent,
            origin / 8 + dr,
            origin % 8 + dc,
            dr,
            dc,
            run,
            cell,
        );
    }
}

/// Where no cell holds two stones, a run that a mover stone closes is closed
/// by a stone that is the mover's alone.
pub proof fn lemma_run_closed_alone(
    mover: u64,
    opponent: u64,
    row: int,
    col: int,
    dr: int,
    dc: int,
    run: nat,
)
    requires
        mover & opponent == 0,
        run_then(opponent, mover, row, col, dr, dc, run),
    ensures
        run_then(opponent, mover & !opponent, row, col, dr, dc, run),
    decreases run,
{
    broadcast use crate::bits::group_cell_ops;

    if run == 0 {
        crate::bits::lemma_mask_empty(mover & opponent);
        assert(!has_cell(mover & opponent, row * 8 + col));
    } else {
        lemma_run_closed_alone(mover, opponent, row + dr, col + dc, dr, dc, (run - 1) as nat);
    }
}

/// Where no cell holds two stones, a legal move flips at least one stone.
pub proof fn lemma_legal_move_flips(mover: u64, opponent: u64, cell: int)
    requires
        mover & opponent == 0,
        legal_at(mover, opponent, cell),
    ensures
        flip_mask(mover, opponent, cell) != 0,
{
    let (dr, dc) = choose|dr: int, dc: int|
        is_direction(dr, dc) && #[trigger] outflanks(mover, opponent, cell, dr, dc);
    let row = cell / 8 + dr;
    let col = cell % 8 + dc;
    let run = choose|run: nat|
        run >= 1 && #[trigger] run_then(opponent, mover, row, col, dr, dc, run);
    lemma_run_closed_alone(mover, opponent, row, col, dr, dc, run);
    let first = row * 8 + col;
    assert(within_run(row, col, dr, dc, run, first));
    assert(flipped_along(mover, opponent, cell, dr, dc, first));
    assert(flipped_at(mover, opponent, cell, first));
    lemma_mask_where(|y: int| flipped_at(mover, opponent, cell, y));
    assert(stone_at(opponent, row, col));
    assert(has_cell(flip_mask(mover, opponent, cell), first));
    crate::bits::lemma_mask_empty(flip_mask(mover, opponent, cell));
}

} // verus!
