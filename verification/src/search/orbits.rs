//! The ten orbits of the cells under the symmetries of the board, and why a
//! symmetric matrix of weights scores like its ten weighted masks.

use crate::bits::{count_upto, group_cell_ops, has_cell};
use crate::board::Position;
use crate::search::alpha_beta::AlphaBetaSearch;
use crate::search::evaluator::{
    cell_value, lemma_weighted_sorted, matrix_score_upto, paired, weight_of, weighted_sum,
    BitMatrixEvaluator, Evaluator, MatrixEvaluator,
};
use crate::search::order::sorted_by_score;
use crate::text::lemma_valid_cells;
use vstd::prelude::*;

verus! {

/// The distance of a row or column from the nearer edge of the board.
pub open spec fn fold(line: int) -> int {
    if line < 4 {
        line
    } else {
        7 - line
    }
}

/// The greater of the distances of a cell from the edges of its row and of
/// its column.
pub open spec fn far(cell: int) -> int {
    if fold(cell / 8) >= fold(cell % 8) {
        fold(cell / 8)
    } else {
        fold(cell % 8)
    }
}

/// The lesser of the distances of a cell from the edges of its row and of
/// its column.
pub open spec fn near(cell: int) -> int {
    if fold(cell / 8) >= fold(cell % 8) {
        fold(cell % 8)
    } else {
        fold(cell / 8)
    }
}

/// The number of the orbit of a cell: the cells that the rotations and
/// reflections of the board carry into one another share their two
/// distances from the edges.
pub open spec fn orbit_of(cell: int) -> int {
    let far = far(cell);
    let near = near(cell);
    if far == 3 {
        if near == 3 {
            0
        } else if near == 2 {
            1
        } else if near == 1 {
            3
        } else {
            6
        }
    } else if far == 2 {
        if near == 2 {
            2
        } else if near == 1 {
            4
        } else {
            7
        }
    } else if far == 1 {
        if near == 1 {
            5
        } else {
            8
        }
    } else {
        9
    }
}

/// The masks of the ten orbits.
pub open spec fn orbit_masks() -> Seq<u64> {
    seq![
        0x0000_0018_1800_0000u64,
        0x0000_1824_2418_0000u64,
        0x0000_2400_0024_0000u64,
        0x0018_0042_4200_1800u64,
        0x0024_4200_0042_2400u64,
        0x0042_0000_0000_4200u64,
        0x1800_0081_8100_0018u64,
        0x2400_8100_0081_0024u64,
        0x4281_0000_0000_8142u64,
        0x8100_0000_0000_0081u64,
    ]
}

/// The weights that `matrix` gives to the ten orbits: for each orbit, the
/// weight of its cell in the upper left eighth of the board.
pub open spec fn orbit_weights(matrix: [[i32; 8]; 8]) -> Seq<i32> {
    seq![
        matrix[3][3],
        matrix[3][2],
        matrix[2][2],
        matrix[3][1],
        matrix[2][1],
        matrix[1][1],
        matrix[3][0],
        matrix[2][0],
        matrix[1][0],
        matrix[0][0],
    ]
}

/// The rotations and reflections of the board leave `matrix` as it is.
pub open spec fn is_symmetric(matrix: [[i32; 8]; 8]) -> bool {
    forall|row: int, col: int|
        0 <= row < 8 && 0 <= col < 8 ==> #[trigger] matrix[row][col] == matrix[col][row]
            && matrix[row][col] == matrix[7 - row][col] && matrix[row][col] == matrix[row][7 - col]
}

spec fn fold_bits(line: u64) -> u64 {
    if line < 4 {
        line
    } else {
        (7 - line) as u64
    }
}

spec fn in_orbit_bits(bit: u64, far: u64, near: u64) -> bool {
    (fold_bits(bit / 8) == far && fold_bits(bit % 8) == near) || (fold_bits(bit / 8) == near
        && fold_bits(bit % 8) == far)
}

proof fn lemma_orbit_bits(bit: u64)
    by (bit_vector)
    requires
        bit < 64,
    ensures
        ((0x0000_0018_1800_0000u64 >> bit) & 1 == 1) <==> in_orbit_bits(bit, 3, 3),
        ((0x0000_1824_2418_0000u64 >> bit) & 1 == 1) <==> in_orbit_bits(bit, 3, 2),
        ((0x0000_2400_0024_0000u64 >> bit) & 1 == 1) <==> in_orbit_bits(bit, 2, 2),
        ((0x0018_0042_4200_1800u64 >> bit) & 1 == 1) <==> in_orbit_bits(bit, 3, 1),
        ((0x0024_4200_0042_2400u64 >> bit) & 1 == 1) <==> in_orbit_bits(bit, 2, 1),
        ((0x0042_0000_0000_4200u64 >> bit) & 1 == 1) <==> in_orbit_bits(bit, 1, 1),
        ((0x1800_0081_8100_0018u64 >> bit) & 1 == 1) <==> in_orbit_bits(bit, 3, 0),
        ((0x2400_8100_0081_0024u64 >> bit) & 1 == 1) <==> in_orbit_bits(bit, 2, 0),
        ((0x4281_0000_0000_8142u64 >> bit) & 1 == 1) <==> in_orbit_bits(bit, 1, 0),
        ((0x8100_0000_0000_0081u64 >> bit) & 1 == 1) <==> in_orbit_bits(bit, 0, 0),
{
}

/// Each cell lies in the mask of its orbit and in no other.
pub proof fn lemma_orbit_masks(cell: int, k: int)
    requires
        0 <= cell < 64,
        0 <= k < 10,
    ensures
        has_cell(orbit_masks()[k], cell) == (k == orbit_of(cell)),
        0 <= orbit_of(cell) < 10,
{
    let bit = (63 - cell) as u64;
    lemma_orbit_bits(bit);
    assert(fold_bits(bit / 8) == fold(cell / 8));
    assert(fold_bits(bit % 8) == fold(cell % 8));
}

/// A symmetric matrix gives each cell the weight of its orbit.
pub proof fn lemma_orbit_weight(matrix: [[i32; 8]; 8], cell: int)
    requires
        0 <= cell < 64,
        is_symmetric(matrix),
    ensures
        weight_of(matrix, cell) == orbit_weights(matrix)[orbit_of(cell)],
{
    let row = cell / 8;
    let col = cell % 8;
    let r = fold(row);
    let c = fold(col);
    assert(matrix[row][col] == matrix[7 - row][col]);
    assert(matrix[row][col] == matrix[r][col]);
    assert(matrix[r][col] == matrix[r][7 - col]);
    assert(matrix[r][col] == matrix[r][c]);
    assert(matrix[r][c] == matrix[c][r]);
}

/// What the first `orbits` orbits add to the score when only the stones on
/// the cells `0..cells` count.
pub open spec fn orbit_sum(
    weights: Seq<i32>,
    masks: Seq<u64>,
    pos: Position,
    cells: nat,
    orbits: nat,
) -> int
    decreases orbits,
{
    if orbits == 0 {
        0
    } else {
        orbit_sum(weights, masks, pos, cells, (orbits - 1) as nat) + weights[orbits - 1] * (
        count_upto(pos.mover & masks[orbits - 1], cells) - count_upto(
            pos.opponent & masks[orbits - 1],
            cells,
        ))
    }
}

proof fn lemma_distribute(w: int, d: int)
    by (nonlinear_arith)
    ensures
        w * (d + 1) == w * d + w,
        w * (d - 1) == w * d - w,
        w * 0 == 0,
{
}

/// One more cell adds to the sum of the orbits what it adds to the score
/// of the matrix.
proof fn lemma_orbit_sum_step(
    matrix: [[i32; 8]; 8],
    pos: Position,
    cell: nat,
    orbits: nat,
)
    requires
        cell < 64,
        orbits <= 10,
        is_symmetric(matrix),
        pos.is_valid(),
    ensures
        orbit_sum(orbit_weights(matrix), orbit_masks(), pos, cell + 1, orbits) == orbit_sum(
            orbit_weights(matrix),
            orbit_masks(),
            pos,
            cell,
            orbits,
        ) + if orbit_of(cell as int) < orbits {
            cell_value(weight_of(matrix, cell as int), pos, cell as int)
        } else {
            0
        },
    decreases orbits,
{
    broadcast use group_cell_ops;

    if orbits > 0 {
        let k = orbits - 1;
        let w = orbit_weights(matrix)[k] as int;
        let mask = orbit_masks()[k];
        lemma_orbit_sum_step(matrix, pos, cell, k as nat);
        lemma_orbit_masks(cell as int, k);
        lemma_orbit_weight(matrix, cell as int);
        lemma_valid_cells(pos);
        let d = count_upto(pos.mover & mask, cell) - count_upto(pos.opponent & mask, cell);
        lemma_distribute(w, d);
        assert(!(has_cell(pos.mover, cell as int) && has_cell(pos.opponent, cell as int)));
    }
}

/// With the stones on the cells `0..cells`, the ten orbits weigh what the
/// matrix weighs.
proof fn lemma_orbit_sum_cells(matrix: [[i32; 8]; 8], pos: Position, cells: nat)
    requires
        cells <= 64,
        is_symmetric(matrix),
        pos.is_valid(),
    ensures
        orbit_sum(orbit_weights(matrix), orbit_masks(), pos, cells, 10) == matrix_score_upto(
            matrix,
            pos,
            cells,
        ),
    decreases cells,
{
    if cells == 0 {
        lemma_orbit_sum_zero(orbit_weights(matrix), orbit_masks(), pos, 10);
    } else {
        let cell = (cells - 1) as nat;
        lemma_orbit_sum_cells(matrix, pos, cell);
        lemma_orbit_sum_step(matrix, pos, cell, 10);
        lemma_orbit_masks(cell as int, 0);
    }
}

proof fn lemma_orbit_sum_zero(weights: Seq<i32>, masks: Seq<u64>, pos: Position, orbits: nat)
    ensures
        orbit_sum(weights, masks, pos, 0, orbits) == 0,
    decreases orbits,
{
    if orbits > 0 {
        lemma_orbit_sum_zero(weights, masks, pos, (orbits - 1) as nat);
        lemma_distribute(weights[orbits - 1] as int, 0);
    }
}

/// The sum of the orbits over the whole board is the sum of the weighted
/// masks.
proof fn lemma_orbit_sum_all(weights: Seq<i32>, masks: Seq<u64>, pos: Position, orbits: nat)
    requires
        weights.len() == masks.len(),
        orbits <= weights.len(),
    ensures
        orbit_sum(weights, masks, pos, 64, orbits) == weighted_sum(
            paired(weights, masks).take(orbits as int),
            pos,
        ),
    decreases orbits,
{
    let pairs = paired(weights, masks);
    if orbits > 0 {
        lemma_orbit_sum_all(weights, masks, pos, (orbits - 1) as nat);
        assert(pairs.take(orbits as int).drop_last() =~= pairs.take(orbits - 1));
        assert(pairs.take(orbits as int).last() == (weights[orbits - 1], masks[orbits - 1]));
    }
}

/// For a symmetric matrix, the ten weighted masks score every valid
/// position as the matrix does.
pub proof fn lemma_orbits_score(matrix: [[i32; 8]; 8], pos: Position)
    requires
        is_symmetric(matrix),
        pos.is_valid(),
    ensures
        weighted_sum(paired(orbit_weights(matrix), orbit_masks()), pos) == matrix_score_upto(
            matrix,
            pos,
            64,
        ),
{
    let pairs = paired(orbit_weights(matrix), orbit_masks());
    lemma_orbit_sum_cells(matrix, pos, 64);
    lemma_orbit_sum_all(orbit_weights(matrix), orbit_masks(), pos, 10);
    assert(pairs.take(10) =~= pairs);
}

impl MatrixEvaluator {
    /// The evaluator with the ten weighted masks of the orbits, each with
    /// the weight that the matrix gives to the cell of the orbit in the
    /// upper left eighth of the board.
    pub fn to_bit_matrix_evaluator(&self) -> (evaluator: BitMatrixEvaluator<10>)
        ensures
            evaluator.entries() == sorted_by_score(
                paired(orbit_weights(self.weights()), orbit_masks()),
            ),
    {
        let mut masks: Vec<u64> = Vec::with_capacity(10);
        masks.push(0x0000001818000000);
        masks.push(0x0000182424180000);
        masks.push(0x0000240000240000);
        masks.push(0x0018004242001800);
        masks.push(0x0024420000422400);
        masks.push(0x0042000000004200);
        masks.push(0x1800008181000018);
        masks.push(0x2400810000810024);
        masks.push(0x4281000000008142);
        masks.push(0x8100000000000081);
        let matrix = self.matrix();
        let mut weights: Vec<i32> = Vec::with_capacity(10);
        weights.push(matrix[3][3]);
        weights.push(matrix[3][2]);
        weights.push(matrix[2][2]);
        weights.push(matrix[3][1]);
        weights.push(matrix[2][1]);
        weights.push(matrix[1][1]);
        weights.push(matrix[3][0]);
        weights.push(matrix[2][0]);
        weights.push(matrix[1][0]);
        weights.push(matrix[0][0]);
        assert(masks@ =~= orbit_masks());
        assert(weights@ =~= orbit_weights(self.weights()));
        BitMatrixEvaluator::new(weights, masks)
    }
}

/// For a symmetric matrix, the evaluator with the weighted masks of the
/// orbits scores every valid position as the evaluator with the matrix
/// does.
pub proof fn lemma_bit_matrix_same_score(
    matrix: MatrixEvaluator,
    masked: BitMatrixEvaluator<10>,
    pos: Position,
)
    requires
        is_symmetric(matrix.weights()),
        masked.entries() == sorted_by_score(paired(orbit_weights(matrix.weights()), orbit_masks())),
        pos.is_valid(),
    ensures
        masked.score(pos) == matrix.score(pos),
{
    lemma_orbits_score(matrix.weights(), pos);
    lemma_weighted_sorted(paired(orbit_weights(matrix.weights()), orbit_masks()), pos);
}

/// For a symmetric matrix, a search with the evaluator of the matrix and a
/// search with the evaluator of the weighted masks of the orbits choose
/// the same move in every valid position, at every depth, when they score
/// a won game alike.
pub proof fn lemma_bit_matrix_same_choice(
    by_matrix: &AlphaBetaSearch<MatrixEvaluator>,
    by_masks: &AlphaBetaSearch<BitMatrixEvaluator<10>>,
    pos: Position,
    depth: nat,
)
    requires
        is_symmetric(by_matrix.scorer().weights()),
        by_matrix.orderer() == by_matrix.scorer(),
        by_masks.orderer() == by_masks.scorer(),
        by_masks.scorer().entries() == sorted_by_score(
            paired(orbit_weights(by_matrix.scorer().weights()), orbit_masks()),
        ),
        by_matrix.win() == by_masks.win(),
        pos.is_valid(),
    ensures
        by_matrix.choice(pos, depth) == by_masks.choice(pos, depth),
{
    let a = by_matrix.scorer();
    let b = by_masks.scorer();
    assert forall|p: Position| p.is_valid() implies #[trigger] a.score(p) == b.score(p) by {
        lemma_bit_matrix_same_score(a, b, p);
    }
    crate::search::game_tree::lemma_same_choice(
        a,
        b,
        by_matrix.win(),
        -by_matrix.win(),
        pos,
        depth + 1,
    );
}

} // verus!
