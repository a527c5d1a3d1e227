//! Evaluators: what a position is worth to the side to move.

use crate::bits::{
    count_cells, count_upto, has_cell, lemma_cells_of, lemma_count_bound,
};
use crate::board::{Board, Color, Position};
use crate::search::order::{insert_pos, lemma_sorted_by_score, sort_by_score, sorted_by_score};
use crate::text::color_for_mover;
use vstd::array::array_fill_for_copy_types;
use vstd::prelude::*;

verus! {

/// A score for positions, seen from the side to move: the greater, the
/// better for the mover.
pub trait Evaluator {
    /// What the evaluator needs to hold of itself before it can score.
    spec fn wf(&self) -> bool;

    /// The score of `pos`.
    spec fn score(&self, pos: Position) -> i64;

    /// No score of a valid position lies farther from 0 than this.
    spec fn limit(&self) -> i64;

    /// The scores of valid positions keep within the limit.
    proof fn lemma_score_limit(&self, pos: Position)
        requires
            self.wf(),
            pos.is_valid(),
        ensures
            -self.limit() <= self.score(pos) <= self.limit(),
    ;

    /// Scores the position of `board`.
    fn evaluate(&self, board: &mut Board) -> (score: i32)
        requires
            self.wf(),
            old(board)@.is_valid(),
        ensures
            score == self.score(old(board)@),
            final(board)@ == old(board)@,
    ;

    /// The limit of the scores, if the evaluator can score at all.
    fn bound(&self) -> (limit: Option<i64>)
        ensures
            self.wf() == limit is Some,
            limit matches Some(l) ==> l == self.limit(),
    ;
}

/// Scores a position by how many stones the mover has more than the
/// opponent.
#[derive(Clone, Copy, Debug)]
pub struct PieceEvaluator {}

impl PieceEvaluator {
    /// The evaluator.
    pub fn new() -> (evaluator: Self) {
        PieceEvaluator {  }
    }
}

impl Default for PieceEvaluator {
    fn default() -> (evaluator: Self) {
        PieceEvaluator {  }
    }
}

impl Evaluator for PieceEvaluator {
    open spec fn wf(&self) -> bool {
        true
    }

    open spec fn score(&self, pos: Position) -> i64 {
        (pos.mover_count() - pos.opponent_count()) as i64
    }

    open spec fn limit(&self) -> i64 {
        64
    }

    proof fn lemma_score_limit(&self, pos: Position) {
        lemma_count_bound(pos.mover, 64);
        lemma_count_bound(pos.opponent, 64);
    }

    fn evaluate(&self, board: &mut Board) -> (score: i32) {
        board.diff_piece_num()
    }

    fn bound(&self) -> (limit: Option<i64>) {
        Some(64)
    }
}

/// Scores a position by the number of legal moves of the mover.
#[derive(Clone, Copy, Debug)]
pub struct LegalNumEvaluator {}

impl LegalNumEvaluator {
    /// The evaluator.
    pub fn new() -> (evaluator: Self) {
        LegalNumEvaluator {  }
    }
}

impl Default for LegalNumEvaluator {
    fn default() -> (evaluator: Self) {
        LegalNumEvaluator {  }
    }
}

impl Evaluator for LegalNumEvaluator {
    open spec fn wf(&self) -> bool {
        true
    }

    open spec fn score(&self, pos: Position) -> i64 {
        count_cells(pos.legal_moves()) as i64
    }

    open spec fn limit(&self) -> i64 {
        64
    }

    proof fn lemma_score_limit(&self, pos: Position) {
        lemma_count_bound(pos.legal_moves(), 64);
    }

    fn evaluate(&self, board: &mut Board) -> (score: i32) {
        proof {
            lemma_cells_of(board@.legal_moves());
        }
        board.get_legal_moves_vec().len() as i32
    }

    fn bound(&self) -> (limit: Option<i64>) {
        Some(64)
    }
}

/// The distance of `x` from 0.
pub open spec fn abs(x: int) -> int {
    if x < 0 {
        -x
    } else {
        x
    }
}

/// What a cell of weight `weight` adds to the score: the weight where the
/// mover has a stone, its negative where the opponent has one.
pub open spec fn cell_value(weight: int, pos: Position, cell: int) -> int {
    if has_cell(pos.mover, cell) {
        weight
    } else if has_cell(pos.opponent, cell) {
        -weight
    } else {
        0
    }
}

/// The weight that `matrix` gives to `cell`.
pub open spec fn weight_of(matrix: [[i32; 8]; 8], cell: int) -> int {
    matrix[cell / 8][cell % 8] as int
}

/// The sum of what the cells `0..upto` add to the score.
pub open spec fn matrix_score_upto(matrix: [[i32; 8]; 8], pos: Position, upto: nat) -> int
    decreases upto,
{
    if upto == 0 {
        0
    } else {
        matrix_score_upto(matrix, pos, (upto - 1) as nat) + cell_value(
            weight_of(matrix, upto - 1),
            pos,
            upto - 1,
        )
    }
}

/// The sum of the absolute weights of the cells `0..upto`.
pub open spec fn matrix_total_upto(matrix: [[i32; 8]; 8], upto: nat) -> int
    decreases upto,
{
    if upto == 0 {
        0
    } else {
        matrix_total_upto(matrix, (upto - 1) as nat) + abs(weight_of(matrix, upto - 1))
    }
}

/// The sum of the absolute weights grows with the cells that it covers.
pub proof fn lemma_matrix_total_grows(matrix: [[i32; 8]; 8], from: nat, to: nat)
    requires
        from <= to,
    ensures
        0 <= matrix_total_upto(matrix, from) <= matrix_total_upto(matrix, to),
    decreases to,
{
    if from < to {
        lemma_matrix_total_grows(matrix, from, (to - 1) as nat);
    } else if from > 0 {
        lemma_matrix_total_grows(matrix, (from - 1) as nat, (from - 1) as nat);
    }
}

/// No score lies farther from 0 than the sum of the absolute weights.
pub proof fn lemma_matrix_score_bound(matrix: [[i32; 8]; 8], pos: Position, upto: nat)
    ensures
        abs(matrix_score_upto(matrix, pos, upto)) <= matrix_total_upto(matrix, upto),
    decreases upto,
{
    if upto > 0 {
        lemma_matrix_score_bound(matrix, pos, (upto - 1) as nat);
    }
}

/// Scores a position by a weight for each cell: the weights of the mover's
/// stones count for, those of the opponent's stones against.
#[derive(Clone, Copy, Debug)]
pub struct MatrixEvaluator {
    matrix: [[i32; 8]; 8],
}

impl MatrixEvaluator {
    /// An evaluator with the weight `matrix[row][col]` for the cell in row
    /// `row` and column `col`.
    pub fn new(matrix: [[i32; 8]; 8]) -> (evaluator: Self)
        ensures
            evaluator.weights() == matrix,
    {
        Self { matrix }
    }

    /// The weights.
    pub closed spec fn weights(&self) -> [[i32; 8]; 8] {
        self.matrix
    }

    /// The weights.
    pub fn matrix(&self) -> (matrix: [[i32; 8]; 8])
        ensures
            matrix == self.weights(),
    {
        self.matrix
    }

    /// The sum of the absolute weights.
    pub fn total_weight(&self) -> (total: i64)
        ensures
            total == matrix_total_upto(self.weights(), 64),
    {
        let mut total: i64 = 0;
        let mut i: usize = 0;
        while i < 64
            invariant
                i <= 64,
                total == matrix_total_upto(self.matrix, i as nat),
                0 <= total <= i * 0x8000_0000,
            decreases 64 - i,
        {
            let weight = self.matrix[i / 8][i % 8] as i64;
            if weight < 0 {
                total = total - weight;
            } else {
                total = total + weight;
            }
            i += 1;
        }
        total
    }

    /// Whether the absolute weights sum up to an `i32`, so that no score
    /// can overflow.
    pub fn is_bounded(&self) -> (bounded: bool)
        ensures
            bounded == self.wf(),
    {
        self.total_weight() <= 0x7FFF_FFFF
    }
}

impl Evaluator for MatrixEvaluator {
    open spec fn wf(&self) -> bool {
        matrix_total_upto(self.weights(), 64) <= i32::MAX
    }

    open spec fn score(&self, pos: Position) -> i64 {
        matrix_score_upto(self.weights(), pos, 64) as i64
    }

    open spec fn limit(&self) -> i64 {
        matrix_total_upto(self.weights(), 64) as i64
    }

    proof fn lemma_score_limit(&self, pos: Position) {
        lemma_matrix_score_bound(self.weights(), pos, 64);
        lemma_matrix_total_grows(self.weights(), 0, 64);
    }

    fn evaluate(&self, board: &mut Board) -> (score: i32) {
        let mut score: i32 = 0;
        let board_vec = board.get_board_vec_black().unwrap();
        let ghost pos = board@;
        let mut i: usize = 0;
        while i < 64
            invariant
                i <= 64,
                self.wf(),
                board_vec@ == Seq::new(64, |cell: int| color_for_mover(pos, cell)),
                score == matrix_score_upto(self.matrix, pos, i as nat),
            decreases 64 - i,
        {
            proof {
                lemma_matrix_score_bound(self.matrix, pos, i as nat);
                lemma_matrix_score_bound(self.matrix, pos, (i + 1) as nat);
                lemma_matrix_total_grows(self.matrix, (i + 1) as nat, 64);
            }
            let color = board_vec[i];
            assert(color == color_for_mover(pos, i as int));
            if color == Color::Black {
                score += self.matrix[i / 8][i % 8];
            } else if color == Color::White {
                score -= self.matrix[i / 8][i % 8];
            }
            i += 1;
        }
        score
    }

    fn bound(&self) -> (limit: Option<i64>) {
        let total = self.total_weight();
        if total <= 0x7FFF_FFFF {
            Some(total)
        } else {
            None
        }
    }
}

/// How many stones the mover has more than the opponent on the cells of
/// `mask`.
pub open spec fn orbit_diff(mask: u64, pos: Position) -> int {
    count_cells(pos.mover & mask) - count_cells(pos.opponent & mask)
}

/// What a weighted mask adds to the score.
pub open spec fn orbit_term(entry: (i32, u64), pos: Position) -> int {
    entry.0 * orbit_diff(entry.1, pos)
}

/// The sum of what the weighted masks add to the score.
pub open spec fn weighted_sum(entries: Seq<(i32, u64)>, pos: Position) -> int
    decreases entries.len(),
{
    if entries.len() == 0 {
        0
    } else {
        weighted_sum(entries.drop_last(), pos) + orbit_term(entries.last(), pos)
    }
}

/// The most that a weighted mask can add to or take from the score.
pub open spec fn orbit_reach(entry: (i32, u64)) -> int {
    abs(entry.0 as int) * count_cells(entry.1)
}

/// The most that the weighted masks can add to or take from the score.
pub open spec fn weighted_reach(entries: Seq<(i32, u64)>) -> int
    decreases entries.len(),
{
    if entries.len() == 0 {
        0
    } else {
        weighted_reach(entries.drop_last()) + orbit_reach(entries.last())
    }
}

/// The weights paired with the masks.
pub open spec fn paired(weights: Seq<i32>, masks: Seq<u64>) -> Seq<(i32, u64)> {
    Seq::new(weights.len(), |i: int| (weights[i], masks[i]))
}

/// The subset has no more cells.
pub proof fn lemma_count_subset(part: u64, whole: u64, upto: nat)
    requires
        forall|x: int| has_cell(part, x) ==> has_cell(whole, x),
    ensures
        count_upto(part, upto) <= count_upto(whole, upto),
    decreases upto,
{
    if upto > 0 {
        lemma_count_subset(part, whole, (upto - 1) as nat);
    }
}

proof fn lemma_product_bound(k: int, d: int, w: int, c: int)
    by (nonlinear_arith)
    requires
        0 <= k <= w,
        -c <= d <= c,
    ensures
        -(w * c) <= k * d <= w * c,
        (k + 1) * d == k * d + d,
        (-k) * d == -(k * d),
        0 * d == 0,
{
}

proof fn lemma_reach_of(weight: int, cells: int)
    by (nonlinear_arith)
    requires
        -0x8000_0000 <= weight < 0x8000_0000,
        0 <= cells <= 64,
    ensures
        0 <= abs(weight) * cells <= 0x8000_0000 * 64,
{
}

/// On the cells of a mask, neither side has more stones than the mask has
/// cells.
pub proof fn lemma_orbit_diff_bound(mask: u64, pos: Position)
    ensures
        -count_cells(mask) <= orbit_diff(mask, pos) <= count_cells(mask),
        count_cells(pos.mover & mask) <= count_cells(mask) <= 64,
        count_cells(pos.opponent & mask) <= count_cells(mask),
{
    broadcast use crate::bits::group_cell_ops;

    lemma_count_subset(pos.mover & mask, mask, 64);
    lemma_count_subset(pos.opponent & mask, mask, 64);
    lemma_count_bound(mask, 64);
}

/// The reach of the weighted masks grows with the masks that it covers.
pub proof fn lemma_weighted_reach_grows(entries: Seq<(i32, u64)>, n: int)
    requires
        0 <= n <= entries.len(),
    ensures
        0 <= weighted_reach(entries.take(n)) <= weighted_reach(entries),
    decreases entries.len(),
{
    if n < entries.len() {
        lemma_weighted_reach_grows(entries.drop_last(), n);
        assert(entries.drop_last().take(n) =~= entries.take(n));
        lemma_product_bound(
            0,
            0,
            abs(entries.last().0 as int),
            count_cells(entries.last().1) as int,
        );
    } else {
        assert(entries.take(n) =~= entries);
        if n > 0 {
            lemma_weighted_reach_grows(entries.drop_last(), n - 1);
            assert(entries.drop_last().take(n - 1) =~= entries.drop_last());
            lemma_product_bound(
                0,
                0,
                abs(entries.last().0 as int),
                count_cells(entries.last().1) as int,
            );
        }
    }
}

/// No weighted sum lies farther from 0 than the reach of its masks.
pub proof fn lemma_weighted_sum_bound(entries: Seq<(i32, u64)>, pos: Position)
    ensures
        -weighted_reach(entries) <= weighted_sum(entries, pos) <= weighted_reach(entries),
    decreases entries.len(),
{
    if entries.len() > 0 {
        lemma_weighted_sum_bound(entries.drop_last(), pos);
        let (w, m) = entries.last();
        lemma_orbit_diff_bound(m, pos);
        let d = orbit_diff(m, pos);
        if w >= 0 {
            lemma_product_bound(w as int, d, w as int, count_cells(m) as int);
        } else {
            lemma_product_bound(-w, d, -w, count_cells(m) as int);
        }
    }
}

/// Where an entry is put into a sequence, it adds its own term to the sum
/// and its own reach to the reach.
pub proof fn lemma_weighted_insert(
    entries: Seq<(i32, u64)>,
    at: int,
    entry: (i32, u64),
    pos: Position,
)
    requires
        0 <= at <= entries.len(),
    ensures
        weighted_sum(entries.insert(at, entry), pos) == weighted_sum(entries, pos) + orbit_term(
            entry,
            pos,
        ),
        weighted_reach(entries.insert(at, entry)) == weighted_reach(entries) + orbit_reach(entry),
    decreases entries.len(),
{
    let all = entries.insert(at, entry);
    if at == entries.len() {
        assert(all.drop_last() =~= entries);
    } else {
        lemma_weighted_insert(entries.drop_last(), at, entry, pos);
        assert(all.drop_last() =~= entries.drop_last().insert(at, entry));
        assert(all.last() == entries.last());
    }
}

/// Sorting the entries changes neither the sum nor the reach.
pub proof fn lemma_weighted_sorted(entries: Seq<(i32, u64)>, pos: Position)
    ensures
        weighted_sum(sorted_by_score(entries), pos) == weighted_sum(entries, pos),
        weighted_reach(sorted_by_score(entries)) == weighted_reach(entries),
    decreases entries.len(),
{
    if entries.len() > 0 {
        let front = sorted_by_score(entries.drop_last());
        lemma_weighted_sorted(entries.drop_last(), pos);
        lemma_sorted_by_score(entries.drop_last());
        crate::search::order::lemma_insert_pos(front, entries.last().0);
        lemma_weighted_insert(front, insert_pos(front, entries.last().0), entries.last(), pos);
    }
}

/// Scores a position by weighted masks: each mask counts the stones that
/// the mover has more than the opponent on its cells, times its weight.
///
/// The entries are kept in ascending order of their weights, those with a
/// weight above 0 from `positive_start` on.
#[derive(Debug)]
pub struct BitMatrixEvaluator<const N: usize> {
    weights: [i32; N],
    masks: [u64; N],
    positive_start: usize,
}

impl<const N: usize> Clone for BitMatrixEvaluator<N> {
    fn clone(&self) -> (copy: Self)
        ensures
            copy.entries() == self.entries(),
    {
        proof {
            use_type_invariant(self);
        }
        let copy = Self {
            weights: self.weights,
            masks: self.masks,
            positive_start: self.positive_start,
        };
        assert(copy.entries() =~= self.entries());
        copy
    }
}

impl<const N: usize> BitMatrixEvaluator<N> {
    #[verifier::type_invariant]
    closed spec fn split_by_sign(self) -> bool {
        &&& self.positive_start <= N
        &&& forall|i: int| 0 <= i < self.positive_start ==> self.weights[i] <= 0
        &&& forall|i: int| self.positive_start <= i < N ==> self.weights[i] >= 0
    }

    /// The weighted masks, in the order in which they are summed.
    pub closed spec fn entries(&self) -> Seq<(i32, u64)> {
        Seq::new(N as nat, |i: int| (self.weights[i], self.masks[i]))
    }

    /// The weights, in the order in which they are summed.
    pub fn get_weights(&self) -> (weights: Vec<i32>)
        ensures
            weights@.len() == N,
            forall|i: int| 0 <= i < N ==> weights@[i] == self.entries()[i].0,
    {
        let mut weights: Vec<i32> = Vec::with_capacity(N);
        let mut i: usize = 0;
        while i < N
            invariant
                i <= N,
                weights@.len() == i,
                forall|j: int| 0 <= j < i ==> weights@[j] == self.entries()[j].0,
            decreases N - i,
        {
            weights.push(self.weights[i]);
            i += 1;
        }
        weights
    }

    /// The masks, in the order in which they are summed.
    pub fn get_masks(&self) -> (masks: Vec<u64>)
        ensures
            masks@.len() == N,
            forall|i: int| 0 <= i < N ==> masks@[i] == self.entries()[i].1,
    {
        let mut masks: Vec<u64> = Vec::with_capacity(N);
        let mut i: usize = 0;
        while i < N
            invariant
                i <= N,
                masks@.len() == i,
                forall|j: int| 0 <= j < i ==> masks@[j] == self.entries()[j].1,
            decreases N - i,
        {
            masks.push(self.masks[i]);
            i += 1;
        }
        masks
    }

    /// An evaluator with the masks `masks`, each with the weight that
    /// `weights` holds at the same place.
    pub fn new(weights: Vec<i32>, masks: Vec<u64>) -> (evaluator: Self)
        requires
            weights.len() == N,
            masks.len() == N,
        ensures
            evaluator.entries() == sorted_by_score(paired(weights@, masks@)),
    {
        let ghost input = paired(weights@, masks@);
        let mut sorted_masks: Vec<(i32, u64)> = Vec::with_capacity(N);
        let mut i: usize = 0;
        while i < N
            invariant
                i <= N,
                weights.len() == N,
                masks.len() == N,
                input == paired(weights@, masks@),
                sorted_masks@ == input.take(i as int),
            decreases N - i,
        {
            sorted_masks.push((weights[i], masks[i]));
            i += 1;
            assert(sorted_masks@ =~= input.take(i as int));
        }
        assert(input.take(N as int) =~= input);
        sort_by_score(&mut sorted_masks);
        proof {
            lemma_sorted_by_score(input);
        }
        let ghost sorted = sorted_masks@;
        let mut positive_start: usize = 0;
        while positive_start < N && sorted_masks[positive_start].0 <= 0
            invariant
                positive_start <= N,
                sorted_masks@ == sorted,
                sorted.len() == N,
                forall|j: int| 0 <= j < positive_start ==> sorted[j].0 <= 0,
            decreases N - positive_start,
        {
            positive_start += 1;
        }
        let mut weights_array: [i32; N] = array_fill_for_copy_types(0);
        let mut masks_array: [u64; N] = array_fill_for_copy_types(0);
        let mut k: usize = 0;
        while k < N
            invariant
                k <= N,
                sorted_masks@ == sorted,
                sorted.len() == N,
                forall|j: int| 0 <= j < k ==> weights_array[j] == sorted[j].0,
                forall|j: int| 0 <= j < k ==> masks_array[j] == sorted[j].1,
            decreases N - k,
        {
            weights_array[k] = sorted_masks[k].0;
            masks_array[k] = sorted_masks[k].1;
            k += 1;
        }
        assert forall|j: int| positive_start <= j < N implies weights_array[j] >= 0 by {
            if positive_start < N {
                assert(sorted[positive_start as int].0 <= sorted[j].0 || j == positive_start);
            }
        }
        let evaluator = Self { weights: weights_array, masks: masks_array, positive_start };
        assert(evaluator.entries() =~= sorted);
        evaluator
    }
}

impl<const N: usize> Evaluator for BitMatrixEvaluator<N> {
    open spec fn wf(&self) -> bool {
        &&& weighted_reach(self.entries()) <= i32::MAX
        &&& forall|i: int| 0 <= i < self.entries().len() ==> self.entries()[i].0 > i32::MIN
    }

    open spec fn score(&self, pos: Position) -> i64 {
        weighted_sum(self.entries(), pos) as i64
    }

    open spec fn limit(&self) -> i64 {
        weighted_reach(self.entries()) as i64
    }

    proof fn lemma_score_limit(&self, pos: Position) {
        lemma_weighted_sum_bound(self.entries(), pos);
        lemma_weighted_reach_grows(self.entries(), 0);
    }

    fn evaluate(&self, board: &mut Board) -> (score: i32) {
        proof {
            use_type_invariant(self);
        }
        let ghost pos = board@;
        let ghost entries = self.entries();
        let mut score: i32 = 0;
        let (player_board, opponent_board, _turn) = board.get_board();
        let mut i: usize = 0;
        while i < self.positive_start
            invariant
                i <= self.positive_start <= N,
                self.wf(),
                entries == self.entries(),
                pos.mover == player_board,
                pos.opponent == opponent_board,
                forall|j: int| 0 <= j < self.positive_start ==> self.weights[j] <= 0,
                score == weighted_sum(entries.take(i as int), pos),
            decreases self.positive_start - i,
        {
            let player_count = (player_board & self.masks[i]).count_ones() as i32;
            let opponent_count = (opponent_board & self.masks[i]).count_ones() as i32;
            let ghost base = score as int;
            let ghost diff = orbit_diff(self.masks[i as int], pos);
            let ghost reach = count_cells(self.masks[i as int]) as int;
            proof {
                lemma_orbit_diff_bound(self.masks[i as int], pos);
                lemma_weighted_sum_bound(entries.take(i as int), pos);
                lemma_weighted_reach_grows(entries, i + 1);
                assert(entries.take(i + 1).drop_last() =~= entries.take(i as int));
                assert(entries[i as int] == (self.weights[i as int], self.masks[i as int]));
            }
            let times = -self.weights[i];
            let mut k: i32 = 0;
            while k < times
                invariant
                    0 <= k <= times,
                    -reach <= diff <= reach,
                    diff == player_count - opponent_count,
                    -64 <= diff <= 64,
                    score == base - k * diff,
                    -weighted_reach(entries.take(i as int)) <= base <= weighted_reach(
                        entries.take(i as int),
                    ),
                    weighted_reach(entries.take(i as int)) + times * reach <= i32::MAX,
                decreases times - k,
            {
                proof {
                    lemma_product_bound(k as int, diff, times as int, reach);
                    lemma_product_bound(k + 1, diff, times as int, reach);
                }
                score -= player_count - opponent_count;
                k += 1;
            }
            proof {
                lemma_product_bound(times as int, diff, times as int, reach);
            }
            i += 1;
        }
        while i < N
            invariant
                self.positive_start <= i <= N,
                self.wf(),
                entries == self.entries(),
                pos.mover == player_board,
                pos.opponent == opponent_board,
                forall|j: int| self.positive_start <= j < N ==> self.weights[j] >= 0,
                score == weighted_sum(entries.take(i as int), pos),
            decreases N - i,
        {
            let player_count = (player_board & self.masks[i]).count_ones() as i32;
            let opponent_count = (opponent_board & self.masks[i]).count_ones() as i32;
            let ghost base = score as int;
            let ghost diff = orbit_diff(self.masks[i as int], pos);
            let ghost reach = count_cells(self.masks[i as int]) as int;
            proof {
                lemma_orbit_diff_bound(self.masks[i as int], pos);
                lemma_weighted_sum_bound(entries.take(i as int), pos);
                lemma_weighted_reach_grows(entries, i + 1);
                assert(entries.take(i + 1).drop_last() =~= entries.take(i as int));
                assert(entries[i as int] == (self.weights[i as int], self.masks[i as int]));
            }
            let times = self.weights[i];
            let mut k: i32 = 0;
            while k < times
                invariant
                    0 <= k <= times,
                    -reach <= diff <= reach,
                    diff == player_count - opponent_count,
                    -64 <= diff <= 64,
                    score == base + k * diff,
                    -weighted_reach(entries.take(i as int)) <= base <= weighted_reach(
                        entries.take(i as int),
                    ),
                    weighted_reach(entries.take(i as int)) + times * reach <= i32::MAX,
                decreases times - k,
            {
                proof {
                    lemma_product_bound(k as int, diff, times as int, reach);
                    lemma_product_bound(k + 1, diff, times as int, reach);
                }
                score += player_count - opponent_count;
                k += 1;
            }
            i += 1;
        }
        assert(entries.take(N as int) =~= entries);
        score
    }

    fn bound(&self) -> (limit: Option<i64>) {
        let ghost entries = self.entries();
        let mut total: i64 = 0;
        let mut i: usize = 0;
        while i < N
            invariant
                i <= N,
                entries == self.entries(),
                total == weighted_reach(entries.take(i as int)),
                0 <= total <= i32::MAX,
                forall|j: int| 0 <= j < i ==> entries[j].0 > i32::MIN,
            decreases N - i,
        {
            let weight = self.weights[i] as i64;
            let cells = self.masks[i].count_ones() as i64;
            proof {
                lemma_count_bound(self.masks[i as int], 64);
                lemma_weighted_reach_grows(entries, i + 1);
                assert(entries.take(i + 1).drop_last() =~= entries.take(i as int));
                assert(entries[i as int] == (self.weights[i as int], self.masks[i as int]));
                lemma_reach_of(weight as int, cells as int);
            }
            if weight == -0x8000_0000 {
                return None;
            }
            let size = if weight < 0 {
                -weight
            } else {
                weight
            };
            let reach = size * cells;
            if total + reach > 0x7FFF_FFFF {
                return None;
            }
            total = total + reach;
            i += 1;
        }
        assert(entries.take(N as int) =~= entries);
        Some(total)
    }
}

} // verus!
