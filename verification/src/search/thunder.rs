//! Tree search that values a position by an evaluator instead of a random
//! game, and that mostly follows the child with the best mean.

use crate::board::{Board, Position};
use crate::chance::{random_below, random_ratio};
use crate::search::alpha_beta::share;
use crate::search::mcts::{chosen_in, move_of_child, DEFAULT_CHECK_INTERVAL};
use crate::search::time_keeper::{micros_of, span_less_margin, TimeKeeper};
use crate::search::tree::{
    end_value, LeafValuer, SearchTree, SelectionPolicy, MAX_VISITS, VALUE_HALF, VALUE_ONE,
};
use crate::search::winrate_evaluator::WinrateEvaluator;
use std::sync::Arc;
use std::time::Duration;
use vstd::prelude::*;

verus! {

/// The microseconds that a search against a deadline keeps in reserve
/// unless it is told otherwise.
pub const THUNDER_MARGIN_MICROS: u64 = 1100;

/// The chance of 1, in the millionths in which `epsilon` is given.
pub const EPSILON_ONE: u32 = 1_000_000;

/// Child `i` has a lower mean value than child `j`: its own mover does
/// worse there, so the mover of the parent does better.
pub open spec fn lower_mean(visits: Seq<u64>, values: Seq<u64>, i: int, j: int) -> bool {
    values[i] * visits[j] < values[j] * visits[i]
}

/// The place of the first child whose mean value no other child goes
/// below, among the first `upto` children.
pub open spec fn first_lowest(visits: Seq<u64>, values: Seq<u64>, upto: nat) -> int
    decreases upto,
{
    if upto <= 1 {
        0
    } else {
        let before = first_lowest(visits, values, (upto - 1) as nat);
        if lower_mean(visits, values, upto - 1, before) {
            upto - 1
        } else {
            before
        }
    }
}

proof fn lemma_product_fits(a: u64, b: u64)
    by (nonlinear_arith)
    ensures
        a * b <= 0xFFFF_FFFF_FFFF_FFFF * 0xFFFF_FFFF_FFFF_FFFF,
{
}

/// The child with the lowest mean value for its own mover, the first of
/// them where there are several: the one that is best for the mover of the
/// parent.
pub fn greedy_index(visits: &Vec<u64>, values: &Vec<u64>) -> (index: usize)
    requires
        visits@.len() == values@.len(),
        visits@.len() > 0,
    ensures
        index == first_lowest(visits@, values@, visits@.len()),
        index < visits@.len(),
{
    let mut best_child_index: usize = 0;
    let mut i: usize = 1;
    while i < visits.len()
        invariant
            1 <= i <= visits@.len(),
            visits@.len() == values@.len(),
            best_child_index == first_lowest(visits@, values@, i as nat),
            best_child_index < i,
        decreases visits@.len() - i,
    {
        proof {
            lemma_product_fits(values[i as int], visits[best_child_index as int]);
            lemma_product_fits(values[best_child_index as int], visits[i as int]);
        }
        let mine = values[i] as u128 * visits[best_child_index] as u128;
        let best = values[best_child_index] as u128 * visits[i] as u128;
        if mine < best {
            best_child_index = i;
        }
        i += 1;
    }
    best_child_index
}

/// The child that is visited once the draws are made: the child that was
/// drawn where the search explores, else the child with the best mean.
pub fn pick(explore: bool, drawn: usize, visits: &Vec<u64>, values: &Vec<u64>) -> (index: usize)
    requires
        visits@.len() == values@.len(),
        drawn < visits@.len(),
    ensures
        index == (if explore {
            drawn as int
        } else {
            first_lowest(visits@, values@, visits@.len())
        }),
        index < visits@.len(),
{
    if explore {
        return drawn;
    }
    greedy_index(visits, values)
}

/// Follows the child with the best mean, but with the chance `epsilon`, in
/// millionths, a child drawn at random.
pub struct EpsilonGreedy {
    pub epsilon: u32,
}

impl SelectionPolicy for EpsilonGreedy {
    open spec fn wf(&self) -> bool {
        self.epsilon <= EPSILON_ONE
    }

    /// Any child where a child may be drawn; where none is, the first of
    /// the children with the best mean.
    open spec fn admits(&self, visits: &Vec<u64>, values: &Vec<u64>, index: usize) -> bool {
        self.epsilon == 0 ==> index == first_lowest(visits@, values@, visits@.len())
    }

    fn select(&self, visits: &Vec<u64>, values: &Vec<u64>) -> (index: usize) {
        let explore = random_ratio(self.epsilon, EPSILON_ONE);
        let drawn = if explore {
            random_below(visits.len())
        } else {
            0
        };
        pick(explore, drawn, visits, values)
    }
}

/// The value of the position of `board` for the mover: what the end of the
/// game is worth where the game has ended, else the rate of `evaluator`.
pub fn score_board<W: WinrateEvaluator>(board: &mut Board, evaluator: &Arc<W>) -> (value: u64)
    requires
        evaluator.wf(),
        old(board)@.is_valid(),
    ensures
        final(board)@ == old(board)@,
        value == (if old(board)@.is_terminal() {
            end_value(old(board)@)
        } else {
            evaluator.rate(old(board)@)
        }),
        value <= VALUE_ONE,
{
    if board.is_game_over() {
        match (board.is_win(), board.is_lose()) {
            (Ok(true), _) => {
                return VALUE_ONE;
            },
            (_, Ok(true)) => {
                return 0;
            },
            _ => {
                return VALUE_HALF;
            },
        }
    }
    evaluator.evaluate(board)
}

/// Values a position by an evaluator of the chance to win.
pub struct WinrateLeaf<W: WinrateEvaluator> {
    pub evaluator: Arc<W>,
}

impl<W: WinrateEvaluator> LeafValuer for WinrateLeaf<W> {
    open spec fn wf(&self) -> bool {
        self.evaluator.wf()
    }

    /// The value is the chance that the evaluator gives to `pos`.
    open spec fn admits(&self, pos: Position, value: u64) -> bool {
        value == self.evaluator.rate(pos)
    }

    fn leaf_value(&self, board: &mut Board) -> (value: u64) {
        score_board(board, &self.evaluator)
    }
}

/// A tree search that values positions with `W`.
#[derive(Debug)]
pub struct ThunderSearch<W: WinrateEvaluator> {
    n_playouts: usize,
    epsilon: u32,
    evaluator: Arc<W>,
    margin_time: u64,
    check_interval: usize,
}

impl<W: WinrateEvaluator> ThunderSearch<W> {
    /// The number of visits of the tree in one search.
    pub closed spec fn playouts(&self) -> nat {
        self.n_playouts as nat
    }

    /// The chance, in millionths, with which a child is drawn at random.
    pub closed spec fn chance(&self) -> nat {
        self.epsilon as nat
    }

    /// The evaluator of the search.
    pub closed spec fn rater(&self) -> W {
        *self.evaluator
    }

    /// After how many visits a search against a deadline looks at the
    /// clock.
    pub closed spec fn interval(&self) -> nat {
        self.check_interval as nat
    }

    /// The microseconds that a search against a deadline keeps in reserve.
    pub closed spec fn margin(&self) -> u64 {
        self.margin_time
    }

    /// The search can run: its evaluator can, its chance is no more than
    /// 1, and its visits can be counted.
    pub open spec fn wf(&self) -> bool {
        &&& self.rater().wf()
        &&& self.chance() <= EPSILON_ONE
        &&& self.playouts() <= MAX_VISITS
    }

    /// A search of `n_playouts` visits that draws a child at random with
    /// the chance `epsilon`, in millionths, and values with `evaluator`.
    pub fn new(n_playouts: usize, epsilon: u32, evaluator: Arc<W>) -> (search: Self)
        ensures
            search.playouts() == n_playouts,
            search.chance() == epsilon,
            search.rater() == *evaluator,
            search.interval() == DEFAULT_CHECK_INTERVAL,
            search.margin() == THUNDER_MARGIN_MICROS,
    {
        Self {
            n_playouts,
            epsilon,
            evaluator,
            margin_time: THUNDER_MARGIN_MICROS,
            check_interval: DEFAULT_CHECK_INTERVAL,
        }
    }

    /// Whether the visits of a search can be counted and its chance is no
    /// more than 1.
    pub fn is_countable(&self) -> (countable: bool)
        ensures
            countable == (self.playouts() <= MAX_VISITS && self.chance() <= EPSILON_ONE),
    {
        self.n_playouts as u64 <= MAX_VISITS && self.epsilon <= EPSILON_ONE
    }

    /// The number of visits of the tree in one search.
    pub fn get_n_playouts(&self) -> (n_playouts: usize)
        ensures
            n_playouts == self.playouts(),
    {
        self.n_playouts
    }

    /// Sets the number of visits of the tree in one search.
    pub fn set_n_playouts(&mut self, n_playouts: usize)
        ensures
            final(self).playouts() == n_playouts,
            final(self).chance() == old(self).chance(),
            final(self).rater() == old(self).rater(),
            final(self).interval() == old(self).interval(),
            final(self).margin() == old(self).margin(),
    {
        self.n_playouts = n_playouts;
    }

    /// The chance, in millionths, with which a child is drawn at random.
    pub fn get_epsilon(&self) -> (epsilon: u32)
        ensures
            epsilon == self.chance(),
    {
        self.epsilon
    }

    /// Sets the chance, in millionths, with which a child is drawn at
    /// random.
    pub fn set_epsilon(&mut self, epsilon: u32)
        ensures
            final(self).chance() == epsilon,
            final(self).playouts() == old(self).playouts(),
            final(self).rater() == old(self).rater(),
            final(self).interval() == old(self).interval(),
            final(self).margin() == old(self).margin(),
    {
        self.epsilon = epsilon;
    }

    /// The microseconds that a search against a deadline keeps in reserve.
    pub fn get_margin_time(&self) -> (margin_time: u64)
        ensures
            margin_time == self.margin(),
    {
        self.margin_time
    }

    /// Sets the microseconds that a search against a deadline keeps in
    /// reserve.
    pub fn set_margin_time(&mut self, margin_time: u64)
        ensures
            final(self).margin() == margin_time,
            final(self).playouts() == old(self).playouts(),
            final(self).chance() == old(self).chance(),
            final(self).rater() == old(self).rater(),
            final(self).interval() == old(self).interval(),
    {
        self.margin_time = margin_time;
    }

    /// After how many visits a search against a deadline looks at the
    /// clock.
    pub fn get_check_interval(&self) -> (check_interval: usize)
        ensures
            check_interval == self.interval(),
    {
        self.check_interval
    }

    /// Sets after how many visits a search against a deadline looks at the
    /// clock.
    pub fn set_check_interval(&mut self, check_interval: usize)
        ensures
            final(self).interval() == check_interval,
            final(self).playouts() == old(self).playouts(),
            final(self).chance() == old(self).chance(),
            final(self).rater() == old(self).rater(),
            final(self).margin() == old(self).margin(),
    {
        self.check_interval = check_interval;
    }

    /// The move that the search chooses: it visits the tree `n_playouts`
    /// times and takes the move to the child of the root that was visited
    /// most often.
    pub fn get_move(&self, board: &mut Board) -> (best: Option<usize>)
        requires
            self.wf(),
            old(board)@.is_valid(),
            !old(board)@.must_pass(),
        ensures
            final(board)@ == old(board)@,
            best is Some,
            old(board)@.is_legal(best->Some_0 as int),
            exists|tree: SearchTree| #[trigger]
                chosen_in(tree, old(board)@, self.playouts() as int, best->Some_0),
    {
        let mut root = SearchTree::new(*board);
        root.expand_root();
        root.run_playouts(
            &WinrateLeaf { evaluator: share(&self.evaluator) },
            &EpsilonGreedy { epsilon: self.epsilon },
            0,
            self.n_playouts as u64,
        );
        let best = Some(move_of_child(board, &root));
        assert(chosen_in(root, old(board)@, self.playouts() as int, best->Some_0));
        best
    }

    /// The move that the search chooses against a deadline: it visits the
    /// tree until the deadline has passed, `n_playouts` times at most, and
    /// takes the move to the child of the root that was visited most
    /// often. The deadline lies `timeout`, less the margin, after the call.
    pub fn get_move_with_timeout(&self, board: &mut Board, timeout: Duration) -> (best: Option<
        usize,
    >)
        requires
            self.wf(),
            self.interval() > 0,
            old(board)@.is_valid(),
            !old(board)@.must_pass(),
        ensures
            final(board)@ == old(board)@,
            best is Some,
            old(board)@.is_legal(best->Some_0 as int),
            exists|tree: SearchTree, visits: int| #[trigger]
                chosen_in(tree, old(board)@, visits, best->Some_0) && 0 <= visits
                    <= self.playouts(),
    {
        let mut root = SearchTree::new(*board);
        root.expand_root();
        let search_duration = span_less_margin(micros_of(&timeout), self.margin_time);
        let mut time_keeper = TimeKeeper::new(search_duration);
        root.run_playouts_until(
            &WinrateLeaf { evaluator: share(&self.evaluator) },
            &EpsilonGreedy { epsilon: self.epsilon },
            0,
            self.n_playouts as u64,
            self.check_interval as u64,
            &mut time_keeper,
        );
        let best = Some(move_of_child(board, &root));
        assert(chosen_in(root, old(board)@, root.visits(0), best->Some_0));
        best
    }

    /// What the search finds the position worth to the mover: the sum of
    /// the values of the visits of the root, and the number of the visits.
    /// A position in which the game has ended is visited once.
    pub fn get_search_stats(&self, board: &mut Board) -> (stats: (u64, u64))
        requires
            self.wf(),
            old(board)@.is_valid(),
        ensures
            final(board)@ == old(board)@,
            old(board)@.is_terminal() ==> stats == (end_value(old(board)@), 1u64),
            !old(board)@.is_terminal() ==> stats.1 == self.playouts() && stats.0 <= stats.1
                * VALUE_ONE,
    {
        if board.is_game_over() {
            return match (board.is_win(), board.is_lose()) {
                (Ok(true), _) => (VALUE_ONE, 1),
                (_, Ok(true)) => (0, 1),
                _ => (VALUE_HALF, 1),
            };
        }
        let mut root = SearchTree::new(*board);
        root.expand_root();
        root.run_playouts(
            &WinrateLeaf { evaluator: share(&self.evaluator) },
            &EpsilonGreedy { epsilon: self.epsilon },
            0,
            self.n_playouts as u64,
        );
        proof {
            root.lemma_root_mean();
        }
        root.root_stats()
    }
}

} // verus!
