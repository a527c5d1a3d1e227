//! Evaluators of positions and the searches that choose a move.

pub mod alpha_beta;
pub mod evaluator;
pub mod game_tree;
pub mod mcts;
pub mod nega_scout;
pub mod orbits;
pub mod order;
pub mod thunder;
pub mod time_keeper;
pub mod tree;
pub mod winrate_evaluator;

pub use alpha_beta::AlphaBetaSearch;
pub use evaluator::BitMatrixEvaluator;
pub use evaluator::Evaluator;
pub use evaluator::LegalNumEvaluator;
pub use evaluator::MatrixEvaluator;
pub use evaluator::PieceEvaluator;
pub use mcts::MctsSearch;
pub use nega_scout::NegaScoutSearch;
pub use order::sort_by_score;
pub use thunder::ThunderSearch;
pub use time_keeper::TimeKeeper;
pub use winrate_evaluator::WinrateEvaluator;

use crate::board::Board;
use crate::search::mcts::chosen_in;
use crate::search::tree::{SearchTree, SelectionPolicy};
use std::time::Duration;
use vstd::prelude::*;

verus! {

/// A search: it chooses a move for the side to move, with a budget that is
/// part of its settings or against a deadline.
pub trait Search {
    /// The settings of the search let it run.
    spec fn can_search(&self) -> bool;

    /// A move for the position of `board`, in which the mover can move.
    fn get_move(&self, board: &mut Board) -> (best: Option<usize>)
        requires
            self.can_search(),
            old(board)@.is_valid(),
            !old(board)@.must_pass(),
        ensures
            final(board)@ == old(board)@,
            best matches Some(m) && old(board)@.is_legal(m as int),
    ;

    /// A move for the position of `board`, in which the mover can move,
    /// found before `timeout` has passed; `None` where the time did not
    /// suffice to find any.
    fn get_move_with_timeout(&self, board: &mut Board, timeout: Duration) -> (best: Option<usize>)
        requires
            self.can_search(),
            old(board)@.is_valid(),
            !old(board)@.must_pass(),
        ensures
            final(board)@ == old(board)@,
            best matches Some(m) ==> old(board)@.is_legal(m as int),
    ;
}

impl<E: Evaluator> Search for AlphaBetaSearch<E> {
    open spec fn can_search(&self) -> bool {
        self.wf()
    }

    fn get_move(&self, board: &mut Board) -> (best: Option<usize>)
        ensures
            best == Some(self.choice(old(board)@, self.depth())),
    {
        AlphaBetaSearch::get_move(self, board)
    }

    fn get_move_with_timeout(&self, board: &mut Board, timeout: Duration) -> (best: Option<usize>)
        ensures
            best matches Some(m) ==> exists|depth: nat|
                depth < self.depth() && m == #[trigger] self.choice(old(board)@, depth),
    {
        AlphaBetaSearch::get_move_with_timeout(self, board, timeout)
    }
}

impl<P: SelectionPolicy> Search for MctsSearch<P> {
    open spec fn can_search(&self) -> bool {
        self.wf() && self.interval() > 0
    }

    fn get_move(&self, board: &mut Board) -> (best: Option<usize>)
        ensures
            exists|tree: SearchTree| #[trigger]
                chosen_in(tree, old(board)@, self.playouts() as int, best->Some_0),
    {
        MctsSearch::get_move(self, board)
    }

    fn get_move_with_timeout(&self, board: &mut Board, timeout: Duration) -> (best: Option<usize>)
        ensures
            best is Some,
            exists|tree: SearchTree, visits: int| #[trigger]
                chosen_in(tree, old(board)@, visits, best->Some_0) && 0 <= visits
                    <= self.playouts(),
    {
        MctsSearch::get_move_with_timeout(self, board, timeout)
    }
}

impl<W: WinrateEvaluator> Search for ThunderSearch<W> {
    open spec fn can_search(&self) -> bool {
        self.wf() && self.interval() > 0
    }

    fn get_move(&self, board: &mut Board) -> (best: Option<usize>)
        ensures
            exists|tree: SearchTree| #[trigger]
                chosen_in(tree, old(board)@, self.playouts() as int, best->Some_0),
    {
        ThunderSearch::get_move(self, board)
    }

    fn get_move_with_timeout(&self, board: &mut Board, timeout: Duration) -> (best: Option<usize>)
        ensures
            best is Some,
            exists|tree: SearchTree, visits: int| #[trigger]
                chosen_in(tree, old(board)@, visits, best->Some_0) && 0 <= visits
                    <= self.playouts(),
    {
        ThunderSearch::get_move_with_timeout(self, board, timeout)
    }
}

} // verus!
