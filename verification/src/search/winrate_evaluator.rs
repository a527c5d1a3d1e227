//! Evaluators that say how likely the mover is to win.

use crate::board::{Board, Position};
use crate::search::tree::VALUE_ONE;
use vstd::prelude::*;

verus! {

/// The chance of the mover to win, in millionths: `VALUE_ONE` where the
/// mover is sure to win, 0 where the opponent is, `VALUE_HALF` where the
/// chances are even.
pub trait WinrateEvaluator {
    /// What the evaluator needs to hold of itself before it can rate.
    spec fn wf(&self) -> bool;

    /// The rate of `pos`.
    spec fn rate(&self, pos: Position) -> u64;

    /// Rates the position of `board`.
    fn evaluate(&self, board: &mut Board) -> (rate: u64)
        requires
            self.wf(),
            old(board)@.is_valid(),
        ensures
            rate == self.rate(old(board)@),
            rate <= VALUE_ONE,
            final(board)@ == old(board)@,
    ;
}

} // verus!
