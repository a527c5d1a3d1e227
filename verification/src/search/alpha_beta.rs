//! Negamax search with alpha-beta pruning, at a fixed depth or against a
//! deadline.

use crate::bits::{cells_of};
use crate::board::{lemma_move_keeps_valid, lemma_swap_keeps_valid, Board, Position};
use crate::search::evaluator::Evaluator;
use crate::search::game_tree::{
    best_move, covers, fail_soft, first_best, lemma_best_reply_limit,
    lemma_cover_value, lemma_natural_covers, lemma_negamax_limit, lemma_ordered_covers,
    moves_of, negamax, ordered_moves, reply_value, reply_values, score_limit,
    scored_move, scored_moves, terminal_score, SCORE_MAX,
};
use crate::search::order::{sort_by_score, sorted_by_score};
use crate::search::time_keeper::{micros_of, span_less_margin, TimeKeeper};
use std::sync::Arc;
use std::time::Duration;
use vstd::prelude::*;

verus! {

/// Another handle on what `handle` points to, by `Arc::clone`: both point
/// to the same value.
#[verifier::external_body]
pub(crate) fn share<T>(handle: &Arc<T>) -> (other: Arc<T>)
    ensures
        other == *handle,
{
    Arc::clone(handle)
}

/// The microseconds that a search against a deadline keeps in reserve
/// unless it is told otherwise.
pub const DEFAULT_MARGIN_MICROS: u64 = 5000;

/// A search that looks a fixed number of plies ahead and prunes what cannot
/// change its choice.
#[derive(Debug)]
pub struct AlphaBetaSearch<E: Evaluator> {
    max_depth: usize,
    evaluator: Arc<E>,
    move_ordering_evaluator: Arc<E>,
    win_score: i32,
    margin_time: u64,
}

impl<E: Evaluator> AlphaBetaSearch<E> {
    /// The plies that the search looks ahead, behind the move that it
    /// chooses.
    pub closed spec fn depth(&self) -> nat {
        self.max_depth as nat
    }

    /// The evaluator that scores the positions at the end of the look-ahead.
    pub closed spec fn scorer(&self) -> E {
        *self.evaluator
    }

    /// The evaluator by which the moves are ordered.
    pub closed spec fn orderer(&self) -> E {
        *self.move_ordering_evaluator
    }

    /// The score of a game that the mover has won.
    pub closed spec fn win(&self) -> int {
        self.win_score as int
    }

    /// The microseconds that a search against a deadline keeps in reserve.
    pub closed spec fn margin(&self) -> u64 {
        self.margin_time
    }

    /// The search can run: its evaluators can, and no score that it meets
    /// lies beyond `SCORE_MAX`.
    pub open spec fn wf(&self) -> bool {
        &&& self.scorer().wf()
        &&& self.orderer().wf()
        &&& score_limit(self.scorer(), self.win(), -self.win()) <= SCORE_MAX
        &&& score_limit(self.orderer(), self.win(), -self.win()) <= SCORE_MAX
    }

    /// The value of `pos` at `depth` plies.
    pub open spec fn value(&self, pos: Position, depth: nat) -> int {
        negamax(self.scorer(), self.win(), -self.win(), pos, depth)
    }

    /// The order in which the moves of `pos` are tried.
    pub open spec fn order(&self, pos: Position) -> Seq<usize> {
        ordered_moves(self.orderer(), self.win(), -self.win(), pos)
    }

    /// The move that the search chooses in `pos` when it looks `depth`
    /// plies ahead: the first in the order with the greatest value.
    pub open spec fn choice(&self, pos: Position, depth: nat) -> usize {
        best_move(self.scorer(), self.win(), -self.win(), pos, depth + 1, self.order(pos))
    }

    /// A search that looks `max_depth` plies ahead, scores with
    /// `evaluator`, orders the moves with it too, and scores a won game
    /// with `win_score`.
    pub fn new(max_depth: usize, evaluator: Arc<E>, win_score: i32) -> (search: Self)
        ensures
            search.depth() == max_depth,
            search.scorer() == *evaluator,
            search.orderer() == *evaluator,
            search.win() == win_score,
            search.margin() == DEFAULT_MARGIN_MICROS,
    {
        Self {
            max_depth,
            evaluator: share(&evaluator),
            move_ordering_evaluator: evaluator,
            win_score,
            margin_time: DEFAULT_MARGIN_MICROS,
        }
    }

    /// Whether the search can run.
    pub fn is_ready(&self) -> (ready: bool)
        ensures
            ready == self.wf(),
    {
        if self.win_score < -SCORE_MAX || self.win_score > SCORE_MAX {
            return false;
        }
        match (self.evaluator.bound(), self.move_ordering_evaluator.bound()) {
            (Some(scores), Some(orders)) => scores <= SCORE_MAX as i64 && orders
                <= SCORE_MAX as i64,
            _ => false,
        }
    }

    /// The plies that the search looks ahead.
    pub fn get_max_depth(&self) -> (max_depth: usize)
        ensures
            max_depth == self.depth(),
    {
        self.max_depth
    }

    /// Sets the plies that the search looks ahead.
    pub fn set_max_depth(&mut self, max_depth: usize)
        ensures
            final(self).depth() == max_depth,
            final(self).scorer() == old(self).scorer(),
            final(self).orderer() == old(self).orderer(),
            final(self).win() == old(self).win(),
            final(self).margin() == old(self).margin(),
    {
        self.max_depth = max_depth;
    }

    /// The score of a won game.
    pub fn get_win_score(&self) -> (win_score: i32)
        ensures
            win_score == self.win(),
    {
        self.win_score
    }

    /// Sets the score of a won game.
    pub fn set_win_score(&mut self, win_score: i32)
        ensures
            final(self).win() == win_score,
            final(self).depth() == old(self).depth(),
            final(self).scorer() == old(self).scorer(),
            final(self).orderer() == old(self).orderer(),
            final(self).margin() == old(self).margin(),
    {
        self.win_score = win_score;
    }

    /// The evaluator by which the moves are ordered.
    pub fn get_move_ordering_evaluator(&self) -> (evaluator: Arc<E>)
        ensures
            *evaluator == self.orderer(),
    {
        share(&self.move_ordering_evaluator)
    }

    /// Sets the evaluator by which the moves are ordered.
    pub fn set_move_ordering_evaluator(&mut self, evaluator: Arc<E>)
        ensures
            final(self).orderer() == *evaluator,
            final(self).depth() == old(self).depth(),
            final(self).scorer() == old(self).scorer(),
            final(self).win() == old(self).win(),
            final(self).margin() == old(self).margin(),
    {
        self.move_ordering_evaluator = evaluator;
    }

    /// Sets the microseconds that a search against a deadline keeps in
    /// reserve.
    pub fn set_margin_time(&mut self, margin_time: u64)
        ensures
            final(self).margin() == margin_time,
            final(self).depth() == old(self).depth(),
            final(self).scorer() == old(self).scorer(),
            final(self).orderer() == old(self).orderer(),
            final(self).win() == old(self).win(),
    {
        self.margin_time = margin_time;
    }

    /// The microseconds that a search against a deadline keeps in reserve.
    pub fn get_margin_time(&self) -> (margin_time: u64)
        ensures
            margin_time == self.margin(),
    {
        self.margin_time
    }

    /// The score by which a move is ordered: the value at depth 0 of the
    /// position that it leads to.
    fn score_board(&self, board: &mut Board) -> (score: i32)
        requires
            self.wf(),
            old(board)@.is_valid(),
        ensures
            final(board)@ == old(board)@,
            score == negamax(self.orderer(), self.win(), -self.win(), old(board)@, 0),
    {
        if board.is_game_over() {
            match (board.is_win(), board.is_lose()) {
                (Ok(true), _) => {
                    return self.win_score;
                },
                (_, Ok(true)) => {
                    return -self.win_score;
                },
                _ => {
                    return 0;
                },
            }
        }
        self.move_ordering_evaluator.evaluate(board)
    }

    /// The legal moves in the order in which they are tried; `None` where
    /// the mover has to pass.
    fn get_legal_moves_vec_ordered(&self, board: &mut Board) -> (moves: Option<Vec<usize>>)
        requires
            self.wf(),
            old(board)@.is_valid(),
        ensures
            final(board)@ == old(board)@,
            old(board)@.must_pass() ==> moves is None,
            !old(board)@.must_pass() ==> moves is Some && moves->Some_0@ == self.order(
                old(board)@,
            ),
    {
        if board.is_pass() {
            return None;
        }
        let ghost pos = board@;
        let ghost scored = scored_moves(self.orderer(), self.win(), -self.win(), pos);
        let legal_moves = board.get_legal_moves_vec();
        let mut entries: Vec<(i32, u64)> = Vec::with_capacity(legal_moves.len());
        let mut i: usize = 0;
        while i < legal_moves.len()
            invariant
                i <= legal_moves@.len(),
                self.wf(),
                board@ == pos,
                pos.is_valid(),
                legal_moves@ == cells_of(pos.legal_moves()),
                scored == scored_moves(self.orderer(), self.win(), -self.win(), pos),
                entries@ == scored.take(i as int),
            decreases legal_moves@.len() - i,
        {
            let m = legal_moves.get(i);
            proof {
                lemma_natural_covers(pos);
                lemma_move_keeps_valid(pos, m as int);
            }
            let mut new_board = *board;
            new_board.do_move(m).unwrap();
            let score = self.score_board(&mut new_board);
            entries.push((score, m as u64));
            assert(entries@[i as int] == scored_move(
                self.orderer(),
                self.win(),
                -self.win(),
                pos,
                i as int,
            ));
            i += 1;
            assert(entries@ =~= scored.take(i as int));
        }
        assert(scored.take(i as int) =~= scored);
        sort_by_score(&mut entries);
        let mut moves: Vec<usize> = Vec::with_capacity(entries.len());
        let mut j: usize = 0;
        while j < entries.len()
            invariant
                j <= entries@.len(),
                entries@ == sorted_by_score(scored),
                moves@ == moves_of(entries@).take(j as int),
            decreases entries@.len() - j,
        {
            moves.push(entries[j].1 as usize);
            j += 1;
            assert(moves@ =~= moves_of(entries@).take(j as int));
        }
        assert(moves_of(entries@).take(j as int) =~= moves_of(entries@));
        Some(moves)
    }

    /// The value of the position of `board` at `depth` plies, as far as the
    /// window from `alpha` to `beta` asks for it.
    fn get_search_score(&self, board: &mut Board, depth: usize, alpha: i32, beta: i32) -> (score:
        i32)
        requires
            self.wf(),
            old(board)@.is_valid(),
            i32::MIN < alpha < beta,
        ensures
            final(board)@ == old(board)@,
            score > i32::MIN,
            fail_soft(
                score as int,
                alpha as int,
                beta as int,
                self.value(old(board)@, depth as nat),
            ),
            old(board)@.is_terminal() ==> score == terminal_score(
                old(board)@,
                self.win(),
                -self.win(),
            ),
            !old(board)@.is_terminal() && depth == 0 ==> score == self.scorer().score(old(board)@),
        decreases depth, (if old(board)@.must_pass() {
            2int
        } else {
            1int
        }),
    {
        let ghost pos = board@;
        let ghost ev = self.scorer();
        let ghost win = self.win();
        proof {
            lemma_negamax_limit(ev, win, -win, pos, depth as nat);
        }
        if board.is_game_over() {
            match (board.is_win(), board.is_lose()) {
                (Ok(true), _) => {
                    return self.win_score;
                },
                (_, Ok(true)) => {
                    return -self.win_score;
                },
                _ => {
                    return 0;
                },
            }
        }
        if depth == 0 {
            return self.evaluator.evaluate(board);
        }
        if board.is_pass() {
            let mut new_board = *board;
            new_board.do_pass().unwrap();
            proof {
                lemma_swap_keeps_valid(pos);
            }
            return -self.get_search_score(&mut new_board, depth, -beta, -alpha);
        }
        let ordered = depth > 2 && board.get_legal_moves().count_ones() > 4;
        let moves = if ordered {
            proof {
                lemma_ordered_covers(self.orderer(), win, -win, pos);
            }
            self.get_legal_moves_vec_ordered(board).unwrap()
        } else {
            proof {
                lemma_natural_covers(pos);
            }
            board.get_legal_moves_vec().to_vec()
        };
        let mut current_alpha = alpha;
        let mut k: usize = 0;
        while k < moves.len()
            invariant
                k <= moves@.len(),
                self.wf(),
                ev == self.scorer(),
                win == self.win(),
                board@ == pos,
                pos == old(board)@,
                pos.is_valid(),
                !pos.must_pass(),
                depth > 0,
                covers(moves@, pos),
                i32::MIN < alpha <= current_alpha < beta,
                forall|j: int|
                    0 <= j < k ==> reply_value(
                        ev,
                        win,
                        -win,
                        pos,
                        depth as nat,
                        #[trigger] moves@[j] as int,
                    ) <= current_alpha,
                current_alpha > alpha ==> exists|j: int|
                    0 <= j < k && reply_value(
                        ev,
                        win,
                        -win,
                        pos,
                        depth as nat,
                        #[trigger] moves@[j] as int,
                    ) == current_alpha,
            decreases moves@.len() - k,
        {
            let m = moves[k];
            proof {
                lemma_move_keeps_valid(pos, m as int);
                lemma_best_reply_limit(ev, win, -win, pos, depth as nat, 64);
            }
            let mut child_board = *board;
            child_board.do_move(m).unwrap();
            let score = -self.get_search_score(
                &mut child_board,
                depth - 1,
                -beta,
                -current_alpha,
            );
            assert(reply_value(ev, win, -win, pos, depth as nat, moves@[k as int] as int)
                == -self.value(pos.after_move(m as int), (depth - 1) as nat));
            if score > current_alpha {
                current_alpha = score;
            }
            if current_alpha >= beta {
                return current_alpha;
            }
            k += 1;
        }
        proof {
            lemma_cover_value(ev, win, -win, pos, depth as nat, moves@, current_alpha as int);
        }
        current_alpha
    }
    /// The move that the search chooses: the first in the order of the
    /// moves whose value, `max_depth` plies behind it, no other move
    /// exceeds.
    pub fn get_move(&self, board: &mut Board) -> (best: Option<usize>)
        requires
            self.wf(),
            old(board)@.is_valid(),
            !old(board)@.must_pass(),
        ensures
            final(board)@ == old(board)@,
            best == Some(self.choice(old(board)@, self.depth())),
            old(board)@.is_legal(self.choice(old(board)@, self.depth()) as int),
    {
        let ghost pos = board@;
        let ghost ev = self.scorer();
        let ghost win = self.win();
        let ghost depth = self.depth() + 1;
        let mut best_move: Option<usize> = None;
        let mut alpha: i32 = i32::MIN + 1;
        let beta: i32 = i32::MAX - 1;
        let moves = self.get_legal_moves_vec_ordered(board).unwrap();
        let ghost values = reply_values(ev, win, -win, pos, depth as nat, moves@);
        proof {
            lemma_ordered_covers(self.orderer(), win, -win, pos);
            crate::search::game_tree::lemma_covers_some(moves@, pos);
        }
        let mut k: usize = 0;
        while k < moves.len()
            invariant
                k <= moves@.len(),
                self.wf(),
                ev == self.scorer(),
                win == self.win(),
                depth == self.depth() + 1,
                board@ == pos,
                pos.is_valid(),
                covers(moves@, pos),
                beta == i32::MAX - 1,
                values == reply_values(ev, win, -win, pos, depth as nat, moves@),
                k == 0 ==> best_move is None && alpha == i32::MIN + 1,
                k > 0 ==> best_move == Some(moves@[first_best(values, k as nat)]) && alpha
                    == values[first_best(values, k as nat)],
                0 <= first_best(values, k as nat) < moves@.len(),
                i32::MIN < alpha < beta,
            decreases moves@.len() - k,
        {
            let move_i = moves[k];
            proof {
                lemma_move_keeps_valid(pos, move_i as int);
                lemma_negamax_limit(ev, win, -win, pos.after_move(move_i as int), self.depth());
            }
            let mut new_board = *board;
            new_board.do_move(move_i).unwrap();
            let score = -self.get_search_score(&mut new_board, self.max_depth, -beta, -alpha);
            assert(values[k as int] == -self.value(pos.after_move(move_i as int), self.depth()));
            if score > alpha {
                alpha = score;
                best_move = Some(move_i);
            }
            k += 1;
        }
        best_move
    }

    /// The value of the position for the mover, `max_depth` plies behind
    /// the move that is made.
    pub fn get_best_score(&self, board: &mut Board) -> (score: i32)
        requires
            self.wf(),
            old(board)@.is_valid(),
            !old(board)@.must_pass(),
        ensures
            final(board)@ == old(board)@,
            score == self.value(old(board)@, self.depth() + 1),
    {
        let ghost pos = board@;
        let ghost ev = self.scorer();
        let ghost win = self.win();
        let ghost depth = self.depth() + 1;
        let mut alpha: i32 = i32::MIN + 1;
        let beta: i32 = i32::MAX - 1;
        let moves = self.get_legal_moves_vec_ordered(board).unwrap();
        proof {
            lemma_ordered_covers(self.orderer(), win, -win, pos);
            crate::search::game_tree::lemma_covers_some(moves@, pos);
        }
        let mut k: usize = 0;
        while k < moves.len()
            invariant
                k <= moves@.len(),
                self.wf(),
                ev == self.scorer(),
                win == self.win(),
                depth == self.depth() + 1,
                board@ == pos,
                pos.is_valid(),
                covers(moves@, pos),
                beta == i32::MAX - 1,
                k == 0 ==> alpha == i32::MIN + 1,
                forall|j: int|
                    0 <= j < k ==> reply_value(
                        ev,
                        win,
                        -win,
                        pos,
                        depth as nat,
                        #[trigger] moves@[j] as int,
                    ) <= alpha,
                k > 0 ==> exists|j: int|
                    0 <= j < k && reply_value(
                        ev,
                        win,
                        -win,
                        pos,
                        depth as nat,
                        #[trigger] moves@[j] as int,
                    ) == alpha,
                i32::MIN < alpha < beta,
            decreases moves@.len() - k,
        {
            let move_i = moves[k];
            proof {
                lemma_move_keeps_valid(pos, move_i as int);
                lemma_negamax_limit(ev, win, -win, pos.after_move(move_i as int), self.depth());
            }
            let mut new_board = *board;
            new_board.do_move(move_i).unwrap();
            let score = -self.get_search_score(&mut new_board, self.max_depth, -beta, -alpha);
            assert(reply_value(ev, win, -win, pos, depth as nat, moves@[k as int] as int)
                == -self.value(pos.after_move(move_i as int), self.depth()));
            if score > alpha {
                alpha = score;
            }
            k += 1;
        }
        proof {
            lemma_cover_value(ev, win, -win, pos, depth as nat, moves@, alpha as int);
        }
        alpha
    }
    /// The value of the position of `board` at `depth` plies, as far as the
    /// window from `alpha` to `beta` asks for it, unless the deadline
    /// passes: then the search of the moves stops, and the score says
    /// nothing.
    fn get_search_score_with_timeout(
        &self,
        board: &mut Board,
        depth: usize,
        alpha: i32,
        beta: i32,
        time_keeper: &mut TimeKeeper,
    ) -> (score: i32)
        requires
            self.wf(),
            old(board)@.is_valid(),
            i32::MIN < alpha < beta,
        ensures
            final(board)@ == old(board)@,
            score > i32::MIN,
            old(time_keeper).expired() ==> final(time_keeper).expired(),
            !final(time_keeper).expired() ==> fail_soft(
                score as int,
                alpha as int,
                beta as int,
                self.value(old(board)@, depth as nat),
            ),
            old(board)@.is_terminal() ==> score == terminal_score(
                old(board)@,
                self.win(),
                -self.win(),
            ),
            !old(board)@.is_terminal() && depth == 0 ==> score == self.scorer().score(old(board)@),
        decreases depth, (if old(board)@.must_pass() {
            2int
        } else {
            1int
        }),
    {
        let ghost pos = board@;
        let ghost ev = self.scorer();
        let ghost win = self.win();
        proof {
            lemma_negamax_limit(ev, win, -win, pos, depth as nat);
        }
        if board.is_game_over() {
            match (board.is_win(), board.is_lose()) {
                (Ok(true), _) => {
                    return self.win_score;
                },
                (_, Ok(true)) => {
                    return -self.win_score;
                },
                _ => {
                    return 0;
                },
            }
        }
        if depth == 0 {
            return self.evaluator.evaluate(board);
        }
        if board.is_pass() {
            let mut new_board = *board;
            new_board.do_pass().unwrap();
            proof {
                lemma_swap_keeps_valid(pos);
            }
            return -self.get_search_score_with_timeout(
                &mut new_board,
                depth,
                -beta,
                -alpha,
                time_keeper,
            );
        }
        let ordered = depth > 2 && board.get_legal_moves().count_ones() > 4;
        let moves = if ordered {
            proof {
                lemma_ordered_covers(self.orderer(), win, -win, pos);
            }
            self.get_legal_moves_vec_ordered(board).unwrap()
        } else {
            proof {
                lemma_natural_covers(pos);
            }
            board.get_legal_moves_vec().to_vec()
        };
        let mut current_alpha = alpha;
        let mut k: usize = 0;
        while k < moves.len()
            invariant_except_break
                !time_keeper.expired() ==> forall|j: int|
                    0 <= j < k ==> reply_value(
                        ev,
                        win,
                        -win,
                        pos,
                        depth as nat,
                        #[trigger] moves@[j] as int,
                    ) <= current_alpha,
                !time_keeper.expired() && current_alpha > alpha ==> exists|j: int|
                    0 <= j < k && reply_value(
                        ev,
                        win,
                        -win,
                        pos,
                        depth as nat,
                        #[trigger] moves@[j] as int,
                    ) == current_alpha,
            invariant
                k <= moves@.len(),
                self.wf(),
                ev == self.scorer(),
                win == self.win(),
                board@ == pos,
                pos == old(board)@,
                pos.is_valid(),
                !pos.must_pass(),
                depth > 0,
                covers(moves@, pos),
                i32::MIN < alpha <= current_alpha < beta,
                old(time_keeper).expired() ==> time_keeper.expired(),
            ensures
                !time_keeper.expired() ==> forall|j: int|
                    0 <= j < moves@.len() ==> reply_value(
                        ev,
                        win,
                        -win,
                        pos,
                        depth as nat,
                        #[trigger] moves@[j] as int,
                    ) <= current_alpha,
                !time_keeper.expired() && current_alpha > alpha ==> exists|j: int|
                    0 <= j < moves@.len() && reply_value(
                        ev,
                        win,
                        -win,
                        pos,
                        depth as nat,
                        #[trigger] moves@[j] as int,
                    ) == current_alpha,
            decreases moves@.len() - k,
        {
            let m = moves[k];
            proof {
                lemma_move_keeps_valid(pos, m as int);
                lemma_best_reply_limit(ev, win, -win, pos, depth as nat, 64);
            }
            let mut child_board = *board;
            child_board.do_move(m).unwrap();
            let score = -self.get_search_score_with_timeout(
                &mut child_board,
                depth - 1,
                -beta,
                -current_alpha,
                time_keeper,
            );
            assert(reply_value(ev, win, -win, pos, depth as nat, moves@[k as int] as int)
                == -self.value(pos.after_move(m as int), (depth - 1) as nat));
            if score > current_alpha {
                current_alpha = score;
            }
            if current_alpha >= beta {
                return current_alpha;
            }
            if time_keeper.is_timeout() {
                break;
            }
            k += 1;
        }
        proof {
            if !time_keeper.expired() {
                lemma_cover_value(ev, win, -win, pos, depth as nat, moves@, current_alpha as int);
            }
        }
        current_alpha
    }

    /// The move that the search chooses when it looks `depth` plies behind
    /// it, unless the deadline passes: then the search of the moves stops,
    /// and the move, if there is one, is some legal move.
    fn get_move_with_timeout_inner(
        &self,
        board: &mut Board,
        depth: usize,
        time_keeper: &mut TimeKeeper,
    ) -> (best: Option<usize>)
        requires
            self.wf(),
            old(board)@.is_valid(),
            !old(board)@.must_pass(),
        ensures
            final(board)@ == old(board)@,
            old(time_keeper).expired() ==> final(time_keeper).expired(),
            !final(time_keeper).expired() ==> best == Some(
                self.choice(old(board)@, depth as nat),
            ),
            best matches Some(m) ==> old(board)@.is_legal(m as int),
    {
        let ghost pos = board@;
        let ghost ev = self.scorer();
        let ghost win = self.win();
        let mut best_move: Option<usize> = None;
        let mut alpha: i32 = i32::MIN + 1;
        let beta: i32 = i32::MAX - 1;
        let moves = self.get_legal_moves_vec_ordered(board).unwrap();
        let ghost values = reply_values(ev, win, -win, pos, (depth + 1) as nat, moves@);
        proof {
            lemma_ordered_covers(self.orderer(), win, -win, pos);
            crate::search::game_tree::lemma_covers_some(moves@, pos);
        }
        let mut k: usize = 0;
        while k < moves.len()
            invariant_except_break
                !time_keeper.expired() && k == 0 ==> best_move is None && alpha == i32::MIN + 1,
                !time_keeper.expired() && k > 0 ==> best_move == Some(
                    moves@[first_best(values, k as nat)],
                ) && alpha == values[first_best(values, k as nat)],
                0 <= first_best(values, k as nat) < moves@.len(),
                i32::MIN < alpha < beta,
            invariant
                k <= moves@.len(),
                self.wf(),
                ev == self.scorer(),
                win == self.win(),
                board@ == pos,
                pos == old(board)@,
                pos.is_valid(),
                covers(moves@, pos),
                beta == i32::MAX - 1,
                values == reply_values(ev, win, -win, pos, (depth + 1) as nat, moves@),
                old(time_keeper).expired() ==> time_keeper.expired(),
                best_move matches Some(m) ==> pos.is_legal(m as int),
            ensures
                !time_keeper.expired() ==> best_move == Some(
                    moves@[first_best(values, moves@.len())],
                ),
            decreases moves@.len() - k,
        {
            let move_i = moves[k];
            proof {
                lemma_move_keeps_valid(pos, move_i as int);
                lemma_negamax_limit(ev, win, -win, pos.after_move(move_i as int), depth as nat);
            }
            let mut new_board = *board;
            new_board.do_move(move_i).unwrap();
            let score = -self.get_search_score_with_timeout(
                &mut new_board,
                depth,
                -beta,
                -alpha,
                time_keeper,
            );
            assert(values[k as int] == -self.value(pos.after_move(move_i as int), depth as nat));
            if score > alpha {
                alpha = score;
                best_move = Some(move_i);
            }
            if time_keeper.is_timeout() {
                break;
            }
            k += 1;
        }
        best_move
    }

    /// The move of the deepest search that ended before the deadline of
    /// `time_keeper`: the searches look 0, 1, 2 and more plies behind the
    /// move, up to `max_depth - 1`. `None` where not even the first search
    /// ended in time, as it is where the deadline had passed before.
    pub fn get_move_until(&self, board: &mut Board, time_keeper: &mut TimeKeeper) -> (best: Option<
        usize,
    >)
        requires
            self.wf(),
            old(board)@.is_valid(),
            !old(board)@.must_pass(),
        ensures
            final(board)@ == old(board)@,
            old(time_keeper).expired() ==> final(time_keeper).expired(),
            best matches Some(m) ==> exists|depth: nat|
                depth < self.depth() && m == #[trigger] self.choice(old(board)@, depth),
            best matches Some(m) ==> old(board)@.is_legal(m as int),
            self.depth() == 0 || old(time_keeper).expired() ==> best is None,
            !final(time_keeper).expired() && self.depth() > 0 ==> best == Some(
                self.choice(old(board)@, (self.depth() - 1) as nat),
            ),
    {
        let ghost pos = board@;
        let mut best_move: Option<usize> = None;
        let mut depth: usize = 0;
        while depth < self.max_depth
            invariant_except_break
                !time_keeper.expired() && depth > 0 ==> best_move == Some(
                    self.choice(pos, (depth - 1) as nat),
                ),
            invariant
                depth <= self.max_depth,
                self.wf(),
                board@ == pos,
                pos.is_valid(),
                !pos.must_pass(),
                old(time_keeper).expired() ==> time_keeper.expired(),
                best_move matches Some(m) ==> exists|d: nat|
                    d < self.depth() && m == #[trigger] self.choice(pos, d),
                best_move matches Some(m) ==> pos.is_legal(m as int),
                self.max_depth == 0 || old(time_keeper).expired() ==> best_move is None,
            ensures
                !time_keeper.expired() && self.depth() > 0 ==> best_move == Some(
                    self.choice(pos, (self.depth() - 1) as nat),
                ),
            decreases self.max_depth - depth,
        {
            let move_i = self.get_move_with_timeout_inner(board, depth, time_keeper);
            if time_keeper.is_timeout() {
                break;
            }
            if let Some(m) = move_i {
                assert(m == self.choice(pos, depth as nat));
                best_move = Some(m);
            }
            depth += 1;
        }
        best_move
    }

    /// The move of the deepest search that ended before the deadline: the
    /// searches look 0, 1, 2 and more plies behind the move, up to
    /// `max_depth - 1`, and the deadline lies `timeout`, less the margin,
    /// after the call. `None` where not even the first search ended in
    /// time.
    pub fn get_move_with_timeout(&self, board: &mut Board, timeout: Duration) -> (best: Option<
        usize,
    >)
        requires
            self.wf(),
            old(board)@.is_valid(),
            !old(board)@.must_pass(),
        ensures
            final(board)@ == old(board)@,
            best matches Some(m) ==> exists|depth: nat|
                depth < self.depth() && m == #[trigger] self.choice(old(board)@, depth),
            best matches Some(m) ==> old(board)@.is_legal(m as int),
            self.depth() == 0 ==> best is None,
    {
        let search_duration = span_less_margin(micros_of(&timeout), self.margin_time);
        let mut time_keeper = TimeKeeper::new(search_duration);
        self.get_move_until(board, &mut time_keeper)
    }
}

/// A search that looks no ply behind its move chooses by comparing the
/// scores of the positions one ply ahead: the first move, in the order of
/// the search, whose score for the mover no other exceeds.
pub proof fn lemma_choice_without_depth<E: Evaluator>(search: &AlphaBetaSearch<E>, pos: Position)
    ensures
        search.choice(pos, 0) == search.order(pos)[first_best(
            crate::search::game_tree::one_ply_scores(
                search.scorer(),
                search.win(),
                -search.win(),
                pos,
                search.order(pos),
            ),
            search.order(pos).len(),
        )],
{
    crate::search::game_tree::lemma_choice_without_depth(
        search.scorer(),
        search.win(),
        -search.win(),
        pos,
        search.order(pos),
    );
}

} // verus!
