//! Principal-variation search: the first move is searched with the full
//! window, the others are first probed with a window of width 1.

use crate::bits::cells_of;
use crate::board::{lemma_move_keeps_valid, lemma_swap_keeps_valid, Board, Position};
use crate::search::evaluator::Evaluator;
use crate::search::game_tree::{
    best_move, covers, fail_soft, first_best, lemma_best_reply_limit, lemma_cover_value,
    lemma_covers_some, lemma_natural_covers, lemma_negamax_limit, lemma_ordered_covers, moves_of,
    negamax, ordered_moves, reply_value, reply_values, scored_move, scored_moves, terminal_score,
};
use crate::search::order::{sort_by_score, sorted_by_score};
use crate::search::time_keeper::{micros_of, span_less_margin, TimeKeeper};
use std::time::Duration;
use vstd::prelude::*;

verus! {

/// The score of a game that the mover has won.
pub const WIN_SCORE: i32 = 0x7FFF_FFFD;

/// The score of a game that the mover has lost.
pub const LOSS_SCORE: i32 = -0x7FFF_FFFE;

/// The greatest score, in absolute value, that the search works with.
pub const SCOUT_SCORE_MAX: i32 = 0x7FFF_FFFE;

/// The microseconds that a search against a deadline keeps in reserve.
pub const SCOUT_MARGIN_MICROS: u64 = 1000;

/// A principal-variation search.
pub struct NegaScoutSearch<E: Evaluator> {
    max_depth: usize,
    evaluator: Box<E>,
}

impl<E: Evaluator> NegaScoutSearch<E> {
    /// The plies that the search looks ahead, behind the move that it
    /// chooses.
    pub closed spec fn depth(&self) -> nat {
        self.max_depth as nat
    }

    /// The evaluator that scores the positions.
    pub closed spec fn scorer(&self) -> E {
        *self.evaluator
    }

    /// The search can run: its evaluator can, and no score that it gives
    /// lies beyond `SCOUT_SCORE_MAX`.
    pub open spec fn wf(&self) -> bool {
        &&& self.scorer().wf()
        &&& self.scorer().limit() <= SCOUT_SCORE_MAX
    }

    /// The value of `pos` at `depth` plies.
    pub open spec fn value(&self, pos: Position, depth: nat) -> int {
        negamax(self.scorer(), WIN_SCORE as int, LOSS_SCORE as int, pos, depth)
    }

    /// The order in which the moves of `pos` are tried below the first ply
    /// and in a search against a deadline.
    pub open spec fn order(&self, pos: Position) -> Seq<usize> {
        ordered_moves(self.scorer(), WIN_SCORE as int, LOSS_SCORE as int, pos)
    }

    /// The first of `moves` that has the greatest value `depth` plies
    /// behind it.
    pub open spec fn choice(&self, pos: Position, depth: nat, moves: Seq<usize>) -> usize {
        best_move(self.scorer(), WIN_SCORE as int, LOSS_SCORE as int, pos, depth + 1, moves)
    }

    /// A search that looks `max_depth` plies ahead and scores with
    /// `evaluator`.
    pub fn new(max_depth: usize, evaluator: Box<E>) -> (search: Self)
        ensures
            search.depth() == max_depth,
            search.scorer() == *evaluator,
    {
        Self { max_depth, evaluator }
    }

    /// Whether the search can run.
    pub fn is_ready(&self) -> (ready: bool)
        ensures
            ready == self.wf(),
    {
        match self.evaluator.bound() {
            Some(scores) => scores <= SCOUT_SCORE_MAX as i64,
            None => false,
        }
    }

    /// The score by which a move is ordered: the value at depth 0 of the
    /// position that it leads to.
    fn score_board(&self, board: &Board) -> (score: i32)
        requires
            self.wf(),
            board@.is_valid(),
        ensures
            score == self.value(board@, 0),
    {
        if board.is_game_over() {
            match (board.is_win(), board.is_lose()) {
                (Ok(true), _) => {
                    return i32::MAX - 2;
                },
                (_, Ok(true)) => {
                    return i32::MIN + 2;
                },
                _ => {
                    return 0;
                },
            }
        }
        let mut copy = *board;
        self.evaluator.evaluate(&mut copy)
    }

    /// The legal moves in the order in which they are tried; `None` where
    /// the mover has to pass.
    fn get_legal_moves_vec_ordered(&self, board: &Board) -> (moves: Option<Vec<usize>>)
        requires
            self.wf(),
            board@.is_valid(),
        ensures
            board@.must_pass() ==> moves is None,
            !board@.must_pass() ==> moves is Some && moves->Some_0@ == self.order(board@),
    {
        if board.is_pass() {
            return None;
        }
        let ghost pos = board@;
        let ghost scored = scored_moves(self.scorer(), WIN_SCORE as int, LOSS_SCORE as int, pos);
        let mut copy = *board;
        let legal_moves = copy.get_legal_moves_vec();
        let mut entries: Vec<(i32, u64)> = Vec::with_capacity(legal_moves.len());
        let mut i: usize = 0;
        while i < legal_moves.len()
            invariant
                i <= legal_moves@.len(),
                self.wf(),
                board@ == pos,
                pos.is_valid(),
                legal_moves@ == cells_of(pos.legal_moves()),
                scored == scored_moves(self.scorer(), WIN_SCORE as int, LOSS_SCORE as int, pos),
                entries@ == scored.take(i as int),
            decreases legal_moves@.len() - i,
        {
            let m = legal_moves.get(i);
            proof {
                lemma_natural_covers(pos);
                lemma_move_keeps_valid(pos, m as int);
            }
            let mut new_board = *board;
            new_board.do_move(m).unwrap();
            let score = self.score_board(&new_board);
            entries.push((score, m as u64));
            assert(entries@[i as int] == scored_move(
                self.scorer(),
                WIN_SCORE as int,
                LOSS_SCORE as int,
                pos,
                i as int,
            ));
            i += 1;
            assert(entries@ =~= scored.take(i as int));
        }
        assert(scored.take(i as int) =~= scored);
        sort_by_score(&mut entries);
        let mut moves: Vec<usize> = Vec::with_capacity(entries.len());
        let mut j: usize = 0;
        while j < entries.len()
            invariant
                j <= entries@.len(),
                entries@ == sorted_by_score(scored),
                moves@ == moves_of(entries@).take(j as int),
            decreases entries@.len() - j,
        {
            moves.push(entries[j].1 as usize);
            j += 1;
            assert(moves@ =~= moves_of(entries@).take(j as int));
        }
        assert(moves_of(entries@).take(j as int) =~= moves_of(entries@));
        Some(moves)
    }

    /// The boards after the legal moves, in the order in which the moves
    /// are tried; `None` where the mover has to pass.
    fn get_child_boards_ordered(&self, board: &Board) -> (children: Option<Vec<Board>>)
        requires
            self.wf(),
            board@.is_valid(),
        ensures
            board@.must_pass() ==> children is None,
            !board@.must_pass() ==> children is Some && children->Some_0@.len() == self.order(
                board@,
            ).len() && forall|i: int|
                0 <= i < children->Some_0@.len() ==> (#[trigger] children->Some_0@[i])@
                    == board@.after_move(self.order(board@)[i] as int),
    {
        let moves = match self.get_legal_moves_vec_ordered(board) {
            Some(moves) => moves,
            None => {
                return None;
            },
        };
        let ghost pos = board@;
        proof {
            lemma_ordered_covers(self.scorer(), WIN_SCORE as int, LOSS_SCORE as int, pos);
        }
        let mut child_boards: Vec<Board> = Vec::with_capacity(moves.len());
        let mut i: usize = 0;
        while i < moves.len()
            invariant
                i <= moves@.len(),
                board@ == pos,
                covers(moves@, pos),
                child_boards@.len() == i,
                forall|j: int|
                    0 <= j < i ==> (#[trigger] child_boards@[j])@ == pos.after_move(
                        moves@[j] as int,
                    ),
            decreases moves@.len() - i,
        {
            let mut child_board = *board;
            child_board.do_move(moves[i]).unwrap();
            child_boards.push(child_board);
            i += 1;
        }
        Some(child_boards)
    }

    /// The value of the position of `board` at `depth` plies, as far as the
    /// window from `alpha` to `beta` asks for it.
    fn get_search_score(&self, board: &Board, depth: usize, alpha: i32, beta: i32) -> (score: i32)
        requires
            self.wf(),
            board@.is_valid(),
            i32::MIN < alpha < beta,
        ensures
            score > i32::MIN,
            fail_soft(score as int, alpha as int, beta as int, self.value(board@, depth as nat)),
            board@.is_terminal() ==> score == terminal_score(
                board@,
                WIN_SCORE as int,
                LOSS_SCORE as int,
            ),
            !board@.is_terminal() && depth == 0 ==> score == self.scorer().score(board@),
        decreases depth, (if board@.must_pass() {
            2int
        } else {
            1int
        }),
    {
        let ghost pos = board@;
        let ghost ev = self.scorer();
        let ghost win = WIN_SCORE as int;
        let ghost loss = LOSS_SCORE as int;
        proof {
            lemma_negamax_limit(ev, win, loss, pos, depth as nat);
        }
        if board.is_game_over() {
            match (board.is_win(), board.is_lose()) {
                (Ok(true), _) => {
                    return i32::MAX - 2;
                },
                (_, Ok(true)) => {
                    return i32::MIN + 2;
                },
                _ => {
                    return 0;
                },
            }
        }
        if depth == 0 {
            let mut copy = *board;
            return self.evaluator.evaluate(&mut copy);
        }
        if let Some(child_boards) = self.get_child_boards_ordered(board) {
            let ghost moves = self.order(pos);
            proof {
                lemma_ordered_covers(ev, win, loss, pos);
                lemma_covers_some(moves, pos);
                lemma_best_reply_limit(ev, win, loss, pos, depth as nat, 64);
                lemma_move_keeps_valid(pos, moves[0] as int);
            }
            let mut current_alpha = alpha;
            // first child
            let score = -self.get_search_score(&child_boards[0], depth - 1, -beta, -current_alpha);
            assert(reply_value(ev, win, loss, pos, depth as nat, moves[0] as int) == -self.value(
                pos.after_move(moves[0] as int),
                (depth - 1) as nat,
            ));
            let mut max = score;
            if beta <= score {
                return score;
            }
            if current_alpha < score {
                current_alpha = score;
            }
            let mut k: usize = 1;
            while k < child_boards.len()
                invariant
                    1 <= k <= child_boards@.len(),
                    self.wf(),
                    ev == self.scorer(),
                    win == WIN_SCORE as int,
                    loss == LOSS_SCORE as int,
                    board@ == pos,
                    pos.is_valid(),
                    !pos.must_pass(),
                    depth > 0,
                    moves == self.order(pos),
                    covers(moves, pos),
                    child_boards@.len() == moves.len(),
                    forall|i: int|
                        0 <= i < child_boards@.len() ==> (#[trigger] child_boards@[i])@
                            == pos.after_move(moves[i] as int),
                    i32::MIN < alpha <= current_alpha < beta,
                    i32::MIN < max,
                    forall|j: int|
                        0 <= j < k ==> reply_value(
                            ev,
                            win,
                            loss,
                            pos,
                            depth as nat,
                            #[trigger] moves[j] as int,
                        ) <= max,
                    max > alpha ==> max == current_alpha && exists|j: int|
                        0 <= j < k && reply_value(
                            ev,
                            win,
                            loss,
                            pos,
                            depth as nat,
                            #[trigger] moves[j] as int,
                        ) == max,
                    max <= alpha ==> current_alpha == alpha,
                decreases child_boards@.len() - k,
            {
                let child_board = &child_boards[k];
                proof {
                    lemma_move_keeps_valid(pos, moves[k as int] as int);
                    lemma_best_reply_limit(ev, win, loss, pos, depth as nat, 64);
                }
                assert(reply_value(ev, win, loss, pos, depth as nat, moves[k as int] as int)
                    == -self.value(pos.after_move(moves[k as int] as int), (depth - 1) as nat));
                let mut score = -self.get_search_score(
                    child_board,
                    depth - 1,
                    -current_alpha - 1,
                    -current_alpha,
                );
                if beta <= score {
                    return score;
                }
                if current_alpha < score {
                    current_alpha = score;
                    score = -self.get_search_score(child_board, depth - 1, -beta, -current_alpha);
                    if beta <= score {
                        return score;
                    }
                    if current_alpha < score {
                        current_alpha = score;
                    }
                }
                if score > max {
                    max = score;
                }
                k += 1;
            }
            proof {
                lemma_cover_value(ev, win, loss, pos, depth as nat, moves, max as int);
            }
            max
        } else {
            // pass
            let mut new_board = *board;
            new_board.do_pass().unwrap();
            proof {
                lemma_swap_keeps_valid(pos);
            }
            -self.get_search_score(&new_board, depth, -beta, -alpha)
        }
    }

    /// The move that the search chooses: the first of the legal moves, in
    /// ascending order, whose value `max_depth` plies behind it no other
    /// move exceeds; `None` where the mover has no legal move.
    pub fn get_move(&self, board: &Board) -> (best: Option<usize>)
        requires
            self.wf(),
            board@.is_valid(),
        ensures
            board@.must_pass() ==> best is None,
            !board@.must_pass() ==> best == Some(
                self.choice(board@, self.depth(), cells_of(board@.legal_moves())),
            ) && board@.is_legal(best->Some_0 as int),
    {
        let ghost pos = board@;
        let ghost ev = self.scorer();
        let ghost win = WIN_SCORE as int;
        let ghost loss = LOSS_SCORE as int;
        let mut best_move: Option<usize> = None;
        let mut alpha: i32 = i32::MIN + 1;
        let beta: i32 = i32::MAX - 1;
        let mut copy = *board;
        let moves = copy.get_legal_moves_vec();
        let ghost values = reply_values(ev, win, loss, pos, self.depth() + 1, moves@);
        proof {
            lemma_natural_covers(pos);
            crate::bits::lemma_cells_of(pos.legal_moves());
        }
        let mut k: usize = 0;
        while k < moves.len()
            invariant
                k <= moves@.len(),
                self.wf(),
                ev == self.scorer(),
                win == WIN_SCORE as int,
                loss == LOSS_SCORE as int,
                board@ == pos,
                pos.is_valid(),
                covers(moves@, pos),
                moves@ == cells_of(pos.legal_moves()),
                beta == i32::MAX - 1,
                values == reply_values(ev, win, loss, pos, self.depth() + 1, moves@),
                k == 0 ==> best_move is None && alpha == i32::MIN + 1,
                k > 0 ==> best_move == Some(moves@[first_best(values, k as nat)]) && alpha
                    == values[first_best(values, k as nat)],
                0 <= first_best(values, k as nat) < moves@.len() || moves@.len() == 0,
                i32::MIN < alpha <= beta,
            decreases moves@.len() - k,
        {
            let move_i = moves.get(k);
            proof {
                lemma_move_keeps_valid(pos, move_i as int);
                lemma_negamax_limit(ev, win, loss, pos.after_move(move_i as int), self.depth());
            }
            assert(values[k as int] == -self.value(pos.after_move(move_i as int), self.depth()));
            if alpha < beta {
                let mut new_board = *board;
                new_board.do_move(move_i).unwrap();
                let score = -self.get_search_score(&new_board, self.max_depth, -beta, -alpha);
                if score > alpha {
                    alpha = score;
                    best_move = Some(move_i);
                }
            }
            k += 1;
        }
        best_move
    }
    /// The value of the position of `board` at `depth` plies, as far as the
    /// window from `alpha` to `beta` asks for it, unless the deadline
    /// passes: then the search of the moves stops, and the score says
    /// nothing.
    fn get_search_score_with_timeout(
        &self,
        board: &Board,
        depth: usize,
        alpha: i32,
        beta: i32,
        time_keeper: &mut TimeKeeper,
    ) -> (score: i32)
        requires
            self.wf(),
            board@.is_valid(),
            i32::MIN < alpha < beta,
        ensures
            score > i32::MIN,
            old(time_keeper).expired() ==> final(time_keeper).expired(),
            !final(time_keeper).expired() ==> fail_soft(
                score as int,
                alpha as int,
                beta as int,
                self.value(board@, depth as nat),
            ),
            board@.is_terminal() ==> score == terminal_score(
                board@,
                WIN_SCORE as int,
                LOSS_SCORE as int,
            ),
            !board@.is_terminal() && depth == 0 ==> score == self.scorer().score(board@),
        decreases depth, (if board@.must_pass() {
            2int
        } else {
            1int
        }),
    {
        let ghost pos = board@;
        let ghost ev = self.scorer();
        let ghost win = WIN_SCORE as int;
        let ghost loss = LOSS_SCORE as int;
        proof {
            lemma_negamax_limit(ev, win, loss, pos, depth as nat);
        }
        if board.is_game_over() {
            match board.is_win() {
                Ok(true) => {
                    return i32::MAX - 2;
                },
                Ok(false) => match board.is_lose() {
                    Ok(true) => {
                        return i32::MIN + 2;
                    },
                    Ok(false) => {
                        return 0;
                    },
                    Err(_) => {
                        return 0;
                    },
                },
                Err(_) => {
                    return 0;
                },
            }
        }
        if depth == 0 {
            let mut copy = *board;
            return self.evaluator.evaluate(&mut copy);
        }
        let mut current_alpha = alpha;
        if let Some(child_boards) = self.get_child_boards_ordered(board) {
            let ghost moves = self.order(pos);
            proof {
                lemma_ordered_covers(ev, win, loss, pos);
            }
            let mut k: usize = 0;
            while k < child_boards.len()
                invariant_except_break
                    !time_keeper.expired() ==> forall|j: int|
                        0 <= j < k ==> reply_value(
                            ev,
                            win,
                            loss,
                            pos,
                            depth as nat,
                            #[trigger] moves[j] as int,
                        ) <= current_alpha,
                    !time_keeper.expired() && current_alpha > alpha ==> exists|j: int|
                        0 <= j < k && reply_value(
                            ev,
                            win,
                            loss,
                            pos,
                            depth as nat,
                            #[trigger] moves[j] as int,
                        ) == current_alpha,
                invariant
                    k <= child_boards@.len(),
                    self.wf(),
                    ev == self.scorer(),
                    win == WIN_SCORE as int,
                    loss == LOSS_SCORE as int,
                    board@ == pos,
                    pos.is_valid(),
                    !pos.must_pass(),
                    depth > 0,
                    moves == self.order(pos),
                    covers(moves, pos),
                    child_boards@.len() == moves.len(),
                    forall|i: int|
                        0 <= i < child_boards@.len() ==> (#[trigger] child_boards@[i])@
                            == pos.after_move(moves[i] as int),
                    i32::MIN < alpha <= current_alpha < beta,
                    old(time_keeper).expired() ==> time_keeper.expired(),
                ensures
                    !time_keeper.expired() ==> forall|j: int|
                        0 <= j < moves.len() ==> reply_value(
                            ev,
                            win,
                            loss,
                            pos,
                            depth as nat,
                            #[trigger] moves[j] as int,
                        ) <= current_alpha,
                    !time_keeper.expired() && current_alpha > alpha ==> exists|j: int|
                        0 <= j < moves.len() && reply_value(
                            ev,
                            win,
                            loss,
                            pos,
                            depth as nat,
                            #[trigger] moves[j] as int,
                        ) == current_alpha,
                decreases child_boards@.len() - k,
            {
                proof {
                    lemma_move_keeps_valid(pos, moves[k as int] as int);
                    lemma_best_reply_limit(ev, win, loss, pos, depth as nat, 64);
                }
                assert(reply_value(ev, win, loss, pos, depth as nat, moves[k as int] as int)
                    == -self.value(pos.after_move(moves[k as int] as int), (depth - 1) as nat));
                let score = -self.get_search_score_with_timeout(
                    &child_boards[k],
                    depth - 1,
                    -beta,
                    -current_alpha,
                    time_keeper,
                );
                if score > current_alpha {
                    current_alpha = score;
                }
                if current_alpha >= beta {
                    // cut
                    return current_alpha;
                }
                if time_keeper.is_timeout() {
                    break;
                }
                k += 1;
            }
            proof {
                if !time_keeper.expired() {
                    lemma_cover_value(
                        ev,
                        win,
                        loss,
                        pos,
                        depth as nat,
                        moves,
                        current_alpha as int,
                    );
                }
            }
            current_alpha
        } else {
            // pass
            let mut new_board = *board;
            new_board.do_pass().unwrap();
            proof {
                lemma_swap_keeps_valid(pos);
            }
            -self.get_search_score_with_timeout(&new_board, depth, -beta, -alpha, time_keeper)
        }
    }

    /// The move that the search chooses when it looks `depth` plies behind
    /// it, unless the deadline passes: then the search of the moves stops,
    /// and the move, if there is one, is some legal move.
    fn get_move_with_timeout(
        &self,
        board: &Board,
        depth: usize,
        time_keeper: &mut TimeKeeper,
    ) -> (best: Option<usize>)
        requires
            self.wf(),
            board@.is_valid(),
            !board@.must_pass(),
        ensures
            old(time_keeper).expired() ==> final(time_keeper).expired(),
            !final(time_keeper).expired() ==> best == Some(
                self.choice(board@, depth as nat, self.order(board@)),
            ),
            best matches Some(m) ==> board@.is_legal(m as int),
    {
        let ghost pos = board@;
        let ghost ev = self.scorer();
        let ghost win = WIN_SCORE as int;
        let ghost loss = LOSS_SCORE as int;
        let mut best_move: Option<usize> = None;
        let mut alpha: i32 = i32::MIN + 1;
        let beta: i32 = i32::MAX - 1;
        let moves = self.get_legal_moves_vec_ordered(board).unwrap();
        let ghost values = reply_values(ev, win, loss, pos, (depth + 1) as nat, moves@);
        proof {
            lemma_ordered_covers(ev, win, loss, pos);
            lemma_covers_some(moves@, pos);
        }
        let mut k: usize = 0;
        while k < moves.len()
            invariant_except_break
                !time_keeper.expired() && k == 0 ==> best_move is None && alpha == i32::MIN + 1,
                !time_keeper.expired() && k > 0 ==> best_move == Some(
                    moves@[first_best(values, k as nat)],
                ) && alpha == values[first_best(values, k as nat)],
                0 <= first_best(values, k as nat) < moves@.len(),
                i32::MIN < alpha <= beta,
            invariant
                k <= moves@.len(),
                self.wf(),
                ev == self.scorer(),
                win == WIN_SCORE as int,
                loss == LOSS_SCORE as int,
                board@ == pos,
                pos.is_valid(),
                covers(moves@, pos),
                beta == i32::MAX - 1,
                values == reply_values(ev, win, loss, pos, (depth + 1) as nat, moves@),
                old(time_keeper).expired() ==> time_keeper.expired(),
                best_move matches Some(m) ==> pos.is_legal(m as int),
            ensures
                !time_keeper.expired() ==> best_move == Some(
                    moves@[first_best(values, moves@.len())],
                ),
            decreases moves@.len() - k,
        {
            let move_i = moves[k];
            proof {
                lemma_move_keeps_valid(pos, move_i as int);
                lemma_negamax_limit(ev, win, loss, pos.after_move(move_i as int), depth as nat);
            }
            assert(values[k as int] == -self.value(pos.after_move(move_i as int), depth as nat));
            if alpha < beta {
                let mut new_board = *board;
                new_board.do_move(move_i).unwrap();
                let score = -self.get_search_score_with_timeout(
                    &new_board,
                    depth,
                    -beta,
                    -alpha,
                    time_keeper,
                );
                if score > alpha {
                    alpha = score;
                    best_move = Some(move_i);
                }
            }
            if time_keeper.is_timeout() {
                break;
            }
            k += 1;
        }
        best_move
    }

    /// The move of the deepest search that ended before the deadline: the
    /// searches look 0, 1, 2 and more plies behind the move, and the
    /// deadline lies `timeout`, less a margin of a millisecond, after the
    /// call. `None` where not even the first search ended in time.
    pub fn get_move_with_iter_deepening(&self, board: &Board, timeout: Duration) -> (best: Option<
        usize,
    >)
        requires
            self.wf(),
            board@.is_valid(),
            !board@.must_pass(),
        ensures
            best matches Some(m) ==> exists|depth: nat|
                m == #[trigger] self.choice(board@, depth, self.order(board@)),
            best matches Some(m) ==> board@.is_legal(m as int),
    {
        let ghost pos = board@;
        let mut best_move: Option<usize> = None;
        let search_duration = span_less_margin(micros_of(&timeout), SCOUT_MARGIN_MICROS);
        let mut time_keeper = TimeKeeper::new(search_duration);
        let mut depth: usize = 0;
        while depth < usize::MAX
            invariant
                self.wf(),
                board@ == pos,
                pos.is_valid(),
                !pos.must_pass(),
                best_move matches Some(m) ==> exists|d: nat|
                    m == #[trigger] self.choice(pos, d, self.order(pos)),
                best_move matches Some(m) ==> pos.is_legal(m as int),
            decreases usize::MAX - depth,
        {
            let move_i = self.get_move_with_timeout(board, depth, &mut time_keeper);
            if time_keeper.is_timeout() {
                break;
            }
            if let Some(m) = move_i {
                assert(m == self.choice(pos, depth as nat, self.order(pos)));
                best_move = Some(m);
            }
            depth += 1;
        }
        best_move
    }

    /// The move of the deepest search that ended before the deadline of
    /// `time_keeper`: the searches look 0, 1, 2 and more plies behind the
    /// move, as long as the deadline has not passed. `None` where not even
    /// the first search ended in time, as it is where the deadline had
    /// passed before.
    pub fn get_move_until(&self, board: &Board, time_keeper: &mut TimeKeeper) -> (best: Option<
        usize,
    >)
        requires
            self.wf(),
            board@.is_valid(),
            !board@.must_pass(),
        ensures
            old(time_keeper).expired() ==> final(time_keeper).expired() && best is None,
            best matches Some(m) ==> exists|depth: nat|
                m == #[trigger] self.choice(board@, depth, self.order(board@)),
            best matches Some(m) ==> board@.is_legal(m as int),
            !final(time_keeper).expired() ==> best == Some(
                self.choice(board@, (usize::MAX - 1) as nat, self.order(board@)),
            ),
    {
        let ghost pos = board@;
        let mut best_move: Option<usize> = None;
        let mut depth: usize = 0;
        while depth < usize::MAX
            invariant_except_break
                !time_keeper.expired() && depth > 0 ==> best_move == Some(
                    self.choice(pos, (depth - 1) as nat, self.order(pos)),
                ),
            invariant
                self.wf(),
                board@ == pos,
                pos.is_valid(),
                !pos.must_pass(),
                old(time_keeper).expired() ==> time_keeper.expired() && best_move is None,
                best_move matches Some(m) ==> exists|d: nat|
                    m == #[trigger] self.choice(pos, d, self.order(pos)),
                best_move matches Some(m) ==> pos.is_legal(m as int),
            ensures
                !time_keeper.expired() ==> best_move == Some(
                    self.choice(pos, (usize::MAX - 1) as nat, self.order(pos)),
                ),
            decreases usize::MAX - depth,
        {
            let move_i = self.get_move_with_timeout(board, depth, time_keeper);
            if time_keeper.is_timeout() {
                break;
            }
            if let Some(m) = move_i {
                assert(m == self.choice(pos, depth as nat, self.order(pos)));
                best_move = Some(m);
            }
            depth += 1;
        }
        best_move
    }
}

} // verus!
