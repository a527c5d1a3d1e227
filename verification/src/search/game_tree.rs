//! The value of a position under best play to a given depth, and what the
//! searches owe to it.

use crate::bits::{cells_of, has_cell, lemma_cells_of, lemma_mask_where};
use crate::board::{lemma_move_keeps_valid, lemma_swap_keeps_valid, Position};
use crate::rules::legal_at;
use crate::search::evaluator::{abs, Evaluator};
use crate::search::order::sorted_by_score;
use vstd::prelude::*;

verus! {

/// The greatest score, in absolute value, that the searches work with.
pub const SCORE_MAX: i32 = 0x7FFF_FFFD;

/// What stands for the best reply where there is no reply.
pub open spec fn no_reply() -> int {
    i32::MIN as int
}

/// The score of a position in which the game has ended: `win` where the
/// mover has more stones, `loss` where the opponent has more, 0 for a draw.
pub open spec fn terminal_score(pos: Position, win: int, loss: int) -> int {
    if pos.mover_count() > pos.opponent_count() {
        win
    } else if pos.mover_count() < pos.opponent_count() {
        loss
    } else {
        0
    }
}

/// The value of `pos` for the mover when both sides play `depth` plies as
/// well as they can and the evaluator scores what is reached. A pass takes
/// no ply.
pub open spec fn negamax<E: Evaluator>(
    ev: E,
    win: int,
    loss: int,
    pos: Position,
    depth: nat,
) -> int
    decreases depth, (if pos.must_pass() {
        2int
    } else {
        1int
    }), 0int,
{
    if pos.is_terminal() {
        terminal_score(pos, win, loss)
    } else if depth == 0 {
        ev.score(pos) as int
    } else if pos.must_pass() {
        -negamax(ev, win, loss, pos.swapped(), depth)
    } else {
        best_reply(ev, win, loss, pos, depth, 64)
    }
}

/// The value of the move on `cell` for the mover of `pos`.
pub open spec fn reply_value<E: Evaluator>(
    ev: E,
    win: int,
    loss: int,
    pos: Position,
    depth: nat,
    cell: int,
) -> int
    decreases depth, 0int, 0int,
{
    if depth == 0 {
        no_reply()
    } else {
        -negamax(ev, win, loss, pos.after_move(cell), (depth - 1) as nat)
    }
}

/// The greatest value among the legal moves on the cells `0..upto`.
pub open spec fn best_reply<E: Evaluator>(
    ev: E,
    win: int,
    loss: int,
    pos: Position,
    depth: nat,
    upto: nat,
) -> int
    decreases depth, 0int, upto,
{
    if upto == 0 || depth == 0 {
        no_reply()
    } else {
        let rest = best_reply(ev, win, loss, pos, depth, (upto - 1) as nat);
        if pos.is_legal(upto - 1) {
            let value = -negamax(ev, win, loss, pos.after_move(upto - 1), (depth - 1) as nat);
            if value > rest {
                value
            } else {
                rest
            }
        } else {
            rest
        }
    }
}

/// The greatest score, in absolute value, that a search with `ev` and the
/// scores `win` and `loss` for the ends of a game can meet.
pub open spec fn score_limit<E: Evaluator>(ev: E, win: int, loss: int) -> int {
    let ends = if abs(win) >= abs(loss) {
        abs(win)
    } else {
        abs(loss)
    };
    if ends >= ev.limit() {
        ends
    } else {
        ev.limit() as int
    }
}

/// The value of a valid position keeps within the limit of the scores.
pub proof fn lemma_negamax_limit<E: Evaluator>(
    ev: E,
    win: int,
    loss: int,
    pos: Position,
    depth: nat,
)
    requires
        ev.wf(),
        pos.is_valid(),
        score_limit(ev, win, loss) <= i32::MAX,
    ensures
        -score_limit(ev, win, loss) <= negamax(ev, win, loss, pos, depth) <= score_limit(
            ev,
            win,
            loss,
        ),
    decreases depth, (if pos.must_pass() {
        2int
    } else {
        1int
    }), 0int,
{
    ev.lemma_score_limit(pos);
    if pos.is_terminal() {
    } else if depth == 0 {
    } else if pos.must_pass() {
        lemma_swap_keeps_valid(pos);
        lemma_negamax_limit(ev, win, loss, pos.swapped(), depth);
    } else {
        lemma_best_reply_limit(ev, win, loss, pos, depth, 64);
        lemma_mask_where(|cell: int| legal_at(pos.mover, pos.opponent, cell));
        crate::bits::lemma_mask_empty(pos.legal_moves());
        let x = choose|x: int| 0 <= x < 64 && has_cell(pos.legal_moves(), x);
        assert(pos.is_legal(x));
    }
}

/// The best reply is the value of a legal move, and no legal move has a
/// greater one.
pub proof fn lemma_best_reply_limit<E: Evaluator>(
    ev: E,
    win: int,
    loss: int,
    pos: Position,
    depth: nat,
    upto: nat,
)
    requires
        ev.wf(),
        pos.is_valid(),
        score_limit(ev, win, loss) <= i32::MAX,
        depth > 0,
        upto <= 64,
    ensures
        forall|cell: int|
            0 <= cell < upto && pos.is_legal(cell) ==> #[trigger] reply_value(
                ev,
                win,
                loss,
                pos,
                depth,
                cell,
            ) <= best_reply(ev, win, loss, pos, depth, upto),
        (exists|cell: int| 0 <= cell < upto && pos.is_legal(cell)) ==> exists|cell: int|
            0 <= cell < upto && pos.is_legal(cell) && #[trigger] reply_value(
                ev,
                win,
                loss,
                pos,
                depth,
                cell,
            ) == best_reply(ev, win, loss, pos, depth, upto),
        (forall|cell: int| 0 <= cell < upto ==> !pos.is_legal(cell)) ==> best_reply(
            ev,
            win,
            loss,
            pos,
            depth,
            upto,
        ) == no_reply(),
        (exists|cell: int| 0 <= cell < upto && pos.is_legal(cell)) ==> -score_limit(ev, win, loss)
            <= best_reply(ev, win, loss, pos, depth, upto) <= score_limit(ev, win, loss),
    decreases depth, 0int, upto,
{
    if upto > 0 {
        let before = (upto - 1) as nat;
        lemma_best_reply_limit(ev, win, loss, pos, depth, before);
        let rest = best_reply(ev, win, loss, pos, depth, before);
        if pos.is_legal(upto - 1) {
            lemma_move_keeps_valid(pos, upto - 1);
            lemma_negamax_limit(ev, win, loss, pos.after_move(upto - 1), (depth - 1) as nat);
            let value = reply_value(ev, win, loss, pos, depth, upto - 1);
            if exists|cell: int| 0 <= cell < before && pos.is_legal(cell) {
                let c = choose|cell: int|
                    0 <= cell < before && pos.is_legal(cell) && #[trigger] reply_value(
                        ev,
                        win,
                        loss,
                        pos,
                        depth,
                        cell,
                    ) == rest;
                if value > rest {
                    assert(reply_value(ev, win, loss, pos, depth, upto - 1) == best_reply(
                        ev,
                        win,
                        loss,
                        pos,
                        depth,
                        upto,
                    ));
                } else {
                    assert(reply_value(ev, win, loss, pos, depth, c) == best_reply(
                        ev,
                        win,
                        loss,
                        pos,
                        depth,
                        upto,
                    ));
                }
            } else {
                assert(forall|cell: int| 0 <= cell < before ==> !pos.is_legal(cell));
                assert(rest == no_reply());
                assert(reply_value(ev, win, loss, pos, depth, upto - 1) == best_reply(
                    ev,
                    win,
                    loss,
                    pos,
                    depth,
                    upto,
                ));
            }
        } else {
            if exists|cell: int| 0 <= cell < upto && pos.is_legal(cell) {
                let c0 = choose|cell: int| 0 <= cell < upto && pos.is_legal(cell);
                assert(0 <= c0 < before && pos.is_legal(c0));
                let c = choose|cell: int|
                    0 <= cell < before && pos.is_legal(cell) && #[trigger] reply_value(
                        ev,
                        win,
                        loss,
                        pos,
                        depth,
                        cell,
                    ) == rest;
                assert(reply_value(ev, win, loss, pos, depth, c) == best_reply(
                    ev,
                    win,
                    loss,
                    pos,
                    depth,
                    upto,
                ));
            }
        }
    }
}

/// What a search with the window from `alpha` to `beta` owes to the value
/// of the position: inside the window the score is the value; at or below
/// `alpha` it is no less than the value; at or above `beta` it is no
/// greater.
pub open spec fn fail_soft(score: int, alpha: int, beta: int, value: int) -> bool {
    &&& score <= alpha ==> value <= score
    &&& alpha < score < beta ==> value == score
    &&& score >= beta ==> value >= score
}

/// `moves` lists the legal moves of `pos`: each item is one, and each of
/// them is an item.
pub open spec fn covers(moves: Seq<usize>, pos: Position) -> bool {
    &&& forall|j: int| 0 <= j < moves.len() ==> (#[trigger] moves[j]) < 64 && pos.is_legal(
        moves[j] as int,
    )
    &&& forall|cell: int|
        pos.is_legal(cell) ==> exists|j: int| 0 <= j < moves.len() && #[trigger] moves[j] == cell
}

/// The legal move at place `i` of the ascending order, with the score of
/// the position that it leads to: the value of that position at depth 0,
/// seen from the side that is then to move.
pub open spec fn scored_move<E: Evaluator>(
    ev: E,
    win: int,
    loss: int,
    pos: Position,
    i: int,
) -> (i32, u64) {
    let cell = cells_of(pos.legal_moves())[i];
    (negamax(ev, win, loss, pos.after_move(cell as int), 0) as i32, cell as u64)
}

/// The legal moves of `pos` in ascending order, each with its score.
pub open spec fn scored_moves<E: Evaluator>(ev: E, win: int, loss: int, pos: Position) -> Seq<
    (i32, u64),
> {
    Seq::new(cells_of(pos.legal_moves()).len(), |i: int| scored_move(ev, win, loss, pos, i))
}

/// The move of a scored move.
pub open spec fn move_of(entry: (i32, u64)) -> usize {
    entry.1 as usize
}

/// The moves of scored moves.
pub open spec fn moves_of(entries: Seq<(i32, u64)>) -> Seq<usize> {
    Seq::new(entries.len(), |i: int| move_of(entries[i]))
}

/// The legal moves of `pos`, those first that lead to the positions with
/// the lowest scores for the side that is then to move; moves of equal
/// score in ascending order.
pub open spec fn ordered_moves<E: Evaluator>(ev: E, win: int, loss: int, pos: Position) -> Seq<
    usize,
> {
    moves_of(sorted_by_score(scored_moves(ev, win, loss, pos)))
}

/// The legal moves in ascending order cover the legal moves.
pub proof fn lemma_natural_covers(pos: Position)
    ensures
        covers(cells_of(pos.legal_moves()), pos),
{
    lemma_cells_of(pos.legal_moves());
    lemma_mask_where(|cell: int| legal_at(pos.mover, pos.opponent, cell));
    let moves = cells_of(pos.legal_moves());
    assert forall|cell: int| pos.is_legal(cell) implies exists|j: int|
        0 <= j < moves.len() && #[trigger] moves[j] == cell by {
        assert(has_cell(pos.legal_moves(), cell));
    }
}

/// The ordered moves cover the legal moves.
pub proof fn lemma_ordered_covers<E: Evaluator>(ev: E, win: int, loss: int, pos: Position)
    ensures
        covers(ordered_moves(ev, win, loss, pos), pos),
        ordered_moves(ev, win, loss, pos).len() == cells_of(pos.legal_moves()).len(),
{
    let cells = cells_of(pos.legal_moves());
    let scored = scored_moves(ev, win, loss, pos);
    let sorted = sorted_by_score(scored);
    let moves = ordered_moves(ev, win, loss, pos);
    lemma_natural_covers(pos);
    lemma_cells_of(pos.legal_moves());
    crate::search::order::lemma_sorted_by_score(scored);
    assert forall|j: int| 0 <= j < moves.len() implies (#[trigger] moves[j]) < 64 && pos.is_legal(
        moves[j] as int,
    ) by {
        assert(sorted.contains(sorted[j]));
        assert(scored.contains(sorted[j]));
        let i = choose|i: int| 0 <= i < scored.len() && scored[i] == sorted[j];
        assert(moves[j] == cells[i]);
    }
    assert forall|cell: int| pos.is_legal(cell) implies exists|j: int|
        0 <= j < moves.len() && #[trigger] moves[j] == cell by {
        let i = choose|i: int| 0 <= i < cells.len() && #[trigger] cells[i] == cell;
        assert(scored.contains(scored[i]));
        assert(sorted.contains(scored[i]));
        let j = choose|j: int| 0 <= j < sorted.len() && sorted[j] == scored[i];
        assert(moves[j] == cell);
    }
}

/// Where the mover can move, a list that covers the legal moves holds one.
pub proof fn lemma_covers_some(moves: Seq<usize>, pos: Position)
    requires
        covers(moves, pos),
        !pos.must_pass(),
    ensures
        moves.len() > 0,
{
    lemma_cells_of(pos.legal_moves());
    lemma_mask_where(|cell: int| legal_at(pos.mover, pos.opponent, cell));
    let cell = cells_of(pos.legal_moves())[0] as int;
    assert(pos.is_legal(cell));
}

/// The place of the first greatest among the first `upto` of `values`;
/// 0 where `upto` is 0.
pub open spec fn first_best(values: Seq<int>, upto: nat) -> int
    decreases upto,
{
    if upto <= 1 {
        0
    } else {
        let before = first_best(values, (upto - 1) as nat);
        if values[upto - 1] > values[before] {
            upto - 1
        } else {
            before
        }
    }
}

/// The values of the moves `moves` of `pos`.
pub open spec fn reply_values<E: Evaluator>(
    ev: E,
    win: int,
    loss: int,
    pos: Position,
    depth: nat,
    moves: Seq<usize>,
) -> Seq<int> {
    Seq::new(moves.len(), |i: int| reply_value(ev, win, loss, pos, depth, moves[i] as int))
}

/// The first of `moves` that has the greatest value among them.
pub open spec fn best_move<E: Evaluator>(
    ev: E,
    win: int,
    loss: int,
    pos: Position,
    depth: nat,
    moves: Seq<usize>,
) -> usize {
    moves[first_best(reply_values(ev, win, loss, pos, depth, moves), moves.len())]
}

/// Where `moves` covers the legal moves of a position in which the mover
/// can move, a value that no move exceeds and that one of them reaches is
/// the value of the position.
pub proof fn lemma_cover_value<E: Evaluator>(
    ev: E,
    win: int,
    loss: int,
    pos: Position,
    depth: nat,
    moves: Seq<usize>,
    value: int,
)
    requires
        ev.wf(),
        pos.is_valid(),
        score_limit(ev, win, loss) <= i32::MAX,
        depth > 0,
        !pos.must_pass(),
        covers(moves, pos),
        forall|j: int|
            0 <= j < moves.len() ==> reply_value(
                ev,
                win,
                loss,
                pos,
                depth,
                #[trigger] moves[j] as int,
            ) <= value,
    ensures
        best_reply(ev, win, loss, pos, depth, 64) <= value,
        (exists|j: int|
            0 <= j < moves.len() && reply_value(
                ev,
                win,
                loss,
                pos,
                depth,
                #[trigger] moves[j] as int,
            ) == value) ==> best_reply(ev, win, loss, pos, depth, 64) == value,
{
    lemma_best_reply_limit(ev, win, loss, pos, depth, 64);
    lemma_covers_some(moves, pos);
    if moves.len() > 0 {
        assert(pos.is_legal(moves[0] as int));
        let c = choose|cell: int|
            0 <= cell < 64 && pos.is_legal(cell) && #[trigger] reply_value(
                ev,
                win,
                loss,
                pos,
                depth,
                cell,
            ) == best_reply(ev, win, loss, pos, depth, 64);
        let j = choose|j: int| 0 <= j < moves.len() && #[trigger] moves[j] == c;
        assert(reply_value(ev, win, loss, pos, depth, moves[j] as int) <= value);
    }
    if exists|j: int|
        0 <= j < moves.len() && reply_value(
            ev,
            win,
            loss,
            pos,
            depth,
            #[trigger] moves[j] as int,
        ) == value {
        let j = choose|j: int|
            0 <= j < moves.len() && reply_value(
                ev,
                win,
                loss,
                pos,
                depth,
                #[trigger] moves[j] as int,
            ) == value;
        assert(pos.is_legal(moves[j] as int));
    }
}

/// The score of a position without any look-ahead: what the end of the
/// game is worth where the game has ended, else the score of the
/// evaluator.
pub open spec fn plain_score<E: Evaluator>(ev: E, win: int, loss: int, pos: Position) -> int {
    if pos.is_terminal() {
        terminal_score(pos, win, loss)
    } else {
        ev.score(pos) as int
    }
}

/// What each of `moves` is worth to the mover of `pos` when the position
/// that it leads to is scored without any look-ahead.
pub open spec fn one_ply_scores<E: Evaluator>(
    ev: E,
    win: int,
    loss: int,
    pos: Position,
    moves: Seq<usize>,
) -> Seq<int> {
    Seq::new(moves.len(), |i: int| -plain_score(ev, win, loss, pos.after_move(moves[i] as int)))
}

/// A search that looks no ply behind its move chooses as the comparison of
/// the scores of all positions one ply ahead does: the first of the moves
/// whose score no other exceeds.
pub proof fn lemma_choice_without_depth<E: Evaluator>(
    ev: E,
    win: int,
    loss: int,
    pos: Position,
    moves: Seq<usize>,
)
    ensures
        best_move(ev, win, loss, pos, 1, moves) == moves[first_best(
            one_ply_scores(ev, win, loss, pos, moves),
            moves.len(),
        )],
{
    assert(reply_values(ev, win, loss, pos, 1, moves) =~= one_ply_scores(
        ev,
        win,
        loss,
        pos,
        moves,
    ));
}

/// Two evaluators score every valid position alike.
pub open spec fn same_scores<A: Evaluator, B: Evaluator>(a: A, b: B) -> bool {
    forall|pos: Position| pos.is_valid() ==> #[trigger] a.score(pos) == b.score(pos)
}

/// Evaluators that score alike give every valid position the same value
/// at every depth.
pub proof fn lemma_same_value<A: Evaluator, B: Evaluator>(
    a: A,
    b: B,
    win: int,
    loss: int,
    pos: Position,
    depth: nat,
)
    requires
        same_scores(a, b),
        pos.is_valid(),
    ensures
        negamax(a, win, loss, pos, depth) == negamax(b, win, loss, pos, depth),
    decreases depth, (if pos.must_pass() {
        2int
    } else {
        1int
    }), 0int,
{
    if pos.is_terminal() {
    } else if depth == 0 {
    } else if pos.must_pass() {
        lemma_swap_keeps_valid(pos);
        lemma_same_value(a, b, win, loss, pos.swapped(), depth);
    } else {
        lemma_same_reply(a, b, win, loss, pos, depth, 64);
    }
}

/// Evaluators that score alike give the same best reply.
pub proof fn lemma_same_reply<A: Evaluator, B: Evaluator>(
    a: A,
    b: B,
    win: int,
    loss: int,
    pos: Position,
    depth: nat,
    upto: nat,
)
    requires
        same_scores(a, b),
        pos.is_valid(),
        depth > 0,
    ensures
        best_reply(a, win, loss, pos, depth, upto) == best_reply(b, win, loss, pos, depth, upto),
    decreases depth, 0int, upto,
{
    if upto > 0 {
        lemma_same_reply(a, b, win, loss, pos, depth, (upto - 1) as nat);
        if pos.is_legal(upto - 1) {
            lemma_move_keeps_valid(pos, upto - 1);
            lemma_same_value(a, b, win, loss, pos.after_move(upto - 1), (depth - 1) as nat);
        }
    }
}

/// Evaluators that score alike order the moves alike, and searches with
/// them choose the same move at the same depth.
pub proof fn lemma_same_choice<A: Evaluator, B: Evaluator>(
    a: A,
    b: B,
    win: int,
    loss: int,
    pos: Position,
    depth: nat,
)
    requires
        same_scores(a, b),
        pos.is_valid(),
        depth > 0,
    ensures
        ordered_moves(a, win, loss, pos) == ordered_moves(b, win, loss, pos),
        best_move(a, win, loss, pos, depth, ordered_moves(a, win, loss, pos)) == best_move(
            b,
            win,
            loss,
            pos,
            depth,
            ordered_moves(b, win, loss, pos),
        ),
{
    let cells = cells_of(pos.legal_moves());
    lemma_natural_covers(pos);
    assert forall|i: int| 0 <= i < cells.len() implies scored_move(a, win, loss, pos, i)
        == scored_move(b, win, loss, pos, i) by {
        lemma_move_keeps_valid(pos, cells[i] as int);
        lemma_same_value(a, b, win, loss, pos.after_move(cells[i] as int), 0);
    }
    assert(scored_moves(a, win, loss, pos) =~= scored_moves(b, win, loss, pos));
    let moves = ordered_moves(a, win, loss, pos);
    lemma_ordered_covers(a, win, loss, pos);
    assert forall|i: int| 0 <= i < moves.len() implies reply_value(
        a,
        win,
        loss,
        pos,
        depth,
        moves[i] as int,
    ) == reply_value(b, win, loss, pos, depth, moves[i] as int) by {
        lemma_move_keeps_valid(pos, moves[i] as int);
        lemma_same_value(a, b, win, loss, pos.after_move(moves[i] as int), (depth - 1) as nat);
    }
    assert(reply_values(a, win, loss, pos, depth, moves) =~= reply_values(
        b,
        win,
        loss,
        pos,
        depth,
        moves,
    ));
}

} // verus!
