//! Monte-Carlo tree search that values a position by a random game.

use crate::bits::cells_of;
use crate::chance::random_usize;
use crate::board::{
    lemma_leads_on, lemma_move_fills, lemma_move_keeps_valid, lemma_swap_keeps_valid, Board,
    Position, Turn,
};
use crate::search::game_tree::{first_best, lemma_natural_covers};
use crate::search::time_keeper::{micros_of, span_less_margin, TimeKeeper};
use crate::search::tree::{
    end_value, LeafValuer, SearchTree, SelectionPolicy, MAX_VISITS, VALUE_HALF, VALUE_ONE,
};
use std::time::Duration;
use vstd::prelude::*;

verus! {

/// The microseconds that a search against a deadline keeps in reserve
/// unless it is told otherwise.
pub const DEFAULT_MARGIN_MICROS: u64 = 2000;

/// After how many visits a search against a deadline looks at the clock
/// unless it is told otherwise.
pub const DEFAULT_CHECK_INTERVAL: usize = 100;

/// What a game that has ended is worth to the side `turn`: `VALUE_ONE`
/// where that side has won, 0 where the other side has, `VALUE_HALF` for a
/// draw.
pub open spec fn value_for(turn: Turn, end: Position) -> u64 {
    match end.winner() {
        Some(winner) => if winner == turn {
            VALUE_ONE
        } else {
            0
        },
        None => VALUE_HALF,
    }
}

/// The least range that a drawn number must have left to serve for one
/// more move of a random game.
pub const MIN_ROOM: usize = 0x1_0000;

/// Plays the game of `board` to its end with random moves and says what
/// the end is worth to the side that was to move at the start. Which end
/// is reached is a matter of chance; it is the end of a line of play that
/// follows the rules from the position of `board` on.
///
/// One drawn number serves several moves: a choice among `n` moves takes
/// the remainder by `n` and leaves the quotient, and a new number is drawn
/// once less than `MIN_ROOM` is left of the range.
pub fn play_out(board: &Board) -> (value: u64)
    requires
        board@.is_valid(),
    ensures
        exists|end: Position, steps: nat|
            #[trigger] board@.leads_to(end, steps) && end.is_terminal() && value == value_for(
                board@.turn,
                end,
            ),
        board@.is_terminal() ==> value == end_value(board@),
        value <= VALUE_ONE,
{
    let ghost start = board@;
    let mut board = *board;
    let node_turn = board.get_turn();
    let ghost mut steps = 0nat;
    let mut pool: usize = 0;
    let mut room: usize = 0;
    board.get_legal_moves();
    while !board.is_game_over()
        invariant
            board@.is_valid(),
            start.leads_to(board@, steps),
            start.is_terminal() ==> board@ == start,
        decreases board@.empty_count(), (if board@.must_pass() {
            1int
        } else {
            0int
        }),
    {
        let ghost pos = board@;
        if board.is_pass() {
            proof {
                lemma_swap_keeps_valid(pos);
                lemma_leads_on(start, pos, pos.swapped(), steps);
                let a = pos.mover;
                let b = pos.opponent;
                assert(b | a == a | b) by (bit_vector);
            }
            board.do_pass().unwrap();
        } else {
            if room < MIN_ROOM {
                pool = random_usize();
                room = usize::MAX;
            }
            let count = board.get_legal_moves().count_ones() as usize;
            let m = board.choose_move(pool).unwrap();
            if count > 1 {
                pool = pool / count;
                room = room / count;
            }
            proof {
                lemma_move_keeps_valid(pos, m as int);
                lemma_move_fills(pos, m as int);
                lemma_leads_on(start, pos, pos.after_move(m as int), steps);
            }
            board.do_move(m).unwrap();
        }
        proof {
            steps = steps + 1;
        }
        board.get_legal_moves();
    }
    let value = match board.get_winner().unwrap() {
        Some(winner) => {
            if winner == node_turn {
                VALUE_ONE
            } else {
                0
            }
        },
        None => VALUE_HALF,
    };
    assert(start.leads_to(board@, steps) && board@.is_terminal() && value == value_for(
        start.turn,
        board@,
    ));
    value
}

/// Values a position by one random game.
pub struct RandomRollout {}

impl LeafValuer for RandomRollout {
    open spec fn wf(&self) -> bool {
        true
    }

    /// The value is that of the end of some game played on from `pos`.
    open spec fn admits(&self, pos: Position, value: u64) -> bool {
        exists|end: Position, steps: nat|
            #[trigger] pos.leads_to(end, steps) && end.is_terminal() && value == value_for(
                pos.turn,
                end,
            )
    }

    fn leaf_value(&self, board: &mut Board) -> (value: u64) {
        play_out(board)
    }
}

/// A Monte-Carlo tree search with random games. `P` chooses among the
/// children of a node that have all been visited.
#[derive(Debug)]
pub struct MctsSearch<P: SelectionPolicy> {
    n_playouts: usize,
    policy: P,
    expansion_threshold: usize,
    margin_time: u64,
    check_interval: usize,
}

impl<P: SelectionPolicy> MctsSearch<P> {
    /// The number of visits of the tree in one search.
    pub closed spec fn playouts(&self) -> nat {
        self.n_playouts as nat
    }

    /// The policy of the search.
    pub closed spec fn chooser(&self) -> P {
        self.policy
    }

    /// The visits after which a node gets its children.
    pub closed spec fn threshold(&self) -> nat {
        self.expansion_threshold as nat
    }

    /// After how many visits a search against a deadline looks at the
    /// clock.
    pub closed spec fn interval(&self) -> nat {
        self.check_interval as nat
    }

    /// The microseconds that a search against a deadline keeps in reserve.
    pub closed spec fn margin(&self) -> u64 {
        self.margin_time
    }

    /// The search can run: its policy can, and its visits can be counted.
    pub open spec fn wf(&self) -> bool {
        &&& self.chooser().wf()
        &&& self.playouts() <= MAX_VISITS
    }

    /// A search of `n_playouts` visits that chooses with `policy` and gives
    /// a node its children after `expansion_threshold` visits.
    pub fn new(n_playouts: usize, policy: P, expansion_threshold: usize) -> (search: Self)
        ensures
            search.playouts() == n_playouts,
            search.chooser() == policy,
            search.threshold() == expansion_threshold,
            search.interval() == DEFAULT_CHECK_INTERVAL,
            search.margin() == DEFAULT_MARGIN_MICROS,
    {
        Self {
            n_playouts,
            policy,
            expansion_threshold,
            margin_time: DEFAULT_MARGIN_MICROS,
            check_interval: DEFAULT_CHECK_INTERVAL,
        }
    }

    /// Whether the visits of a search can be counted.
    pub fn is_countable(&self) -> (countable: bool)
        ensures
            countable == (self.playouts() <= MAX_VISITS),
    {
        self.n_playouts as u64 <= MAX_VISITS
    }

    /// The number of visits of the tree in one search.
    pub fn get_n_playouts(&self) -> (n_playouts: usize)
        ensures
            n_playouts == self.playouts(),
    {
        self.n_playouts
    }

    /// Sets the number of visits of the tree in one search.
    pub fn set_n_playouts(&mut self, n_playouts: usize)
        ensures
            final(self).playouts() == n_playouts,
            final(self).chooser() == old(self).chooser(),
            final(self).threshold() == old(self).threshold(),
            final(self).interval() == old(self).interval(),
            final(self).margin() == old(self).margin(),
    {
        self.n_playouts = n_playouts;
    }

    /// The policy of the search.
    pub fn get_policy(&self) -> (policy: &P)
        ensures
            *policy == self.chooser(),
    {
        &self.policy
    }

    /// Sets the policy of the search.
    pub fn set_policy(&mut self, policy: P)
        ensures
            final(self).chooser() == policy,
            final(self).playouts() == old(self).playouts(),
            final(self).threshold() == old(self).threshold(),
            final(self).interval() == old(self).interval(),
            final(self).margin() == old(self).margin(),
    {
        self.policy = policy;
    }

    /// The visits after which a node gets its children.
    pub fn get_expansion_threshold(&self) -> (expansion_threshold: usize)
        ensures
            expansion_threshold == self.threshold(),
    {
        self.expansion_threshold
    }

    /// Sets the visits after which a node gets its children.
    pub fn set_expansion_threshold(&mut self, expansion_threshold: usize)
        ensures
            final(self).threshold() == expansion_threshold,
            final(self).playouts() == old(self).playouts(),
            final(self).chooser() == old(self).chooser(),
            final(self).interval() == old(self).interval(),
            final(self).margin() == old(self).margin(),
    {
        self.expansion_threshold = expansion_threshold;
    }

    /// The microseconds that a search against a deadline keeps in reserve.
    pub fn get_margin_time(&self) -> (margin_time: u64)
        ensures
            margin_time == self.margin(),
    {
        self.margin_time
    }

    /// Sets the microseconds that a search against a deadline keeps in
    /// reserve.
    pub fn set_margin_time(&mut self, margin_time: u64)
        ensures
            final(self).margin() == margin_time,
            final(self).playouts() == old(self).playouts(),
            final(self).chooser() == old(self).chooser(),
            final(self).threshold() == old(self).threshold(),
            final(self).interval() == old(self).interval(),
    {
        self.margin_time = margin_time;
    }

    /// After how many visits a search against a deadline looks at the
    /// clock.
    pub fn get_check_interval(&self) -> (check_interval: usize)
        ensures
            check_interval == self.interval(),
    {
        self.check_interval
    }

    /// Sets after how many visits a search against a deadline looks at the
    /// clock.
    pub fn set_check_interval(&mut self, check_interval: usize)
        ensures
            final(self).interval() == check_interval,
            final(self).playouts() == old(self).playouts(),
            final(self).chooser() == old(self).chooser(),
            final(self).threshold() == old(self).threshold(),
            final(self).margin() == old(self).margin(),
    {
        self.check_interval = check_interval;
    }

    /// The move that the search chooses: it visits the tree `n_playouts`
    /// times and takes the move to the child of the root that was visited
    /// most often.
    pub fn get_move(&self, board: &mut Board) -> (best: Option<usize>)
        requires
            self.wf(),
            old(board)@.is_valid(),
            !old(board)@.must_pass(),
        ensures
            final(board)@ == old(board)@,
            best is Some,
            old(board)@.is_legal(best->Some_0 as int),
            exists|tree: SearchTree| #[trigger]
                chosen_in(tree, old(board)@, self.playouts() as int, best->Some_0),
    {
        let mut root = SearchTree::new(*board);
        root.expand_root();
        root.run_playouts(
            &RandomRollout {  },
            &self.policy,
            self.expansion_threshold as u64,
            self.n_playouts as u64,
        );
        let best = Some(move_of_child(board, &root));
        assert(chosen_in(root, old(board)@, self.playouts() as int, best->Some_0));
        best
    }

    /// The move that the search chooses against a deadline: it visits the
    /// tree until the deadline has passed, `n_playouts` times at most, and
    /// takes the move to the child of the root that was visited most
    /// often. The deadline lies `timeout`, less the margin, after the call.
    pub fn get_move_with_timeout(&self, board: &mut Board, timeout: Duration) -> (best: Option<
        usize,
    >)
        requires
            self.wf(),
            self.interval() > 0,
            old(board)@.is_valid(),
            !old(board)@.must_pass(),
        ensures
            final(board)@ == old(board)@,
            best is Some,
            old(board)@.is_legal(best->Some_0 as int),
            exists|tree: SearchTree, visits: int| #[trigger]
                chosen_in(tree, old(board)@, visits, best->Some_0) && 0 <= visits
                    <= self.playouts(),
    {
        let mut root = SearchTree::new(*board);
        root.expand_root();
        let search_duration = span_less_margin(micros_of(&timeout), self.margin_time);
        let mut time_keeper = TimeKeeper::new(search_duration);
        root.run_playouts_until(
            &RandomRollout {  },
            &self.policy,
            self.expansion_threshold as u64,
            self.n_playouts as u64,
            self.check_interval as u64,
            &mut time_keeper,
        );
        let best = Some(move_of_child(board, &root));
        assert(chosen_in(root, old(board)@, root.visits(0), best->Some_0));
        best
    }

    /// What the search finds the position worth to the mover: the sum of
    /// the values of the visits of the root, and the number of the visits.
    /// A position in which the game has ended is visited once.
    pub fn get_search_stats(&self, board: &mut Board) -> (stats: (u64, u64))
        requires
            self.wf(),
            old(board)@.is_valid(),
        ensures
            final(board)@ == old(board)@,
            old(board)@.is_terminal() ==> stats == (end_value(old(board)@), 1u64),
            !old(board)@.is_terminal() ==> stats.1 == self.playouts() && stats.0 <= stats.1
                * VALUE_ONE,
    {
        if board.is_game_over() {
            return match (board.is_win(), board.is_lose()) {
                (Ok(true), _) => (VALUE_ONE, 1),
                (_, Ok(true)) => (0, 1),
                _ => (VALUE_HALF, 1),
            };
        }
        let mut root = SearchTree::new(*board);
        root.expand_root();
        root.run_playouts(
            &RandomRollout {  },
            &self.policy,
            self.expansion_threshold as u64,
            self.n_playouts as u64,
        );
        proof {
            root.lemma_root_mean();
        }
        root.root_stats()
    }
}

/// `best` is the move that a search takes from `tree`: the tree is in
/// order, its root holds `pos`, has its children and was visited `visits`
/// times, never without them, and `best` is the move to the child of the
/// root that was visited most often, the first of them where there are
/// several.
pub open spec fn chosen_in(tree: SearchTree, pos: Position, visits: int, best: usize) -> bool {
    &&& tree.inv()
    &&& tree.position(0) == pos
    &&& tree.child_count(0) > 0
    &&& tree.own_visits(0) == 0
    &&& tree.visits(0) == visits
    &&& best == cells_of(pos.legal_moves())[first_best(
        tree.root_visits(),
        tree.child_count(0) as nat,
    )]
}

/// The move that leads to the child of the root of `tree` that was visited
/// most often; the first of them where there are several.
pub fn move_of_child(board: &mut Board, tree: &SearchTree) -> (best: usize)
    requires
        tree.inv(),
        tree.position(0) == old(board)@,
        tree.child_count(0) > 0,
        !old(board)@.must_pass(),
    ensures
        final(board)@ == old(board)@,
        best == cells_of(old(board)@.legal_moves())[first_best(
            tree.root_visits(),
            tree.child_count(0) as nat,
        )],
        old(board)@.is_legal(best as int),
{
    proof {
        tree.lemma_root_children();
        lemma_natural_covers(board@);
    }
    let best_child_index = tree.most_visited_child();
    let legal_moves = board.get_legal_moves_vec();
    legal_moves.get(best_child_index)
}

} // verus!
