//! The tree of a Monte-Carlo search: the positions that were visited, how
//! often, and what they were worth.

use crate::bits::{cells_of, lemma_cells_of};
use crate::board::{lemma_move_keeps_valid, lemma_swap_keeps_valid, Board, Position};
use crate::search::game_tree::{covers, first_best, lemma_covers_some, lemma_natural_covers};
use crate::search::time_keeper::TimeKeeper;
use vstd::prelude::*;

verus! {

/// The value of a position that the mover wins.
pub const VALUE_ONE: u64 = 1_000_000;

/// The value of a drawn position.
pub const VALUE_HALF: u64 = 500_000;

/// The most visits that a node can count: the sum of the values of so many
/// visits still is a `u64`.
pub const MAX_VISITS: u64 = 18_446_744_073_709;

/// The value of a position in which the game has ended, for its mover.
pub open spec fn end_value(pos: Position) -> u64 {
    if pos.mover_count() > pos.opponent_count() {
        VALUE_ONE
    } else if pos.mover_count() < pos.opponent_count() {
        0
    } else {
        VALUE_HALF
    }
}

/// How a search chooses among the children of a node once each of them has
/// been visited.
pub trait SelectionPolicy {
    /// What the policy needs to hold of itself.
    spec fn wf(&self) -> bool;

    /// Whether the policy may choose the child at `index` of children
    /// with these counts.
    spec fn admits(&self, visits: &Vec<u64>, values: &Vec<u64>, index: usize) -> bool;

    /// The place of the chosen child, one that the policy admits. `visits`
    /// holds how often each child was visited, `values` the sum of the
    /// values that each child saw, a win for its own mover counting
    /// `VALUE_ONE`.
    fn select(&self, visits: &Vec<u64>, values: &Vec<u64>) -> (index: usize)
        requires
            self.wf(),
            visits@.len() == values@.len(),
            visits@.len() > 0,
            forall|i: int| 0 <= i < visits@.len() ==> visits@[i] > 0,
            forall|i: int| 0 <= i < visits@.len() ==> values@[i] <= visits@[i] * VALUE_ONE,
        ensures
            index < visits@.len(),
            self.admits(visits, values, index),
    ;
}

/// How a search values a position that its tree ends at.
pub trait LeafValuer {
    /// What the valuer needs to hold of itself.
    spec fn wf(&self) -> bool;

    /// Whether `value` is a value that the valuer may give to `pos`.
    spec fn admits(&self, pos: Position, value: u64) -> bool;

    /// The value of the position of `board` for its mover, between 0 and
    /// `VALUE_ONE`: one that the valuer admits.
    fn leaf_value(&self, board: &mut Board) -> (value: u64)
        requires
            self.wf(),
            old(board)@.is_valid(),
            !old(board)@.is_terminal(),
        ensures
            value <= VALUE_ONE,
            self.admits(old(board)@, value),
            final(board)@ == old(board)@,
    ;
}

/// A node of the tree: a position, how often it was visited, and the sum of
/// the values that those visits gave it, seen from its own mover. What the
/// node was visited and worth while it had no children is kept apart, for
/// the proofs alone.
#[derive(Clone, Copy)]
pub struct TreeNode {
    board: Board,
    w: u64,
    n_visits: u64,
    first_child: usize,
    n_children: usize,
    own_visits: Ghost<int>,
    own_sum: Ghost<int>,
}

impl TreeNode {
    fn new(board: Board) -> (node: TreeNode)
        ensures
            node.board@ == board@,
            node.w == 0,
            node.n_visits == 0,
            node.n_children == 0,
            node.own_visits@ == 0,
            node.own_sum@ == 0,
    {
        TreeNode {
            board,
            w: 0,
            n_visits: 0,
            first_child: 0,
            n_children: 0,
            own_visits: Ghost(0),
            own_sum: Ghost(0),
        }
    }
}

/// The tree of a search. The nodes lie in one vector, the root first; the
/// children of a node lie side by side, behind their parent.
pub struct SearchTree {
    nodes: Vec<TreeNode>,
}

impl SearchTree {
    /// The number of nodes.
    pub closed spec fn len(&self) -> int {
        self.nodes@.len() as int
    }

    /// The position of node `i`.
    pub closed spec fn position(&self, i: int) -> Position {
        self.nodes@[i].board@
    }

    /// How often node `i` was visited.
    pub closed spec fn visits(&self, i: int) -> int {
        self.nodes@[i].n_visits as int
    }

    /// The sum of the values that the visits of node `i` gave it.
    pub closed spec fn value_sum(&self, i: int) -> int {
        self.nodes@[i].w as int
    }

    /// How often node `i` was visited and valued itself: at the end of the
    /// game, or while it had no children.
    pub closed spec fn own_visits(&self, i: int) -> int {
        self.nodes@[i].own_visits@
    }

    /// The sum of the values that node `i` was given when it was valued
    /// itself.
    pub closed spec fn own_sum(&self, i: int) -> int {
        self.nodes@[i].own_sum@
    }

    /// The number of children of node `i`; 0 while it has none.
    pub closed spec fn child_count(&self, i: int) -> int {
        self.nodes@[i].n_children as int
    }

    /// The place of child `k` of node `i`.
    pub closed spec fn child(&self, i: int, k: int) -> int {
        self.nodes@[i].first_child + k
    }

    /// Node `c` is one of the children of node `i`.
    pub open spec fn is_child_of(&self, c: int, i: int) -> bool {
        &&& 0 <= i < self.len()
        &&& self.child_count(i) > 0
        &&& self.child(i, 0) <= c < self.child(i, self.child_count(i))
    }

    /// No node is a child of two nodes.
    pub open spec fn single_parent(&self) -> bool {
        forall|c: int, i: int, j: int|
            #[trigger] self.is_child_of(c, i) && #[trigger] self.is_child_of(c, j) ==> i == j
    }

    /// How often the first `upto` children of node `i` were visited, taken
    /// together.
    pub open spec fn visits_below(&self, i: int, upto: nat) -> int
        decreases upto,
    {
        if upto == 0 {
            0
        } else {
            self.visits_below(i, (upto - 1) as nat) + self.visits(self.child(i, upto - 1))
        }
    }

    /// What the visits of the first `upto` children of node `i` were worth
    /// to the mover of node `i`: each visit of a child what is left of
    /// `VALUE_ONE` after the value that the child saw.
    pub open spec fn flipped_below(&self, i: int, upto: nat) -> int
        decreases upto,
    {
        if upto == 0 {
            0
        } else {
            self.flipped_below(i, (upto - 1) as nat) + (self.visits(self.child(i, upto - 1))
                * VALUE_ONE - self.value_sum(self.child(i, upto - 1)))
        }
    }

    /// The books of node `i` balance: each of its visits was a visit of its
    /// own or of one of its children, and its sum of values is what its own
    /// visits gave it and what the visits of its children were worth to its
    /// mover.
    pub open spec fn balanced(&self, i: int) -> bool {
        &&& 0 <= self.own_sum(i) <= self.own_visits(i) * VALUE_ONE
        &&& self.visits(i) == self.own_visits(i) + self.visits_below(
            i,
            self.child_count(i) as nat,
        )
        &&& self.value_sum(i) == self.own_sum(i) + self.flipped_below(
            i,
            self.child_count(i) as nat,
        )
    }

    /// The books of every node balance.
    pub open spec fn all_balanced(&self) -> bool {
        forall|i: int| 0 <= i < self.len() ==> self.balanced(i)
    }

    /// The books of every node balance but those of the parent of `node`.
    pub open spec fn balanced_but(&self, node: int) -> bool {
        forall|i: int| 0 <= i < self.len() && !self.is_child_of(node, i) ==> self.balanced(i)
    }

    /// Node `i` counts in `later` what it counts in `self`.
    pub open spec fn counts_kept(&self, later: &SearchTree, i: int) -> bool {
        &&& later.visits(i) == self.visits(i)
        &&& later.value_sum(i) == self.value_sum(i)
        &&& later.own_visits(i) == self.own_visits(i)
        &&& later.own_sum(i) == self.own_sum(i)
    }

    /// Node `i` was never visited and has no children.
    pub open spec fn is_fresh(&self, i: int) -> bool {
        &&& self.visits(i) == 0
        &&& self.value_sum(i) == 0
        &&& self.own_visits(i) == 0
        &&& self.own_sum(i) == 0
        &&& self.child_count(i) == 0
    }

    /// Node `i` is in order: its position is valid, its values fit its
    /// visits, and its children, if it has any, lie behind it and stand for
    /// its legal moves in ascending order, or for the pass that it is
    /// forced to.
    pub open spec fn node_wf(&self, i: int) -> bool {
        let pos = self.position(i);
        let moves = cells_of(pos.legal_moves());
        &&& pos.is_valid()
        &&& self.value_sum(i) <= self.visits(i) * VALUE_ONE
        &&& self.child_count(i) > 0 ==> {
            &&& !pos.is_terminal()
            &&& i < self.child(i, 0)
            &&& self.child(i, self.child_count(i)) <= self.len()
            &&& pos.must_pass() ==> self.child_count(i) == 1 && self.position(self.child(i, 0))
                == pos.swapped()
            &&& !pos.must_pass() ==> self.child_count(i) == moves.len() && forall|k: int|
                0 <= k < moves.len() ==> self.position(#[trigger] self.child(i, k))
                    == pos.after_move(moves[k] as int)
        }
    }

    /// Every node is in order, none has two parents, and none was visited
    /// more than `bound` times.
    pub open spec fn wf(&self, bound: int) -> bool {
        &&& self.len() >= 1
        &&& self.single_parent()
        &&& forall|i: int| 0 <= i < self.len() ==> self.node_wf(i)
        &&& forall|i: int| 0 <= i < self.len() ==> self.visits(i) <= bound
    }

    /// `later` is `self` after more visits: the nodes of `self` are still
    /// there, with their positions and, where they had any, their children.
    pub open spec fn grown_to(&self, later: &SearchTree) -> bool {
        &&& self.len() <= later.len()
        &&& forall|i: int|
            0 <= i < self.len() ==> #[trigger] later.position(i) == self.position(i)
        &&& forall|i: int|
            0 <= i < self.len() && self.child_count(i) > 0 ==> #[trigger] later.child_count(i)
                == self.child_count(i) && later.child(i, 0) == self.child(i, 0)
    }

    /// How often each child of node `i` was visited.
    pub open spec fn child_visits(&self, i: int) -> Seq<u64> {
        Seq::new(self.child_count(i) as nat, |k: int| self.visits(self.child(i, k)) as u64)
    }

    /// The sum of the values that the visits of each child of node `i`
    /// gave it.
    pub open spec fn child_sums(&self, i: int) -> Seq<u64> {
        Seq::new(self.child_count(i) as nat, |k: int| self.value_sum(self.child(i, k)) as u64)
    }

    /// `policy` may choose child `k` of node `i`, as its children count.
    pub open spec fn is_choice_of<P: SelectionPolicy>(&self, policy: &P, i: int, k: int) -> bool {
        exists|visits: Vec<u64>, values: Vec<u64>|
            visits@ == self.child_visits(i) && values@ == self.child_sums(i)
                && #[trigger] policy.admits(&visits, &values, k as usize)
    }

    /// A visit of `node` that was worth `value` has led from `self` to
    /// `later` through child `k`: the first child that was never visited,
    /// or, where every child was visited, one that `policy` may choose.
    /// That child counts one visit more, and what is left of `VALUE_ONE`
    /// after `value` more in its sum; the other children count what they
    /// did.
    pub open spec fn went_through<P: SelectionPolicy>(
        &self,
        later: &SearchTree,
        policy: &P,
        node: int,
        k: int,
        value: int,
    ) -> bool {
        let count = self.child_count(node);
        &&& 0 <= k < count
        &&& forall|j: int| 0 <= j < k ==> self.visits(#[trigger] self.child(node, j)) > 0
        &&& self.visits(self.child(node, k)) == 0 || ((forall|j: int|
            0 <= j < count ==> self.visits(#[trigger] self.child(node, j)) > 0)
            && self.is_choice_of(policy, node, k))
        &&& later.visits(self.child(node, k)) == self.visits(self.child(node, k)) + 1
        &&& later.value_sum(self.child(node, k)) == self.value_sum(self.child(node, k)) + VALUE_ONE
            - value
        &&& forall|j: int|
            0 <= j < count && j != k ==> later.visits(#[trigger] self.child(node, j))
                == self.visits(self.child(node, j)) && later.value_sum(self.child(node, j))
                == self.value_sum(self.child(node, j))
    }

    /// What a visit of `node` has touched on the way from `self` to
    /// `later`: a node that counts as many visits as before is as it was,
    /// and a node that counts more is `node` or a child of a node behind
    /// `node` that counts more too.
    spec fn touched_from(&self, later: &SearchTree, node: int) -> bool {
        &&& forall|i: int|
            0 <= i < self.len() && #[trigger] later.visits(i) == self.visits(i) ==> later.nodes@[i]
                == self.nodes@[i]
        &&& forall|i: int|
            0 <= i < self.len() && #[trigger] later.visits(i) != self.visits(i) && i != node
                ==> exists|q: int|
                node <= q < i && #[trigger] self.is_child_of(i, q) && later.visits(q)
                    != self.visits(q)
    }

    /// The sums over the children of a node are the same in two trees in
    /// which the children lie at the same places with the same counts.
    proof fn lemma_below_same(&self, other: &SearchTree, i: int, upto: nat)
        requires
            self.child(i, 0) == other.child(i, 0),
            forall|c: int|
                self.child(i, 0) <= c < self.child(i, upto as int) ==> self.visits(c)
                    == other.visits(c) && self.value_sum(c) == other.value_sum(c),
        ensures
            self.visits_below(i, upto) == other.visits_below(i, upto),
            self.flipped_below(i, upto) == other.flipped_below(i, upto),
        decreases upto,
    {
        if upto > 0 {
            self.lemma_below_same(other, i, (upto - 1) as nat);
            assert(self.child(i, upto - 1) == other.child(i, upto - 1));
        }
    }

    /// One more visit of one child, of the value `value`, adds a visit to
    /// the visits of the children and what is left of `VALUE_ONE` after
    /// `value` to what they are worth.
    proof fn lemma_below_bump(&self, other: &SearchTree, i: int, upto: nat, x: int, value: int)
        requires
            self.child(i, 0) == other.child(i, 0),
            other.visits(x) == self.visits(x) + 1,
            other.value_sum(x) == self.value_sum(x) + value,
            forall|c: int|
                self.child(i, 0) <= c < self.child(i, upto as int) && c != x ==> self.visits(c)
                    == other.visits(c) && self.value_sum(c) == other.value_sum(c),
        ensures
            other.visits_below(i, upto) == self.visits_below(i, upto) + if self.child(i, 0) <= x
                < self.child(i, upto as int) {
                1int
            } else {
                0int
            },
            other.flipped_below(i, upto) == self.flipped_below(i, upto) + if self.child(i, 0) <= x
                < self.child(i, upto as int) {
                VALUE_ONE - value
            } else {
                0int
            },
        decreases upto,
    {
        if upto > 0 {
            self.lemma_below_bump(other, i, (upto - 1) as nat, x, value);
            assert(self.child(i, upto - 1) == other.child(i, upto - 1));
        }
    }

    /// Children that were never visited add nothing to the sums.
    proof fn lemma_below_zero(&self, i: int, upto: nat)
        requires
            forall|c: int|
                self.child(i, 0) <= c < self.child(i, upto as int) ==> self.visits(c) == 0
                    && self.value_sum(c) == 0,
        ensures
            self.visits_below(i, upto) == 0,
            self.flipped_below(i, upto) == 0,
        decreases upto,
    {
        if upto > 0 {
            self.lemma_below_zero(i, (upto - 1) as nat);
        }
    }

    /// A node that is in order stays in order in a tree that has grown,
    /// where it has kept its children, or has none, and its values fit its
    /// visits.
    proof fn lemma_grown_node(&self, later: &SearchTree, i: int)
        requires
            0 <= i < self.len(),
            self.grown_to(later),
            self.node_wf(i),
            self.child_count(i) > 0 || later.child_count(i) == 0,
            later.value_sum(i) <= later.visits(i) * VALUE_ONE,
        ensures
            later.node_wf(i),
    {
        assert(later.position(i) == self.position(i));
        if self.child_count(i) > 0 {
            assert(later.child_count(i) == self.child_count(i) && later.child(i, 0) == self.child(
                i,
                0,
            ));
            let pos = self.position(i);
            if pos.must_pass() {
                assert(later.position(self.child(i, 0)) == self.position(self.child(i, 0)));
            } else {
                let moves = cells_of(pos.legal_moves());
                assert forall|k: int| 0 <= k < moves.len() implies later.position(
                    #[trigger] later.child(i, k),
                ) == pos.after_move(moves[k] as int) by {
                    assert(self.position(self.child(i, k)) == pos.after_move(moves[k] as int));
                    assert(later.position(self.child(i, k)) == self.position(self.child(i, k)));
                }
            }
        }
    }

    /// A tree that has grown, and has grown again, has grown.
    proof fn lemma_grown_on(&self, middle: &SearchTree, later: &SearchTree)
        requires
            self.grown_to(middle),
            middle.grown_to(later),
        ensures
            self.grown_to(later),
    {
        assert forall|i: int| 0 <= i < self.len() implies #[trigger] later.position(i)
            == self.position(i) by {
            assert(middle.position(i) == self.position(i));
        }
        assert forall|i: int|
            0 <= i < self.len() && self.child_count(i) > 0 implies #[trigger] later.child_count(i)
            == self.child_count(i) && later.child(i, 0) == self.child(i, 0) by {
            assert(middle.child_count(i) == self.child_count(i));
            assert(middle.child(i, 0) == self.child(i, 0));
        }
    }

    /// The books of a node that is as it was, with children that count as
    /// they did, balance as they did.
    proof fn lemma_same_books(&self, later: &SearchTree, i: int)
        requires
            0 <= i < self.len() <= later.len(),
            self.balanced(i),
            later.nodes@[i] == self.nodes@[i],
            forall|c: int|
                self.is_child_of(c, i) ==> later.visits(c) == self.visits(c) && later.value_sum(c)
                    == self.value_sum(c),
        ensures
            later.balanced(i),
    {
        let count = self.child_count(i) as nat;
        if count > 0 {
            assert forall|c: int|
                self.child(i, 0) <= c < self.child(i, count as int) implies self.visits(c)
                == later.visits(c) && self.value_sum(c) == later.value_sum(c) by {
                assert(self.is_child_of(c, i));
            }
            self.lemma_below_same(later, i, count);
        }
    }

    /// A tree of one node, the root, with the position of `board`.
    pub fn new(board: Board) -> (tree: SearchTree)
        requires
            board@.is_valid(),
        ensures
            tree.inv(),
            tree.len() == 1,
            tree.position(0) == board@,
            tree.visits(0) == 0,
            tree.value_sum(0) == 0,
            tree.own_visits(0) == 0,
            tree.child_count(0) == 0,
    {
        let mut nodes: Vec<TreeNode> = Vec::new();
        nodes.push(TreeNode::new(board));
        SearchTree { nodes }
    }

    /// Gives node `node` its children: one for each legal move, in
    /// ascending order of the moves, or one for the pass where the mover
    /// has no legal move.
    fn expand(&mut self, node: usize, Ghost(bound): Ghost<int>)
        requires
            old(self).wf(bound),
            bound >= 0,
            node < old(self).len(),
            old(self).child_count(node as int) == 0,
            !old(self).position(node as int).is_terminal(),
        ensures
            final(self).wf(bound),
            old(self).grown_to(final(self)),
            final(self).child_count(node as int) > 0,
            final(self).child(node as int, 0) == old(self).len(),
            forall|i: int| 0 <= i < old(self).len() ==> old(self).counts_kept(final(self), i),
            forall|i: int|
                0 <= i < old(self).len() && i != node ==> final(self).nodes@[i] == old(
                    self,
                ).nodes@[i],
            forall|i: int| old(self).len() <= i < final(self).len() ==> final(self).is_fresh(i),
    {
        let ghost before = *self;
        let mut parent = self.nodes[node];
        let ghost pos = parent.board@;
        assert(before.node_wf(node as int));
        let first = self.nodes.len();
        if let Some(children) = parent.board.get_child_boards() {
            let ghost moves = cells_of(pos.legal_moves());
            proof {
                lemma_cells_of(pos.legal_moves());
                lemma_natural_covers(pos);
            }
            let mut k: usize = 0;
            while k < children.len()
                invariant
                    k <= children@.len(),
                    first == before.nodes@.len(),
                    node < first,
                    self.nodes@.len() == first + k,
                    children@.len() == moves.len(),
                    moves == cells_of(pos.legal_moves()),
                    pos.is_valid(),
                    covers(moves, pos),
                    crate::board::are_children(pos, children@, 64),
                    forall|i: int| 0 <= i < first ==> self.nodes@[i] == before.nodes@[i],
                    forall|j: int|
                        0 <= j < k ==> (#[trigger] self.nodes@[first + j]).board@ == pos.after_move(
                            moves[j] as int,
                        ) && self.nodes@[first + j].w == 0 && self.nodes@[first + j].n_visits == 0
                            && self.nodes@[first + j].n_children == 0 && self.nodes@[first
                            + j].own_visits@ == 0 && self.nodes@[first + j].own_sum@ == 0,
                decreases children@.len() - k,
            {
                self.nodes.push(TreeNode::new(children[k]));
                k += 1;
            }
            parent.first_child = first;
            parent.n_children = children.len();
            self.nodes.set(node, parent);
            proof {
                lemma_covers_some(moves, pos);
                assert forall|i: int| first <= i < self.len() implies (
                #[trigger] self.nodes@[i]).board@.is_valid() && self.nodes@[i].w == 0
                    && self.nodes@[i].n_visits == 0 && self.nodes@[i].n_children == 0
                    && self.nodes@[i].own_visits@ == 0 && self.nodes@[i].own_sum@ == 0 by {
                    let j = i - first;
                    assert(self.nodes@[first + j].board@ == pos.after_move(moves[j] as int));
                    lemma_move_keeps_valid(pos, moves[j] as int);
                }
                assert forall|k: int| 0 <= k < moves.len() implies self.position(
                    #[trigger] self.child(node as int, k),
                ) == pos.after_move(moves[k] as int) by {
                    assert(self.nodes@[first + k].board@ == pos.after_move(moves[k] as int));
                }
            }
        } else {
            let mut board = parent.board;
            board.do_pass().unwrap();
            self.nodes.push(TreeNode::new(board));
            parent.first_child = first;
            parent.n_children = 1;
            self.nodes.set(node, parent);
            proof {
                lemma_swap_keeps_valid(pos);
                assert forall|i: int| first <= i < self.len() implies (
                #[trigger] self.nodes@[i]).board@.is_valid() && self.nodes@[i].w == 0
                    && self.nodes@[i].n_visits == 0 && self.nodes@[i].n_children == 0
                    && self.nodes@[i].own_visits@ == 0 && self.nodes@[i].own_sum@ == 0 by {
                    assert(i == first);
                }
            }
        }
        proof {
            assert forall|i: int| 0 <= i < first && i != node implies self.nodes@[i]
                == before.nodes@[i] by {}
            assert(before.grown_to(self)) by {
                assert forall|i: int| 0 <= i < before.len() implies #[trigger] self.position(i)
                    == before.position(i) by {
                    if i != node {
                        assert(self.nodes@[i] == before.nodes@[i]);
                    }
                }
                assert forall|i: int|
                    0 <= i < before.len() && before.child_count(i)
                        > 0 implies #[trigger] self.child_count(i) == before.child_count(i)
                    && self.child(i, 0) == before.child(i, 0) by {
                    assert(self.nodes@[i] == before.nodes@[i]);
                }
            }
            assert forall|i: int| 0 <= i < self.len() implies self.visits(i) <= bound by {
                if i < first {
                    assert(before.visits(i) <= bound);
                    if i != node {
                        assert(self.nodes@[i] == before.nodes@[i]);
                    }
                }
            }
            assert forall|i: int| 0 <= i < self.len() implies self.node_wf(i) by {
                if i < first && i != node {
                    assert(before.node_wf(i));
                    assert(self.nodes@[i] == before.nodes@[i]);
                    before.lemma_grown_node(self, i);
                }
            }
            assert forall|c: int, i: int, j: int|
                #[trigger] self.is_child_of(c, i) && #[trigger] self.is_child_of(
                    c,
                    j,
                ) implies i == j by {
                if i >= first {
                    assert(self.nodes@[i].n_children == 0);
                } else if j >= first {
                    assert(self.nodes@[j].n_children == 0);
                } else if i != node && j != node {
                    assert(self.nodes@[i] == before.nodes@[i]);
                    assert(self.nodes@[j] == before.nodes@[j]);
                    assert(before.is_child_of(c, i) && before.is_child_of(c, j));
                } else if i != node {
                    assert(self.nodes@[i] == before.nodes@[i]);
                    assert(before.node_wf(i));
                } else if j != node {
                    assert(self.nodes@[j] == before.nodes@[j]);
                    assert(before.node_wf(j));
                }
            }
        }
    }

    /// The child of `node` that the search visits next: the first that was
    /// never visited, or else the one that `policy` chooses.
    fn select_child_index<P: SelectionPolicy>(
        &self,
        node: usize,
        policy: &P,
        Ghost(bound): Ghost<int>,
    ) -> (index: usize)
        requires
            self.wf(bound),
            policy.wf(),
            node < self.len(),
            self.child_count(node as int) > 0,
        ensures
            index < self.child_count(node as int),
            forall|k: int| 0 <= k < index ==> self.visits(self.child(node as int, k)) > 0,
            self.visits(self.child(node as int, index as int)) == 0 || ((forall|k: int|
                0 <= k < self.child_count(node as int) ==> self.visits(self.child(node as int, k))
                    > 0) && self.is_choice_of(policy, node as int, index as int)),
    {
        assert(self.node_wf(node as int));
        let first = self.nodes[node].first_child;
        let count = self.nodes[node].n_children;
        let total = self.nodes.len();
        let mut visits: Vec<u64> = Vec::with_capacity(count);
        let mut values: Vec<u64> = Vec::with_capacity(count);
        let mut i: usize = 0;
        while i < count
            invariant
                i <= count,
                count > 0,
                count == self.child_count(node as int),
                first == self.child(node as int, 0),
                first + count <= total,
                total == self.nodes@.len(),
                self.wf(bound),
                policy.wf(),
                visits@.len() == i,
                values@.len() == i,
                forall|j: int| 0 <= j < i ==> visits@[j] > 0,
                forall|j: int| 0 <= j < i ==> values@[j] <= visits@[j] * VALUE_ONE,
                forall|k: int| 0 <= k < i ==> self.visits(self.child(node as int, k)) > 0,
                forall|k: int|
                    0 <= k < i ==> visits@[k] == self.nodes@[first + k].n_visits && values@[k]
                        == self.nodes@[first + k].w,
            decreases count - i,
        {
            let child = &self.nodes[first + i];
            assert(self.node_wf(first + i));
            if child.n_visits == 0 {
                return i;
            }
            visits.push(child.n_visits);
            values.push(child.w);
            i += 1;
        }
        let index = policy.select(&visits, &values);
        proof {
            assert(visits@ =~= self.child_visits(node as int));
            assert(values@ =~= self.child_sums(node as int));
            assert(policy.admits(&visits, &values, index as int as usize));
            assert(self.is_choice_of(policy, node as int, index as int));
        }
        index
    }

    /// The value of the position of a node in which the game has ended.
    fn final_value(board: &Board) -> (value: u64)
        requires
            board@.is_terminal(),
        ensures
            value == end_value(board@),
    {
        match board.get_winner().unwrap() {
            Some(winner) => {
                if winner == board.get_turn() {
                    VALUE_ONE
                } else {
                    0
                }
            },
            None => VALUE_HALF,
        }
    }

    /// Records one more visit of `node`, of the value `value`; with `own`,
    /// as a visit in which the node was valued itself.
    fn record(&mut self, node: usize, value: u64, Ghost(own): Ghost<bool>, Ghost(bound): Ghost<int>)
        requires
            old(self).wf(bound + 1),
            node < old(self).len(),
            old(self).visits(node as int) <= bound,
            bound < MAX_VISITS,
            value <= VALUE_ONE,
        ensures
            final(self).wf(bound + 1),
            old(self).grown_to(final(self)),
            final(self).len() == old(self).len(),
            final(self).visits(node as int) == old(self).visits(node as int) + 1,
            final(self).value_sum(node as int) == old(self).value_sum(node as int) + value,
            final(self).own_visits(node as int) == old(self).own_visits(node as int) + if own {
                1int
            } else {
                0int
            },
            final(self).own_sum(node as int) == old(self).own_sum(node as int) + if own {
                value as int
            } else {
                0int
            },
            final(self).child_count(node as int) == old(self).child_count(node as int),
            final(self).child(node as int, 0) == old(self).child(node as int, 0),
            forall|i: int|
                0 <= i < old(self).len() && i != node ==> final(self).nodes@[i] == old(
                    self,
                ).nodes@[i],
    {
        let ghost before = *self;
        assert(before.node_wf(node as int));
        let mut nd = self.nodes[node];
        nd.n_visits += 1;
        nd.w += value;
        nd.own_visits = Ghost(
            if own {
                nd.own_visits@ + 1
            } else {
                nd.own_visits@
            },
        );
        nd.own_sum = Ghost(
            if own {
                nd.own_sum@ + value
            } else {
                nd.own_sum@
            },
        );
        self.nodes.set(node, nd);
        proof {
            assert(before.grown_to(self)) by {
                assert forall|i: int| 0 <= i < before.len() implies #[trigger] self.position(i)
                    == before.position(i) by {
                    if i != node {
                        assert(self.nodes@[i] == before.nodes@[i]);
                    }
                }
                assert forall|i: int|
                    0 <= i < before.len() && before.child_count(i)
                        > 0 implies #[trigger] self.child_count(i) == before.child_count(i)
                    && self.child(i, 0) == before.child(i, 0) by {
                    if i != node {
                        assert(self.nodes@[i] == before.nodes@[i]);
                    }
                }
            }
            assert forall|i: int| 0 <= i < self.len() implies self.node_wf(i) by {
                assert(before.node_wf(i));
                if i != node {
                    assert(self.nodes@[i] == before.nodes@[i]);
                }
                before.lemma_grown_node(self, i);
            }
            assert forall|i: int| 0 <= i < self.len() implies self.visits(i) <= bound + 1 by {
                assert(before.visits(i) <= bound + 1);
                if i != node {
                    assert(self.nodes@[i] == before.nodes@[i]);
                }
            }
            assert forall|c: int, i: int, j: int|
                #[trigger] self.is_child_of(c, i) && #[trigger] self.is_child_of(
                    c,
                    j,
                ) implies i == j by {
                if i != node {
                    assert(self.nodes@[i] == before.nodes@[i]);
                }
                if j != node {
                    assert(self.nodes@[j] == before.nodes@[j]);
                }
                assert(before.is_child_of(c, i) && before.is_child_of(c, j));
            }
        }
    }

    /// Visits `node`: values it, or goes on to one of its children and takes
    /// what is left of `VALUE_ONE` after the value of the child; counts the
    /// visit and adds the value to the sum of the node. A node without
    /// children gets its children once it has `threshold` visits.
    fn evaluate<V: LeafValuer, P: SelectionPolicy>(
        &mut self,
        node: usize,
        valuer: &V,
        policy: &P,
        threshold: u64,
        Ghost(bound): Ghost<int>,
    ) -> (value: u64)
        requires
            old(self).wf(bound),
            old(self).all_balanced(),
            0 <= bound < MAX_VISITS,
            node < old(self).len(),
            valuer.wf(),
            policy.wf(),
        ensures
            final(self).wf(bound + 1),
            final(self).balanced_but(node as int),
            old(self).grown_to(final(self)),
            old(self).touched_from(final(self), node as int),
            value <= VALUE_ONE,
            final(self).visits(node as int) == old(self).visits(node as int) + 1,
            final(self).value_sum(node as int) == old(self).value_sum(node as int) + value,
            old(self).child_count(node as int) > 0 ==> final(self).own_visits(node as int) == old(
                self,
            ).own_visits(node as int),
            old(self).child_count(node as int) > 0 ==> final(self).own_sum(node as int) == old(
                self,
            ).own_sum(node as int),
            old(self).position(node as int).is_terminal() ==> value == end_value(
                old(self).position(node as int),
            ) && final(self).child_count(node as int) == 0,
            old(self).child_count(node as int) == 0 && !old(self).position(
                node as int,
            ).is_terminal() && old(self).visits(node as int) + 1 >= threshold
                ==> final(self).child_count(node as int) > 0,
            old(self).child_count(node as int) == 0 && old(self).visits(node as int) + 1
                < threshold ==> final(self).child_count(node as int) == 0,
            old(self).child_count(node as int) == 0 && !old(self).position(
                node as int,
            ).is_terminal() ==> valuer.admits(old(self).position(node as int), value),
            old(self).child_count(node as int) > 0 ==> exists|k: int| #[trigger]
                old(self).went_through(final(self), policy, node as int, k, value as int),
        decreases old(self).len() - node,
    {
        let ghost before = *self;
        assert(before.node_wf(node as int));
        assert(before.balanced(node as int));
        let nd = self.nodes[node];
        if nd.board.is_game_over() {
            let value = Self::final_value(&nd.board);
            self.record(node, value, Ghost(true), Ghost(bound));
            proof {
                before.lemma_after_own_visit(self, node as int, value as int);
            }
            value
        } else if nd.n_children == 0 {
            let mut board = nd.board;
            let value = valuer.leaf_value(&mut board);
            self.record(node, value, Ghost(true), Ghost(bound));
            proof {
                before.lemma_after_own_visit(self, node as int, value as int);
            }
            if self.nodes[node].n_visits >= threshold {
                let ghost recorded = *self;
                self.expand(node, Ghost(bound + 1));
                proof {
                    assert(recorded.counts_kept(self, node as int));
                    assert forall|i: int| 0 <= i < recorded.len() implies self.visits(i)
                        == recorded.visits(i) by {
                        assert(recorded.counts_kept(self, i));
                    }
                    recorded.lemma_after_expansion(self, node as int);
                    before.lemma_touched_on(&recorded, self, node as int);
                    before.lemma_grown_on(&recorded, self);
                }
            }
            value
        } else {
            let child_index = self.select_child_index(node, policy, Ghost(bound));
            let total = self.nodes.len();
            assert(nd.first_child + child_index < total);
            let child = nd.first_child + child_index;
            assert(before.is_child_of(child as int, node as int));
            let seen = self.evaluate(child, valuer, policy, threshold, Ghost(bound));
            let value = VALUE_ONE - seen;
            let ghost visited = *self;
            proof {
                before.lemma_after_child_visit(&visited, node as int, child as int, seen as int);
            }
            self.record(node, value, Ghost(false), Ghost(bound));
            proof {
                before.lemma_after_backup(
                    &visited,
                    self,
                    node as int,
                    child as int,
                    seen as int,
                );
                before.lemma_grown_on(&visited, self);
                assert(before.went_through(
                    self,
                    policy,
                    node as int,
                    child_index as int,
                    value as int,
                )) by {
                    assert forall|j: int|
                        0 <= j < before.child_count(node as int) implies self.nodes@[before.child(
                        node as int,
                        j,
                    )] == visited.nodes@[before.child(node as int, j)] by {}
                    assert forall|j: int|
                        0 <= j < before.child_count(node as int) && j
                            != child_index implies visited.nodes@[before.child(node as int, j)]
                        == before.nodes@[before.child(node as int, j)] by {
                        assert(before.is_child_of(before.child(node as int, j), node as int));
                    }
                }
            }
            value
        }
    }

    /// After a visit in which `node`, and nothing else, was valued itself,
    /// the books of every node but its parent balance, and only `node` was
    /// touched.
    proof fn lemma_after_own_visit(&self, later: &SearchTree, node: int, value: int)
        requires
            0 <= node < self.len(),
            self.len() == later.len(),
            self.single_parent(),
            self.all_balanced(),
            0 <= value <= VALUE_ONE,
            later.visits(node) == self.visits(node) + 1,
            later.value_sum(node) == self.value_sum(node) + value,
            later.own_visits(node) == self.own_visits(node) + 1,
            later.own_sum(node) == self.own_sum(node) + value,
            later.child_count(node) == self.child_count(node),
            later.child(node, 0) == self.child(node, 0),
            forall|i: int| 0 <= i < self.len() ==> self.node_wf(i),
            forall|i: int| 0 <= i < self.len() && i != node ==> later.nodes@[i] == self.nodes@[i],
        ensures
            later.balanced_but(node),
            self.touched_from(later, node),
    {
        assert forall|i: int|
            0 <= i < later.len() && !later.is_child_of(node, i) implies later.balanced(i) by {
            assert(self.balanced(i));
            assert(self.node_wf(i));
            if i == node {
                let count = self.child_count(i) as nat;
                assert forall|c: int|
                    self.child(i, 0) <= c < self.child(i, count as int) implies self.visits(c)
                    == later.visits(c) && self.value_sum(c) == later.value_sum(c) by {
                    assert(later.nodes@[c] == self.nodes@[c]);
                }
                self.lemma_below_same(later, i, count);
                assert(later.own_sum(i) <= later.own_visits(i) * VALUE_ONE) by (nonlinear_arith)
                    requires
                        later.own_sum(i) == self.own_sum(i) + value,
                        later.own_visits(i) == self.own_visits(i) + 1,
                        self.own_sum(i) <= self.own_visits(i) * VALUE_ONE,
                        value <= VALUE_ONE,
                ;
            } else {
                assert(later.nodes@[i] == self.nodes@[i]);
                assert forall|c: int| self.is_child_of(c, i) implies later.visits(c) == self.visits(
                    c,
                ) && later.value_sum(c) == self.value_sum(c) by {
                    assert(later.is_child_of(c, i));
                    assert(c != node);
                    assert(later.nodes@[c] == self.nodes@[c]);
                }
                self.lemma_same_books(later, i);
            }
        }
    }

    /// Giving `node` its children leaves the books as they are.
    proof fn lemma_after_expansion(&self, later: &SearchTree, node: int)
        requires
            0 <= node < self.len(),
            self.len() <= later.len(),
            self.balanced_but(node),
            self.child_count(node) == 0,
            later.child_count(node) > 0,
            later.child(node, 0) == self.len(),
            later.single_parent(),
            forall|i: int| 0 <= i < later.len() ==> later.node_wf(i),
            forall|i: int| 0 <= i < self.len() ==> self.node_wf(i),
            forall|i: int| 0 <= i < self.len() ==> self.counts_kept(later, i),
            forall|i: int| 0 <= i < self.len() && i != node ==> later.nodes@[i] == self.nodes@[i],
            forall|i: int| self.len() <= i < later.len() ==> later.is_fresh(i),
        ensures
            later.balanced_but(node),
    {
        assert forall|i: int|
            0 <= i < later.len() && !later.is_child_of(node, i) implies later.balanced(i) by {
            if i == node {
                assert(self.balanced(i));
                assert(later.node_wf(i));
                assert(self.counts_kept(later, i));
                assert forall|c: int|
                    later.child(i, 0) <= c < later.child(
                        i,
                        later.child_count(i),
                    ) implies later.visits(c) == 0 && later.value_sum(c) == 0 by {
                    assert(later.is_fresh(c));
                }
                later.lemma_below_zero(i, later.child_count(i) as nat);
            } else if i < self.len() {
                assert(later.nodes@[i] == self.nodes@[i]);
                assert(!self.is_child_of(node, i));
                assert(self.balanced(i));
                assert(self.node_wf(i));
                assert forall|c: int| self.is_child_of(c, i) implies later.visits(c) == self.visits(
                    c,
                ) && later.value_sum(c) == self.value_sum(c) by {
                    assert(self.counts_kept(later, c));
                }
                self.lemma_same_books(later, i);
            } else {
                assert(later.is_fresh(i));
            }
        }
    }

    /// What was touched on the way to a tree stays touched when `node`
    /// then gets its children.
    proof fn lemma_touched_on(&self, middle: &SearchTree, later: &SearchTree, node: int)
        requires
            0 <= node < self.len(),
            self.len() == middle.len() <= later.len(),
            self.touched_from(middle, node),
            middle.visits(node) != self.visits(node),
            forall|i: int| 0 <= i < middle.len() ==> later.visits(i) == middle.visits(i),
            forall|i: int|
                0 <= i < middle.len() && i != node ==> later.nodes@[i] == middle.nodes@[i],
        ensures
            self.touched_from(later, node),
    {
        assert forall|i: int|
            0 <= i < self.len() && #[trigger] later.visits(i) == self.visits(
                i,
            ) implies later.nodes@[i] == self.nodes@[i] by {
            assert(middle.visits(i) == self.visits(i));
        }
        assert forall|i: int|
            0 <= i < self.len() && #[trigger] later.visits(i) != self.visits(i) && i
                != node implies exists|q: int|
            node <= q < i && #[trigger] self.is_child_of(i, q) && later.visits(q) != self.visits(
                q,
            ) by {
            assert(middle.visits(i) != self.visits(i));
            let q = choose|q: int|
                node <= q < i && #[trigger] self.is_child_of(i, q) && middle.visits(q)
                    != self.visits(q);
            assert(later.visits(q) == middle.visits(q));
        }
    }

    /// After a visit of the child `child` of `node`, the brothers of the
    /// child are as they were.
    proof fn lemma_after_child_visit(&self, later: &SearchTree, node: int, child: int, seen: int)
        requires
            0 <= node < self.len() <= later.len(),
            self.is_child_of(child, node),
            self.single_parent(),
            self.node_wf(node),
            self.grown_to(later),
            self.touched_from(later, child),
        ensures
            later.nodes@[node] == self.nodes@[node],
            forall|c: int|
                self.is_child_of(c, node) && c != child ==> later.nodes@[c] == self.nodes@[c],
    {
        assert(later.visits(node) == self.visits(node)) by {
            if later.visits(node) != self.visits(node) {
                let q = choose|q: int|
                    child <= q < node && #[trigger] self.is_child_of(node, q) && later.visits(q)
                        != self.visits(q);
            }
        }
        assert forall|c: int| self.is_child_of(c, node) && c != child implies later.nodes@[c]
            == self.nodes@[c] by {
            if later.visits(c) != self.visits(c) {
                let q = choose|q: int|
                    child <= q < c && #[trigger] self.is_child_of(c, q) && later.visits(q)
                        != self.visits(q);
                assert(q == node);
            }
        }
    }

    /// After a visit of the child `child` of `node` and the record of what
    /// it was worth to `node`, the books of every node but the parent of
    /// `node` balance.
    proof fn lemma_after_backup(
        &self,
        visited: &SearchTree,
        later: &SearchTree,
        node: int,
        child: int,
        seen: int,
    )
        requires
            0 <= node < self.len() <= visited.len(),
            visited.len() == later.len(),
            self.is_child_of(child, node),
            self.single_parent(),
            visited.single_parent(),
            self.all_balanced(),
            forall|i: int| 0 <= i < self.len() ==> self.node_wf(i),
            forall|i: int| 0 <= i < visited.len() ==> visited.node_wf(i),
            self.grown_to(visited),
            self.touched_from(visited, child),
            visited.balanced_but(child),
            0 <= seen <= VALUE_ONE,
            visited.visits(child) == self.visits(child) + 1,
            visited.value_sum(child) == self.value_sum(child) + seen,
            visited.nodes@[node] == self.nodes@[node],
            forall|c: int|
                self.is_child_of(c, node) && c != child ==> visited.nodes@[c] == self.nodes@[c],
            later.visits(node) == visited.visits(node) + 1,
            later.value_sum(node) == visited.value_sum(node) + VALUE_ONE - seen,
            later.own_visits(node) == visited.own_visits(node),
            later.own_sum(node) == visited.own_sum(node),
            later.child_count(node) == visited.child_count(node),
            later.child(node, 0) == visited.child(node, 0),
            forall|i: int|
                0 <= i < visited.len() && i != node ==> later.nodes@[i] == visited.nodes@[i],
        ensures
            later.balanced_but(node),
            self.touched_from(later, node),
    {
        let count = self.child_count(node) as nat;
        assert(self.balanced(node));
        assert(self.node_wf(node));
        // the books of `node`
        assert(later.balanced(node)) by {
            assert forall|c: int|
                self.child(node, 0) <= c < self.child(node, count as int) && c
                    != child implies self.visits(c) == visited.visits(c) && self.value_sum(c)
                == visited.value_sum(c) by {
                assert(self.is_child_of(c, node));
            }
            self.lemma_below_bump(visited, node, count, child, seen);
            assert forall|c: int|
                visited.child(node, 0) <= c < visited.child(
                    node,
                    count as int,
                ) implies visited.visits(c) == later.visits(c) && visited.value_sum(c)
                == later.value_sum(c) by {
                assert(later.nodes@[c] == visited.nodes@[c]);
            }
            visited.lemma_below_same(later, node, count);
        }
        assert forall|i: int|
            0 <= i < later.len() && !later.is_child_of(node, i) implies later.balanced(i) by {
            if i != node {
                assert(later.nodes@[i] == visited.nodes@[i]);
                assert(!visited.is_child_of(node, i));
                // `node` is the one parent of `child`
                assert(visited.is_child_of(child, node));
                assert(!visited.is_child_of(child, i));
                assert(visited.balanced(i));
                assert(visited.node_wf(i));
                assert forall|c: int| visited.is_child_of(c, i) implies later.visits(c)
                    == visited.visits(c) && later.value_sum(c) == visited.value_sum(c) by {
                    assert(c != node);
                    assert(later.nodes@[c] == visited.nodes@[c]);
                }
                visited.lemma_same_books(later, i);
            }
        }
        assert forall|i: int|
            0 <= i < self.len() && #[trigger] later.visits(i) == self.visits(
                i,
            ) implies later.nodes@[i] == self.nodes@[i] by {
            assert(i != node);
            assert(later.nodes@[i] == visited.nodes@[i]);
            assert(visited.visits(i) == self.visits(i));
        }
        assert forall|i: int|
            0 <= i < self.len() && #[trigger] later.visits(i) != self.visits(i) && i
                != node implies exists|q: int|
            node <= q < i && #[trigger] self.is_child_of(i, q) && later.visits(q) != self.visits(
                q,
            ) by {
            assert(later.nodes@[i] == visited.nodes@[i]);
            assert(visited.visits(i) != self.visits(i));
            if i == child {
                assert(self.is_child_of(i, node));
            } else {
                let q = choose|q: int|
                    child <= q < i && #[trigger] self.is_child_of(i, q) && visited.visits(q)
                        != self.visits(q);
                assert(later.nodes@[q] == visited.nodes@[q]);
            }
        }
    }

    /// How often each child of the root was visited.
    pub open spec fn root_visits(&self) -> Seq<int> {
        Seq::new(self.child_count(0) as nat, |k: int| self.visits(self.child(0, k)))
    }

    /// The tree is in order, no node was visited more often than the root,
    /// and the books of every node balance.
    pub open spec fn inv(&self) -> bool {
        self.wf(self.visits(0)) && self.all_balanced()
    }

    /// Gives the root its children. The game has not ended at the root.
    pub fn expand_root(&mut self)
        requires
            old(self).inv(),
            old(self).child_count(0) == 0,
            !old(self).position(0).is_terminal(),
        ensures
            final(self).inv(),
            final(self).position(0) == old(self).position(0),
            final(self).visits(0) == old(self).visits(0),
            final(self).value_sum(0) == old(self).value_sum(0),
            final(self).own_visits(0) == old(self).own_visits(0),
            final(self).child_count(0) > 0,
    {
        let ghost before = *self;
        self.expand(0, Ghost(self.visits(0)));
        proof {
            assert(before.balanced_but(0));
            assert(before.counts_kept(self, 0));
            before.lemma_after_expansion(self, 0);
            self.lemma_root_has_no_parent();
        }
    }

    /// The root is no child.
    proof fn lemma_root_has_no_parent(&self)
        requires
            forall|i: int| 0 <= i < self.len() ==> self.node_wf(i),
        ensures
            forall|i: int| !self.is_child_of(0, i),
            self.balanced_but(0) ==> self.all_balanced(),
    {
        assert forall|i: int| !self.is_child_of(0, i) by {
            if 0 <= i < self.len() {
                assert(self.node_wf(i));
            }
        }
    }

    /// Visits the tree once more, from the root down.
    pub fn playout<V: LeafValuer, P: SelectionPolicy>(
        &mut self,
        valuer: &V,
        policy: &P,
        threshold: u64,
    ) -> (value: u64)
        requires
            old(self).inv(),
            old(self).visits(0) < MAX_VISITS,
            valuer.wf(),
            policy.wf(),
        ensures
            final(self).inv(),
            value <= VALUE_ONE,
            final(self).position(0) == old(self).position(0),
            final(self).visits(0) == old(self).visits(0) + 1,
            final(self).value_sum(0) == old(self).value_sum(0) + value,
            old(self).child_count(0) > 0 ==> final(self).child_count(0) == old(self).child_count(
                0,
            ) && final(self).own_visits(0) == old(self).own_visits(0),
            old(self).position(0).is_terminal() ==> value == end_value(old(self).position(0)),
            old(self).child_count(0) == 0 && !old(self).position(0).is_terminal() && old(
                self,
            ).visits(0) + 1 >= threshold ==> final(self).child_count(0) > 0,
            old(self).child_count(0) == 0 && old(self).visits(0) + 1 < threshold
                ==> final(self).child_count(0) == 0,
            old(self).child_count(0) == 0 && !old(self).position(0).is_terminal()
                ==> valuer.admits(old(self).position(0), value),
            old(self).child_count(0) > 0 ==> exists|k: int| #[trigger]
                old(self).went_through(final(self), policy, 0, k, value as int),
    {
        let ghost before = *self;
        let value = self.evaluate(0, valuer, policy, threshold, Ghost(self.visits(0)));
        proof {
            self.lemma_root_has_no_parent();
        }
        value
    }

    /// How often the root was visited, and the sum of the values that the
    /// visits gave it.
    pub fn root_stats(&self) -> (stats: (u64, u64))
        requires
            self.inv(),
        ensures
            stats.0 == self.value_sum(0),
            stats.1 == self.visits(0),
    {
        (self.nodes[0].w, self.nodes[0].n_visits)
    }

    /// For each child of the root, the sum of the values that its visits
    /// gave it, and how often it was visited.
    pub fn child_stats(&self) -> (stats: Vec<(u64, u64)>)
        requires
            self.inv(),
        ensures
            stats@.len() == self.child_count(0),
            forall|k: int|
                0 <= k < stats@.len() ==> (#[trigger] stats@[k]).0 == self.value_sum(
                    self.child(0, k),
                ) && stats@[k].1 == self.visits(self.child(0, k)),
    {
        assert(self.node_wf(0));
        let first = self.nodes[0].first_child;
        let count = self.nodes[0].n_children;
        let total = self.nodes.len();
        let mut stats: Vec<(u64, u64)> = Vec::with_capacity(count);
        let mut i: usize = 0;
        while i < count
            invariant
                i <= count,
                count == self.child_count(0),
                first == self.child(0, 0),
                count > 0 ==> first + count <= total,
                total == self.nodes@.len(),
                stats@.len() == i,
                forall|k: int|
                    0 <= k < i ==> (#[trigger] stats@[k]).0 == self.value_sum(self.child(0, k))
                        && stats@[k].1 == self.visits(self.child(0, k)),
            decreases count - i,
        {
            let child = &self.nodes[first + i];
            stats.push((child.w, child.n_visits));
            i += 1;
        }
        stats
    }

    /// The place of the child of the root that was visited most often; the
    /// first of them where there are several.
    pub fn most_visited_child(&self) -> (index: usize)
        requires
            self.inv(),
            self.child_count(0) > 0,
        ensures
            index == first_best(self.root_visits(), self.child_count(0) as nat),
            index < self.child_count(0),
    {
        assert(self.node_wf(0));
        let first = self.nodes[0].first_child;
        let count = self.nodes[0].n_children;
        let total = self.nodes.len();
        let ghost visits = self.root_visits();
        let mut best_child_index: usize = 0;
        let mut best_n_visits: u64 = 0;
        let mut i: usize = 0;
        while i < count
            invariant
                i <= count,
                count == self.child_count(0),
                first == self.child(0, 0),
                first + count <= total,
                total == self.nodes@.len(),
                visits == self.root_visits(),
                best_child_index == first_best(visits, i as nat),
                best_child_index < count,
                i > 0 ==> best_n_visits == visits[best_child_index as int],
                i == 0 ==> best_n_visits == 0,
            decreases count - i,
        {
            let child = &self.nodes[first + i];
            assert(visits[i as int] == child.n_visits);
            if child.n_visits > best_n_visits {
                best_n_visits = child.n_visits;
                best_child_index = i;
            }
            i += 1;
        }
        best_child_index
    }

    /// Visits the tree `count` times, from the root down.
    pub fn run_playouts<V: LeafValuer, P: SelectionPolicy>(
        &mut self,
        valuer: &V,
        policy: &P,
        threshold: u64,
        count: u64,
    )
        requires
            old(self).inv(),
            old(self).visits(0) + count <= MAX_VISITS,
            valuer.wf(),
            policy.wf(),
        ensures
            final(self).inv(),
            final(self).position(0) == old(self).position(0),
            final(self).visits(0) == old(self).visits(0) + count,
            old(self).child_count(0) > 0 ==> final(self).child_count(0) == old(self).child_count(
                0,
            ) && final(self).own_visits(0) == old(self).own_visits(0),
    {
        let ghost before = *self;
        let mut i: u64 = 0;
        while i < count
            invariant
                i <= count,
                self.inv(),
                valuer.wf(),
                policy.wf(),
                before.visits(0) + count <= MAX_VISITS,
                self.position(0) == before.position(0),
                self.visits(0) == before.visits(0) + i,
                before.child_count(0) > 0 ==> self.child_count(0) == before.child_count(0)
                    && self.own_visits(0) == before.own_visits(0),
            decreases count - i,
        {
            self.playout(valuer, policy, threshold);
            i += 1;
        }
    }

    /// Visits the tree up to `count` times, from the root down, and stops
    /// early once the deadline has passed. The deadline is looked at after
    /// the first visit and then after every `check_interval` visits, and
    /// the visits stop with the first look that finds it passed.
    pub fn run_playouts_until<V: LeafValuer, P: SelectionPolicy>(
        &mut self,
        valuer: &V,
        policy: &P,
        threshold: u64,
        count: u64,
        check_interval: u64,
        time_keeper: &mut TimeKeeper,
    )
        requires
            old(self).inv(),
            old(self).visits(0) + count <= MAX_VISITS,
            check_interval > 0,
            valuer.wf(),
            policy.wf(),
        ensures
            final(self).inv(),
            final(self).position(0) == old(self).position(0),
            old(self).visits(0) <= final(self).visits(0) <= old(self).visits(0) + count,
            !final(time_keeper).expired() ==> final(self).visits(0) == old(self).visits(0) + count,
            old(time_keeper).expired() && count > 0 ==> final(self).visits(0) == old(self).visits(
                0,
            ) + 1,
            old(time_keeper).expired() ==> final(time_keeper).expired(),
            final(time_keeper).expired() && !old(time_keeper).expired() ==> (final(self).visits(0)
                - old(self).visits(0) - 1) % (check_interval as int) == 0,
            final(time_keeper).limit() == old(time_keeper).limit(),
            old(self).child_count(0) > 0 ==> final(self).child_count(0) == old(self).child_count(
                0,
            ) && final(self).own_visits(0) == old(self).own_visits(0),
    {
        let ghost before = *self;
        let ghost keeper = *time_keeper;
        let mut i: u64 = 0;
        while i < count
            invariant_except_break
                self.visits(0) == before.visits(0) + i,
                keeper.expired() ==> i == 0,
                !keeper.expired() ==> !time_keeper.expired(),
            invariant
                keeper.expired() ==> time_keeper.expired(),
                time_keeper.limit() == keeper.limit(),
                keeper.expired() && count > 0 ==> self.visits(0) <= before.visits(0) + 1,
                i <= count,
                self.inv(),
                valuer.wf(),
                policy.wf(),
                check_interval > 0,
                before.visits(0) + count <= MAX_VISITS,
                self.position(0) == before.position(0),
                before.visits(0) <= self.visits(0) <= before.visits(0) + count,
                before.child_count(0) > 0 ==> self.child_count(0) == before.child_count(0)
                    && self.own_visits(0) == before.own_visits(0),
            ensures
                !time_keeper.expired() ==> self.visits(0) == before.visits(0) + count,
                keeper.expired() && count > 0 ==> self.visits(0) == before.visits(0) + 1,
                time_keeper.expired() && !keeper.expired() ==> (self.visits(0) - before.visits(0)
                    - 1) % (check_interval as int) == 0,
            decreases count - i,
        {
            self.playout(valuer, policy, threshold);
            if i % check_interval == 0 && time_keeper.is_timeout() {
                break;
            }
            i += 1;
        }
    }

    /// The children of a root at which the mover can move stand for the
    /// legal moves.
    pub proof fn lemma_root_children(&self)
        requires
            self.inv(),
            self.child_count(0) > 0,
            !self.position(0).must_pass(),
        ensures
            self.child_count(0) == cells_of(self.position(0).legal_moves()).len(),
    {
        assert(self.node_wf(0));
    }

    /// The sum of the values of the root fits its visits.
    pub proof fn lemma_root_mean(&self)
        requires
            self.inv(),
        ensures
            self.value_sum(0) <= self.visits(0) * VALUE_ONE,
    {
        assert(self.node_wf(0));
    }

    /// The books of the root: each visit of the root was a visit of its
    /// own or of one of its children, and the values of the root are what
    /// its own visits gave it and what the visits of its children were
    /// worth to its mover.
    pub proof fn lemma_root_books(&self)
        requires
            self.inv(),
        ensures
            self.visits(0) == self.own_visits(0) + self.visits_below(0, self.child_count(0) as nat),
            self.value_sum(0) == self.own_sum(0) + self.flipped_below(
                0,
                self.child_count(0) as nat,
            ),
    {
        assert(self.balanced(0));
    }
}

} // verus!
