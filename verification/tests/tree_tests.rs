use rust_reversi_core::board::{Board, Position, Turn};
use rust_reversi_core::search::mcts::{move_of_child, play_out, RandomRollout};
use rust_reversi_core::search::thunder::{
    greedy_index, pick, score_board, EpsilonGreedy, WinrateLeaf,
};
use rust_reversi_core::search::time_keeper::span_less_margin;
use rust_reversi_core::search::tree::{
    SearchTree, SelectionPolicy, MAX_VISITS, VALUE_HALF, VALUE_ONE,
};
use rust_reversi_core::search::MctsSearch;
use rust_reversi_core::search::ThunderSearch;
use rust_reversi_core::search::TimeKeeper;
use rust_reversi_core::search::WinrateEvaluator;
use std::sync::Arc;
use std::time::Duration;

/// The upper confidence bound of a child: the mean value for the mover of
/// the parent, and a bonus for a child that was visited seldom.
struct Ucb1 {
    c: f64,
}

impl SelectionPolicy for Ucb1 {
    fn wf(&self) -> bool {
        true
    }

    fn admits(&self, visits: &Vec<u64>, _values: &Vec<u64>, index: usize) -> bool {
        index < visits.len()
    }

    fn select(&self, visits: &Vec<u64>, values: &Vec<u64>) -> usize {
        let mut t: f64 = 0.0;
        for n in visits {
            t += *n as f64;
        }
        let mut best_child_index = 0;
        let mut best_ucb = f64::NEG_INFINITY;
        for i in 0..visits.len() {
            let n = visits[i] as f64;
            let w = values[i] as f64 / VALUE_ONE as f64;
            let ucb = 1.0 - w / n + self.c * (2.0 * t.ln() / n).sqrt();
            if ucb > best_ucb {
                best_ucb = ucb;
                best_child_index = i;
            }
        }
        best_child_index
    }
}

/// Always the last child.
struct LastChild {}

impl SelectionPolicy for LastChild {
    fn wf(&self) -> bool {
        true
    }

    fn admits(&self, visits: &Vec<u64>, _values: &Vec<u64>, index: usize) -> bool {
        index + 1 == visits.len()
    }

    fn select(&self, visits: &Vec<u64>, _values: &Vec<u64>) -> usize {
        visits.len() - 1
    }
}

/// The share of the stones that the mover holds.
struct StoneShare {}

impl WinrateEvaluator for StoneShare {
    fn wf(&self) -> bool {
        true
    }

    fn rate(&self, _pos: Position) -> u64 {
        unreachable!()
    }

    fn evaluate(&self, board: &mut Board) -> u64 {
        let mine = board.player_piece_num() as u64;
        let all = board.piece_sum() as u64;
        mine * VALUE_ONE / all
    }
}

const FULL_BOARD: &str = "XXXXXXXXXXXXXXXXXXXXXXXXXXXXXXOOOOOOOOOOOOOOOOOOOOOOOOOOOOOOXXXX";

fn is_first_move(m: usize) -> bool {
    m == 19 || m == 26 || m == 37 || m == 44
}

#[test]
fn rollout_of_an_ended_game_is_its_result() {
    let mut board = Board::new();
    board.set_board_str(FULL_BOARD, Turn::Black).unwrap();
    assert_eq!(play_out(&board), VALUE_ONE);
    board.set_board_str(FULL_BOARD, Turn::White).unwrap();
    assert_eq!(play_out(&board), 0);
    board.set_board(0xFFFF_FFFF_0000_0000, 0x0000_0000_FFFF_FFFF, Turn::Black);
    assert_eq!(play_out(&board), VALUE_HALF);
}

#[test]
fn rollout_ends_in_a_win_a_loss_or_a_draw() {
    let board = Board::new();
    let mut wins = 0;
    let mut losses = 0;
    for _ in 0..300 {
        let value = play_out(&board);
        assert!(value == 0 || value == VALUE_HALF || value == VALUE_ONE);
        if value == VALUE_ONE {
            wins += 1;
        }
        if value == 0 {
            losses += 1;
        }
    }
    assert!(wins > 0);
    assert!(losses > 0);
}

#[test]
fn tree_counts_the_visits_of_the_root() {
    let mut tree = SearchTree::new(Board::new());
    assert_eq!(tree.root_stats(), (0, 0));
    tree.expand_root();
    let mut sum = 0;
    for i in 0..50 {
        let value = tree.playout(&RandomRollout {}, &Ucb1 { c: 1.0 }, 10);
        assert!(value <= VALUE_ONE);
        sum += value;
        assert_eq!(tree.root_stats(), (sum, i + 1));
    }
    tree.run_playouts(&RandomRollout {}, &Ucb1 { c: 1.0 }, 10, 25);
    assert_eq!(tree.root_stats().1, 75);
    assert!(tree.most_visited_child() < 4);
}

#[test]
fn visits_and_values_of_the_root_are_those_of_its_children() {
    let mut tree = SearchTree::new(Board::new());
    tree.expand_root();
    assert_eq!(tree.child_stats(), vec![(0, 0); 4]);
    for round in 1..=40 {
        tree.run_playouts(&RandomRollout {}, &Ucb1 { c: 1.0 }, 3, 5);
        let (sum, visits) = tree.root_stats();
        let children = tree.child_stats();
        assert_eq!(children.len(), 4);
        assert_eq!(visits, round * 5);
        assert_eq!(children.iter().map(|(_, n)| n).sum::<u64>(), visits);
        assert_eq!(
            children.iter().map(|(w, n)| n * VALUE_ONE - w).sum::<u64>(),
            sum
        );
    }
}

#[test]
fn unvisited_children_are_visited_first() {
    let mut tree = SearchTree::new(Board::new());
    tree.expand_root();
    // after four visits each child has one; then the policy takes the last
    tree.run_playouts(&RandomRollout {}, &LastChild {}, 1, 4);
    assert_eq!(tree.most_visited_child(), 0);
    tree.run_playouts(&RandomRollout {}, &LastChild {}, 1, 1);
    assert_eq!(tree.most_visited_child(), 3);
    let mut board = Board::new();
    assert_eq!(move_of_child(&mut board, &tree), 44);
}

#[test]
fn deadline_that_has_passed_stops_the_visits() {
    let mut tree = SearchTree::new(Board::new());
    tree.expand_root();
    let mut keeper = TimeKeeper::new(0);
    tree.run_playouts_until(&RandomRollout {}, &Ucb1 { c: 1.0 }, 10, 1000, 100, &mut keeper);
    assert_eq!(tree.root_stats().1, 1);
    let mut keeper = TimeKeeper::new(3_600_000_000);
    tree.run_playouts_until(&RandomRollout {}, &Ucb1 { c: 1.0 }, 10, 20, 100, &mut keeper);
    assert_eq!(tree.root_stats().1, 21);
}

#[test]
fn time_keeper_keeps_saying_that_the_deadline_has_passed() {
    let mut keeper = TimeKeeper::new(0);
    assert!(keeper.is_timeout());
    assert!(keeper.is_timeout());
    let mut keeper = TimeKeeper::new(3_600_000_000);
    assert!(!keeper.is_timeout());
}

#[test]
fn mcts_chooses_a_legal_move() {
    let mut search = MctsSearch::new(200, Ucb1 { c: 1.0 }, 10);
    assert_eq!(search.get_n_playouts(), 200);
    assert_eq!(search.get_expansion_threshold(), 10);
    assert_eq!(search.get_check_interval(), 100);
    assert_eq!(search.get_margin_time(), 2000);
    assert!((search.get_policy().c - 1.0).abs() < 1e-12);
    let mut board = Board::new();
    assert!(is_first_move(search.get_move(&mut board).unwrap()));
    assert_eq!(board, Board::new());
    let m = search
        .get_move_with_timeout(&mut board, Duration::from_millis(20))
        .unwrap();
    assert!(is_first_move(m));
    search.set_n_playouts(0);
    search.set_expansion_threshold(1);
    search.set_check_interval(7);
    search.set_margin_time(3);
    search.set_policy(Ucb1 { c: 0.5 });
    assert_eq!(search.get_n_playouts(), 0);
    assert_eq!(search.get_expansion_threshold(), 1);
    assert_eq!(search.get_check_interval(), 7);
    assert_eq!(search.get_margin_time(), 3);
    // without a visit, the first child is the most visited
    assert_eq!(search.get_move(&mut board), Some(19));
}

#[test]
fn searches_can_say_whether_their_visits_can_be_counted() {
    let mut search = MctsSearch::new(MAX_VISITS as usize, Ucb1 { c: 1.0 }, 10);
    assert!(search.is_countable());
    search.set_n_playouts(MAX_VISITS as usize + 1);
    assert!(!search.is_countable());
    let mut thunder = ThunderSearch::new(10, 1_000_000, Arc::new(StoneShare {}));
    assert!(thunder.is_countable());
    thunder.set_epsilon(1_000_001);
    assert!(!thunder.is_countable());
    thunder.set_epsilon(0);
    thunder.set_n_playouts(usize::MAX);
    assert!(!thunder.is_countable());
}

#[test]
fn mcts_plays_a_whole_game() {
    let search = MctsSearch::new(30, Ucb1 { c: 1.0 }, 3);
    let mut board = Board::new();
    while !board.is_game_over() {
        if board.is_pass() {
            board.do_pass().unwrap();
            continue;
        }
        let m = search.get_move(&mut board).unwrap();
        assert!(board.is_legal_move(m));
        board.do_move(m).unwrap();
    }
}

#[test]
fn search_stats_of_an_ended_game() {
    let search = MctsSearch::new(100, Ucb1 { c: 1.0 }, 10);
    let mut board = Board::new();
    board.set_board_str(FULL_BOARD, Turn::Black).unwrap();
    assert_eq!(search.get_search_stats(&mut board), (VALUE_ONE, 1));
    board.set_board_str(FULL_BOARD, Turn::White).unwrap();
    assert_eq!(search.get_search_stats(&mut board), (0, 1));
    board.set_board(0xFFFF_FFFF_0000_0000, 0x0000_0000_FFFF_FFFF, Turn::Black);
    assert_eq!(search.get_search_stats(&mut board), (VALUE_HALF, 1));
    let thunder = ThunderSearch::new(100, 0, Arc::new(StoneShare {}));
    assert_eq!(thunder.get_search_stats(&mut board), (VALUE_HALF, 1));
}

#[test]
fn search_stats_count_the_playouts() {
    let search = MctsSearch::new(100, Ucb1 { c: 1.0 }, 10);
    let mut board = Board::new();
    let (sum, visits) = search.get_search_stats(&mut board);
    assert_eq!(visits, 100);
    assert!(sum <= 100 * VALUE_ONE);
    let thunder = ThunderSearch::new(60, 100_000, Arc::new(StoneShare {}));
    let (sum, visits) = thunder.get_search_stats(&mut board);
    assert_eq!(visits, 60);
    assert!(sum <= 60 * VALUE_ONE);
}

#[test]
fn greedy_index_is_the_first_lowest_mean() {
    // the means 0.6, 0.4 and 0.2
    assert_eq!(greedy_index(&vec![10, 10, 5], &vec![6_000_000, 4_000_000, 1_000_000]), 2);
    // the means 0.5, 0.5 and 0.5
    assert_eq!(greedy_index(&vec![2, 4, 6], &vec![1_000_000, 2_000_000, 3_000_000]), 0);
    // the means 0.5, 0.25 and 0.25
    assert_eq!(greedy_index(&vec![2, 4, 8], &vec![1_000_000, 1_000_000, 2_000_000]), 1);
    assert_eq!(greedy_index(&vec![1], &vec![0]), 0);
    // products beyond 64 bits
    assert_eq!(
        greedy_index(&vec![MAX_VISITS, MAX_VISITS - 1], &vec![u64::MAX, u64::MAX]),
        0
    );
}

#[test]
fn epsilon_of_zero_is_greedy() {
    let policy = EpsilonGreedy { epsilon: 0 };
    for _ in 0..50 {
        assert_eq!(
            policy.select(&vec![10, 10, 5], &vec![6_000_000, 4_000_000, 1_000_000]),
            2
        );
    }
}

#[test]
fn epsilon_of_one_draws_every_child() {
    let policy = EpsilonGreedy { epsilon: 1_000_000 };
    let mut seen = [false; 3];
    for _ in 0..300 {
        let index = policy.select(&vec![10, 10, 5], &vec![6_000_000, 4_000_000, 1_000_000]);
        assert!(index < 3);
        seen[index] = true;
    }
    assert_eq!(seen, [true, true, true]);
}

#[test]
fn leaf_value_is_the_rate_or_the_result() {
    let evaluator = Arc::new(StoneShare {});
    let mut board = Board::new();
    assert_eq!(score_board(&mut board, &evaluator), VALUE_HALF);
    board.do_move(19).unwrap();
    // one stone of five
    assert_eq!(score_board(&mut board, &evaluator), 200_000);
    board.set_board_str(FULL_BOARD, Turn::White).unwrap();
    assert_eq!(score_board(&mut board, &evaluator), 0);
    let _leaf = WinrateLeaf { evaluator };
}

#[test]
fn thunder_chooses_a_legal_move() {
    let mut search = ThunderSearch::new(200, 100_000, Arc::new(StoneShare {}));
    assert_eq!(search.get_n_playouts(), 200);
    assert_eq!(search.get_epsilon(), 100_000);
    assert_eq!(search.get_check_interval(), 100);
    assert_eq!(search.get_margin_time(), 1100);
    let mut board = Board::new();
    assert!(is_first_move(search.get_move(&mut board).unwrap()));
    let m = search
        .get_move_with_timeout(&mut board, Duration::from_millis(20))
        .unwrap();
    assert!(is_first_move(m));
    search.set_n_playouts(0);
    search.set_epsilon(0);
    search.set_check_interval(9);
    search.set_margin_time(5);
    assert_eq!(search.get_n_playouts(), 0);
    assert_eq!(search.get_epsilon(), 0);
    assert_eq!(search.get_check_interval(), 9);
    assert_eq!(search.get_margin_time(), 5);
    assert_eq!(search.get_move(&mut board), Some(19));
}

#[test]
fn thunder_without_chance_is_the_same_each_time() {
    let search = ThunderSearch::new(150, 0, Arc::new(StoneShare {}));
    let mut board = Board::new();
    board.do_move(19).unwrap();
    let first = search.get_move(&mut board).unwrap();
    assert!(board.is_legal_move(first));
    for _ in 0..5 {
        assert_eq!(search.get_move(&mut board), Some(first));
    }
}

#[test]
fn visit_is_worth_what_the_valuer_says() {
    let leaf = WinrateLeaf {
        evaluator: Arc::new(StoneShare {}),
    };
    let greedy = EpsilonGreedy { epsilon: 0 };
    let mut tree = SearchTree::new(Board::new());
    // the root has no children yet: it is valued itself, two stones of four
    assert_eq!(tree.playout(&leaf, &greedy, 0), VALUE_HALF);
    assert_eq!(tree.root_stats(), (VALUE_HALF, 1));
    assert_eq!(tree.child_stats(), vec![(0, 0); 4]);
    // the first child holds one stone of five after the move to d3
    assert_eq!(tree.playout(&leaf, &greedy, 0), 800_000);
    assert_eq!(tree.root_stats(), (1_300_000, 2));
    assert_eq!(
        tree.child_stats(),
        vec![(200_000, 1), (0, 0), (0, 0), (0, 0)]
    );
    assert_eq!(tree.playout(&leaf, &greedy, 0), 800_000);
    assert_eq!(
        tree.child_stats(),
        vec![(200_000, 1), (200_000, 1), (0, 0), (0, 0)]
    );
}

#[test]
fn rollouts_are_worth_something_to_the_root() {
    let mut tree = SearchTree::new(Board::new());
    tree.expand_root();
    tree.run_playouts(&RandomRollout {}, &Ucb1 { c: 1.0 }, 10, 400);
    let (sum, visits) = tree.root_stats();
    assert_eq!(visits, 400);
    assert!(sum > 0);
    assert!(sum < 400 * VALUE_ONE);
}

#[test]
fn pick_takes_the_drawn_child_or_the_best_mean() {
    let visits = vec![10, 10, 5];
    let values = vec![6_000_000, 4_000_000, 1_000_000];
    // the means of the children are 0.6, 0.4 and 0.2
    assert_eq!(pick(false, 0, &visits, &values), 2);
    assert_eq!(pick(false, 1, &visits, &values), 2);
    assert_eq!(pick(true, 0, &visits, &values), 0);
    assert_eq!(pick(true, 1, &visits, &values), 1);
    assert_eq!(pick(true, 2, &visits, &values), 2);
    // of two children with the same mean, the first
    assert_eq!(pick(false, 1, &vec![4, 2], &vec![2_000_000, 1_000_000]), 0);
}

#[test]
fn time_keeper_takes_note_of_the_time() {
    let mut keeper = TimeKeeper::new(10);
    assert!(!keeper.note(0));
    assert!(!keeper.note(9));
    assert!(keeper.note(10));
    // and does not forget it
    assert!(keeper.note(0));
    assert!(keeper.is_timeout());
    let mut keeper = TimeKeeper::new(10);
    assert!(keeper.note(11));
    let mut keeper = TimeKeeper::new(0);
    assert!(keeper.note(0));
}

#[test]
fn margin_is_taken_off_the_timeout() {
    assert_eq!(span_less_margin(10_000, 2_000), 8_000);
    assert_eq!(span_less_margin(2_000, 2_000), 0);
    assert_eq!(span_less_margin(1_999, 2_000), 0);
    assert_eq!(span_less_margin(0, 0), 0);
    assert_eq!(span_less_margin(u128::MAX, u64::MAX), u128::MAX - u64::MAX as u128);
}
