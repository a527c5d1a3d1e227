use rand::Rng;
use rust_reversi_core::board::Board;
use rust_reversi_core::board::Turn;
use rust_reversi_core::search::tree::{SelectionPolicy, VALUE_ONE};
use rust_reversi_core::search::AlphaBetaSearch;
use rust_reversi_core::search::BitMatrixEvaluator;
use rust_reversi_core::search::MatrixEvaluator;
use rust_reversi_core::search::MctsSearch;
use rust_reversi_core::search::PieceEvaluator;
use rust_reversi_core::search::Search;
use std::sync::Arc;
use std::time::Duration;

const N_GAMES: usize = 100;
const EPSILON: f64 = 0.1;

trait Player {
    fn get_move_with_timeout(&self, board: &mut Board, timeout: Duration) -> Option<usize>;
}

struct RandomPlayer {}

impl Player for RandomPlayer {
    fn get_move_with_timeout(&self, board: &mut Board, _timeout: Duration) -> Option<usize> {
        Some(board.get_random_move().unwrap())
    }
}

struct SearchPlayer<S: Search> {
    search: S,
}

impl<S: Search> Player for SearchPlayer<S> {
    fn get_move_with_timeout(&self, board: &mut Board, timeout: Duration) -> Option<usize> {
        self.search.get_move_with_timeout(board, timeout)
    }
}

enum TurnOrder {
    P1IsBlack,
    P1IsWhite,
}

enum PlayResult {
    P1Win,
    P2Win,
    Draw,
}

fn play_game_with_timeout(
    p1: &dyn Player,
    p2: &dyn Player,
    timeout: Duration,
    turn_order: TurnOrder,
) -> PlayResult {
    let p1_turn = match turn_order {
        TurnOrder::P1IsBlack => Turn::Black,
        TurnOrder::P1IsWhite => Turn::White,
    };
    let mut board = Board::new();
    let mut rng = rand::thread_rng();
    while !board.is_game_over() {
        if board.is_pass() {
            board.do_pass().unwrap();
            continue;
        }

        // for variety
        if rng.gen_bool(EPSILON) {
            let action = board.get_random_move().unwrap();
            board.do_move(action).unwrap();
            continue;
        }

        if board.get_turn() == p1_turn {
            let action = p1.get_move_with_timeout(&mut board, timeout).unwrap();
            board.do_move(action).unwrap();
        } else {
            let action = p2.get_move_with_timeout(&mut board, timeout).unwrap();
            board.do_move(action).unwrap();
        }
    }
    let winner = board.get_winner().unwrap();
    match winner {
        Some(turn) => match turn == p1_turn {
            true => PlayResult::P1Win,
            false => PlayResult::P2Win,
        },
        None => PlayResult::Draw,
    }
}

/// The upper confidence bound: the mean value of a child for the mover of
/// its parent, and `c` times a bonus for a child that was visited seldom.
struct Ucb1 {
    c: f64,
}

impl SelectionPolicy for Ucb1 {
    fn wf(&self) -> bool {
        true
    }

    fn admits(&self, visits: &Vec<u64>, _values: &Vec<u64>, index: usize) -> bool {
        index < visits.len()
    }

    fn select(&self, visits: &Vec<u64>, values: &Vec<u64>) -> usize {
        let mut total: f64 = 0.0;
        for n in visits {
            total += *n as f64;
        }
        let mut best_child_index = 0;
        let mut best_ucb = f64::NEG_INFINITY;
        for i in 0..visits.len() {
            let n = visits[i] as f64;
            let w = values[i] as f64 / VALUE_ONE as f64;
            let ucb = 1.0 - w / n + self.c * (2.0 * total.ln() / n).sqrt();
            if ucb > best_ucb {
                best_ucb = ucb;
                best_child_index = i;
            }
        }
        best_child_index
    }
}

#[test]
fn iter_deepening() {
    let evaluator = PieceEvaluator::new();
    let depth = 60;
    let search = AlphaBetaSearch::new(depth, Arc::new(evaluator), 1 << 10);
    let mut board = Board::new();

    let timeout = 0.01;
    let timeout_duration = std::time::Duration::from_secs_f64(timeout);

    while !board.is_game_over() {
        if board.is_pass() {
            board.do_pass().unwrap();
            continue;
        }
        let start = std::time::Instant::now();
        let m = search
            .get_move_with_timeout(&mut board, timeout_duration)
            .unwrap();
        let elapsed = start.elapsed().as_secs_f64();
        assert!(elapsed < timeout);
        board.do_move(m).unwrap();
    }
}

#[test]
fn bitmatrix_matrix_can_be_same() {
    let matrix = [
        [100, -20, 10, 5, 5, 10, -20, 100],
        [-20, -50, -2, -2, -2, -2, -50, -20],
        [10, -2, -1, -1, -1, -1, -2, 10],
        [5, -2, -1, -1, -1, -1, -2, 5],
        [5, -2, -1, -1, -1, -1, -2, 5],
        [10, -2, -1, -1, -1, -1, -2, 10],
        [-20, -50, -2, -2, -2, -2, -50, -20],
        [100, -20, 10, 5, 5, 10, -20, 100],
    ];
    let matrix_evaluator = MatrixEvaluator::new(matrix);
    let depth = 0;
    let matrix_search = AlphaBetaSearch::new(depth, Arc::new(matrix_evaluator), 1 << 10);
    let masks: Vec<u64> = vec![
        0x0000001818000000,
        0x0000182424180000,
        0x0000240000240000,
        0x0018004242001800,
        0x0024420000422400,
        0x0042000000004200,
        0x1800008181000018,
        0x2400810000810024,
        0x4281000000008142,
        0x8100000000000081,
    ];
    let weights: Vec<i32> = vec![-1, -1, -1, -2, -2, -50, 5, 10, -20, 100];
    let bitmatrix_evaluator = BitMatrixEvaluator::<10>::new(weights, masks);
    let bitmatrix_search = AlphaBetaSearch::new(depth, Arc::new(bitmatrix_evaluator), 1 << 10);
    for _ in 0..1000 {
        let mut board = Board::new();
        while !board.is_game_over() {
            if board.is_pass() {
                board.do_pass().unwrap();
                continue;
            }
            let m1 = matrix_search.get_move(&mut board).unwrap();
            let m2 = bitmatrix_search.get_move(&mut board).unwrap();
            assert_eq!(m1, m2);
            let m = board.get_random_move().unwrap();
            board.do_move(m).unwrap();
        }
    }
}

#[test]
fn mcts_timeout() {
    let search = MctsSearch::new(1000, Ucb1 { c: 1.0 }, 10);
    let mut board = Board::new();

    let timeout = 0.05;
    let timeout_duration = std::time::Duration::from_secs_f64(timeout);

    while !board.is_game_over() {
        if board.is_pass() {
            board.do_pass().unwrap();
            continue;
        }
        let start = std::time::Instant::now();
        let m = search
            .get_move_with_timeout(&mut board, timeout_duration)
            .unwrap();
        let elapsed = start.elapsed().as_secs_f64();
        assert!(elapsed < timeout);
        board.do_move(m).unwrap();
    }
}

#[test]
fn random_vs_mcts() {
    let timeout = std::time::Duration::from_millis(10);
    let mut random_wins = 0;
    let mut mcts_wins = 0;
    let random_player = RandomPlayer {};
    let mcts_player = SearchPlayer {
        search: MctsSearch::new(1000, Ucb1 { c: 1.0 }, 10),
    };
    for _ in 0..N_GAMES / 2 {
        let result = play_game_with_timeout(
            &random_player,
            &mcts_player,
            timeout,
            TurnOrder::P1IsBlack,
        );
        match result {
            PlayResult::P1Win => random_wins += 1,
            PlayResult::P2Win => mcts_wins += 1,
            PlayResult::Draw => (),
        }
        let result = play_game_with_timeout(
            &random_player,
            &mcts_player,
            timeout,
            TurnOrder::P1IsWhite,
        );
        match result {
            PlayResult::P1Win => random_wins += 1,
            PlayResult::P2Win => mcts_wins += 1,
            PlayResult::Draw => (),
        }
    }
    assert!(mcts_wins > random_wins);
}
