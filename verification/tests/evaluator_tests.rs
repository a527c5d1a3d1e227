use rust_reversi_core::board::{Board, Turn};
use rust_reversi_core::search::nega_scout::{LOSS_SCORE, WIN_SCORE};
use rust_reversi_core::search::sort_by_score;
use rust_reversi_core::search::AlphaBetaSearch;
use rust_reversi_core::search::BitMatrixEvaluator;
use rust_reversi_core::search::Evaluator;
use rust_reversi_core::search::LegalNumEvaluator;
use rust_reversi_core::search::MatrixEvaluator;
use rust_reversi_core::search::NegaScoutSearch;
use rust_reversi_core::search::PieceEvaluator;
use rust_reversi_core::search::TimeKeeper;
use std::sync::Arc;
use std::time::Duration;

const MATRIX: [[i32; 8]; 8] = [
    [100, -20, 10, 5, 5, 10, -20, 100],
    [-20, -50, -2, -2, -2, -2, -50, -20],
    [10, -2, -1, -1, -1, -1, -2, 10],
    [5, -2, -1, -1, -1, -1, -2, 5],
    [5, -2, -1, -1, -1, -1, -2, 5],
    [10, -2, -1, -1, -1, -1, -2, 10],
    [-20, -50, -2, -2, -2, -2, -50, -20],
    [100, -20, 10, 5, 5, 10, -20, 100],
];

const FULL_BOARD: &str = "XXXXXXXXXXXXXXXXXXXXXXXXXXXXXXOOOOOOOOOOOOOOOOOOOOOOOOOOOOOOXXXX";

/// The score of a position that is looked at without any look-ahead.
fn plain_score(board: &Board, win: i32, loss: i32) -> i32 {
    if board.is_game_over() {
        if board.is_win().unwrap() {
            win
        } else if board.is_lose().unwrap() {
            loss
        } else {
            0
        }
    } else {
        board.diff_piece_num()
    }
}

/// The value of a position by the search of all lines of play.
fn full_search(board: &Board, depth: usize, win: i32, loss: i32) -> i32 {
    if board.is_game_over() || depth == 0 {
        return plain_score(board, win, loss);
    }
    let mut board = *board;
    if board.is_pass() {
        board.do_pass().unwrap();
        return -full_search(&board, depth, win, loss);
    }
    let mut best = i32::MIN;
    for child in board.get_child_boards().unwrap() {
        best = best.max(-full_search(&child, depth - 1, win, loss));
    }
    best
}

/// The first of the moves of ascending order whose value no other exceeds.
fn full_choice(board: &Board, depth: usize, win: i32, loss: i32) -> usize {
    let mut board = *board;
    let moves = board.get_legal_moves_vec().to_vec();
    let mut best = (i32::MIN, 0);
    for m in moves {
        let mut child = board;
        child.do_move(m).unwrap();
        let value = -full_search(&child, depth, win, loss);
        if value > best.0 {
            best = (value, m);
        }
    }
    best.1
}

/// The moves in the order of the search: by the score of the position that
/// they lead to, for the side that is then to move, ascending.
fn ordered(board: &Board, win: i32) -> Vec<usize> {
    let mut board = *board;
    let mut moves = board.get_legal_moves_vec().to_vec();
    moves.sort_by_key(|m| {
        let mut child = board;
        child.do_move(*m).unwrap();
        plain_score(&child, win, -win)
    });
    moves
}

fn random_position(plies: usize) -> Board {
    let mut board = Board::new();
    for _ in 0..plies {
        if board.is_game_over() {
            break;
        }
        if board.is_pass() {
            board.do_pass().unwrap();
        } else {
            let m = board.get_random_move().unwrap();
            board.do_move(m).unwrap();
        }
    }
    board
}

#[test]
fn piece_evaluator_counts_the_difference() {
    let evaluator = PieceEvaluator::new();
    let mut board = Board::new();
    assert_eq!(evaluator.evaluate(&mut board), 0);
    board.do_move(19).unwrap();
    assert_eq!(evaluator.evaluate(&mut board), -3);
    board.do_move(18).unwrap();
    assert_eq!(evaluator.evaluate(&mut board), 0);
    assert_eq!(PieceEvaluator::default().evaluate(&mut board), 0);
}

#[test]
fn legal_num_evaluator_counts_the_moves() {
    let evaluator = LegalNumEvaluator::new();
    let mut board = Board::new();
    assert_eq!(evaluator.evaluate(&mut board), 4);
    board.do_move(19).unwrap();
    assert_eq!(evaluator.evaluate(&mut board), 3);
    board.set_board(u64::MAX, 0, Turn::Black);
    assert_eq!(LegalNumEvaluator::default().evaluate(&mut board), 0);
}

#[test]
fn matrix_evaluator_sums_the_weights() {
    let mut matrix = [[0i32; 8]; 8];
    for row in 0..8 {
        for col in 0..8 {
            let cell = (row * 8 + col) as i32;
            matrix[row][col] = cell * cell;
        }
    }
    let evaluator = MatrixEvaluator::new(matrix);
    assert_eq!(evaluator.matrix(), matrix);
    let mut board = Board::new();
    // the mover on the cells 28 and 35, the opponent on 27 and 36
    assert_eq!(evaluator.evaluate(&mut board), 784 + 1225 - 729 - 1296);
    board.do_move(19).unwrap();
    // the mover on 36, the opponent on 19, 27, 28 and 35
    assert_eq!(evaluator.evaluate(&mut board), 1296 - 361 - 729 - 784 - 1225);
    assert_eq!(board, {
        let mut same = Board::new();
        same.do_move(19).unwrap();
        same
    });
}

#[test]
fn matrix_evaluator_can_say_whether_it_is_bounded() {
    assert!(MatrixEvaluator::new(MATRIX).is_bounded());
    assert!(MatrixEvaluator::new([[0; 8]; 8]).is_bounded());
    let mut matrix = [[0i32; 8]; 8];
    matrix[0][0] = i32::MAX;
    assert!(MatrixEvaluator::new(matrix).is_bounded());
    matrix[7][7] = -1;
    assert!(!MatrixEvaluator::new(matrix).is_bounded());
    assert!(!MatrixEvaluator::new([[i32::MIN; 8]; 8]).is_bounded());
    // 64 weights of 2^25 - 1 sum up to 2^31 - 64
    assert!(MatrixEvaluator::new([[0x1FF_FFFF; 8]; 8]).is_bounded());
    assert!(!MatrixEvaluator::new([[0x200_0000; 8]; 8]).is_bounded());
}

#[test]
fn bit_matrix_evaluator_weighs_the_masks() {
    let cell = |c: u32| 1u64 << (63 - c);
    let evaluator = BitMatrixEvaluator::<2>::new(vec![3, 5], vec![cell(28), cell(27)]);
    let mut board = Board::new();
    assert_eq!(evaluator.evaluate(&mut board), 3 - 5);
    board.do_move(19).unwrap();
    assert_eq!(evaluator.evaluate(&mut board), -3 - 5);
    let whole = BitMatrixEvaluator::<1>::new(vec![7], vec![u64::MAX]);
    assert_eq!(whole.evaluate(&mut board), 7 * (1 - 4));
    let copy = whole.clone();
    assert_eq!(copy.evaluate(&mut board), -21);
}

#[test]
fn bit_matrix_evaluator_sums_weights_of_either_sign() {
    let mut board = Board::new();
    board.do_move(19).unwrap();
    let negative = BitMatrixEvaluator::<1>::new(vec![-3], vec![u64::MAX]);
    assert_eq!(negative.evaluate(&mut board), -3 * (1 - 4));
    let none_positive = BitMatrixEvaluator::<3>::new(
        vec![0, -2, -5],
        vec![u64::MAX, 1u64 << 27, 1u64 << 44],
    );
    // the mover holds the cell of bit 27, the opponent the cell of bit 44
    assert_eq!(none_positive.evaluate(&mut board), -2 + 5);
    let mixed = BitMatrixEvaluator::<4>::new(
        vec![4, -2, 0, -5],
        vec![u64::MAX, 1u64 << 27, 1u64 << 28, 1u64 << 44],
    );
    assert_eq!(mixed.evaluate(&mut board), 4 * (1 - 4) - 2 + 5);
    let empty = BitMatrixEvaluator::<0>::new(vec![], vec![]);
    assert_eq!(empty.evaluate(&mut board), 0);
}

#[test]
fn masks_of_a_symmetric_matrix_score_like_the_matrix() {
    let by_matrix = MatrixEvaluator::new(MATRIX);
    let by_masks = by_matrix.to_bit_matrix_evaluator();
    for _ in 0..100 {
        let mut board = Board::new();
        while !board.is_game_over() {
            assert_eq!(by_matrix.evaluate(&mut board), by_masks.evaluate(&mut board));
            if board.is_pass() {
                board.do_pass().unwrap();
            } else {
                let m = board.get_random_move().unwrap();
                board.do_move(m).unwrap();
            }
        }
        assert_eq!(by_matrix.evaluate(&mut board), by_masks.evaluate(&mut board));
    }
}

#[test]
fn masks_of_a_symmetric_matrix_choose_like_the_matrix() {
    let by_matrix = MatrixEvaluator::new(MATRIX);
    let by_masks = by_matrix.to_bit_matrix_evaluator();
    let matrix_search = AlphaBetaSearch::new(2, Arc::new(by_matrix), 1 << 10);
    let masks_search = AlphaBetaSearch::new(2, Arc::new(by_masks), 1 << 10);
    for _ in 0..6 {
        let mut board = Board::new();
        while !board.is_game_over() {
            if board.is_pass() {
                board.do_pass().unwrap();
                continue;
            }
            let m1 = matrix_search.get_move(&mut board).unwrap();
            let m2 = masks_search.get_move(&mut board).unwrap();
            assert_eq!(m1, m2);
            assert_eq!(
                matrix_search.get_best_score(&mut board),
                masks_search.get_best_score(&mut board)
            );
            let m = board.get_random_move().unwrap();
            board.do_move(m).unwrap();
        }
    }
}

#[test]
fn sort_by_score_keeps_the_order_of_equal_scores() {
    let mut items = vec![(3, 0), (1, 1), (3, 2), (-5, 3), (1, 4), (3, 5)];
    sort_by_score(&mut items);
    assert_eq!(items, vec![(-5, 3), (1, 1), (1, 4), (3, 0), (3, 2), (3, 5)]);
    let mut none: Vec<(i32, u64)> = vec![];
    sort_by_score(&mut none);
    assert!(none.is_empty());
    let mut extremes = vec![(i32::MAX, 0), (i32::MIN, 1), (0, 2)];
    sort_by_score(&mut extremes);
    assert_eq!(extremes, vec![(i32::MIN, 1), (0, 2), (i32::MAX, 0)]);
}

#[test]
fn alpha_beta_on_the_start() {
    let mut search = AlphaBetaSearch::new(0, Arc::new(PieceEvaluator::new()), 1 << 10);
    let mut board = Board::new();
    // each first move leads to four stones against one
    assert_eq!(search.get_best_score(&mut board), 3);
    assert_eq!(search.get_move(&mut board), Some(19));
    search.set_max_depth(1);
    // the answer takes one stone back: three stones each
    assert_eq!(search.get_best_score(&mut board), 0);
    assert_eq!(search.get_move(&mut board), Some(19));
    assert_eq!(board, Board::new());
}

#[test]
fn alpha_beta_settings() {
    let mut search = AlphaBetaSearch::new(3, Arc::new(PieceEvaluator::new()), 1 << 10);
    assert_eq!(search.get_max_depth(), 3);
    assert_eq!(search.get_win_score(), 1024);
    assert_eq!(search.get_margin_time(), 5000);
    search.set_max_depth(5);
    search.set_win_score(4096);
    search.set_margin_time(100);
    search.set_move_ordering_evaluator(Arc::new(PieceEvaluator::new()));
    assert_eq!(search.get_max_depth(), 5);
    assert_eq!(search.get_win_score(), 4096);
    assert_eq!(search.get_margin_time(), 100);
    let mut board = Board::new();
    assert_eq!(search.get_move_ordering_evaluator().evaluate(&mut board), 0);
}

#[test]
fn alpha_beta_finds_the_value_of_the_full_search() {
    for round in 0..30 {
        let board = random_position(8 + round);
        if board.is_game_over() || board.is_pass() {
            continue;
        }
        for depth in 0..4 {
            let search = AlphaBetaSearch::new(depth, Arc::new(PieceEvaluator::new()), 1 << 10);
            let mut copy = board;
            assert_eq!(
                search.get_best_score(&mut copy),
                full_search(&board, depth + 1, 1 << 10, -(1 << 10))
            );
        }
    }
}

#[test]
fn alpha_beta_without_depth_is_the_comparison_of_the_next_positions() {
    let search = AlphaBetaSearch::new(0, Arc::new(PieceEvaluator::new()), 1 << 10);
    for _ in 0..20 {
        let mut board = Board::new();
        while !board.is_game_over() {
            if board.is_pass() {
                board.do_pass().unwrap();
                continue;
            }
            let mut best = (i32::MIN, 0);
            for m in ordered(&board, 1 << 10) {
                let mut child = board;
                child.do_move(m).unwrap();
                let value = -plain_score(&child, 1 << 10, -(1 << 10));
                if value > best.0 {
                    best = (value, m);
                }
            }
            assert_eq!(search.get_move(&mut board), Some(best.1));
            assert_eq!(search.get_best_score(&mut board), best.0);
            let m = board.get_random_move().unwrap();
            board.do_move(m).unwrap();
        }
    }
}

#[test]
fn alpha_beta_chooses_the_first_best_in_its_order() {
    for round in 0..20 {
        let board = random_position(10 + round);
        if board.is_game_over() || board.is_pass() {
            continue;
        }
        for depth in 0..3 {
            let search = AlphaBetaSearch::new(depth, Arc::new(PieceEvaluator::new()), 1 << 10);
            let mut best = (i32::MIN, 0);
            for m in ordered(&board, 1 << 10) {
                let mut child = board;
                child.do_move(m).unwrap();
                let value = -full_search(&child, depth, 1 << 10, -(1 << 10));
                if value > best.0 {
                    best = (value, m);
                }
            }
            let mut copy = board;
            assert_eq!(search.get_move(&mut copy), Some(best.1));
        }
    }
}

#[test]
fn alpha_beta_against_a_deadline_that_has_passed_finds_no_move() {
    let search = AlphaBetaSearch::new(5, Arc::new(PieceEvaluator::new()), 1 << 10);
    let mut board = Board::new();
    assert_eq!(search.get_move_with_timeout(&mut board, Duration::ZERO), None);
    assert_eq!(search.get_move_with_timeout(&mut board, Duration::from_millis(5)), None);
}

#[test]
fn alpha_beta_with_time_reaches_its_depth() {
    let mut board = Board::new();
    let timed = AlphaBetaSearch::new(4, Arc::new(PieceEvaluator::new()), 1 << 10);
    let fixed = AlphaBetaSearch::new(3, Arc::new(PieceEvaluator::new()), 1 << 10);
    let m = timed.get_move_with_timeout(&mut board, Duration::from_secs(3600));
    assert_eq!(m, fixed.get_move(&mut board));
    let none = AlphaBetaSearch::new(0, Arc::new(PieceEvaluator::new()), 1 << 10);
    assert_eq!(none.get_move_with_timeout(&mut board, Duration::from_secs(3600)), None);
}

#[test]
fn alpha_beta_until_a_deadline_that_does_not_pass() {
    for round in 0..10 {
        let board = random_position(6 + 3 * round);
        if board.is_game_over() || board.is_pass() {
            continue;
        }
        let timed = AlphaBetaSearch::new(3, Arc::new(PieceEvaluator::new()), 1 << 10);
        let fixed = AlphaBetaSearch::new(2, Arc::new(PieceEvaluator::new()), 1 << 10);
        let mut keeper = TimeKeeper::new(3_600_000_000);
        let mut copy = board;
        let m = timed.get_move_until(&mut copy, &mut keeper);
        assert_eq!(m, fixed.get_move(&mut copy));
        let mut passed = TimeKeeper::new(0);
        assert_eq!(timed.get_move_until(&mut copy, &mut passed), None);
    }
}

#[test]
fn nega_scout_chooses_as_the_full_search() {
    for round in 0..20 {
        let board = random_position(10 + round);
        if board.is_game_over() || board.is_pass() {
            continue;
        }
        for depth in 0..3 {
            let search = NegaScoutSearch::new(depth, Box::new(PieceEvaluator::new()));
            assert_eq!(
                search.get_move(&board),
                Some(full_choice(&board, depth, WIN_SCORE, LOSS_SCORE))
            );
        }
    }
}

#[test]
fn nega_scout_on_the_start() {
    let search = NegaScoutSearch::new(2, Box::new(PieceEvaluator::new()));
    assert_eq!(search.get_move(&Board::new()), Some(19));
    assert_eq!(WIN_SCORE, i32::MAX - 2);
    assert_eq!(LOSS_SCORE, i32::MIN + 2);
}

#[test]
fn nega_scout_without_a_move_finds_none() {
    let search = NegaScoutSearch::new(2, Box::new(PieceEvaluator::new()));
    let mut board = Board::new();
    board.set_board(u64::MAX, 0, Turn::Black);
    assert_eq!(search.get_move(&board), None);
    board.set_board_str(FULL_BOARD, Turn::Black).unwrap();
    assert_eq!(search.get_move(&board), None);
}

#[test]
fn nega_scout_deepens_until_the_deadline() {
    let search = NegaScoutSearch::new(0, Box::new(PieceEvaluator::new()));
    let board = Board::new();
    assert_eq!(search.get_move_with_iter_deepening(&board, Duration::ZERO), None);
    let m = search
        .get_move_with_iter_deepening(&board, Duration::from_millis(30))
        .unwrap();
    assert!(m == 19 || m == 26 || m == 37 || m == 44);
}

#[test]
fn evaluators_know_their_bounds() {
    assert_eq!(PieceEvaluator::new().bound(), Some(64));
    assert_eq!(LegalNumEvaluator::new().bound(), Some(64));
    // 4 * 100 + 8 * 20 + 8 * 10 + 8 * 5 + 4 * 50 + 16 * 2 + 16 * 1
    assert_eq!(MatrixEvaluator::new(MATRIX).total_weight(), 928);
    assert_eq!(MatrixEvaluator::new(MATRIX).bound(), Some(928));
    assert_eq!(MatrixEvaluator::new([[i32::MIN; 8]; 8]).total_weight(), 64 << 31);
    assert_eq!(MatrixEvaluator::new([[i32::MIN; 8]; 8]).bound(), None);
    let by_masks = MatrixEvaluator::new(MATRIX).to_bit_matrix_evaluator();
    assert_eq!(by_masks.bound(), Some(928));
    let too_far = BitMatrixEvaluator::<2>::new(vec![i32::MAX, 1], vec![1, 1]);
    assert_eq!(too_far.bound(), None);
    let least = BitMatrixEvaluator::<1>::new(vec![i32::MIN], vec![0]);
    assert_eq!(least.bound(), None);
    let just = BitMatrixEvaluator::<2>::new(vec![i32::MAX - 3, -1], vec![1, 7]);
    assert_eq!(just.bound(), Some(i32::MAX as i64));
}

#[test]
fn masks_are_summed_in_ascending_order_of_their_weights() {
    let by_masks = MatrixEvaluator::new(MATRIX).to_bit_matrix_evaluator();
    assert_eq!(by_masks.get_weights(), vec![-50, -20, -2, -2, -1, -1, -1, 5, 10, 100]);
    assert_eq!(
        by_masks.get_masks(),
        vec![
            0x0042000000004200,
            0x4281000000008142,
            0x0018004242001800,
            0x0024420000422400,
            0x0000001818000000,
            0x0000182424180000,
            0x0000240000240000,
            0x1800008181000018,
            0x2400810000810024,
            0x8100000000000081,
        ]
    );
}

#[test]
fn searches_can_say_whether_they_are_ready() {
    let mut search = AlphaBetaSearch::new(3, Arc::new(PieceEvaluator::new()), 1 << 10);
    assert!(search.is_ready());
    search.set_win_score(i32::MAX - 2);
    assert!(search.is_ready());
    search.set_win_score(i32::MAX - 1);
    assert!(!search.is_ready());
    search.set_win_score(i32::MIN);
    assert!(!search.is_ready());
    search.set_win_score(-(i32::MAX - 2));
    assert!(search.is_ready());
    let mut wide = [[0i32; 8]; 8];
    wide[0][0] = i32::MAX - 2;
    assert!(AlphaBetaSearch::new(1, Arc::new(MatrixEvaluator::new(wide)), 0).is_ready());
    assert!(NegaScoutSearch::new(1, Box::new(MatrixEvaluator::new(wide))).is_ready());
    wide[0][0] = i32::MAX - 1;
    assert!(!AlphaBetaSearch::new(1, Arc::new(MatrixEvaluator::new(wide)), 0).is_ready());
    assert!(NegaScoutSearch::new(1, Box::new(MatrixEvaluator::new(wide))).is_ready());
    wide[0][0] = i32::MAX;
    assert!(!NegaScoutSearch::new(1, Box::new(MatrixEvaluator::new(wide))).is_ready());
    wide[7][7] = 1;
    assert!(!NegaScoutSearch::new(1, Box::new(MatrixEvaluator::new(wide))).is_ready());
}

#[test]
fn alpha_beta_takes_the_win_that_ends_the_game() {
    let search = AlphaBetaSearch::new(6, Arc::new(PieceEvaluator::new()), 1 << 10);
    let mut board = Board::new();
    // all cells but the last two are the mover's; the opponent holds cell 62
    board.set_board(0xFFFF_FFFF_FFFF_FFFC, 0x2, Turn::Black);
    assert_eq!(board.get_legal_moves_vec().to_vec(), vec![63]);
    assert_eq!(search.get_move(&mut board), Some(63));
    assert_eq!(search.get_best_score(&mut board), 1 << 10);
    let scout = NegaScoutSearch::new(6, Box::new(PieceEvaluator::new()));
    assert_eq!(scout.get_move(&board), Some(63));
}

#[test]
fn searches_find_no_move_after_the_deadline() {
    let mut board = Board::new();
    let mut keeper = TimeKeeper::new(0);
    assert!(keeper.is_timeout());
    let search = AlphaBetaSearch::new(4, Arc::new(PieceEvaluator::new()), 1 << 10);
    assert_eq!(search.get_move_until(&mut board, &mut keeper), None);
    assert!(keeper.is_timeout());
    let scout = NegaScoutSearch::new(4, Box::new(PieceEvaluator::new()));
    assert_eq!(scout.get_move_until(&board, &mut keeper), None);
    assert!(keeper.is_timeout());
}

#[test]
fn nega_scout_until_a_deadline() {
    let scout = NegaScoutSearch::new(0, Box::new(PieceEvaluator::new()));
    let board = Board::new();
    let mut keeper = TimeKeeper::new(30_000);
    let m = scout.get_move_until(&board, &mut keeper).unwrap();
    assert!(m == 19 || m == 26 || m == 37 || m == 44);
    assert!(keeper.is_timeout());
}
