use rust_reversi_core::bits::{bit_of, count_before, nth_cell};
use rust_reversi_core::board::{Board, BoardError, Color, Turn};
use rust_reversi_core::flips::flips_of;
use rust_reversi_core::movegen::{get_legal_partial, legal_moves_scalar, legal_moves_wide};
use rust_reversi_core::utils::StackVec64;

const START_MOVER: u64 = 0x0000_0008_1000_0000;
const START_OPPONENT: u64 = 0x0000_0010_0800_0000;

/// The legal moves by a walk along each ray from each empty cell.
fn legal_by_walk(mover: u64, opponent: u64) -> u64 {
    let mut legal = 0u64;
    for cell in 0..64i32 {
        let bit = 1u64 << (63 - cell);
        if (mover | opponent) & bit != 0 {
            continue;
        }
        let (row, col) = (cell / 8, cell % 8);
        let mut found = false;
        for dr in -1..=1 {
            for dc in -1..=1 {
                if dr == 0 && dc == 0 {
                    continue;
                }
                let (mut r, mut c) = (row + dr, col + dc);
                let mut run = 0;
                while r >= 0 && r < 8 && c >= 0 && c < 8 {
                    let b = 1u64 << (63 - (r * 8 + c));
                    if mover & b != 0 && run > 0 {
                        found = true;
                    }
                    if opponent & b == 0 {
                        break;
                    }
                    run += 1;
                    r += dr;
                    c += dc;
                }
            }
        }
        if found {
            legal |= bit;
        }
    }
    legal
}

/// The flipped stones by a walk along each ray from the cell.
fn flips_by_walk(mover: u64, opponent: u64, cell: i32) -> u64 {
    let (row, col) = (cell / 8, cell % 8);
    let mut flips = 0u64;
    for dr in -1..=1 {
        for dc in -1..=1 {
            if dr == 0 && dc == 0 {
                continue;
            }
            let (mut r, mut c) = (row + dr, col + dc);
            let mut run = 0u64;
            while r >= 0 && r < 8 && c >= 0 && c < 8 {
                let b = 1u64 << (63 - (r * 8 + c));
                if opponent & b != 0 {
                    run |= b;
                } else {
                    if mover & b != 0 {
                        flips |= run;
                    }
                    break;
                }
                r += dr;
                c += dc;
            }
        }
    }
    flips
}

#[test]
fn start_position_has_four_legal_moves() {
    let mut board = Board::new();
    assert_eq!(board.get_legal_moves(), 0x0000_1020_0408_0000);
    assert_eq!(board.get_legal_moves_vec().to_vec(), vec![19, 26, 37, 44]);
    assert!(board.is_legal_move(19));
    assert!(!board.is_legal_move(20));
    assert!(!board.is_legal_move(27));
}

#[test]
fn scalar_and_wide_paths_agree_on_the_start() {
    assert_eq!(legal_moves_scalar(START_MOVER, START_OPPONENT), 0x0000_1020_0408_0000);
    assert_eq!(legal_moves_wide(START_MOVER, START_OPPONENT), 0x0000_1020_0408_0000);
}

#[test]
fn scalar_and_wide_paths_agree_along_random_games() {
    for _ in 0..200 {
        let mut board = Board::new();
        while !board.is_game_over() {
            let (mover, opponent, _turn) = board.get_board();
            let scalar = legal_moves_scalar(mover, opponent);
            let wide = legal_moves_wide(mover, opponent);
            assert_eq!(scalar, wide);
            assert_eq!(scalar, legal_by_walk(mover, opponent));
            assert_eq!(scalar, board.get_legal_moves());
            assert_eq!(board.is_pass(), scalar == 0);
            if board.is_pass() {
                board.do_pass().unwrap();
            } else {
                let m = board.get_random_move().unwrap();
                assert!(scalar & (1u64 << (63 - m)) != 0);
                board.do_move(m).unwrap();
            }
        }
    }
}

#[test]
fn paths_agree_on_masks_that_share_cells() {
    let mover = 0xFF00_0000_0000_00FF;
    let opponent = 0x0F0F_0F0F_0F0F_0F0F;
    assert_eq!(legal_moves_scalar(mover, opponent), legal_moves_wide(mover, opponent));
    assert_eq!(legal_moves_scalar(mover, opponent), legal_by_walk(mover, opponent));
}

#[test]
fn partial_fill_along_a_row() {
    // mover on cell 0, opponent on the cells 1 to 6: the candidate is cell 7
    let mover = 1u64 << 63;
    let opponent = 0x7E00_0000_0000_0000;
    // along the row, each cell behind a reached cell is a candidate
    assert_eq!(get_legal_partial(opponent, mover, 1), 0x3F00_0000_0000_0000);
    assert_eq!(legal_moves_scalar(mover, opponent), 1u64 << 56);
}

#[test]
fn fill_does_not_wrap_around_the_edge() {
    // mover on cell 6, opponent on cell 7: cell 8 lies in the next row
    let mover = 1u64 << (63 - 6);
    let opponent = 1u64 << (63 - 7);
    assert_eq!(legal_moves_scalar(mover, opponent), 0);
    assert_eq!(legal_moves_wide(mover, opponent), 0);
}

#[test]
fn flips_of_the_first_move() {
    assert_eq!(flips_of(START_MOVER, START_OPPONENT, 19), 1u64 << 36);
    assert_eq!(flips_of(START_MOVER, START_OPPONENT, 26), 1u64 << 36);
    assert_eq!(flips_of(START_MOVER, START_OPPONENT, 37), 1u64 << 27);
    assert_eq!(flips_of(START_MOVER, START_OPPONENT, 0), 0);
}

#[test]
fn flips_agree_with_a_walk_along_random_games() {
    for _ in 0..100 {
        let mut board = Board::new();
        while !board.is_game_over() {
            if board.is_pass() {
                board.do_pass().unwrap();
                continue;
            }
            let (mover, opponent, _turn) = board.get_board();
            let m = board.get_random_move().unwrap();
            let flips = flips_of(mover, opponent, m);
            assert_eq!(flips, flips_by_walk(mover, opponent, m as i32));
            assert!(flips != 0);
            board.do_move(m).unwrap();
            let (next_mover, next_opponent, _turn) = board.get_board();
            assert_eq!(next_mover, opponent ^ flips);
            assert_eq!(next_opponent, mover ^ (flips | bit_of(m)));
            assert_eq!(next_mover & next_opponent, 0);
        }
    }
}

#[test]
fn first_move_gives_four_to_one() {
    let mut board = Board::new();
    board.do_move(19).unwrap();
    let (mover, opponent, turn) = board.get_board();
    assert_eq!(mover, 0x0000_0000_0800_0000);
    assert_eq!(opponent, 0x0000_1018_1000_0000);
    assert_eq!(turn, Turn::White);
    assert_eq!(board.player_piece_num(), 1);
    assert_eq!(board.opponent_piece_num(), 4);
    assert_eq!(board.diff_piece_num(), -3);
    assert_eq!(board.piece_sum(), 5);
}

#[test]
fn reverse_places_and_flips_without_handing_over() {
    let mut board = Board::new();
    board.reverse(bit_of(19));
    let (mover, opponent, turn) = board.get_board();
    assert_eq!(mover, 0x0000_1018_1000_0000);
    assert_eq!(opponent, 0x0000_0000_0800_0000);
    assert_eq!(turn, Turn::Black);
}

#[test]
fn move_outside_the_board_is_refused() {
    let mut board = Board::new();
    assert!(matches!(board.do_move(64), Err(BoardError::InvalidPosition)));
    assert!(matches!(board.do_move(usize::MAX), Err(BoardError::InvalidPosition)));
    assert_eq!(board, Board::new());
}

#[test]
fn move_on_a_stone_is_refused() {
    let mut board = Board::new();
    assert!(matches!(board.do_move(27), Err(BoardError::InvalidMove)));
    assert!(matches!(board.do_move(28), Err(BoardError::InvalidMove)));
    assert_eq!(board, Board::new());
}

#[test]
fn pass_with_a_legal_move_is_refused() {
    let mut board = Board::new();
    assert!(matches!(board.do_pass(), Err(BoardError::InvalidPass)));
    assert_eq!(board, Board::new());
}

#[test]
fn pass_after_the_end_is_refused() {
    let mut board = Board::new();
    board.set_board(u64::MAX, 0, Turn::Black);
    assert!(board.is_pass());
    assert!(board.is_game_over());
    assert!(matches!(board.do_pass(), Err(BoardError::InvalidPass)));
}

#[test]
fn pass_swaps_the_sides() {
    let mut board = Board::new();
    board
        .set_board_str(
            "----------------\
             --OOO------OOO--\
             --OOOO----OO----\
             ---O-------X----",
            Turn::White,
        )
        .unwrap();
    let (mover, opponent, _turn) = board.get_board();
    board.do_pass().unwrap();
    assert_eq!(board.get_board(), (opponent, mover, Turn::Black));
    assert!(!board.is_pass());
}

#[test]
fn winner_needs_the_end_of_the_game() {
    let board = Board::new();
    assert!(!board.is_game_over());
    assert!(matches!(board.is_win(), Err(BoardError::GameNotOverYet)));
    assert!(matches!(board.is_lose(), Err(BoardError::GameNotOverYet)));
    assert!(matches!(board.is_draw(), Err(BoardError::GameNotOverYet)));
    assert!(matches!(board.is_black_win(), Err(BoardError::GameNotOverYet)));
    assert!(matches!(board.is_white_win(), Err(BoardError::GameNotOverYet)));
    assert!(matches!(board.get_winner(), Err(BoardError::GameNotOverYet)));
}

#[test]
fn winner_of_a_full_board() {
    let mut board = Board::new();
    // 34 stones for the mover, 30 for the opponent, White to move
    board.set_board(0xFFFF_FFFF_C000_0000, 0x0000_0000_3FFF_FFFF, Turn::White);
    assert!(board.is_game_over());
    assert_eq!(board.is_win().unwrap(), true);
    assert_eq!(board.is_lose().unwrap(), false);
    assert_eq!(board.is_draw().unwrap(), false);
    assert_eq!(board.is_white_win().unwrap(), true);
    assert_eq!(board.is_black_win().unwrap(), false);
    assert_eq!(board.get_winner().unwrap(), Some(Turn::White));
    assert_eq!(board.white_piece_num(), 34);
    assert_eq!(board.black_piece_num(), 30);
}

#[test]
fn draw_of_a_full_board() {
    let mut board = Board::new();
    board.set_board(0xFFFF_FFFF_0000_0000, 0x0000_0000_FFFF_FFFF, Turn::Black);
    assert!(board.is_game_over());
    assert_eq!(board.is_draw().unwrap(), true);
    assert_eq!(board.is_win().unwrap(), false);
    assert_eq!(board.get_winner().unwrap(), None);
    board.set_board(0x0000_0000_0000_FFFF, 0xFFFF_FFFF_FFFF_0000, Turn::Black);
    assert_eq!(board.get_winner().unwrap(), Some(Turn::White));
    assert_eq!(board.is_lose().unwrap(), true);
}

#[test]
fn random_move_needs_a_legal_move() {
    let mut board = Board::new();
    board.set_board(u64::MAX, 0, Turn::Black);
    assert!(matches!(board.get_random_move(), Err(BoardError::NoLegalMove)));
    assert!(matches!(board.choose_move(3), Err(BoardError::NoLegalMove)));
}

#[test]
fn chosen_move_is_the_sample_modulo_the_number_of_moves() {
    let mut board = Board::new();
    assert_eq!(board.choose_move(0).unwrap(), 19);
    assert_eq!(board.choose_move(1).unwrap(), 26);
    assert_eq!(board.choose_move(6).unwrap(), 37);
    assert_eq!(board.choose_move(7).unwrap(), 44);
    assert_eq!(board.choose_move(usize::MAX).unwrap(), 44);
}

#[test]
fn random_move_is_legal() {
    let mut board = Board::new();
    for _ in 0..100 {
        let m = board.get_random_move().unwrap();
        assert!(m == 19 || m == 26 || m == 37 || m == 44);
    }
}

#[test]
fn legal_moves_as_flags() {
    let mut board = Board::new();
    let flags = board.get_legal_moves_tf();
    assert_eq!(flags.len(), 64);
    for cell in 0..64 {
        assert_eq!(flags[cell], cell == 19 || cell == 26 || cell == 37 || cell == 44);
    }
}

#[test]
fn children_follow_the_moves_in_ascending_order() {
    let mut board = Board::new();
    let children = board.get_child_boards().unwrap();
    assert_eq!(children.len(), 4);
    let moves = [19, 26, 37, 44];
    for (child, m) in children.iter().zip(moves.iter()) {
        let mut expected = Board::new();
        expected.do_move(*m).unwrap();
        assert_eq!(*child, expected);
    }
    board.set_board(u64::MAX, 0, Turn::Black);
    assert!(board.get_child_boards().is_none());
}

#[test]
fn board_knows_whether_it_is_valid() {
    let mut board = Board::new();
    assert!(board.is_valid());
    board.set_board(3, 6, Turn::White);
    assert!(!board.is_valid());
    board.set_board(1, 6, Turn::White);
    assert!(board.is_valid());
}

#[test]
fn boards_compare_by_position() {
    let mut a = Board::new();
    let b = Board::new();
    a.get_legal_moves();
    assert_eq!(a, b);
    a.do_move(19).unwrap();
    assert_ne!(a, b);
}

#[test]
fn colors_and_turns_have_opposites() {
    assert_eq!(Turn::Black.opposite(), Turn::White);
    assert_eq!(Turn::White.opposite(), Turn::Black);
    assert_eq!(Color::Black.opposite(), Color::White);
    assert_eq!(Color::White.opposite(), Color::Black);
    assert_eq!(Color::Empty.opposite(), Color::Empty);
}

#[test]
fn default_board_is_the_start() {
    assert_eq!(Board::default(), Board::new());
    assert_eq!(Board::default().get_turn(), Turn::Black);
}

#[test]
fn stack_vec_holds_what_is_pushed() {
    let mut v: StackVec64<usize> = StackVec64::new();
    assert!(v.is_empty());
    assert_eq!(v.len(), 0);
    for i in 0..64 {
        v.push(i * 3);
    }
    assert_eq!(v.len(), 64);
    assert!(!v.is_empty());
    assert_eq!(v.get(0), 0);
    assert_eq!(v.get(63), 189);
    assert!(v.contains(&33));
    assert!(!v.contains(&34));
    assert_eq!(v.to_vec(), (0..64).map(|i| i * 3).collect::<Vec<usize>>());
    let copy = v.clone();
    v.clear();
    assert!(v.is_empty());
    assert_eq!(copy.len(), 64);
    let empty: StackVec64<usize> = StackVec64::default();
    assert_eq!(empty.len(), 0);
}

#[test]
fn stack_vec_iterates_in_order() {
    let mut v: StackVec64<u8> = StackVec64::new();
    v.push(7);
    v.push(5);
    v.push(9);
    let mut iter = v.iter();
    assert_eq!(iter.next(), Some(&7));
    assert_eq!(iter.next(), Some(&5));
    assert_eq!(iter.next(), Some(&9));
    assert_eq!(iter.next(), None);
    assert_eq!(iter.next(), None);
}

#[test]
fn stack_vec_sorts_by_key() {
    let mut v: StackVec64<i32> = StackVec64::new();
    for x in [5, -3, 9, 0, -7] {
        v.push(x);
    }
    v.sort_by_key(|x| *x);
    assert_eq!(v.to_vec(), vec![-7, -3, 0, 5, 9]);
    v.sort_by_key(|x| x.abs());
    assert_eq!(v.to_vec(), vec![0, -3, 5, -7, 9]);
}

#[test]
fn stack_vec_sort_keeps_the_order_of_equal_keys() {
    let mut v: StackVec64<(i32, char)> = StackVec64::new();
    for x in [(2, 'a'), (1, 'b'), (2, 'c'), (1, 'd'), (0, 'e'), (2, 'f')] {
        v.push(x);
    }
    v.sort_by_key(|x| x.0);
    assert_eq!(
        v.to_vec(),
        vec![(0, 'e'), (1, 'b'), (1, 'd'), (2, 'a'), (2, 'c'), (2, 'f')]
    );
}

#[test]
fn cells_are_counted_from_the_top_left() {
    let mask: u64 = 0x8000_0000_0000_0001 | (1u64 << 44);
    assert_eq!(count_before(mask, 0), 0);
    assert_eq!(count_before(mask, 1), 1);
    assert_eq!(count_before(mask, 19), 1);
    assert_eq!(count_before(mask, 20), 2);
    assert_eq!(count_before(mask, 63), 2);
    assert_eq!(count_before(mask, 64), 3);
    assert_eq!(count_before(0, 64), 0);
    assert_eq!(count_before(u64::MAX, 37), 37);
}

#[test]
fn nth_cell_is_the_cell_at_its_place() {
    let mask: u64 = 0x8000_0000_0000_0001 | (1u64 << 44);
    assert_eq!(nth_cell(mask, 0), 0);
    assert_eq!(nth_cell(mask, 1), 19);
    assert_eq!(nth_cell(mask, 2), 63);
    assert_eq!(nth_cell(1, 0), 63);
    for place in 0..64 {
        assert_eq!(nth_cell(u64::MAX, place), place);
    }
    // the legal moves of the start position
    let legal: u64 = 0x0000_1020_0408_0000;
    assert_eq!(nth_cell(legal, 0), 19);
    assert_eq!(nth_cell(legal, 1), 26);
    assert_eq!(nth_cell(legal, 2), 37);
    assert_eq!(nth_cell(legal, 3), 44);
}

#[test]
fn bit_of_a_cell() {
    assert_eq!(bit_of(0), 0x8000_0000_0000_0000);
    assert_eq!(bit_of(63), 1);
    assert_eq!(bit_of(19), 1u64 << 44);
}
