use rust_reversi_core::board::{Board, BoardError, Color, Turn};
use rust_reversi_core::protocol::{
    argument_of_turn, cell_text, parse_cell, read_request, same_text, turn_of_argument, Request,
};
use rust_reversi_core::referee::{games_as_black, Game, Step, Tally};

#[test]
fn line_of_the_start() {
    let board = Board::new();
    assert_eq!(
        board.get_board_line().unwrap(),
        "---------------------------OX------XO---------------------------"
    );
}

#[test]
fn line_shows_each_side_in_its_own_symbol() {
    let mut board = Board::new();
    board.do_move(19).unwrap();
    assert_eq!(board.get_turn(), Turn::White);
    assert_eq!(
        board.get_board_line().unwrap(),
        "-------------------X-------XX------XO---------------------------"
    );
}

#[test]
fn grid_of_the_start() {
    let board = Board::new();
    assert_eq!(
        board.to_string().unwrap(),
        format!(
            "{}{}{}{}{}{}{}{}{}{}",
            " |abcdefgh\n",
            "-+--------\n",
            "1|--------\n",
            "2|--------\n",
            "3|--------\n",
            "4|---OX---\n",
            "5|---XO---\n",
            "6|--------\n",
            "7|--------\n",
            "8|--------\n",
        )
    );
}

#[test]
fn text_with_another_character_is_refused() {
    let mut board = Board::new();
    let result = board.set_board_str(
        "------------------OOO------OX-----OOXX----Ox--------------------",
        Turn::White,
    );
    assert!(matches!(result, Err(BoardError::InvalidCharactor)));
    assert_eq!(board, Board::new());
}

#[test]
fn text_is_read_for_the_side_to_move() {
    let text = "------------------OOO------OX-----OOXX----OX--------------------";
    let mut as_white = Board::new();
    as_white.set_board_str(text, Turn::White).unwrap();
    let mut as_black = Board::new();
    as_black.set_board_str(text, Turn::Black).unwrap();
    let (white_mover, white_opponent, white_turn) = as_white.get_board();
    let (black_mover, black_opponent, black_turn) = as_black.get_board();
    assert_eq!(white_turn, Turn::White);
    assert_eq!(black_turn, Turn::Black);
    assert_eq!(white_mover, black_opponent);
    assert_eq!(white_opponent, black_mover);
    // the stones of White: the cells 18, 19, 20, 27, 34, 35, 42
    let white = [18, 19, 20, 27, 34, 35, 42]
        .iter()
        .fold(0u64, |mask, cell| mask | 1u64 << (63 - cell));
    assert_eq!(white_mover, white);
    assert_eq!(as_black.get_board_line().unwrap(), text);
}

#[test]
fn short_text_leaves_the_rest_empty() {
    let mut board = Board::new();
    board.set_board_str("XO", Turn::Black).unwrap();
    assert_eq!(board.get_board(), (1u64 << 63, 1u64 << 62, Turn::Black));
    board.set_board_str("", Turn::White).unwrap();
    assert_eq!(board.get_board(), (0, 0, Turn::White));
}

#[test]
fn line_and_text_round_trip_along_random_games() {
    for _ in 0..50 {
        let mut board = Board::new();
        while !board.is_game_over() {
            let line = board.get_board_line().unwrap();
            assert_eq!(line.chars().count(), 64);
            let mut read = Board::new();
            read.set_board_str(&line, board.get_turn()).unwrap();
            assert_eq!(read, board);
            assert_eq!(read.get_board_line().unwrap(), line);
            if board.is_pass() {
                board.do_pass().unwrap();
            } else {
                let m = board.get_random_move().unwrap();
                board.do_move(m).unwrap();
            }
        }
    }
}

#[test]
fn cell_claimed_by_both_sides_is_an_invalid_state() {
    let mut board = Board::new();
    board.set_board(1, 1, Turn::Black);
    assert!(matches!(board.get_board_line(), Err(BoardError::InvalidState)));
    assert!(matches!(board.get_board_vec_black(), Err(BoardError::InvalidState)));
    assert!(matches!(board.get_board_vec_turn(), Err(BoardError::InvalidState)));
    assert!(matches!(board.get_board_matrix(), Err(BoardError::InvalidState)));
    assert!(matches!(board.to_string(), Err(BoardError::InvalidState)));
}

#[test]
fn cells_in_the_colors_of_the_sides() {
    let mut board = Board::new();
    board.do_move(19).unwrap();
    // White is to move: for the mover, the stones of White are shown as Black
    let for_mover = board.get_board_vec_black().unwrap();
    let by_turn = board.get_board_vec_turn().unwrap();
    assert_eq!(for_mover.len(), 64);
    assert_eq!(by_turn.len(), 64);
    assert_eq!(for_mover[36], Color::Black);
    assert_eq!(by_turn[36], Color::White);
    for cell in [19, 27, 28, 35] {
        assert_eq!(for_mover[cell], Color::White);
        assert_eq!(by_turn[cell], Color::Black);
    }
    assert_eq!(for_mover[0], Color::Empty);
    assert_eq!(by_turn[0], Color::Empty);
}

#[test]
fn matrix_of_the_start() {
    let board = Board::new();
    let matrix = board.get_board_matrix().unwrap();
    assert_eq!(matrix.len(), 3);
    for plane in &matrix {
        assert_eq!(plane.len(), 8);
        for row in plane {
            assert_eq!(row.len(), 8);
        }
    }
    for x in 0..8 {
        for y in 0..8 {
            let cell = x * 8 + y;
            let mine = cell == 28 || cell == 35;
            let theirs = cell == 27 || cell == 36;
            assert_eq!(matrix[0][x][y], mine as i32);
            assert_eq!(matrix[1][x][y], theirs as i32);
            assert_eq!(matrix[2][x][y], (!mine && !theirs) as i32);
        }
    }
}

#[test]
fn move_lines_are_one_or_two_digits() {
    assert_eq!(parse_cell("0"), Some(0));
    assert_eq!(parse_cell("7"), Some(7));
    assert_eq!(parse_cell("19"), Some(19));
    assert_eq!(parse_cell("63"), Some(63));
    assert_eq!(parse_cell("07"), Some(7));
    assert_eq!(parse_cell("64"), None);
    assert_eq!(parse_cell("99"), None);
    assert_eq!(parse_cell(""), None);
    assert_eq!(parse_cell("a"), None);
    assert_eq!(parse_cell("1a"), None);
    assert_eq!(parse_cell("-1"), None);
    assert_eq!(parse_cell("007"), None);
    assert_eq!(parse_cell(" 7"), None);
}

#[test]
fn move_lines_round_trip() {
    assert_eq!(cell_text(0), "0");
    assert_eq!(cell_text(9), "9");
    assert_eq!(cell_text(10), "10");
    assert_eq!(cell_text(63), "63");
    for cell in 0..64 {
        assert_eq!(parse_cell(&cell_text(cell)), Some(cell));
        assert_eq!(cell_text(cell), format!("{}", cell));
    }
}

#[test]
fn greeting_leaves_the_board() {
    let mut board = Board::new();
    board.do_move(19).unwrap();
    let before = board;
    assert!(matches!(read_request(&mut board, "ping", Turn::Black), Ok(Request::Ping)));
    assert_eq!(board, before);
}

#[test]
fn position_line_sets_the_board() {
    let mut board = Board::new();
    let text = "------------------OOO------OX-----OOXX----OX--------------------";
    assert!(matches!(read_request(&mut board, text, Turn::White), Ok(Request::Position)));
    assert_eq!(board.get_board_line().unwrap(), text);
    assert_eq!(board.get_turn(), Turn::White);
    let before = board;
    assert!(matches!(
        read_request(&mut board, "pong", Turn::White),
        Err(BoardError::InvalidCharactor)
    ));
    assert_eq!(board, before);
}

#[test]
fn sides_as_arguments() {
    assert_eq!(turn_of_argument("BLACK"), Some(Turn::Black));
    assert_eq!(turn_of_argument("WHITE"), Some(Turn::White));
    assert_eq!(turn_of_argument("black"), None);
    assert_eq!(turn_of_argument(""), None);
    assert_eq!(argument_of_turn(Turn::Black), "BLACK");
    assert_eq!(argument_of_turn(Turn::White), "WHITE");
    assert!(same_text("ping", "ping"));
    assert!(!same_text("ping", "pong"));
    assert!(!same_text("ping", "pin"));
}

#[test]
fn referee_asks_the_side_to_move() {
    let mut game = Game::new();
    match game.next_step() {
        Step::Ask { turn, line } => {
            assert_eq!(turn, Turn::Black);
            assert_eq!(
                line,
                "---------------------------OX------XO---------------------------"
            );
        }
        Step::Over { .. } => panic!("the game has only begun"),
    }
    assert!(matches!(game.take_reply("0"), Err(BoardError::InvalidMove)));
    assert!(matches!(game.take_reply("x"), Err(BoardError::InvalidPosition)));
    assert!(matches!(game.take_reply("64"), Err(BoardError::InvalidPosition)));
    assert_eq!(game.board(), Board::new());
    assert!(matches!(game.take_reply("19"), Ok(19)));
    match game.next_step() {
        Step::Ask { turn, line } => {
            assert_eq!(turn, Turn::White);
            assert_eq!(
                line,
                "-------------------X-------XX------XO---------------------------"
            );
        }
        Step::Over { .. } => panic!("the game has only begun"),
    }
}

#[test]
fn referee_plays_a_game_to_its_end() {
    for _ in 0..20 {
        let mut game = Game::new();
        let mut asked = 0;
        loop {
            match game.next_step() {
                Step::Ask { turn, line } => {
                    let mut board = game.board();
                    assert_eq!(board.get_turn(), turn);
                    assert_eq!(board.get_board_line().unwrap(), line);
                    assert!(!board.is_pass());
                    let m = board.get_random_move().unwrap();
                    assert_eq!(game.take_reply(&cell_text(m)).unwrap(), m);
                    asked += 1;
                }
                Step::Over { winner, black, white } => {
                    let board = game.board();
                    assert!(board.is_game_over());
                    assert_eq!(board.get_winner().unwrap(), winner);
                    assert_eq!(board.black_piece_num(), black);
                    assert_eq!(board.white_piece_num(), white);
                    assert_eq!(black + white, 4 + asked);
                    break;
                }
            }
        }
    }
}

#[test]
fn tally_counts_for_the_first_engine() {
    assert_eq!(games_as_black(100), Some(50));
    assert_eq!(games_as_black(2), Some(1));
    assert_eq!(games_as_black(0), None);
    assert_eq!(games_as_black(999), None);
    let tally = Tally::new();
    let tally = tally.with_game(Turn::Black, Some(Turn::Black), 40, 24).unwrap();
    let tally = tally.with_game(Turn::White, Some(Turn::Black), 33, 31).unwrap();
    let tally = tally.with_game(Turn::White, None, 32, 32).unwrap();
    assert_eq!(
        tally,
        Tally {
            first_wins: 1,
            second_wins: 1,
            draws: 1,
            first_pieces: 40 + 31 + 32,
            second_pieces: 24 + 33 + 32,
        }
    );
    let full = Tally { first_wins: usize::MAX, ..tally };
    assert_eq!(full.with_game(Turn::Black, Some(Turn::Black), 40, 24), None);
    assert!(full.with_game(Turn::Black, Some(Turn::White), 40, 24).is_some());
    let heavy = Tally { second_pieces: usize::MAX - 10, ..tally };
    assert_eq!(heavy.with_game(Turn::Black, None, 32, 32), None);
}
