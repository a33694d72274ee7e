//! Positions and commands as text.

use wisdom::board::{Board, Color, PieceType};
use wisdom::fen::{parse_fen, FenError};
use wisdom::moves::Move;
use wisdom::text::{chars_of, split_words};
use wisdom::ucci::{
    check_ragged, display_board, move_to_ucci_string, parse_ucci_move, read_command, set_position,
    Command,
};

const START: &str = "rnbakabnr/9/1c5c1/p1p1p1p1p/9/9/P1P1P1P1P/1C5C1/9/RNBAKABNR w";

#[test]
fn the_start_is_read_and_written() {
    let mut board = Board::new();
    board.set_initial_position();
    assert_eq!(board.to_fen(), START);
    let mut read = Board::new();
    parse_fen(&mut read, START);
    assert!(read.squares == board.squares);
    assert_eq!((read.red_king_sq, read.black_king_sq), (148, 4));
    assert!(read.side_to_move == Color::Red);
}

#[test]
fn reading_undoes_writing_in_a_middle_game() {
    let fen = "r1ba1a3/4kn3/2n1b4/pNp1p1p1p/4c4/6P2/P1P2R2P/1CcC5/9/2BAKAB2 b";
    let mut board = Board::new();
    parse_fen(&mut board, fen);
    assert!(board.side_to_move == Color::Black);
    assert_eq!(board.to_fen(), fen);
}

#[test]
fn other_letters_and_odd_texts() {
    let mut board = Board::new();
    // E and H are other letters for B and N; unknown letters are passed over.
    parse_fen(&mut board, "ehxk5/9/4K4 B - - 0 1");
    assert!(board.piece_at(0).unwrap().piece_type == PieceType::Elephant);
    assert!(board.piece_at(1).unwrap().piece_type == PieceType::Horse);
    assert_eq!(board.black_king_sq, 2);
    assert!(board.side_to_move == Color::Black);
    parse_fen(&mut board, "   ");
    assert!((0..256).all(|sq| board.is_empty(sq)));
    assert_eq!((board.red_king_sq, board.black_king_sq), (0, 0));
    assert!(board.side_to_move == Color::Red);
    // Beyond the ninth column nothing is kept, but a king's place is noted.
    parse_fen(&mut board, "9K x");
    assert_eq!(board.red_king_sq, 9);
    assert!(board.piece_at(9).is_none());
    assert!(board.side_to_move == Color::Red);
}

#[test]
fn a_position_without_a_king_is_refused() {
    assert!(Board::from_fen(START).is_ok());
    assert!(matches!(Board::from_fen("4k4/9 w"), Err(FenError {})));
    assert!(matches!(Board::from_fen(""), Err(FenError {})));
}

#[test]
fn moves_are_written_and_read_back() {
    let mut board = Board::new();
    board.set_initial_position();
    let m = Move::new(7 * 16 + 1, 7 * 16 + 4, false);
    assert_eq!(move_to_ucci_string(m), "b2e2");
    assert!(parse_ucci_move(&board, "b2e2") == Some(m));
    assert!(parse_ucci_move(&board, "b2b9") == Some(Move::new(7 * 16 + 1, 1, true)));
    assert_eq!(move_to_ucci_string(Move::new(0x98, 0, false)), "i0a9");
    for bad in ["", "b2e", "b2e2x", "j0a0", "a0a:", "A0a0"] {
        assert!(parse_ucci_move(&board, bad).is_none());
    }
}

#[test]
fn ragged_texts_are_told_apart() {
    assert!(check_ragged(&chars_of("é0a")));
    assert!(check_ragged(&chars_of("楚a")));
    assert!(!check_ragged(&chars_of("a0a1")));
    assert!(!check_ragged(&chars_of("a0")));
    assert!(!check_ragged(&chars_of("é0a1")));
}

fn command(line: &str) -> Command {
    read_command(&split_words(&chars_of(line)))
}

#[test]
fn commands_are_read() {
    assert_eq!(command("ucci"), Command::Ucci);
    assert_eq!(command("  isready "), Command::IsReady);
    assert_eq!(command("position startpos"), Command::Position);
    assert_eq!(command("go"), Command::Go(4));
    assert_eq!(command("go depth 6"), Command::Go(6));
    assert_eq!(command("go depth 256"), Command::Go(4));
    assert_eq!(command("go depth x"), Command::Go(4));
    assert_eq!(command("eval"), Command::Eval);
    assert_eq!(command("d"), Command::Display);
    assert_eq!(command("quit"), Command::Quit);
    assert_eq!(command("hello"), Command::Unknown);
    assert_eq!(command(""), Command::Unknown);
}

fn position(board: &mut Board, line: &str) -> bool {
    set_position(board, &split_words(&chars_of(line)))
}

#[test]
fn positions_are_set_up() {
    let mut board = Board::new();
    assert!(position(&mut board, "position startpos moves b2e2 nonsense h9g7"));
    assert_eq!(
        board.to_fen(),
        "rnbakab1r/9/1c4nc1/p1p1p1p1p/9/9/P1P1P1P1P/4C2C1/9/RNBAKABNR w"
    );
    assert!(position(&mut board, "position fen 4k4/9/9/9/9/9/9/9/9/4K4 b - - 0 1 moves e9e8"));
    assert_eq!(board.to_fen(), "9/4k4/9/9/9/9/9/9/9/4K4 w");
    // Too few words, or none that are known: nothing changes.
    assert!(position(&mut board, "position fen 9/9 b"));
    assert!(position(&mut board, "position"));
    assert_eq!(board.to_fen(), "9/4k4/9/9/9/9/9/9/9/4K4 w");
}

#[test]
fn a_move_from_an_empty_square_breaks_off() {
    let mut board = Board::new();
    assert!(!position(&mut board, "position startpos moves e4e5"));
    assert!(!position(&mut board, "position startpos moves é0a"));
}

#[test]
fn the_board_is_displayed() {
    let mut board = Board::new();
    parse_fen(&mut board, "4k4/9/9/9/9/9/9/9/R8/4K4 b");
    let text = display_board(&board);
    let lines: Vec<&str> = text.split('\n').collect();
    assert_eq!(lines.len(), 12);
    assert_eq!(lines[0], "Side to move: Black");
    assert_eq!(lines[1], ". . . . k . . . . ");
    assert_eq!(lines[9], "R . . . . . . . . ");
    assert_eq!(lines[11], "");
}
