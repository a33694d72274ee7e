//! The board: squares, moves, checks.

use wisdom::board::{Board, Color, Piece, PieceType};
use wisdom::fen::parse_fen;
use wisdom::moves::Move;
use wisdom::rules::Rules;
use wisdom::xiangqi::Xiangqi;

#[test]
fn test_kings_facing() {
    let mut board = Board::new();

    let red_king_sq = Board::coord_to_square(9, 4);
    let black_king_sq = Board::coord_to_square(0, 4);

    board.red_king_sq = red_king_sq;
    board.black_king_sq = black_king_sq;

    board.set_piece(red_king_sq, Some(Piece::new(PieceType::King, Color::Red)));
    board.set_piece(black_king_sq, Some(Piece::new(PieceType::King, Color::Black)));

    // Kings on the same file with no pieces in between -> facing
    assert!(board.kings_facing());

    // Block the file with a piece
    board.set_piece(Board::coord_to_square(5, 4), Some(Piece::new(PieceType::Pawn, Color::Red)));
    assert!(!board.kings_facing());

    // Move one king to a different file
    board.set_piece(black_king_sq, None);
    let new_black_king_sq = Board::coord_to_square(0, 3);
    board.black_king_sq = new_black_king_sq;
    board.set_piece(new_black_king_sq, Some(Piece::new(PieceType::King, Color::Black)));

    // Even without blockers, they are not on the same file -> not facing
    board.set_piece(Board::coord_to_square(5, 4), None);
    assert!(!board.kings_facing());
}

fn start() -> Board {
    let mut board = Board::new();
    board.set_initial_position();
    board
}

#[test]
fn initial_position_is_set_up() {
    let board = start();
    assert!(board.side_to_move == Color::Red);
    assert_eq!(board.red_king_sq, 148);
    assert_eq!(board.black_king_sq, 4);
    assert!(board.piece_at(0) == Some(Piece::new(PieceType::Rook, Color::Black)));
    assert!(board.piece_at(148) == Some(Piece::new(PieceType::King, Color::Red)));
    assert!(board.piece_at(2 * 16 + 1) == Some(Piece::new(PieceType::Cannon, Color::Black)));
    assert!(board.piece_at(6 * 16 + 8) == Some(Piece::new(PieceType::Pawn, Color::Red)));
    assert!(board.is_empty(5 * 16 + 4));
    let count = (0..256).filter(|&sq| board.piece_at(sq).is_some()).count();
    assert_eq!(count, 32);
    assert!(!board.kings_facing());
    assert!(!board.is_in_check(Color::Red));
}

#[test]
fn valid_squares_are_ten_rows_of_nine() {
    assert!(Board::is_valid_square(0));
    assert!(Board::is_valid_square(0x98));
    assert!(!Board::is_valid_square(0x99));
    assert!(!Board::is_valid_square(9));
    assert!(!Board::is_valid_square(0xA0));
    assert_eq!((0..1000).filter(|&sq| Board::is_valid_square(sq)).count(), 90);
}

#[test]
fn coordinates_and_squares() {
    assert_eq!(Board::square_to_coord(0x98), (9, 8));
    assert_eq!(Board::coord_to_square(9, 8), 152);
    assert_eq!(Board::coord_to_square(0, 4), 4);
}

#[test]
fn pieces_off_the_board_are_lost() {
    let mut board = Board::new();
    board.set_piece(9, Some(Piece::new(PieceType::Rook, Color::Red)));
    assert!(board.piece_at(9).is_none());
    assert!(board.piece_at(usize::MAX).is_none());
}

#[test]
fn colours_are_opposite() {
    assert!(Color::Red.opposite() == Color::Black);
    assert!(Color::Black.opposite() == Color::Red);
}

#[test]
fn unmake_takes_a_capture_back() {
    let mut board = start();
    let before = board.squares;
    // The red cannon on b2 takes the black horse on b9.
    let m = Move::new(7 * 16 + 1, 1, true);
    let undo = board.make_move(m);
    assert!(undo.captured_piece == Some(Piece::new(PieceType::Horse, Color::Black)));
    assert!(board.side_to_move == Color::Black);
    assert!(board.piece_at(7 * 16 + 1).is_none());
    board.unmake_move(m, undo);
    assert!(board.squares == before);
    assert!(board.side_to_move == Color::Red);
}

#[test]
fn a_king_move_is_recorded_and_taken_back() {
    let mut board = start();
    let m = Move::new(148, 132, false);
    let undo = board.make_move(m);
    assert_eq!(board.red_king_sq, 132);
    board.unmake_move(m, undo);
    assert_eq!(board.red_king_sq, 148);
    assert_eq!(board.black_king_sq, 4);
}

/// A board with the two kings apart and one more piece.
fn with(piece: PieceType, sq: usize) -> Board {
    let mut board = Board::new();
    board.set_piece(148, Some(Piece::new(PieceType::King, Color::Red)));
    board.set_piece(3, Some(Piece::new(PieceType::King, Color::Black)));
    board.red_king_sq = 148;
    board.black_king_sq = 3;
    board.set_piece(sq, Some(Piece::new(piece, Color::Black)));
    board
}

#[test]
fn rooks_and_cannons_give_check() {
    let mut board = with(PieceType::Rook, 5 * 16 + 4);
    assert!(board.is_in_check(Color::Red));
    board.set_piece(7 * 16 + 4, Some(Piece::new(PieceType::Pawn, Color::Red)));
    assert!(!board.is_in_check(Color::Red));
    let mut board = with(PieceType::Cannon, 5 * 16 + 4);
    assert!(!board.is_in_check(Color::Red));
    board.set_piece(7 * 16 + 4, Some(Piece::new(PieceType::Pawn, Color::Red)));
    assert!(board.is_in_check(Color::Red));
    board.set_piece(8 * 16 + 4, Some(Piece::new(PieceType::Pawn, Color::Red)));
    assert!(!board.is_in_check(Color::Red));
}

#[test]
fn horses_give_check_unless_the_leg_is_blocked() {
    let mut board = with(PieceType::Horse, 7 * 16 + 3);
    assert!(board.is_in_check(Color::Red));
    board.set_piece(8 * 16 + 3, Some(Piece::new(PieceType::Pawn, Color::Red)));
    assert!(!board.is_in_check(Color::Red));
}

#[test]
fn pawns_give_check_from_ahead_and_beside() {
    assert!(with(PieceType::Pawn, 8 * 16 + 4).is_in_check(Color::Red));
    assert!(with(PieceType::Pawn, 9 * 16 + 3).is_in_check(Color::Red));
    assert!(!with(PieceType::Pawn, 7 * 16 + 4).is_in_check(Color::Red));
}

#[test]
fn kings_face_whichever_is_above() {
    let mut board = Board::new();
    board.red_king_sq = 0x04;
    board.black_king_sq = 0x94;
    board.set_piece(0x04, Some(Piece::new(PieceType::King, Color::Red)));
    board.set_piece(0x94, Some(Piece::new(PieceType::King, Color::Black)));
    assert!(board.kings_facing());
    board.set_piece(0x54, Some(Piece::new(PieceType::Pawn, Color::Red)));
    assert!(!board.kings_facing());
}

fn board_of(fen: &str) -> Board {
    let mut board = Board::new();
    parse_fen(&mut board, fen);
    board
}

#[test]
fn the_usual_text_is_the_start() {
    let text = "rnbakabnr/9/1c5c1/p1p1p1p1p/9/9/P1P1P1P1P/1C5C1/9/RNBAKABNR w - - 0 1";
    let read = board_of(text);
    let mut set = board_of("4k4/9/9/9/9/9/9/9/9/R3K4 b");
    set.set_initial_position();
    assert!(read.squares == set.squares && set.side_to_move == Color::Red);
    assert_eq!((set.red_king_sq, set.black_king_sq), (0x94, 0x04));
    assert_eq!((read.red_king_sq, read.black_king_sq), (0x94, 0x04));
    assert_eq!(set.squares.iter().filter(|p| p.is_some()).count(), 32);
    assert!(!set.kings_facing() && !set.is_in_check(Color::Red) && !set.is_in_check(Color::Black));
}

#[test]
fn reading_forgets_the_last_board() {
    let fen = "4k4/9/9/9/9/9/9/9/9/4K4 B";
    let mut used = board_of("rnbakabnr/9/9/9/9/9/9/9/9/RNBAKABNR w");
    parse_fen(&mut used, fen);
    assert!(used.squares == board_of(fen).squares && used.side_to_move == Color::Black);
    parse_fen(&mut used, "  ");
    assert!(used.squares == Board::new().squares && used.side_to_move == Color::Red);
    assert_eq!((used.red_king_sq, used.black_king_sq), (0, 0));
    assert!(board_of("9 black").side_to_move == Color::Red);
}

#[test]
fn one_position_has_one_key() {
    let rules = Xiangqi::new();
    let a = board_of("rheakaehr/9/9/9/9/9/9/9/9/RHEAKAEHR b 7 9");
    let b = board_of("rnbakabnr/9/9/9/9/9/9/9/9/RNBAKABNR B");
    assert_eq!(rules.zobrist_key(&a), rules.zobrist_key(&b));
    let c = board_of("rnbakabnr/9/9/9/9/9/9/9/9/RNBAKABNR w");
    assert_ne!(rules.zobrist_key(&b), rules.zobrist_key(&c));
}

#[test]
fn check_looks_the_same_from_elsewhere() {
    let cases = [
        // A rook, a cannon behind a screen, a horse, a blocked horse, a pawn, none.
        ("4k4/9/9/9/9/9/9/9/9/r3K4 w", true),
        ("4k4/9/4c4/9/9/4p4/9/9/9/4K4 w", true),
        ("4k4/9/9/9/9/9/9/3n5/9/4K4 w", true),
        ("4k4/9/9/9/9/9/9/3n5/3P5/4K4 w", false),
        ("4k4/9/9/9/9/9/9/9/4p4/4K4 w", true),
        ("4k4/9/9/9/9/9/9/9/9/4K4 w", false),
    ];
    for (fen, check) in cases {
        let board = board_of(fen);
        let mut turned = Board::new();
        let mut mirrored = Board::new();
        for row in 0..10 {
            for col in 0..9 {
                let piece = board.piece_at(Board::coord_to_square(row, col));
                let swapped = piece.map(|p| Piece::new(p.piece_type, p.color.opposite()));
                turned.set_piece(Board::coord_to_square(9 - row, 8 - col), swapped);
                mirrored.set_piece(Board::coord_to_square(row, 8 - col), piece);
            }
        }
        turned.red_king_sq = 0x98 - board.black_king_sq;
        turned.black_king_sq = 0x98 - board.red_king_sq;
        mirrored.red_king_sq = 0x94;
        mirrored.black_king_sq = 0x04;
        assert_eq!(board.is_in_check(Color::Red), check, "{}", fen);
        assert_eq!(turned.is_in_check(Color::Black), check, "{}", fen);
        assert_eq!(mirrored.is_in_check(Color::Red), check, "{}", fen);
        let mut other = board;
        other.side_to_move = Color::Black;
        assert_eq!(other.is_in_check(Color::Red), check, "{}", fen);
    }
}
