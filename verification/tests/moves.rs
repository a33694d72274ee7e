//! Moves, hashes, tensors and action indices.

use wisdom::board::{Board, Color, Piece, PieceType};
use wisdom::moves::Move;
use wisdom::nn::{
    board_to_tensor, flip_action_index, flip_sq90, index_to_move, mirror_tensor, move_to_index,
};
use wisdom::zobrist::{next_u64, pcg32_random_r, piece_index, Zobrist};

#[test]
fn a_move_keeps_its_squares_and_its_flag() {
    let m = Move::new(0x98, 0, true);
    assert_eq!(m.from_sq(), 0x98);
    assert_eq!(m.to_sq(), 0);
    assert!(m.is_capture());
    let quiet = Move::new(0x71, 0x74, false);
    assert_eq!((quiet.from_sq(), quiet.to_sq()), (0x71, 0x74));
    assert!(!quiet.is_capture());
    assert_eq!(m.0, (0 << 7) | 89 | (1 << 14));
}

#[test]
fn every_pair_of_squares_survives_packing() {
    for from in 0..90 {
        for to in 0..90 {
            let (f, t) = (Move::from_dense(from), Move::from_dense(to));
            let m = Move::new(f, t, from % 2 == 0);
            assert_eq!((m.from_sq(), m.to_sq(), m.is_capture()), (f, t, from % 2 == 0));
            assert_eq!(Move::to_dense(f), from);
        }
    }
}

#[test]
fn a_move_shows_itself() {
    let m = Move::new(0x71, 0x74, false);
    assert_eq!(m.debug_string(), "Move { from: 113, to: 116, capture: false }");
    let m = Move::new(0x98, 0, true);
    assert_eq!(m.debug_string(), "Move { from: 152, to: 0, capture: true }");
}

#[test]
fn keys_are_drawn_from_the_seed() {
    let z = Zobrist::new();
    assert_eq!(z.keys[0][0], 14488262416110554711);
    assert_eq!(z.keys[0][1], 9621152579153043701);
    assert_eq!(z.keys[13][152], 7974816170326913318);
    assert_eq!(z.side, 11314342030917030030);
    let mut state: u64 = 1234567890123456789;
    assert_eq!(next_u64(&mut state), z.keys[0][0]);
    let mut state: u64 = 1234567890123456789;
    let high = pcg32_random_r(&mut state, 1442695040888963407) as u64;
    assert_eq!(high, z.keys[0][0] >> 32);
}

#[test]
fn the_hash_is_the_keys_of_all_pieces() {
    let z = Zobrist::new();
    let mut board = Board::new();
    assert_eq!(z.hash(&board), 0);
    board.set_initial_position();
    assert_eq!(z.hash(&board), 138066437278134465);
    board.side_to_move = Color::Black;
    assert_eq!(z.hash(&board), 138066437278134465 ^ z.side);
}

#[test]
fn the_hash_follows_a_capture() {
    let z = Zobrist::new();
    let mut board = Board::new();
    board.set_initial_position();
    let before = z.hash(&board);
    let (from, to) = (7 * 16 + 1, 1);
    board.make_move(Move::new(from, to, true));
    let cannon = piece_index(Piece::new(PieceType::Cannon, Color::Red));
    let horse = piece_index(Piece::new(PieceType::Horse, Color::Black));
    let expected = before ^ z.keys[cannon][from] ^ z.keys[horse][to] ^ z.keys[cannon][to] ^ z.side;
    assert_eq!(z.hash(&board), expected);
}

#[test]
fn the_tensor_shows_the_start() {
    let mut board = Board::new();
    board.set_initial_position();
    let data = board_to_tensor(&board);
    assert_eq!(data.iter().map(|&x| x as usize).sum::<usize>(), 32);
    // The own king on plane 0, row 9, column 4; the other one on plane 7, row 0.
    assert_eq!(data[9 * 9 + 4], 1);
    assert_eq!(data[7 * 90 + 4], 1);
    assert_eq!(data[4], 0);
}

#[test]
fn the_tensor_sees_both_sides_alike() {
    let mut red = Board::new();
    red.set_piece(6 * 16 + 2, Some(Piece::new(PieceType::Pawn, Color::Red)));
    let mut black = Board::new();
    black.set_piece(3 * 16 + 6, Some(Piece::new(PieceType::Pawn, Color::Black)));
    black.side_to_move = Color::Black;
    assert!(board_to_tensor(&red) == board_to_tensor(&black));
    assert_eq!(board_to_tensor(&red)[6 * 90 + 6 * 9 + 2], 1);
}

#[test]
fn mirroring_a_tensor_twice_changes_nothing() {
    let mut board = Board::new();
    board.set_piece(6 * 16 + 2, Some(Piece::new(PieceType::Pawn, Color::Red)));
    let source = board_to_tensor(&board);
    let mut data = source;
    mirror_tensor(&mut data);
    assert_eq!(data[6 * 90 + 6 * 9 + 6], 1);
    assert_eq!(data[6 * 90 + 6 * 9 + 2], 0);
    mirror_tensor(&mut data);
    assert!(data == source);
}

#[test]
fn actions_are_pairs_of_squares() {
    assert_eq!(move_to_index(Move::new(0, 0x98, false)), 89);
    assert_eq!(move_to_index(Move::new(0x98, 0, false)), 8010);
    for index in 0..8100 {
        let (from, to) = index_to_move(index);
        assert_eq!(move_to_index(Move::new(from, to, false)), index);
    }
}

#[test]
fn flipping_an_action_twice_gives_it_back() {
    assert_eq!(flip_sq90(0), 89);
    assert_eq!(flip_action_index(0), 8099);
    assert_eq!(flip_action_index(1), 89 * 90 + 88);
    for index in 0..8100 {
        assert_eq!(flip_action_index(flip_action_index(index)), index);
    }
}

#[test]
fn black_learns_from_its_own_side() {
    let m = Move::new(0, 0x10, false);
    assert_eq!(Move::move_to_nn_index(m, false), 9);
    assert_eq!(Move::move_to_nn_index(m, true), 8099 - 9);
}
