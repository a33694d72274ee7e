//! What a network is shown of a board, and how moves are numbered for it.

use crate::board::{square_at, Board, Color, Piece, PieceType, Position};
use crate::moves::{
    dense_of, lemma_dense_round_trip, lemma_square_round_trip, on_board, square_of_dense, Move,
};
use crate::zobrist::{piece_index, piece_index_spec};
use vstd::prelude::*;

verus! {

pub const BOARD_W: usize = 9;

pub const BOARD_H: usize = 10;

/// Seven kinds of own pieces, seven kinds of the other side's.
pub const NUM_PLANES: usize = 14;

pub const TENSOR_SIZE: usize = 1260;

/// Every pair of squares is one action.
pub const ACTION_SPACE: usize = 8100;

// ---------------------------------------------------------------------------
// The tensor
// ---------------------------------------------------------------------------
/// The plane of a piece: its kind, and seven more if it is not the mover's own.
pub open spec fn plane_of(piece: Piece, side: Color) -> int {
    piece_index_spec(Piece { piece_type: piece.piece_type, color: Color::Red }) + (if piece.color
        == side {
        0int
    } else {
        7
    })
}

/// The square that the tensor shows at a row and a column: the board is turned round
/// when black is to move.
pub open spec fn shown_square(side: Color, row: int, col: int) -> int {
    if side == Color::Black {
        square_at(9 - row, 8 - col)
    } else {
        square_at(row, col)
    }
}

/// What the tensor holds for a plane, a row and a column.
pub open spec fn tensor_cell(p: Position, plane: int, row: int, col: int) -> u8 {
    match p.piece_at(shown_square(p.side_to_move, row, col)) {
        Some(piece) => if plane_of(piece, p.side_to_move) == plane {
            1
        } else {
            0
        },
        None => 0,
    }
}

/// The tensor of a position: plane by plane, row by row.
pub open spec fn tensor_of(p: Position) -> Seq<u8> {
    Seq::new(1260, |i: int| tensor_cell(p, i / 90, i % 90 / 9, i % 9))
}

/// Turns a board into the tensor for the network, as zeros and ones.
pub fn board_to_tensor(board: &Board) -> (data: [u8; 1260])
    ensures
        data@ == tensor_of(board@),
{
    let mut data: [u8; 1260] = [0; 1260];
    let is_black = board.side_to_move == Color::Black;
    let mut i: usize = 0;
    while i < TENSOR_SIZE
        invariant
            i <= 1260,
            is_black == (board@.side_to_move == Color::Black),
            forall|j: int|
                0 <= j < i ==> #[trigger] data@[j] == tensor_cell(
                    board@,
                    j / 90,
                    j % 90 / 9,
                    j % 9,
                ),
        decreases 1260 - i,
    {
        let plane = i / 90;
        let row = i % 90 / 9;
        let col = i % 9;
        let sq = if is_black {
            Board::coord_to_square(9 - row, 8 - col)
        } else {
            Board::coord_to_square(row, col)
        };
        let cell: u8 = match board.piece_at(sq) {
            Some(piece) => {
                let kind = piece_index(Piece { piece_type: piece.piece_type, color: Color::Red });
                let piece_plane = if piece.color == board.side_to_move {
                    kind
                } else {
                    kind + 7
                };
                if piece_plane == plane {
                    1
                } else {
                    0
                }
            },
            None => 0,
        };
        data[i] = cell;
        i += 1;
    }
    assert(data@ =~= tensor_of(board@));
    data
}

/// The tensor holds a one where a piece stands and a zero everywhere else. The planes are
/// the mover's kings, advisors, elephants, horses, rooks, cannons and pawns and then the
/// other side's; the mover's side of the board is at the bottom.
pub proof fn law_a_tensor_shows_every_piece(p: Position, plane: int, row: int, col: int)
    requires
        0 <= plane < 14,
        0 <= row <= 9,
        0 <= col <= 8,
    ensures
        ({
            let cell = tensor_of(p)[90 * plane + 9 * row + col];
            let there = if p.side_to_move == Color::Red {
                p.cells[16 * row + col]
            } else {
                p.cells[16 * (9 - row) + (8 - col)]
            };
            let kind = seq![
                PieceType::King,
                PieceType::Advisor,
                PieceType::Elephant,
                PieceType::Horse,
                PieceType::Rook,
                PieceType::Cannon,
                PieceType::Pawn,
            ][plane % 7];
            &&& tensor_of(p).len() == 1260
            &&& cell == 0 || cell == 1
            &&& cell == 1 <==> there is Some && (there->0).piece_type == kind && ((there->0).color
                == p.side_to_move <==> plane < 7)
        }),
{
    let i = 90 * plane + 9 * row + col;
    assert(i / 90 == plane && i % 90 == 9 * row + col && i % 9 == col);
    assert(i % 90 / 9 == row);
    let sq = shown_square(p.side_to_move, row, col);
    assert(on_board(sq));
}

/// A square seen from the other side of the board.
pub open spec fn turned_square(sq: int) -> int {
    square_at(9 - sq / 16, 8 - sq % 16)
}

/// A piece in the other colour.
pub open spec fn recoloured(piece: Option<Piece>) -> Option<Piece> {
    match piece {
        Some(p) => Some(Piece { piece_type: p.piece_type, color: p.color.opposite_spec() }),
        None => None,
    }
}

/// The position turned round with the colours swapped, the other side to move.
pub open spec fn turned_round(p: Position) -> Position {
    Position {
        cells: Seq::new(
            256,
            |sq: int|
                if on_board(sq) {
                    recoloured(p.cells[turned_square(sq)])
                } else {
                    None
                },
        ),
        side_to_move: p.side_to_move.opposite_spec(),
        red_king_sq: turned_square(p.black_king_sq as int) as usize,
        black_king_sq: turned_square(p.red_king_sq as int) as usize,
    }
}

proof fn lemma_turned_square(row: int, col: int)
    requires
        0 <= row <= 9,
        0 <= col <= 8,
    ensures
        on_board(square_at(row, col)),
        turned_square(square_at(row, col)) == square_at(9 - row, 8 - col),
{
}

/// The network sees both sides alike: turning the board round and swapping the
/// colours does not change the tensor.
pub proof fn law_tensor_sees_both_sides_alike(p: Position)
    ensures
        tensor_of(turned_round(p)) == tensor_of(p),
{
    let q = turned_round(p);
    assert forall|i: int| 0 <= i < 1260 implies #[trigger] tensor_of(q)[i] == tensor_of(p)[i] by {
        let row = i % 90 / 9;
        let col = i % 9;
        assert(0 <= row <= 9 && 0 <= col <= 8);
        lemma_turned_square(row, col);
        lemma_turned_square(9 - row, 8 - col);
        let shown = shown_square(p.side_to_move, row, col);
        let sq = shown_square(q.side_to_move, row, col);
        assert(turned_square(sq) == shown);
        assert(q.cells[sq] == recoloured(p.cells[shown]));
        assert(tensor_cell(q, i / 90, row, col) == tensor_cell(p, i / 90, row, col));
    }
    assert(tensor_of(q) =~= tensor_of(p));
}

/// The tensor with its columns in reverse.
pub open spec fn mirrored_tensor(data: Seq<u8>) -> Seq<u8> {
    Seq::new(1260, |i: int| data[i - i % 9 + (8 - i % 9)])
}

/// Mirrors a tensor left to right.
pub fn mirror_tensor(data: &mut [u8; 1260])
    ensures
        final(data)@ == mirrored_tensor(old(data)@),
{
    let source: [u8; 1260] = *data;
    let mut i: usize = 0;
    while i < TENSOR_SIZE
        invariant
            i <= 1260,
            source@ == old(data)@,
            forall|j: int|
                0 <= j < i ==> #[trigger] data@[j] == source@[j - j % 9 + (8 - j % 9)],
        decreases 1260 - i,
    {
        let col = i % 9;
        assert(0 <= i - col && i - col + 8 < 1260);
        data[i] = source[i - col + (8 - col)];
        i += 1;
    }
    assert(data@ =~= mirrored_tensor(source@));
}

/// Mirroring twice changes nothing.
pub proof fn law_mirroring_a_tensor_twice(data: Seq<u8>)
    requires
        data.len() == 1260,
    ensures
        mirrored_tensor(mirrored_tensor(data)) == data,
{
    let twice = mirrored_tensor(mirrored_tensor(data));
    assert forall|i: int| 0 <= i < 1260 implies #[trigger] twice[i] == data[i] by {
        let j = i - i % 9 + (8 - i % 9);
        assert(0 <= j < 1260);
        assert(j % 9 == 8 - i % 9);
    }
    assert(twice =~= data);
}

// ---------------------------------------------------------------------------
// Action indices
// ---------------------------------------------------------------------------
/// The action index of a pair of squares.
pub open spec fn action_of(from: int, to: int) -> int {
    dense_of(from) * 90 + dense_of(to)
}

/// The action index of a move.
pub fn move_to_index(m: Move) -> (index: usize)
    ensures
        index == action_of(m.from_spec(), m.to_spec()),
{
    Move::to_dense(m.from_sq()) * 90 + Move::to_dense(m.to_sq())
}

/// The squares that an action index stands for.
pub fn index_to_move(index: usize) -> (squares: (usize, usize))
    requires
        index < ACTION_SPACE,
    ensures
        squares.0 == square_of_dense(index as int / 90),
        squares.1 == square_of_dense(index as int % 90),
        on_board(squares.0 as int),
        on_board(squares.1 as int),
{
    proof {
        lemma_square_round_trip(index as int / 90);
        lemma_square_round_trip(index as int % 90);
    }
    (Move::from_dense(index / 90), Move::from_dense(index % 90))
}

/// Every action index stands for a pair of squares, and for no other pair.
pub proof fn law_actions_are_pairs_of_squares(index: int, from: int, to: int)
    requires
        0 <= index < ACTION_SPACE,
        on_board(from),
        on_board(to),
    ensures
        action_of(square_of_dense(index / 90), square_of_dense(index % 90)) == index,
        0 <= action_of(from, to) < ACTION_SPACE,
        square_of_dense(action_of(from, to) / 90) == from,
        square_of_dense(action_of(from, to) % 90) == to,
{
    lemma_square_round_trip(index / 90);
    lemma_square_round_trip(index % 90);
    lemma_dense_round_trip(from);
    lemma_dense_round_trip(to);
}

/// A square, 0 to 89, seen from the other side of the board.
pub fn flip_sq90(sq90: usize) -> (flipped: usize)
    requires
        sq90 <= 89,
    ensures
        flipped == 89 - sq90,
{
    89 - sq90
}

/// The action seen from the other side of the board.
pub open spec fn flipped_action(index: int) -> int {
    (89 - index / 90) * 90 + (89 - index % 90)
}

/// Turns an action index to the other side of the board.
pub fn flip_action_index(idx: usize) -> (flipped: usize)
    requires
        idx < ACTION_SPACE,
    ensures
        flipped == flipped_action(idx as int),
        flipped < ACTION_SPACE,
{
    let from_sq90 = idx / 90;
    let to_sq90 = idx % 90;
    let flipped_from = flip_sq90(from_sq90);
    let flipped_to = flip_sq90(to_sq90);
    flipped_from * 90 + flipped_to
}

/// Turning an action twice gives it back.
pub proof fn law_flipping_an_action_twice(index: int)
    requires
        0 <= index < ACTION_SPACE,
    ensures
        0 <= flipped_action(index) < ACTION_SPACE,
        flipped_action(flipped_action(index)) == index,
{
    let from = index / 90;
    let to = index % 90;
    let f = flipped_action(index);
    assert(f / 90 == 89 - from);
    assert(f % 90 == 89 - to);
}

/// An action turned to the other side is the action of the turned squares.
pub proof fn law_flipped_action_turns_squares(from: int, to: int)
    requires
        on_board(from),
        on_board(to),
    ensures
        flipped_action(action_of(from, to)) == action_of(turned_square(from), turned_square(to)),
{
    assert(dense_of(turned_square(from)) == 89 - dense_of(from));
    assert(dense_of(turned_square(to)) == 89 - dense_of(to));
    assert(action_of(from, to) / 90 == dense_of(from));
    assert(action_of(from, to) % 90 == dense_of(to));
}

impl Move {
    /// The action index that the network learns for a move: for black as seen from its
    /// side of the board.
    pub fn move_to_nn_index(m: Move, is_black: bool) -> (index: usize)
        requires
            on_board(m.from_spec()),
            on_board(m.to_spec()),
        ensures
            index == (if is_black {
                flipped_action(action_of(m.from_spec(), m.to_spec()))
            } else {
                action_of(m.from_spec(), m.to_spec())
            }),
    {
        let index = move_to_index(m);
        if is_black {
            flip_action_index(index)
        } else {
            index
        }
    }
}

/// The action on the board mirrored left to right.
pub open spec fn mirrored_action(index: int) -> int {
    let from = index / 90;
    let to = index % 90;
    (from - from % 9 + (8 - from % 9)) * 90 + (to - to % 9 + (8 - to % 9))
}

/// A mirrored action leaves and reaches the same rows, and the mirrored columns.
pub proof fn law_a_mirrored_action_has_mirrored_columns(index: int)
    requires
        index >= 0,
    ensures
        ({
            let m = mirrored_action(index);
            &&& m / 90 / 9 == index / 90 / 9
            &&& m / 90 % 9 == 8 - index / 90 % 9
            &&& m % 90 / 9 == index % 90 / 9
            &&& m % 90 % 9 == 8 - index % 90 % 9
        }),
{
    let from = index / 90;
    let to = index % 90;
    let m = mirrored_action(index);
    let f = from - from % 9 + (8 - from % 9);
    let t = to - to % 9 + (8 - to % 9);
    assert(0 <= t < 90);
    assert(m / 90 == f && m % 90 == t);
}

/// An action turned round leaves and reaches the turned rows and columns.
pub proof fn law_a_flipped_action_has_turned_squares(index: int)
    requires
        0 <= index < 8100,
    ensures
        ({
            let f = flipped_action(index);
            &&& 0 <= f < 8100
            &&& f / 90 / 9 == 9 - index / 90 / 9
            &&& f / 90 % 9 == 8 - index / 90 % 9
            &&& f % 90 / 9 == 9 - index % 90 / 9
            &&& f % 90 % 9 == 8 - index % 90 % 9
        }),
{
    let f = flipped_action(index);
    assert(f / 90 == 89 - index / 90);
    assert(f % 90 == 89 - index % 90);
}

/// Mirroring an action twice gives it back.
pub proof fn law_mirroring_an_action_twice(index: int)
    requires
        0 <= index < ACTION_SPACE,
    ensures
        0 <= mirrored_action(index) < ACTION_SPACE,
        mirrored_action(mirrored_action(index)) == index,
{
    let from = index / 90;
    let to = index % 90;
    let m = mirrored_action(index);
    let f = from - from % 9 + (8 - from % 9);
    let t = to - to % 9 + (8 - to % 9);
    assert(0 <= f < 90 && 0 <= t < 90);
    assert(f % 9 == 8 - from % 9);
    assert(t % 9 == 8 - to % 9);
    assert(m / 90 == f);
    assert(m % 90 == t);
}

} // verus!
