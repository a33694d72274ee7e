//! The board.

use crate::moves::{on_board, Move};
use vstd::prelude::*;

verus! {

#[derive(Copy, Clone, Debug, PartialEq, Eq, Structural)]
pub enum Color {
    Red,
    Black,
}

impl Color {
    pub open spec fn opposite_spec(self) -> Color {
        match self {
            Color::Red => Color::Black,
            Color::Black => Color::Red,
        }
    }

    /// The other side.
    pub fn opposite(&self) -> (c: Self)
        ensures
            c == self.opposite_spec(),
    {
        match self {
            Color::Red => Color::Black,
            Color::Black => Color::Red,
        }
    }
}

#[derive(Copy, Clone, Debug, PartialEq, Eq, Structural)]
pub enum PieceType {
    King,
    Advisor,
    Elephant,
    Horse,
    Rook,
    Cannon,
    Pawn,
}

#[derive(Copy, Clone, Debug, PartialEq, Eq, Structural)]
pub struct Piece {
    pub piece_type: PieceType,
    pub color: Color,
}

impl Piece {
    pub fn new(piece_type: PieceType, color: Color) -> (p: Self)
        ensures
            p == (Piece { piece_type, color }),
    {
        Self { piece_type, color }
    }
}

/// The board: a 256-element array in rows of sixteen, of which ten rows of nine
/// are playable, the side to move and where the kings stand.
#[derive(Copy, Clone)]
pub struct Board {
    pub squares: [Option<Piece>; 256],
    pub side_to_move: Color,
    pub red_king_sq: usize,
    pub black_king_sq: usize,
}

#[derive(Copy, Clone, Debug)]
pub struct UndoInfo {
    pub captured_piece: Option<Piece>,
    pub previous_red_king_sq: usize,
    pub previous_black_king_sq: usize,
}

/// What a board holds, as a mathematical value.
#[verifier::ext_equal]
pub struct Position {
    pub cells: Seq<Option<Piece>>,
    pub side_to_move: Color,
    pub red_king_sq: usize,
    pub black_king_sq: usize,
}

impl View for Board {
    type V = Position;

    open spec fn view(&self) -> Position {
        Position {
            cells: self.squares@,
            side_to_move: self.side_to_move,
            red_king_sq: self.red_king_sq,
            black_king_sq: self.black_king_sq,
        }
    }
}

impl Position {
    /// The piece on a square; nothing stands off the board.
    pub open spec fn piece_at(self, sq: int) -> Option<Piece> {
        if on_board(sq) {
            self.cells[sq]
        } else {
            None
        }
    }

    pub open spec fn is_empty(self, sq: int) -> bool {
        self.piece_at(sq) is None
    }

    /// The position with `piece` on `sq`; off the board nothing changes.
    pub open spec fn with_piece(self, sq: int, piece: Option<Piece>) -> Position {
        if on_board(sq) {
            Position { cells: self.cells.update(sq, piece), ..self }
        } else {
            self
        }
    }
}

/// The 0x88 index of a row and a column.
pub open spec fn square_at(row: int, col: int) -> int {
    row * 16 + col
}

/// The square `k` steps of `dir` away from `sq`.
pub open spec fn line_square(sq: int, dir: int, k: int) -> int {
    sq + k * dir
}

/// The eight jumps of a horse, as 0x88 offsets.
pub open spec fn horse_jumps() -> Seq<int> {
    seq![-33, -31, -14, 18, 33, 31, 14, -18]
}

/// For each jump, the offset of the square (the leg) that has to be free.
pub open spec fn horse_legs() -> Seq<int> {
    seq![-16, -16, 1, 1, 16, 16, -1, -1]
}

impl Position {
    pub open spec fn king_square(self, color: Color) -> int {
        match color {
            Color::Red => self.red_king_sq as int,
            Color::Black => self.black_king_sq as int,
        }
    }

    /// The kings stand on one file and every square between them is empty, whichever
    /// of them stands above.
    pub open spec fn kings_facing(self) -> bool {
        let col = self.red_king_sq as int % 16;
        let red = self.red_king_sq as int / 16;
        let black = self.black_king_sq as int / 16;
        &&& col == self.black_king_sq as int % 16
        &&& forall|row: int|
            (black < row < red || red < row < black) ==> self.is_empty(
                #[trigger] square_at(row, col),
            )
    }

    /// How many of the squares one to `k` steps of `dir` away from `sq` are occupied.
    pub open spec fn pieces_on_line(self, sq: int, dir: int, k: int) -> nat
        decreases k,
    {
        if k <= 0 {
            0
        } else {
            self.pieces_on_line(sq, dir, k - 1) + (if self.is_empty(line_square(sq, dir, k)) {
                0nat
            } else {
                1nat
            })
        }
    }

    /// The piece `k` steps away attacks `sq` along the line: a rook of that colour
    /// with nothing in between, or a cannon with one piece in between.
    pub open spec fn line_hit(self, sq: int, dir: int, color: Color, k: int) -> bool {
        &&& forall|j: int| 1 <= j <= k ==> on_board(#[trigger] line_square(sq, dir, j))
        &&& self.piece_at(line_square(sq, dir, k)) matches Some(piece)
        &&& piece.color == color
        &&& {
            let between = self.pieces_on_line(sq, dir, k - 1);
            ||| piece.piece_type == PieceType::Rook && between == 0
            ||| piece.piece_type == PieceType::Cannon && between == 1
        }
    }

    pub open spec fn line_attacked(self, sq: int, dir: int, color: Color) -> bool {
        exists|k: int| k >= 1 && self.line_hit(sq, dir, color, k)
    }

    /// The horse jump number `i` ends on `sq`: a horse of that colour stands where
    /// the jump starts, and the leg square beside it is empty.
    pub open spec fn horse_hit(self, sq: int, color: Color, i: int) -> bool {
        let horse_sq = sq - horse_jumps()[i];
        &&& self.piece_at(horse_sq) == Some(Piece { piece_type: PieceType::Horse, color })
        &&& self.is_empty(horse_sq + horse_legs()[i])
    }

    /// A pawn of that colour attacks `sq`: one step behind it in the pawn's own
    /// direction of march, or beside it.
    pub open spec fn pawn_attacked(self, sq: int, color: Color) -> bool {
        let pawn = Some(Piece { piece_type: PieceType::Pawn, color });
        let behind = match color {
            Color::Red => 16int,
            Color::Black => -16int,
        };
        ||| self.piece_at(sq + behind) == pawn
        ||| self.piece_at(sq - 1) == pawn
        ||| self.piece_at(sq + 1) == pawn
    }

    /// A rook, cannon, horse or pawn of that colour attacks `sq`.
    pub open spec fn attacked(self, sq: int, color: Color) -> bool {
        ||| self.line_attacked_any(sq, color)
        ||| exists|i: int| 0 <= i < 8 && self.horse_hit(sq, color, i)
        ||| self.pawn_attacked(sq, color)
    }

    /// The king of `color` is attacked by a piece of the other side.
    pub open spec fn in_check(self, color: Color) -> bool {
        self.attacked(self.king_square(color), color.opposite_spec())
    }

    pub open spec fn line_attacked_any(self, sq: int, color: Color) -> bool {
        ||| self.line_attacked(sq, 1, color)
        ||| self.line_attacked(sq, -1, color)
        ||| self.line_attacked(sq, 16, color)
        ||| self.line_attacked(sq, -16, color)
    }

    /// Every leg square that has to be looked at has an index. The one leg without
    /// an index lies left of square 0; it matters only for a king recorded on index
    /// 14, off the board, and a horse on square 0, and there only when no attack is
    /// found before that horse is looked at.
    pub open spec fn horse_legs_exist(self, color: Color) -> bool {
        let king_sq = self.king_square(color);
        let opp = color.opposite_spec();
        ||| king_sq != 14
        ||| self.piece_at(0) != Some(Piece { piece_type: PieceType::Horse, color: opp })
        ||| self.line_attacked_any(king_sq, opp)
        ||| exists|i: int| 0 <= i < 6 && self.horse_hit(king_sq, opp, i)
    }

    /// The position after a move: the piece lands, its old square empties, a king's
    /// new square is recorded and the turn passes.
    #[verifier::opaque]
    pub open spec fn after_move(self, m: Move) -> Position {
        let piece = self.piece_at(m.from_spec())->0;
        let moved = self.with_piece(m.to_spec(), Some(piece)).with_piece(m.from_spec(), None);
        let king = piece.piece_type == PieceType::King;
        Position {
            cells: moved.cells,
            side_to_move: self.side_to_move.opposite_spec(),
            red_king_sq: if king && piece.color == Color::Red {
                m.to_spec() as usize
            } else {
                self.red_king_sq
            },
            black_king_sq: if king && piece.color == Color::Black {
                m.to_spec() as usize
            } else {
                self.black_king_sq
            },
        }
    }

    /// The position before a move that led here, by what was noted when it was made.
    #[verifier::opaque]
    pub open spec fn before_move(self, m: Move, undo: UndoInfo) -> Position {
        let piece = self.piece_at(m.to_spec())->0;
        let moved = self.with_piece(m.from_spec(), Some(piece)).with_piece(
            m.to_spec(),
            undo.captured_piece,
        );
        Position {
            cells: moved.cells,
            side_to_move: self.side_to_move.opposite_spec(),
            red_king_sq: undo.previous_red_king_sq,
            black_king_sq: undo.previous_black_king_sq,
        }
    }

    proof fn lemma_pieces_on_line_grow(self, sq: int, dir: int, k: int, m: int)
        requires
            0 <= k <= m,
        ensures
            self.pieces_on_line(sq, dir, k) <= self.pieces_on_line(sq, dir, m),
        decreases m,
    {
        if k < m {
            self.lemma_pieces_on_line_grow(sq, dir, k, m - 1);
        }
    }
}

/// The kinds of the pieces on a back row, from the first column to the last.
pub open spec fn back_row() -> Seq<PieceType> {
    seq![
        PieceType::Rook,
        PieceType::Horse,
        PieceType::Elephant,
        PieceType::Advisor,
        PieceType::King,
        PieceType::Advisor,
        PieceType::Elephant,
        PieceType::Horse,
        PieceType::Rook,
    ]
}

/// What stands on a square at the start of a game.
pub open spec fn initial_piece(row: int, col: int) -> Option<Piece> {
    let color = if row <= 4 {
        Color::Black
    } else {
        Color::Red
    };
    if !(0 <= row <= 9 && 0 <= col <= 8) {
        None
    } else if row == 0 || row == 9 {
        Some(Piece { piece_type: back_row()[col], color })
    } else if (row == 2 || row == 7) && (col == 1 || col == 7) {
        Some(Piece { piece_type: PieceType::Cannon, color })
    } else if (row == 3 || row == 6) && col % 2 == 0 {
        Some(Piece { piece_type: PieceType::Pawn, color })
    } else {
        None
    }
}

/// The start of a game: black at the top, red at the bottom, red to move.
pub open spec fn initial_position() -> Position {
    Position {
        cells: Seq::new(256, |sq: int| initial_piece(sq / 16, sq % 16)),
        side_to_move: Color::Red,
        red_king_sq: 148,
        black_king_sq: 4,
    }
}

/// Taking a move back gives the position before it. The move has to leave an
/// occupied square for another square of the board.
pub proof fn law_unmake_undoes_make(p: Position, m: Move, undo: UndoInfo)
    requires
        p.cells.len() == 256,
        p.piece_at(m.from_spec()) is Some,
        on_board(m.to_spec()),
        m.from_spec() != m.to_spec(),
        undo.captured_piece == p.piece_at(m.to_spec()),
        undo.previous_red_king_sq == p.red_king_sq,
        undo.previous_black_king_sq == p.black_king_sq,
    ensures
        p.after_move(m).piece_at(m.to_spec()) is Some,
        p.after_move(m).before_move(m, undo) == p,
{
    reveal(Position::after_move);
    reveal(Position::before_move);
    let q = p.after_move(m).before_move(m, undo);
    assert(q.cells =~= p.cells);
}

impl Board {
    /// The array has one cell for each index.
    pub proof fn lemma_cells_len(&self)
        ensures
            self@.cells.len() == 256,
    {
    }

    pub fn new() -> (b: Self)
        ensures
            b@.cells == Seq::new(256, |i: int| None::<Piece>),
            b@.side_to_move == Color::Red,
            b@.red_king_sq == 0,
            b@.black_king_sq == 0,
    {
        let b = Self {
            squares: [None; 256],
            side_to_move: Color::Red,
            red_king_sq: 0,
            black_king_sq: 0,
        };
        assert(b@.cells =~= Seq::new(256, |i: int| None::<Piece>));
        b
    }

    /// Checks if a square index is strictly within the 10x9 board boundaries.
    pub fn is_valid_square(square: usize) -> (valid: bool)
        ensures
            valid == on_board(square as int),
    {
        assert(square & 0x0F == square % 16) by (bit_vector);
        (square & 0x0F) <= 8 && square <= 0x98
    }

    pub fn piece_at(&self, square: usize) -> (p: Option<Piece>)
        ensures
            p == self@.piece_at(square as int),
    {
        if Self::is_valid_square(square) {
            self.squares[square]
        } else {
            None
        }
    }

    pub fn set_piece(&mut self, square: usize, piece: Option<Piece>)
        ensures
            final(self)@ == old(self)@.with_piece(square as int, piece),
    {
        if Self::is_valid_square(square) {
            self.squares[square] = piece;
            assert(self@.cells =~= old(self)@.cells.update(square as int, piece));
        }
    }

    /// Returns the coordinate representation (row, col).
    pub fn square_to_coord(square: usize) -> (coord: (usize, usize))
        ensures
            coord.0 == square as int / 16,
            coord.1 == square as int % 16,
    {
        (square / 16, square % 16)
    }

    /// Given a 0-based row and col, returns the 0x88 square index.
    pub fn coord_to_square(row: usize, col: usize) -> (square: usize)
        requires
            row * 16 + col <= usize::MAX,
        ensures
            square == row * 16 + col,
    {
        row * 16 + col
    }

    pub fn is_empty(&self, square: usize) -> (empty: bool)
        ensures
            empty == self@.is_empty(square as int),
    {
        self.piece_at(square).is_none()
    }

    /// Checks if the two kings are facing each other on the same file with no pieces in between.
    pub fn kings_facing(&self) -> (facing: bool)
        ensures
            facing == self@.kings_facing(),
    {
        let (r_row, r_col) = Self::square_to_coord(self.red_king_sq);
        let (b_row, b_col) = Self::square_to_coord(self.black_king_sq);

        if r_col == b_col {
            let (upper, lower) = if b_row < r_row {
                (b_row, r_row)
            } else {
                (r_row, b_row)
            };
            let mut current: usize = upper + 1;
            while current < lower
                invariant
                    r_row == self@.red_king_sq as int / 16,
                    r_col == self@.red_king_sq as int % 16,
                    b_row == self@.black_king_sq as int / 16,
                    b_col == self@.black_king_sq as int % 16,
                    r_col == b_col,
                    upper == (if b_row < r_row { b_row } else { r_row }),
                    lower == (if b_row < r_row { r_row } else { b_row }),
                    upper < current,
                    forall|row: int|
                        upper < row < current ==> self@.is_empty(#[trigger] square_at(row, r_col as int)),
                decreases lower - current,
            {
                let sq = Self::coord_to_square(current, r_col);
                assert(sq == square_at(current as int, r_col as int));
                if !self.is_empty(sq) {
                    return false;
                }
                current += 1;
            }
            return true;
        }
        false
    }

    /// Looks along one line from a king for a rook in the open or a cannon behind one screen.
    fn line_attacked(&self, king_sq: usize, dir: isize, opp_color: Color) -> (attacked: bool)
        requires
            dir == 1 || dir == -1 || dir == 16 || dir == -16,
        ensures
            attacked == self@.line_attacked(king_sq as int, dir as int, opp_color),
    {
        let mut current_opt: Option<usize> = king_sq.checked_add_signed(dir);
        let mut pieces_between: usize = 0;
        let ghost mut k: int = 1;
        loop
            invariant
                dir == 1 || dir == -1 || dir == 16 || dir == -16,
                k >= 1,
                current_opt is Some <==> 0 <= king_sq + k * dir <= usize::MAX,
                current_opt is Some ==> current_opt->0 == king_sq + k * dir,
                forall|j: int| 1 <= j < k ==> on_board(
                    #[trigger] line_square(king_sq as int, dir as int, j),
                ),
                pieces_between == self@.pieces_on_line(king_sq as int, dir as int, k - 1),
                pieces_between <= 1,
                forall|j: int| 1 <= j < k ==> !self@.line_hit(king_sq as int, dir as int, opp_color, j),
            decreases
                (if dir > 0 {
                    300 - king_sq - k * dir
                } else {
                    king_sq + k * dir + 20
                }),
        {
            match current_opt {
                None => {
                    assert(!on_board(line_square(king_sq as int, dir as int, k)));
                    return false;
                },
                Some(current) => {
                    if !Self::is_valid_square(current) {
                        assert(!on_board(line_square(king_sq as int, dir as int, k)));
                        return false;
                    }
                    if let Some(piece) = self.piece_at(current) {
                        if piece.color == opp_color {
                            if pieces_between == 0 && piece.piece_type == PieceType::Rook {
                                assert(self@.line_hit(king_sq as int, dir as int, opp_color, k));
                                return true;
                            }
                            if pieces_between == 1 && piece.piece_type == PieceType::Cannon {
                                assert(self@.line_hit(king_sq as int, dir as int, opp_color, k));
                                return true;
                            }
                        }
                        pieces_between += 1;
                        if pieces_between > 1 {
                            proof {
                                assert forall|j: int| 1 <= j implies !self@.line_hit(
                                    king_sq as int,
                                    dir as int,
                                    opp_color,
                                    j,
                                ) by {
                                    if j > k {
                                        self@.lemma_pieces_on_line_grow(
                                            king_sq as int,
                                            dir as int,
                                            k,
                                            j - 1,
                                        );
                                    }
                                }
                            }
                            return false;
                        }
                    }
                    current_opt = current.checked_add_signed(dir);
                    proof {
                        assert((k + 1) * dir == k * dir + dir) by (nonlinear_arith);
                        k = k + 1;
                    }
                },
            }
        }
    }

    /// Checks if a specific color's King is under attack by opponent pieces.
    pub fn is_in_check(&self, color: Color) -> (check: bool)
        requires
            self@.horse_legs_exist(color),
        ensures
            check == self@.in_check(color),
    {
        self.king_attacked(color)
    }

    /// Whether a king is attacked, wherever it is recorded: the leg without an index
    /// counts as empty, as every square off the board does.
    pub fn king_attacked(&self, color: Color) -> (attacked: bool)
        ensures
            attacked == self@.in_check(color),
    {
        let king_sq = if color == Color::Red {
            self.red_king_sq
        } else {
            self.black_king_sq
        };
        let opp_color = color.opposite();

        // 1. Rook and Cannon attacks
        let dirs: [isize; 4] = [1, -1, 16, -16];
        let mut d: usize = 0;
        while d < 4
            invariant
                d <= 4,
                dirs@ == seq![1isize, -1isize, 16isize, -16isize],
                forall|e: int| 0 <= e < d ==> !self@.line_attacked(king_sq as int, #[trigger] dirs@[e] as int, opp_color),
                self@.king_square(color) == king_sq,
                opp_color == color.opposite_spec(),
            decreases 4 - d,
        {
            if self.line_attacked(king_sq, dirs[d], opp_color) {
                return true;
            }
            d += 1;
        }
        assert(dirs@[0] == 1 && dirs@[1] == -1 && dirs@[2] == 16 && dirs@[3] == -16);

        // 2. Horse attacks, from the horse to the king
        let jumps: [isize; 8] = [-33, -31, -14, 18, 33, 31, 14, -18];
        let legs: [isize; 8] = [-16, -16, 1, 1, 16, 16, -1, -1];
        let mut i: usize = 0;
        while i < 8
            invariant
                i <= 8,
                forall|e: int| 0 <= e < 8 ==> #[trigger] jumps@[e] == horse_jumps()[e],
                forall|e: int| 0 <= e < 8 ==> #[trigger] legs@[e] == horse_legs()[e],
                forall|e: int| 0 <= e < i ==> !self@.horse_hit(king_sq as int, opp_color, e),
                self@.king_square(color) == king_sq,
                opp_color == color.opposite_spec(),
                !self@.line_attacked_any(king_sq as int, opp_color),
            decreases 8 - i,
        {
            assert(jumps@[i as int] == horse_jumps()[i as int]);
            assert(legs@[i as int] == horse_legs()[i as int]);
            let opp_horse_offset: isize = -jumps[i];
            if let Some(opp_horse_sq) = king_sq.checked_add_signed(opp_horse_offset) {
                if Self::is_valid_square(opp_horse_sq) {
                    if let Some(piece) = self.piece_at(opp_horse_sq) {
                        if piece.color == opp_color && piece.piece_type == PieceType::Horse {
                            let free = match opp_horse_sq.checked_add_signed(legs[i]) {
                                Some(leg_sq) => self.is_empty(leg_sq),
                                None => true,
                            };
                            if free {
                                assert(self@.horse_hit(king_sq as int, opp_color, i as int));
                                return true;
                            }
                        }
                    }
                }
            }
            i += 1;
        }

        // 3. Pawn attacks: black pawns move down the board, red pawns up
        let opp_forward: isize = if color == Color::Red {
            -16
        } else {
            16
        };
        self.pawn_on(king_sq, opp_forward, opp_color) || self.pawn_on(king_sq, -1, opp_color)
            || self.pawn_on(king_sq, 1, opp_color)
    }

    /// A pawn of that colour stands `offset` away.
    fn pawn_on(&self, king_sq: usize, offset: isize, color: Color) -> (found: bool)
        requires
            -16 <= offset <= 16,
        ensures
            found == (self@.piece_at(king_sq + offset) == Some(
                Piece { piece_type: PieceType::Pawn, color },
            )),
    {
        if let Some(pawn_sq) = king_sq.checked_add_signed(offset) {
            if Self::is_valid_square(pawn_sq) {
                if let Some(piece) = self.piece_at(pawn_sq) {
                    if piece.color == color && piece.piece_type == PieceType::Pawn {
                        return true;
                    }
                }
            }
        }
        false
    }

    pub fn make_move(&mut self, m: Move) -> (undo: UndoInfo)
        requires
            old(self)@.piece_at(m.from_spec()) is Some,
        ensures
            final(self)@ == old(self)@.after_move(m),
            undo.captured_piece == old(self)@.piece_at(m.to_spec()),
            undo.previous_red_king_sq == old(self)@.red_king_sq,
            undo.previous_black_king_sq == old(self)@.black_king_sq,
    {
        reveal(Position::after_move);
        let from = m.from_sq();
        let to = m.to_sq();
        let piece = self.piece_at(from).unwrap();
        let captured = self.piece_at(to);

        let undo = UndoInfo {
            captured_piece: captured,
            previous_red_king_sq: self.red_king_sq,
            previous_black_king_sq: self.black_king_sq,
        };

        // Move piece
        self.set_piece(to, Some(piece));
        self.set_piece(from, None);

        // Update king position if moved
        if piece.piece_type == PieceType::King {
            if piece.color == Color::Red {
                self.red_king_sq = to;
            } else {
                self.black_king_sq = to;
            }
        }
        self.side_to_move = self.side_to_move.opposite();
        undo
    }

    pub fn unmake_move(&mut self, m: Move, undo: UndoInfo)
        requires
            old(self)@.piece_at(m.to_spec()) is Some,
        ensures
            final(self)@ == old(self)@.before_move(m, undo),
    {
        reveal(Position::before_move);
        let from = m.from_sq();
        let to = m.to_sq();
        let piece = self.piece_at(to).unwrap();

        // Restore piece to original square
        self.set_piece(from, Some(piece));

        // Restore captured piece (if any)
        self.set_piece(to, undo.captured_piece);

        // Restore king positions
        self.red_king_sq = undo.previous_red_king_sq;
        self.black_king_sq = undo.previous_black_king_sq;

        // Restore side to move
        self.side_to_move = self.side_to_move.opposite();
    }

    fn place(&mut self, row: usize, col: usize, piece_type: PieceType, color: Color)
        requires
            row <= 9,
            col <= 8,
        ensures
            final(self)@ == (Position {
                cells: old(self)@.cells.update(row * 16 + col, Some(Piece { piece_type, color })),
                ..old(self)@
            }),
    {
        self.set_piece(Self::coord_to_square(row, col), Some(Piece::new(piece_type, color)));
    }

    /// Sets up the start of a game, red to move.
    #[verifier::rlimit(50)]
    pub fn set_initial_position(&mut self)
        ensures
            final(self)@ == initial_position(),
    {
        self.squares = [None; 256];
        self.side_to_move = Color::Red;
        self.red_king_sq = Self::coord_to_square(9, 4);
        self.black_king_sq = Self::coord_to_square(0, 4);

        // Black (top, rows 0 to 3)
        self.place(0, 0, PieceType::Rook, Color::Black);
        self.place(0, 1, PieceType::Horse, Color::Black);
        self.place(0, 2, PieceType::Elephant, Color::Black);
        self.place(0, 3, PieceType::Advisor, Color::Black);
        self.place(0, 4, PieceType::King, Color::Black);
        self.place(0, 5, PieceType::Advisor, Color::Black);
        self.place(0, 6, PieceType::Elephant, Color::Black);
        self.place(0, 7, PieceType::Horse, Color::Black);
        self.place(0, 8, PieceType::Rook, Color::Black);
        self.place(2, 1, PieceType::Cannon, Color::Black);
        self.place(2, 7, PieceType::Cannon, Color::Black);
        self.place(3, 0, PieceType::Pawn, Color::Black);
        self.place(3, 2, PieceType::Pawn, Color::Black);
        self.place(3, 4, PieceType::Pawn, Color::Black);
        self.place(3, 6, PieceType::Pawn, Color::Black);
        self.place(3, 8, PieceType::Pawn, Color::Black);
        // Red (bottom, rows 6 to 9)
        self.place(9, 0, PieceType::Rook, Color::Red);
        self.place(9, 1, PieceType::Horse, Color::Red);
        self.place(9, 2, PieceType::Elephant, Color::Red);
        self.place(9, 3, PieceType::Advisor, Color::Red);
        self.place(9, 4, PieceType::King, Color::Red);
        self.place(9, 5, PieceType::Advisor, Color::Red);
        self.place(9, 6, PieceType::Elephant, Color::Red);
        self.place(9, 7, PieceType::Horse, Color::Red);
        self.place(9, 8, PieceType::Rook, Color::Red);
        self.place(7, 1, PieceType::Cannon, Color::Red);
        self.place(7, 7, PieceType::Cannon, Color::Red);
        self.place(6, 0, PieceType::Pawn, Color::Red);
        self.place(6, 2, PieceType::Pawn, Color::Red);
        self.place(6, 4, PieceType::Pawn, Color::Red);
        self.place(6, 6, PieceType::Pawn, Color::Red);
        self.place(6, 8, PieceType::Pawn, Color::Red);

        assert(self@.cells =~= initial_position().cells);
    }
}

} // verus!
