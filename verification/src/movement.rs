//! How the pieces of Xiangqi move.

use crate::board::{horse_jumps, horse_legs, line_square, Board, Color, Piece, PieceType, Position};
use crate::moves::on_board;
use vstd::prelude::*;

verus! {

pub open spec fn row_of(sq: int) -> int {
    sq / 16
}

pub open spec fn col_of(sq: int) -> int {
    sq % 16
}

pub open spec fn distance(a: int, b: int) -> int {
    if a >= b {
        a - b
    } else {
        b - a
    }
}

/// The square lies in the palace of that colour.
pub open spec fn in_palace(sq: int, color: Color) -> bool {
    &&& 3 <= col_of(sq) <= 5
    &&& match color {
        Color::Red => 7 <= row_of(sq) <= 9,
        Color::Black => 0 <= row_of(sq) <= 2,
    }
}

/// The square lies on that colour's side of the river.
pub open spec fn on_own_side(sq: int, color: Color) -> bool {
    match color {
        Color::Red => row_of(sq) >= 5,
        Color::Black => row_of(sq) <= 4,
    }
}

/// One step of the pawn of that colour: forward, or sideways beyond the river.
pub open spec fn pawn_step(from: int, to: int, color: Color) -> bool {
    let forward = match color {
        Color::Red => -16int,
        Color::Black => 16int,
    };
    ||| to == from + forward
    ||| !on_own_side(from, color) && (to == from + 1 || to == from - 1)
}

impl Position {
    /// A horse may jump from `from` to `to`: it is one of the eight jumps, and the leg
    /// is free.
    pub open spec fn horse_step(self, from: int, to: int) -> bool {
        exists|i: int|
            0 <= i < 8 && to == from + #[trigger] horse_jumps()[i] && self.is_empty(
                from + horse_legs()[i],
            )
    }

    /// The number of pieces strictly between two squares of one row or one column.
    pub open spec fn pieces_between(self, from: int, to: int) -> nat {
        if row_of(from) == row_of(to) {
            if to > from {
                self.pieces_on_line(from, 1, to - from - 1)
            } else {
                self.pieces_on_line(from, -1, from - to - 1)
            }
        } else {
            if to > from {
                self.pieces_on_line(from, 16, row_of(to) - row_of(from) - 1)
            } else {
                self.pieces_on_line(from, -16, row_of(from) - row_of(to) - 1)
            }
        }
    }

    pub open spec fn aligned(self, from: int, to: int) -> bool {
        &&& from != to
        &&& row_of(from) == row_of(to) || col_of(from) == col_of(to)
    }

    /// How the piece on `from` could go to `to`, apart from what stands there.
    /// `screens` is the number of pieces that a cannon has to pass.
    pub open spec fn can_go(self, from: int, to: int, screens: nat) -> bool {
        &&& on_board(to)
        &&& self.piece_at(from) matches Some(piece)
        &&& {
            let rows = distance(row_of(from), row_of(to));
            let cols = distance(col_of(from), col_of(to));
            match piece.piece_type {
                PieceType::King => rows + cols == 1 && in_palace(to, piece.color),
                PieceType::Advisor => rows == 1 && cols == 1 && in_palace(to, piece.color),
                PieceType::Elephant => {
                    &&& rows == 2 && cols == 2
                    &&& on_own_side(to, piece.color)
                    &&& self.is_empty((from + to) / 2)
                },
                PieceType::Horse => self.horse_step(from, to),
                PieceType::Rook => self.aligned(from, to) && self.pieces_between(from, to) == 0,
                PieceType::Cannon => self.aligned(from, to) && self.pieces_between(from, to)
                    == screens,
                PieceType::Pawn => pawn_step(from, to, piece.color),
            }
        }
    }

    /// The piece on `from` attacks (or protects) the square `to`.
    pub open spec fn attacks(self, from: int, to: int) -> bool {
        self.can_go(from, to, 1)
    }

    /// The piece on `from` may take the enemy piece on `to`.
    pub open spec fn may_capture(self, from: int, to: int) -> bool {
        &&& self.attacks(from, to)
        &&& self.piece_at(to) matches Some(victim)
        &&& victim.color != (self.piece_at(from)->0).color
    }

    /// The piece on `from` may go to the empty square `to`.
    pub open spec fn may_go(self, from: int, to: int) -> bool {
        &&& self.can_go(from, to, 0)
        &&& self.is_empty(to)
    }
}

fn abs_diff(a: usize, b: usize) -> (d: usize)
    ensures
        d == distance(a as int, b as int),
{
    if a >= b {
        a - b
    } else {
        b - a
    }
}

/// Counts the pieces one to `k` steps of `dir` away.
fn count_on_line(board: &Board, sq: usize, dir: isize, k: usize) -> (count: usize)
    requires
        sq < 256,
        -16 <= dir <= 16,
        k <= 16,
    ensures
        count == board@.pieces_on_line(sq as int, dir as int, k as int),
{
    let mut count: usize = 0;
    let mut j: usize = 0;
    let mut at: isize = sq as isize;
    while j < k
        invariant
            j <= k <= 16,
            sq < 256,
            -16 <= dir <= 16,
            at == sq + j * dir,
            -256 <= at - sq <= 256,
            -16 * j <= at - sq <= 16 * j,
            count <= j,
            count == board@.pieces_on_line(sq as int, dir as int, j as int),
        decreases k - j,
    {
        assert((j + 1) * dir == j * dir + dir) by (nonlinear_arith);
        at = at + dir;
        j += 1;
        assert(at == line_square(sq as int, dir as int, j as int));
        if at >= 0 && !board.is_empty(at as usize) {
            count += 1;
        }
    }
    count
}

fn count_between(board: &Board, from: usize, to: usize) -> (count: usize)
    requires
        on_board(from as int),
        on_board(to as int),
        board@.aligned(from as int, to as int),
    ensures
        count == board@.pieces_between(from as int, to as int),
{
    if from / 16 == to / 16 {
        if to > from {
            count_on_line(board, from, 1, to - from - 1)
        } else {
            count_on_line(board, from, -1, from - to - 1)
        }
    } else {
        if to > from {
            count_on_line(board, from, 16, to / 16 - from / 16 - 1)
        } else {
            count_on_line(board, from, -16, from / 16 - to / 16 - 1)
        }
    }
}

fn is_in_palace(sq: usize, color: Color) -> (inside: bool)
    ensures
        inside == in_palace(sq as int, color),
{
    let row = sq / 16;
    let col = sq % 16;
    3 <= col && col <= 5 && match color {
        Color::Red => 7 <= row && row <= 9,
        Color::Black => row <= 2,
    }
}

fn is_on_own_side(sq: usize, color: Color) -> (own: bool)
    ensures
        own == on_own_side(sq as int, color),
{
    match color {
        Color::Red => sq / 16 >= 5,
        Color::Black => sq / 16 <= 4,
    }
}

fn is_horse_step(board: &Board, from: usize, to: usize) -> (step: bool)
    requires
        on_board(from as int),
        on_board(to as int),
    ensures
        step == board@.horse_step(from as int, to as int),
{
    let jumps: [isize; 8] = [-33, -31, -14, 18, 33, 31, 14, -18];
    let legs: [isize; 8] = [-16, -16, 1, 1, 16, 16, -1, -1];
    let mut i: usize = 0;
    while i < 8
        invariant
            i <= 8,
            on_board(from as int),
            on_board(to as int),
            forall|e: int| 0 <= e < 8 ==> #[trigger] jumps@[e] == horse_jumps()[e],
            forall|e: int| 0 <= e < 8 ==> #[trigger] legs@[e] == horse_legs()[e],
            forall|e: int|
                0 <= e < i ==> !(to == from + #[trigger] horse_jumps()[e] && board@.is_empty(
                    from + horse_legs()[e],
                )),
        decreases 8 - i,
    {
        assert(jumps@[i as int] == horse_jumps()[i as int]);
        assert(legs@[i as int] == horse_legs()[i as int]);
        if to as isize == from as isize + jumps[i] {
            let leg: isize = from as isize + legs[i];
            if leg < 0 || board.is_empty(leg as usize) {
                return true;
            }
        }
        i += 1;
    }
    false
}

/// Tests how the piece on `from` could go to `to`.
pub fn can_go(board: &Board, from: usize, to: usize, screens: usize) -> (can: bool)
    ensures
        can == board@.can_go(from as int, to as int, screens as nat),
{
    if !Board::is_valid_square(to) {
        return false;
    }
    match board.piece_at(from) {
        None => false,
        Some(piece) => {
            let rows = abs_diff(from / 16, to / 16);
            let cols = abs_diff(from % 16, to % 16);
            match piece.piece_type {
                PieceType::King => rows + cols == 1 && is_in_palace(to, piece.color),
                PieceType::Advisor => rows == 1 && cols == 1 && is_in_palace(to, piece.color),
                PieceType::Elephant => rows == 2 && cols == 2 && is_on_own_side(to, piece.color)
                    && board.is_empty((from + to) / 2),
                PieceType::Horse => is_horse_step(board, from, to),
                PieceType::Rook => from != to && (rows == 0 || cols == 0) && count_between(
                    board,
                    from,
                    to,
                ) == 0,
                PieceType::Cannon => from != to && (rows == 0 || cols == 0) && count_between(
                    board,
                    from,
                    to,
                ) == screens,
                PieceType::Pawn => {
                    let forward = match piece.color {
                        Color::Red => to + 16 == from,
                        Color::Black => to == from + 16,
                    };
                    forward || (!is_on_own_side(from, piece.color) && (to == from + 1 || to + 1
                        == from))
                },
            }
        },
    }
}

// ---------------------------------------------------------------------------
// Check
// ---------------------------------------------------------------------------
/// A piece of `color` attacks the square.
pub open spec fn attacked_by(p: Position, sq: int, color: Color) -> bool {
    exists|from: int| #[trigger]
        p.attacks(from, sq) && p.piece_at(from) is Some && (p.piece_at(from)->0).color == color
}

proof fn lemma_first_on_line(p: Position, a: int, d: int, n: int)
    requires
        n >= 1,
    ensures
        p.pieces_on_line(a, d, n) == p.pieces_on_line(a + d, d, n - 1) + (if p.is_empty(a + d) {
            0nat
        } else {
            1nat
        }),
    decreases n,
{
    assert(line_square(a, d, n) == line_square(a + d, d, n - 1)) by (nonlinear_arith)
        requires
            line_square(a, d, n) == a + n * d,
            line_square(a + d, d, n - 1) == a + d + (n - 1) * d,
    ;
    if n > 1 {
        lemma_first_on_line(p, a, d, n - 1);
    } else {
        reveal_with_fuel(Position::pieces_on_line, 2);
    }
}

/// Counting between two squares gives the same from either end.
proof fn lemma_line_from_both_ends(p: Position, a: int, d: int, n: int)
    requires
        n >= 0,
    ensures
        p.pieces_on_line(a, d, n) == p.pieces_on_line(line_square(a, d, n + 1), -d, n),
    decreases n,
{
    if n > 0 {
        let b = line_square(a, d, n + 1);
        lemma_first_on_line(p, a, d, n);
        lemma_line_from_both_ends(p, a + d, d, n - 1);
        assert(b == line_square(a + d, d, n)) by (nonlinear_arith)
            requires
                b == a + (n + 1) * d,
                line_square(a + d, d, n) == a + d + n * d,
        ;
        assert(line_square(b, -d, n) == a + d) by (nonlinear_arith)
            requires
                b == a + (n + 1) * d,
                line_square(b, -d, n) == b + n * (-d),
        ;
    }
}

/// A rook or cannon that attacks along a line attacks by the rules of movement.
proof fn lemma_line_attack(p: Position, sq: int, dir: int, color: Color, k: int)
    requires
        on_board(sq),
        dir == 1 || dir == -1 || dir == 16 || dir == -16,
        k >= 1,
        p.line_hit(sq, dir, color, k),
    ensures
        p.attacks(line_square(sq, dir, k), sq),
        p.piece_at(line_square(sq, dir, k)) is Some,
        (p.piece_at(line_square(sq, dir, k))->0).color == color,
{
    let from = line_square(sq, dir, k);
    lemma_line_from_both_ends(p, sq, dir, k - 1);
    assert(on_board(line_square(sq, dir, k)));
    if dir == 1 {
        if k > 8 - sq % 16 {
            assert(on_board(line_square(sq, dir, 9 - sq % 16)));
        }
        assert(row_of(from) == row_of(sq));
    } else if dir == -1 {
        if k > sq % 16 {
            assert(on_board(line_square(sq, dir, sq % 16 + 1)));
        }
        assert(row_of(from) == row_of(sq));
    } else {
        assert(col_of(from) == col_of(sq));
    }
}

/// A rook or cannon that attacks by the rules of movement attacks along a line.
proof fn lemma_attack_on_line(p: Position, from: int, sq: int)
    requires
        on_board(sq),
        p.attacks(from, sq),
        p.piece_at(from) is Some,
        ({
            let kind = (p.piece_at(from)->0).piece_type;
            kind == PieceType::Rook || kind == PieceType::Cannon
        }),
    ensures
        p.line_attacked_any(sq, (p.piece_at(from)->0).color),
{
    let color = (p.piece_at(from)->0).color;
    assert(on_board(from));
    if row_of(from) == row_of(sq) {
        let dir: int = if from > sq {
            1
        } else {
            -1
        };
        let k = distance(from, sq);
        assert(sq + k * dir == from) by (nonlinear_arith)
            requires
                dir == 1 && k == from - sq || dir == -1 && k == sq - from,
        ;
        assert forall|j: int| 1 <= j <= k implies on_board(
            #[trigger] line_square(sq, dir, j),
        ) by {
            if dir == 1 {
                assert(line_square(sq, 1, j) == sq + j);
            } else {
                assert(line_square(sq, -1, j) == sq - j);
            }
        }
        lemma_line_from_both_ends(p, sq, dir, k - 1);
        assert(p.line_hit(sq, dir, color, k));
        assert(p.line_attacked(sq, dir, color));
    } else {
        let dir: int = if from > sq {
            16
        } else {
            -16
        };
        let k = distance(row_of(from), row_of(sq));
        assert(sq + k * dir == from) by (nonlinear_arith)
            requires
                dir == 16 && 16 * k == from - sq || dir == -16 && 16 * k == sq - from,
        ;
        assert forall|j: int| 1 <= j <= k implies on_board(
            #[trigger] line_square(sq, dir, j),
        ) by {
            if dir == 16 {
                assert(line_square(sq, 16, j) == sq + 16 * j);
            } else {
                assert(line_square(sq, -16, j) == sq - 16 * j);
            }
        }
        lemma_line_from_both_ends(p, sq, dir, k - 1);
        assert(p.line_hit(sq, dir, color, k));
        assert(p.line_attacked(sq, dir, color));
    }
}

/// A king in its palace is in check if and only if a piece of the other side could take
/// it by the rules of movement.
pub proof fn law_check_means_an_attack(p: Position, color: Color)
    requires
        on_board(p.king_square(color)),
        in_palace(p.king_square(color), color),
    ensures
        p.in_check(color) <==> attacked_by(p, p.king_square(color), color.opposite_spec()),
{
    let sq = p.king_square(color);
    let opp = color.opposite_spec();
    if p.in_check(color) {
        if p.line_attacked_any(sq, opp) {
            let dir: int = if p.line_attacked(sq, 1, opp) {
                1
            } else if p.line_attacked(sq, -1, opp) {
                -1
            } else if p.line_attacked(sq, 16, opp) {
                16
            } else {
                -16
            };
            let k = choose|k: int| k >= 1 && p.line_hit(sq, dir, opp, k);
            lemma_line_attack(p, sq, dir, opp, k);
            assert(p.attacks(line_square(sq, dir, k), sq));
        } else if exists|i: int| 0 <= i < 8 && p.horse_hit(sq, opp, i) {
            let i = choose|i: int| 0 <= i < 8 && p.horse_hit(sq, opp, i);
            let from = sq - horse_jumps()[i];
            assert(sq == from + horse_jumps()[i]);
            assert(p.horse_step(from, sq));
            assert(p.attacks(from, sq));
        } else {
            let behind = match opp {
                Color::Red => 16int,
                Color::Black => -16int,
            };
            let pawn = Some(Piece { piece_type: PieceType::Pawn, color: opp });
            let from = if p.piece_at(sq + behind) == pawn {
                sq + behind
            } else if p.piece_at(sq - 1) == pawn {
                sq - 1
            } else {
                sq + 1
            };
            assert(p.attacks(from, sq));
        }
    }
    if attacked_by(p, sq, opp) {
        let from = choose|from: int| #[trigger]
            p.attacks(from, sq) && p.piece_at(from) is Some && (p.piece_at(from)->0).color == opp;
        let piece = p.piece_at(from)->0;
        match piece.piece_type {
            PieceType::Rook | PieceType::Cannon => {
                lemma_attack_on_line(p, from, sq);
            },
            PieceType::Horse => {
                let i = choose|i: int|
                    0 <= i < 8 && sq == from + #[trigger] horse_jumps()[i] && p.is_empty(
                        from + horse_legs()[i],
                    );
                assert(p.horse_hit(sq, opp, i));
            },
            PieceType::Pawn => {
                assert(p.pawn_attacked(sq, opp));
            },
            _ => {
                assert(false);
            },
        }
    }
}

} // verus!
