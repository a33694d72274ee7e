//! Checks on a board seen from elsewhere: turned round with the colours swapped, or
//! mirrored left to right.

use crate::board::{horse_jumps, horse_legs, line_square, Color, Piece, Position};
use crate::dataset::{mirrored_position, mirrored_square};
use crate::moves::on_board;
use crate::nn::{recoloured, turned_round, turned_square};
use vstd::prelude::*;

verus! {

/// How a board is looked at.
enum Look {
    Plain,
    /// From the other side, with the colours swapped.
    Turned,
    /// In a mirror.
    Mirrored,
}

impl Look {
    /// Where a square is seen.
    spec fn square(self, sq: int) -> int {
        match self {
            Look::Plain => sq,
            Look::Turned => turned_square(sq),
            Look::Mirrored => mirrored_square(sq),
        }
    }

    /// As what a piece is seen.
    spec fn piece(self, piece: Option<Piece>) -> Option<Piece> {
        match self {
            Look::Turned => recoloured(piece),
            _ => piece,
        }
    }

    spec fn color(self, color: Color) -> Color {
        match self {
            Look::Turned => color.opposite_spec(),
            _ => color,
        }
    }

    /// In which direction a step along a line is seen.
    spec fn dir(self, dir: int) -> int {
        match self {
            Look::Plain => dir,
            Look::Turned => -dir,
            Look::Mirrored => if dir == 1 || dir == -1 {
                -dir
            } else {
                dir
            },
        }
    }

    /// As which jump of a horse one is seen.
    spec fn jump(self, i: int) -> int {
        match self {
            Look::Plain => i,
            Look::Turned => (i + 4) % 8,
            Look::Mirrored => seq![1int, 0, 7, 6, 5, 4, 3, 2][i],
        }
    }

    /// `q` is what is seen of `p`.
    spec fn shows(self, p: Position, q: Position) -> bool {
        forall|sq: int|
            on_board(sq) ==> q.piece_at(#[trigger] self.square(sq)) == self.piece(p.piece_at(sq))
    }
}

spec fn is_dir(dir: int) -> bool {
    dir == 1 || dir == -1 || dir == 16 || dir == -16
}

/// The first `k` squares of a line are on the board.
spec fn on_line(sq: int, dir: int, k: int) -> bool {
    forall|j: int| 1 <= j <= k ==> on_board(#[trigger] line_square(sq, dir, j))
}

/// Looking twice shows the board as it is.
proof fn lemma_look_twice(look: Look, p: Position, q: Position)
    requires
        look.shows(p, q),
    ensures
        look.shows(q, p),
{
    assert forall|sq: int| on_board(sq) implies p.piece_at(#[trigger] look.square(sq))
        == look.piece(q.piece_at(sq)) by {
        let seen = look.square(sq);
        assert(on_board(seen));
        assert(look.square(seen) == sq);
    }
}

/// A square `dr` rows and `dc` columns away lies as far away as its index tells.
proof fn lemma_apart(sq: int, dr: int, dc: int)
    requires
        on_board(sq),
        on_board(sq + 16 * dr + dc),
        -8 < dc < 8,
    ensures
        (sq + 16 * dr + dc) / 16 == sq / 16 + dr,
        (sq + 16 * dr + dc) % 16 == sq % 16 + dc,
{
    let row = sq / 16;
    let col = sq % 16;
    assert(sq == 16 * row + col);
    let t = sq + 16 * dr + dc;
    if col + dc < 0 {
        assert(t == 16 * (row + dr - 1) + (col + dc + 16));
        assert(t % 16 == col + dc + 16);
    } else {
        assert(t == 16 * (row + dr) + (col + dc));
    }
}

/// How far away a square is seen.
spec fn seen_apart(look: Look, dr: int, dc: int) -> int {
    match look {
        Look::Plain => 16 * dr + dc,
        Look::Turned => -(16 * dr + dc),
        Look::Mirrored => 16 * dr - dc,
    }
}

/// Squares are seen as far apart as they are.
proof fn lemma_seen_apart(look: Look, sq: int, dr: int, dc: int)
    requires
        on_board(sq),
        on_board(sq + 16 * dr + dc),
        -8 < dc < 8,
    ensures
        look.square(sq + 16 * dr + dc) == look.square(sq) + seen_apart(look, dr, dc),
        on_board(look.square(sq + 16 * dr + dc)),
{
    lemma_apart(sq, dr, dc);
}

/// A line is seen as a line.
proof fn lemma_line_seen(look: Look, sq: int, dir: int, k: int)
    requires
        on_board(sq),
        is_dir(dir),
        0 <= k,
        on_line(sq, dir, k),
    ensures
        line_square(look.square(sq), look.dir(dir), k) == look.square(line_square(sq, dir, k)),
        on_board(look.square(line_square(sq, dir, k))),
    decreases k,
{
    let along = look.dir(dir);
    if k > 0 {
        assert(on_line(sq, dir, k - 1));
        lemma_line_seen(look, sq, dir, k - 1);
        let near = line_square(sq, dir, k - 1);
        assert(k > 1 ==> on_board(line_square(sq, dir, k - 1)));
        assert(on_board(line_square(sq, dir, k)));
        assert(k * dir == (k - 1) * dir + dir) by (nonlinear_arith);
        assert(k * along == (k - 1) * along + along) by (nonlinear_arith);
        assert(k == 1 ==> near == sq);
        if dir == 1 || dir == -1 {
            lemma_seen_apart(look, near, 0, dir);
        } else if dir == 16 {
            lemma_seen_apart(look, near, 1, 0);
        } else {
            lemma_seen_apart(look, near, -1, 0);
        }
    } else {
        assert(look.square(sq) + 0 * along == look.square(sq));
        assert(on_board(look.square(sq)));
    }
}

/// As many pieces are seen on a line as stand there.
proof fn lemma_pieces_seen(look: Look, p: Position, q: Position, sq: int, dir: int, k: int)
    requires
        look.shows(p, q),
        on_board(sq),
        is_dir(dir),
        on_line(sq, dir, k),
    ensures
        q.pieces_on_line(look.square(sq), look.dir(dir), k) == p.pieces_on_line(sq, dir, k),
    decreases k,
{
    if k > 0 {
        assert(on_line(sq, dir, k - 1));
        lemma_pieces_seen(look, p, q, sq, dir, k - 1);
        lemma_line_seen(look, sq, dir, k);
        assert(on_board(line_square(sq, dir, k)));
        assert(q.piece_at(look.square(line_square(sq, dir, k))) == look.piece(
            p.piece_at(line_square(sq, dir, k)),
        ));
    }
}

/// An attack along a line is seen as one.
proof fn lemma_line_attack_seen(
    look: Look,
    p: Position,
    q: Position,
    sq: int,
    dir: int,
    color: Color,
)
    requires
        look.shows(p, q),
        on_board(sq),
        is_dir(dir),
        p.line_attacked(sq, dir, color),
    ensures
        q.line_attacked(look.square(sq), look.dir(dir), look.color(color)),
{
    let k = choose|k: int| k >= 1 && p.line_hit(sq, dir, color, k);
    let at = look.square(sq);
    let along = look.dir(dir);
    assert(on_line(sq, dir, k));
    assert forall|j: int| 1 <= j <= k implies on_board(#[trigger] line_square(at, along, j)) by {
        assert(on_line(sq, dir, j));
        lemma_line_seen(look, sq, dir, j);
    }
    lemma_line_seen(look, sq, dir, k);
    lemma_pieces_seen(look, p, q, sq, dir, k - 1);
    assert(on_board(line_square(sq, dir, k)));
    assert(q.line_hit(at, along, look.color(color), k));
}

/// The rows and columns that a horse jumps.
spec fn jump_apart(i: int) -> (int, int) {
    seq![
        (-2int, -1int),
        (-2, 1),
        (-1, 2),
        (1, 2),
        (2, 1),
        (2, -1),
        (1, -2),
        (-1, -2),
    ][i]
}

/// A jump is seen as a jump, and its leg as its leg.
proof fn lemma_jump_seen(look: Look, sq: int, i: int)
    requires
        on_board(sq),
        0 <= i < 8,
        on_board(sq - horse_jumps()[i]),
    ensures
        ({
            let horse = sq - horse_jumps()[i];
            let leg = horse + horse_legs()[i];
            let j = look.jump(i);
            &&& 0 <= j < 8
            &&& on_board(leg)
            &&& look.square(sq) - horse_jumps()[j] == look.square(horse)
            &&& look.square(horse) + horse_legs()[j] == look.square(leg)
        }),
{
    let (dr, dc) = jump_apart(i);
    let horse = sq - horse_jumps()[i];
    assert(horse_jumps()[i] == 16 * dr + dc);
    assert(horse == sq + 16 * (-dr) + (-dc));
    lemma_apart(sq, -dr, -dc);
    lemma_seen_apart(look, sq, -dr, -dc);
    let (lr, lc): (int, int) = if dr == 2 || dr == -2 {
        (dr / 2, 0int)
    } else {
        (0int, dc / 2)
    };
    assert(horse_legs()[i] == 16 * lr + lc);
    let leg = horse + 16 * lr + lc;
    assert(leg / 16 == horse / 16 + lr && leg % 16 == horse % 16 + lc);
    lemma_seen_apart(look, horse, lr, lc);
    let j = look.jump(i);
    assert(horse_jumps()[j] == seen_apart(look, dr, dc));
    assert(horse_legs()[j] == seen_apart(look, lr, lc));
}

/// A horse's attack is seen as one.
proof fn lemma_horse_seen(look: Look, p: Position, q: Position, sq: int, color: Color, i: int)
    requires
        look.shows(p, q),
        on_board(sq),
        0 <= i < 8,
        p.horse_hit(sq, color, i),
    ensures
        0 <= look.jump(i) < 8,
        q.horse_hit(look.square(sq), look.color(color), look.jump(i)),
{
    let horse = sq - horse_jumps()[i];
    let leg = horse + horse_legs()[i];
    let j = look.jump(i);
    assert(on_board(horse));
    lemma_jump_seen(look, sq, i);
    assert(q.piece_at(look.square(horse)) == look.piece(p.piece_at(horse)));
    assert(q.piece_at(look.square(leg)) == look.piece(p.piece_at(leg)));
}

/// A pawn's attack is seen as one.
proof fn lemma_pawn_seen(look: Look, p: Position, q: Position, sq: int, color: Color)
    requires
        look.shows(p, q),
        on_board(sq),
        p.pawn_attacked(sq, color),
    ensures
        q.pawn_attacked(look.square(sq), look.color(color)),
{
    let behind = match color {
        Color::Red => 16int,
        Color::Black => -16int,
    };
    let at = look.square(sq);
    if on_board(sq + behind) {
        lemma_seen_apart(look, sq, behind / 16, 0);
        assert(q.piece_at(look.square(sq + behind)) == look.piece(p.piece_at(sq + behind)));
        assert(look.square(sq + behind) == at + look.dir(behind));
    }
    if on_board(sq - 1) {
        lemma_seen_apart(look, sq, 0, -1);
        assert(q.piece_at(look.square(sq - 1)) == look.piece(p.piece_at(sq - 1)));
        assert(look.square(sq - 1) == at + look.dir(-1));
    }
    if on_board(sq + 1) {
        lemma_seen_apart(look, sq, 0, 1);
        assert(q.piece_at(look.square(sq + 1)) == look.piece(p.piece_at(sq + 1)));
        assert(look.square(sq + 1) == at + look.dir(1));
    }
}

/// An attack is seen as one.
proof fn lemma_attack_seen(look: Look, p: Position, q: Position, sq: int, color: Color)
    requires
        look.shows(p, q),
        on_board(sq),
        p.attacked(sq, color),
    ensures
        q.attacked(look.square(sq), look.color(color)),
{
    if p.line_attacked_any(sq, color) {
        let dir: int = if p.line_attacked(sq, 1, color) {
            1
        } else if p.line_attacked(sq, -1, color) {
            -1
        } else if p.line_attacked(sq, 16, color) {
            16
        } else {
            -16
        };
        lemma_line_attack_seen(look, p, q, sq, dir, color);
    } else if exists|i: int| 0 <= i < 8 && p.horse_hit(sq, color, i) {
        let i = choose|i: int| 0 <= i < 8 && p.horse_hit(sq, color, i);
        lemma_horse_seen(look, p, q, sq, color, i);
    } else {
        lemma_pawn_seen(look, p, q, sq, color);
    }
}

/// Attacks are seen, and none is seen that is not there.
proof fn lemma_attacks_seen(look: Look, p: Position, q: Position, sq: int, color: Color)
    requires
        look.shows(p, q),
        on_board(sq),
    ensures
        q.attacked(look.square(sq), look.color(color)) == p.attacked(sq, color),
{
    if p.attacked(sq, color) {
        lemma_attack_seen(look, p, q, sq, color);
    }
    let at = look.square(sq);
    let by = look.color(color);
    if q.attacked(at, by) {
        lemma_look_twice(look, p, q);
        lemma_attack_seen(look, q, p, at, by);
        assert(look.square(at) == sq);
        assert(look.color(by) == color);
    }
}

/// A king is in check exactly if the king in its place is, on the board turned round with
/// the colours swapped.
pub proof fn law_check_is_the_same_turned_round(p: Position, color: Color)
    requires
        on_board(p.king_square(color)),
    ensures
        turned_round(p).in_check(color.opposite_spec()) == p.in_check(color),
{
    let q = turned_round(p);
    assert forall|sq: int| on_board(sq) implies q.piece_at(#[trigger] Look::Turned.square(sq))
        == Look::Turned.piece(p.piece_at(sq)) by {
        assert(on_board(turned_square(sq)));
        assert(turned_square(turned_square(sq)) == sq);
    }
    lemma_attacks_seen(Look::Turned, p, q, p.king_square(color), color.opposite_spec());
}

/// A king is in check exactly if it is on the board mirrored left to right.
pub proof fn law_check_is_the_same_mirrored(p: Position, color: Color)
    requires
        on_board(p.king_square(color)),
    ensures
        mirrored_position(p).in_check(color) == p.in_check(color),
{
    let q = mirrored_position(p);
    assert forall|sq: int| on_board(sq) implies q.piece_at(#[trigger] Look::Mirrored.square(sq))
        == Look::Mirrored.piece(p.piece_at(sq)) by {
        assert(on_board(mirrored_square(sq)));
        assert(mirrored_square(mirrored_square(sq)) == sq);
    }
    lemma_attacks_seen(Look::Mirrored, p, q, p.king_square(color), color.opposite_spec());
}

/// Whether a king is in check does not depend on whose turn it is.
pub proof fn law_check_is_the_same_whoever_moves(p: Position, side: Color, color: Color)
    requires
        on_board(p.king_square(color)),
    ensures
        (Position { side_to_move: side, ..p }).in_check(color) == p.in_check(color),
{
    let q = Position { side_to_move: side, ..p };
    lemma_attacks_seen(Look::Plain, p, q, p.king_square(color), color.opposite_spec());
}

} // verus!
