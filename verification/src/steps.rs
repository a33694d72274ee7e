//! The generated moves, piece by piece, in rows and columns.

use crate::board::{
    horse_jumps, horse_legs, line_square, square_at, Color, Piece, PieceType, Position,
};
use crate::movement::{attacked_by, in_palace, law_check_means_an_attack};
use crate::moves::{on_board, packed, Move};
use crate::rules::{legal_moves_spec, pseudo_legal, Rules};
use crate::xiangqi::{
    generated, law_every_pseudo_legal_move_is_generated, law_generated_moves_are_pseudo_legal,
    pseudo_move, Xiangqi,
};
use vstd::prelude::*;

verus! {

/// A move between the two squares is among them.
pub open spec fn offers(moves: Seq<Move>, from: int, to: int) -> bool {
    exists|i: int|
        0 <= i < moves.len() && (#[trigger] moves[i]).from_spec() == from && moves[i].to_spec()
            == to
}

/// What stands at a row and a column.
pub open spec fn at(p: Position, row: int, col: int) -> Option<Piece> {
    p.cells[16 * row + col]
}

/// `x` lies strictly between `a` and `b`.
pub open spec fn between(a: int, x: int, b: int) -> bool {
    a < x < b || b < x < a
}

/// What is generated is what the rules of movement allow.
proof fn lemma_offered(p: Position, capture: bool, from: int, to: int)
    requires
        p.cells.len() == 256,
        on_board(from),
        on_board(to),
    ensures
        offers(generated(p, capture, 90), from, to) <==> pseudo_move(p, from, to, capture),
{
    let all = generated(p, capture, 90);
    law_generated_moves_are_pseudo_legal(p, capture, 90);
    if pseudo_move(p, from, to, capture) {
        let m = Move(packed(from as usize, to as usize, capture));
        law_every_pseudo_legal_move_is_generated(p, from, to, capture);
        Move::lemma_packed(from as usize, to as usize, capture);
        assert(all[all.index_of(m)] == m);
    }
}

/// Nothing stands on the line.
proof fn lemma_clear_line(p: Position, a: int, d: int, n: int)
    requires
        n >= 0,
    ensures
        p.pieces_on_line(a, d, n) == 0 <==> forall|j: int|
            1 <= j <= n ==> p.is_empty(#[trigger] line_square(a, d, j)),
    decreases n,
{
    if n > 0 {
        lemma_clear_line(p, a, d, n - 1);
        assert(p.pieces_on_line(a, d, n) == 0 <==> p.pieces_on_line(a, d, n - 1) == 0
            && p.is_empty(line_square(a, d, n)));
    }
}

/// One piece stands on the line.
proof fn lemma_one_on_line(p: Position, a: int, d: int, n: int)
    requires
        n >= 0,
    ensures
        p.pieces_on_line(a, d, n) == 1 <==> exists|i: int|
            1 <= i <= n && !p.is_empty(#[trigger] line_square(a, d, i)) && forall|j: int|
                1 <= j <= n && j != i ==> p.is_empty(#[trigger] line_square(a, d, j)),
    decreases n,
{
    if n > 0 {
        lemma_one_on_line(p, a, d, n - 1);
        lemma_clear_line(p, a, d, n - 1);
        let before = p.pieces_on_line(a, d, n - 1);
        if p.is_empty(line_square(a, d, n)) {
            if before == 1 {
                let i = choose|i: int|
                    1 <= i <= n - 1 && !p.is_empty(#[trigger] line_square(a, d, i)) && forall|
                        j: int,
                    |
                        1 <= j <= n - 1 && j != i ==> p.is_empty(#[trigger] line_square(a, d, j));
                assert(!p.is_empty(line_square(a, d, i)));
            }
        } else {
            if before == 0 {
                assert(!p.is_empty(line_square(a, d, n)));
            }
        }
    }
}

/// `j` steps up or down from `a`.
spec fn walk(a: int, up: bool, j: int) -> int {
    if up {
        a + j
    } else {
        a - j
    }
}

/// How many steps up or down lead from `a` to `x`.
spec fn counted(a: int, up: bool, x: int) -> int {
    if up {
        x - a
    } else {
        a - x
    }
}

/// Nothing on a line and nothing between its ends are the same.
proof fn lemma_none_counted(
    p: Position,
    from: int,
    d: int,
    n: int,
    a: int,
    b: int,
    up: bool,
    occupied: spec_fn(int) -> bool,
)
    requires
        a != b,
        up == (b > a),
        n == counted(a, up, b) - 1,
        forall|j: int|
            1 <= j <= n ==> p.is_empty(#[trigger] line_square(from, d, j)) == !occupied(
                walk(a, up, j),
            ),
    ensures
        p.pieces_on_line(from, d, n) == 0 <==> forall|x: int|
            between(a, x, b) ==> !#[trigger] occupied(x),
{
    lemma_clear_line(p, from, d, n);
    if forall|x: int| between(a, x, b) ==> !#[trigger] occupied(x) {
        assert forall|j: int| 1 <= j <= n implies p.is_empty(#[trigger] line_square(from, d, j)) by {
            assert(!occupied(walk(a, up, j)));
        }
    }
    if p.pieces_on_line(from, d, n) == 0 {
        assert forall|x: int| between(a, x, b) implies !#[trigger] occupied(x) by {
            let j = counted(a, up, x);
            assert(walk(a, up, j) == x);
            assert(p.is_empty(line_square(from, d, j)));
        }
    }
}

/// One on a line and one between its ends are the same.
proof fn lemma_one_counted(
    p: Position,
    from: int,
    d: int,
    n: int,
    a: int,
    b: int,
    up: bool,
    occupied: spec_fn(int) -> bool,
)
    requires
        a != b,
        up == (b > a),
        n == counted(a, up, b) - 1,
        forall|j: int|
            1 <= j <= n ==> p.is_empty(#[trigger] line_square(from, d, j)) == !occupied(
                walk(a, up, j),
            ),
    ensures
        p.pieces_on_line(from, d, n) == 1 <==> exists|x: int|
            between(a, x, b) && #[trigger] occupied(x) && forall|y: int|
                between(a, y, b) && y != x ==> !#[trigger] occupied(y),
{
    lemma_one_on_line(p, from, d, n);
    if p.pieces_on_line(from, d, n) == 1 {
        let i = choose|i: int|
            1 <= i <= n && !p.is_empty(#[trigger] line_square(from, d, i)) && forall|j: int|
                1 <= j <= n && j != i ==> p.is_empty(#[trigger] line_square(from, d, j));
        let x = walk(a, up, i);
        assert(between(a, x, b) && occupied(x));
        assert forall|y: int| between(a, y, b) && y != x implies !#[trigger] occupied(y) by {
            let j = counted(a, up, y);
            assert(walk(a, up, j) == y);
            assert(p.is_empty(line_square(from, d, j)));
        }
    }
    if exists|x: int|
        between(a, x, b) && #[trigger] occupied(x) && forall|y: int|
            between(a, y, b) && y != x ==> !#[trigger] occupied(y) {
        let x = choose|x: int|
            between(a, x, b) && #[trigger] occupied(x) && forall|y: int|
                between(a, y, b) && y != x ==> !#[trigger] occupied(y);
        let i = counted(a, up, x);
        assert(walk(a, up, i) == x);
        assert(!p.is_empty(line_square(from, d, i)));
        assert forall|j: int| 1 <= j <= n && j != i implies p.is_empty(
            #[trigger] line_square(from, d, j),
        ) by {
            assert(!occupied(walk(a, up, j)));
        }
    }
}

/// What is counted between two squares of a row.
#[verifier::spinoff_prover]
proof fn lemma_row(p: Position, r: int, a: int, b: int)
    requires
        0 <= r <= 9,
        0 <= a <= 8,
        0 <= b <= 8,
        a != b,
    ensures
        p.pieces_between(16 * r + a, 16 * r + b) == 0 <==> forall|x: int|
            between(a, x, b) ==> (#[trigger] at(p, r, x)) is None,
        p.pieces_between(16 * r + a, 16 * r + b) == 1 <==> exists|x: int|
            between(a, x, b) && (#[trigger] at(p, r, x)) is Some && forall|y: int|
                between(a, y, b) && y != x ==> (#[trigger] at(p, r, y)) is None,
{
    let from = 16 * r + a;
    let to = 16 * r + b;
    let up = b > a;
    let d: int = if up {
        1
    } else {
        -1
    };
    let n = counted(a, up, b) - 1;
    let occupied = |x: int| at(p, r, x) is Some;
    assert(p.pieces_between(from, to) == p.pieces_on_line(from, d, n));
    assert forall|j: int| 1 <= j <= n implies p.is_empty(#[trigger] line_square(from, d, j))
        == !occupied(walk(a, up, j)) by {
        let x = walk(a, up, j);
        assert(j * d == (if up {
            j
        } else {
            -j
        })) by (nonlinear_arith)
            requires
                d == (if up {
                    1int
                } else {
                    -1int
                }),
        ;
        assert(line_square(from, d, j) == 16 * r + x);
        assert(on_board(16 * r + x));
    }
    lemma_none_counted(p, from, d, n, a, b, up, occupied);
    lemma_one_counted(p, from, d, n, a, b, up, occupied);
    assert(forall|x: int| #[trigger] at(p, r, x) is Some == occupied(x));
    assert(forall|x: int| #[trigger] occupied(x) == at(p, r, x) is Some);
}

/// What is counted between two squares of a column.
#[verifier::spinoff_prover]
proof fn lemma_column(p: Position, c: int, a: int, b: int)
    requires
        0 <= c <= 8,
        0 <= a <= 9,
        0 <= b <= 9,
        a != b,
    ensures
        p.pieces_between(16 * a + c, 16 * b + c) == 0 <==> forall|x: int|
            between(a, x, b) ==> (#[trigger] at(p, x, c)) is None,
        p.pieces_between(16 * a + c, 16 * b + c) == 1 <==> exists|x: int|
            between(a, x, b) && (#[trigger] at(p, x, c)) is Some && forall|y: int|
                between(a, y, b) && y != x ==> (#[trigger] at(p, y, c)) is None,
{
    let from = 16 * a + c;
    let to = 16 * b + c;
    let up = b > a;
    let d: int = if up {
        16
    } else {
        -16
    };
    let n = counted(a, up, b) - 1;
    let occupied = |x: int| at(p, x, c) is Some;
    assert(p.pieces_between(from, to) == p.pieces_on_line(from, d, n));
    assert forall|j: int| 1 <= j <= n implies p.is_empty(#[trigger] line_square(from, d, j))
        == !occupied(walk(a, up, j)) by {
        let x = walk(a, up, j);
        assert(j * d == (if up {
            16 * j
        } else {
            -16 * j
        })) by (nonlinear_arith)
            requires
                d == (if up {
                    16int
                } else {
                    -16int
                }),
        ;
        assert(line_square(from, d, j) == 16 * x + c);
        assert(on_board(16 * x + c));
    }
    lemma_none_counted(p, from, d, n, a, b, up, occupied);
    lemma_one_counted(p, from, d, n, a, b, up, occupied);
    assert(forall|x: int| #[trigger] at(p, x, c) is Some == occupied(x));
    assert(forall|x: int| #[trigger] occupied(x) == at(p, x, c) is Some);
}

/// A pawn goes one row forward, and beyond the river one column to either side.
pub proof fn law_pawns_go(
    rules: &Xiangqi,
    p: Position,
    fr: int,
    fc: int,
    tr: int,
    tc: int,
)
    requires
        p.cells.len() == 256,
        0 <= fr <= 9,
        0 <= fc <= 8,
        0 <= tr <= 9,
        0 <= tc <= 8,
        at(p, fr, fc) == Some(Piece { piece_type: PieceType::Pawn, color: p.side_to_move }),
    ensures
        ({
            let from = 16 * fr + fc;
            let to = 16 * tr + tc;
            let victim = at(p, tr, tc);
            let quiet = match p.side_to_move {
                Color::Red => tr == fr - 1 && tc == fc || fr <= 4 && tr == fr && (tc == fc + 1
                    || tc == fc - 1),
                Color::Black => tr == fr + 1 && tc == fc || fr >= 5 && tr == fr && (tc == fc + 1
                    || tc == fc - 1),
            };
            &&& offers(rules.quiets_spec(p), from, to) <==> quiet && victim is None
            &&& offers(rules.captures_spec(p), from, to) <==> quiet && victim is Some
                && (victim->0).color != p.side_to_move
        }),
{
    let from = 16 * fr + fc;
    let to = 16 * tr + tc;
    lemma_offered(p, false, from, to);
    lemma_offered(p, true, from, to);
}

/// A king goes one row or one column, and stays in its palace.
pub proof fn law_kings_go(
    rules: &Xiangqi,
    p: Position,
    fr: int,
    fc: int,
    tr: int,
    tc: int,
)
    requires
        p.cells.len() == 256,
        0 <= fr <= 9,
        0 <= fc <= 8,
        0 <= tr <= 9,
        0 <= tc <= 8,
        at(p, fr, fc) == Some(Piece { piece_type: PieceType::King, color: p.side_to_move }),
    ensures
        ({
            let from = 16 * fr + fc;
            let to = 16 * tr + tc;
            let victim = at(p, tr, tc);
            let quiet = 3 <= tc <= 5 && (p.side_to_move == Color::Red ==> tr >= 7) && (
            p.side_to_move == Color::Black ==> tr <= 2) && (tr == fr && (tc == fc + 1 || tc == fc
                - 1) || tc == fc && (tr == fr + 1 || tr == fr - 1));
            &&& offers(rules.quiets_spec(p), from, to) <==> quiet && victim is None
            &&& offers(rules.captures_spec(p), from, to) <==> quiet && victim is Some
                && (victim->0).color != p.side_to_move
        }),
{
    let from = 16 * fr + fc;
    let to = 16 * tr + tc;
    lemma_offered(p, false, from, to);
    lemma_offered(p, true, from, to);
}

/// An advisor goes one row and one column, and stays in its palace.
pub proof fn law_advisors_go(
    rules: &Xiangqi,
    p: Position,
    fr: int,
    fc: int,
    tr: int,
    tc: int,
)
    requires
        p.cells.len() == 256,
        0 <= fr <= 9,
        0 <= fc <= 8,
        0 <= tr <= 9,
        0 <= tc <= 8,
        at(p, fr, fc) == Some(Piece { piece_type: PieceType::Advisor, color: p.side_to_move }),
    ensures
        ({
            let from = 16 * fr + fc;
            let to = 16 * tr + tc;
            let victim = at(p, tr, tc);
            let quiet = 3 <= tc <= 5 && (p.side_to_move == Color::Red ==> tr >= 7) && (
            p.side_to_move == Color::Black ==> tr <= 2) && (tr == fr + 1 || tr == fr - 1) && (tc
                == fc + 1 || tc == fc - 1);
            &&& offers(rules.quiets_spec(p), from, to) <==> quiet && victim is None
            &&& offers(rules.captures_spec(p), from, to) <==> quiet && victim is Some
                && (victim->0).color != p.side_to_move
        }),
{
    let from = 16 * fr + fc;
    let to = 16 * tr + tc;
    lemma_offered(p, false, from, to);
    lemma_offered(p, true, from, to);
}

/// An elephant goes two rows and two columns, over an empty square, on its side of the
/// river.
pub proof fn law_elephants_go(
    rules: &Xiangqi,
    p: Position,
    fr: int,
    fc: int,
    tr: int,
    tc: int,
)
    requires
        p.cells.len() == 256,
        0 <= fr <= 9,
        0 <= fc <= 8,
        0 <= tr <= 9,
        0 <= tc <= 8,
        at(p, fr, fc) == Some(Piece { piece_type: PieceType::Elephant, color: p.side_to_move }),
    ensures
        ({
            let from = 16 * fr + fc;
            let to = 16 * tr + tc;
            let victim = at(p, tr, tc);
            let quiet = (tr == fr + 2 || tr == fr - 2) && (tc == fc + 2 || tc == fc - 2) && at(
                p,
                (fr + tr) / 2,
                (fc + tc) / 2,
            ) is None && (p.side_to_move == Color::Red ==> tr >= 5) && (p.side_to_move
                == Color::Black ==> tr <= 4);
            &&& offers(rules.quiets_spec(p), from, to) <==> quiet && victim is None
            &&& offers(rules.captures_spec(p), from, to) <==> quiet && victim is Some
                && (victim->0).color != p.side_to_move
        }),
{
    let from = 16 * fr + fc;
    let to = 16 * tr + tc;
    lemma_offered(p, false, from, to);
    lemma_offered(p, true, from, to);
    if (tr == fr + 2 || tr == fr - 2) && (tc == fc + 2 || tc == fc - 2) {
        assert((from + to) / 2 == 16 * ((fr + tr) / 2) + (fc + tc) / 2);
        assert(on_board((from + to) / 2));
    }
}

/// The eight jumps in rows and columns.
proof fn lemma_horse(p: Position, fr: int, fc: int, tr: int, tc: int)
    requires
        0 <= fr <= 9,
        0 <= fc <= 8,
        0 <= tr <= 9,
        0 <= tc <= 8,
    ensures
        p.horse_step(16 * fr + fc, 16 * tr + tc) <==> (tr == fr + 2 || tr == fr - 2) && (tc == fc
            + 1 || tc == fc - 1) && at(p, (fr + tr) / 2, fc) is None || (tr == fr + 1 || tr == fr
            - 1) && (tc == fc + 2 || tc == fc - 2) && at(p, fr, (fc + tc) / 2) is None,
{
    let from = 16 * fr + fc;
    let to = 16 * tr + tc;
    let jumps = horse_jumps();
    let legs = horse_legs();
    assert(jumps[0] == -33 && jumps[1] == -31 && jumps[2] == -14 && jumps[3] == 18 && jumps[4] == 33
        && jumps[5] == 31 && jumps[6] == 14 && jumps[7] == -18);
    assert(legs[0] == -16 && legs[1] == -16 && legs[2] == 1 && legs[3] == 1 && legs[4] == 16
        && legs[5] == 16 && legs[6] == -1 && legs[7] == -1);
    let tall = (tr == fr + 2 || tr == fr - 2) && (tc == fc + 1 || tc == fc - 1);
    let wide = (tr == fr + 1 || tr == fr - 1) && (tc == fc + 2 || tc == fc - 2);
    if tall {
        assert(on_board(16 * ((fr + tr) / 2) + fc));
    }
    if wide {
        assert(on_board(16 * fr + (fc + tc) / 2));
    }
    if p.horse_step(from, to) {
        let i = choose|i: int|
            0 <= i < 8 && to == from + #[trigger] jumps[i] && p.is_empty(from + legs[i]);
        assert(tall || wide);
    } else {
        assert(forall|i: int|
            0 <= i < 8 ==> !(to == from + #[trigger] jumps[i] && p.is_empty(from + legs[i])));
    }
}

/// A horse goes two rows and one column, or one row and two columns, unless a piece stands
/// beside it in the direction of the two.
pub proof fn law_horses_go(
    rules: &Xiangqi,
    p: Position,
    fr: int,
    fc: int,
    tr: int,
    tc: int,
)
    requires
        p.cells.len() == 256,
        0 <= fr <= 9,
        0 <= fc <= 8,
        0 <= tr <= 9,
        0 <= tc <= 8,
        at(p, fr, fc) == Some(Piece { piece_type: PieceType::Horse, color: p.side_to_move }),
    ensures
        ({
            let from = 16 * fr + fc;
            let to = 16 * tr + tc;
            let victim = at(p, tr, tc);
            let quiet = (tr == fr + 2 || tr == fr - 2) && (tc == fc + 1 || tc == fc - 1) && at(
                p,
                (fr + tr) / 2,
                fc,
            ) is None || (tr == fr + 1 || tr == fr - 1) && (tc == fc + 2 || tc == fc - 2) && at(
                p,
                fr,
                (fc + tc) / 2,
            ) is None;
            &&& offers(rules.quiets_spec(p), from, to) <==> quiet && victim is None
            &&& offers(rules.captures_spec(p), from, to) <==> quiet && victim is Some
                && (victim->0).color != p.side_to_move
        }),
{
    let from = 16 * fr + fc;
    let to = 16 * tr + tc;
    lemma_offered(p, false, from, to);
    lemma_offered(p, true, from, to);
    lemma_horse(p, fr, fc, tr, tc);
}

/// A rook goes along a row or a column as far as it is empty.
pub proof fn law_rooks_go(
    rules: &Xiangqi,
    p: Position,
    fr: int,
    fc: int,
    tr: int,
    tc: int,
)
    requires
        p.cells.len() == 256,
        0 <= fr <= 9,
        0 <= fc <= 8,
        0 <= tr <= 9,
        0 <= tc <= 8,
        at(p, fr, fc) == Some(Piece { piece_type: PieceType::Rook, color: p.side_to_move }),
    ensures
        ({
            let from = 16 * fr + fc;
            let to = 16 * tr + tc;
            let victim = at(p, tr, tc);
            let quiet = tr == fr && tc != fc && (forall|x: int|
                between(fc, x, tc) ==> (#[trigger] at(p, fr, x)) is None) || tc == fc && tr != fr
                && (forall|x: int|
                between(fr, x, tr) ==> (#[trigger] at(p, x, fc)) is None);
            &&& offers(rules.quiets_spec(p), from, to) <==> quiet && victim is None
            &&& offers(rules.captures_spec(p), from, to) <==> quiet && victim is Some
                && (victim->0).color != p.side_to_move
        }),
{
    let from = 16 * fr + fc;
    let to = 16 * tr + tc;
    lemma_offered(p, false, from, to);
    lemma_offered(p, true, from, to);
    if tr == fr && tc != fc {
        lemma_row(p, fr, fc, tc);
    }
    if tc == fc && tr != fr {
        lemma_column(p, fc, fr, tr);
    }
}

/// A cannon goes like a rook, and captures over exactly one piece.
pub proof fn law_cannons_go(
    rules: &Xiangqi,
    p: Position,
    fr: int,
    fc: int,
    tr: int,
    tc: int,
)
    requires
        p.cells.len() == 256,
        0 <= fr <= 9,
        0 <= fc <= 8,
        0 <= tr <= 9,
        0 <= tc <= 8,
        at(p, fr, fc) == Some(Piece { piece_type: PieceType::Cannon, color: p.side_to_move }),
    ensures
        ({
            let from = 16 * fr + fc;
            let to = 16 * tr + tc;
            let victim = at(p, tr, tc);
            let quiet = tr == fr && tc != fc && (forall|x: int|
                between(fc, x, tc) ==> (#[trigger] at(p, fr, x)) is None) || tc == fc && tr != fr
                && (forall|x: int|
                between(fr, x, tr) ==> (#[trigger] at(p, x, fc)) is None);
            let over = tr == fr && tc != fc && (exists|x: int|
                between(fc, x, tc) && (#[trigger] at(p, fr, x)) is Some && forall|y: int|
                    between(fc, y, tc) && y != x ==> (#[trigger] at(p, fr, y)) is None) || tc == fc
                && tr != fr && (exists|x: int|
                between(fr, x, tr) && (#[trigger] at(p, x, fc)) is Some && forall|y: int|
                    between(fr, y, tr) && y != x ==> (#[trigger] at(p, y, fc)) is None);
            &&& offers(rules.quiets_spec(p), from, to) <==> quiet && victim is None
            &&& offers(rules.captures_spec(p), from, to) <==> over && victim is Some
                && (victim->0).color != p.side_to_move
        }),
{
    let from = 16 * fr + fc;
    let to = 16 * tr + tc;
    lemma_offered(p, false, from, to);
    lemma_offered(p, true, from, to);
    if tr == fr && tc != fc {
        lemma_row(p, fr, fc, tc);
    }
    if tc == fc && tr != fr {
        lemma_column(p, fc, fr, tr);
    }
}

/// Only a piece of the side to move moves, and never onto one of its own; a capture takes a
/// piece, and a quiet move takes none.
pub proof fn law_only_the_mover_moves(rules: &Xiangqi, p: Position, m: Move)
    requires
        p.cells.len() == 256,
    ensures
        rules.quiets_spec(p).contains(m) || rules.captures_spec(p).contains(m) ==> {
            &&& on_board(m.from_spec())
            &&& on_board(m.to_spec())
            &&& p.cells[m.from_spec()] is Some
            &&& (p.cells[m.from_spec()]->0).color == p.side_to_move
        },
        rules.quiets_spec(p).contains(m) ==> p.cells[m.to_spec()] is None && !m.capture_spec(),
        rules.captures_spec(p).contains(m) ==> p.cells[m.to_spec()] is Some && (p.cells[
        m.to_spec()]->0).color != p.side_to_move && m.capture_spec(),
{
    law_generated_moves_are_pseudo_legal(p, false, 90);
    law_generated_moves_are_pseudo_legal(p, true, 90);
    let quiets = generated(p, false, 90);
    let captures = generated(p, true, 90);
    if quiets.contains(m) {
        assert(quiets[quiets.index_of(m)] == m);
        Move::lemma_packed(m.from_spec() as usize, m.to_spec() as usize, false);
    }
    if captures.contains(m) {
        assert(captures[captures.index_of(m)] == m);
        Move::lemma_packed(m.from_spec() as usize, m.to_spec() as usize, true);
    }
}

/// A king in its palace is in check if and only if the other side, being to move, could
/// take it.
pub proof fn law_check_is_a_threat_to_take_the_king(rules: &Xiangqi, p: Position, color: Color)
    requires
        p.cells.len() == 256,
        p.side_to_move != color,
        on_board(p.king_square(color)),
        in_palace(p.king_square(color), color),
        p.cells[p.king_square(color)] == Some(Piece { piece_type: PieceType::King, color }),
    ensures
        p.in_check(color) <==> exists|m: Move| #[trigger]
            rules.captures_spec(p).contains(m) && m.to_spec() == p.king_square(color),
{
    let sq = p.king_square(color);
    let all = generated(p, true, 90);
    law_check_means_an_attack(p, color);
    law_generated_moves_are_pseudo_legal(p, true, 90);
    if p.in_check(color) {
        let from = choose|from: int| #[trigger]
            p.attacks(from, sq) && p.piece_at(from) is Some && (p.piece_at(from)->0).color
                == color.opposite_spec();
        assert(pseudo_move(p, from, sq, true));
        let m = Move(packed(from as usize, sq as usize, true));
        law_every_pseudo_legal_move_is_generated(p, from, sq, true);
        Move::lemma_packed(from as usize, sq as usize, true);
        assert(rules.captures_spec(p).contains(m) && m.to_spec() == sq);
    }
    if exists|m: Move| #[trigger]
        rules.captures_spec(p).contains(m) && m.to_spec() == p.king_square(color) {
        let m = choose|m: Move| #[trigger]
            rules.captures_spec(p).contains(m) && m.to_spec() == p.king_square(color);
        assert(all[all.index_of(m)] == m);
        assert(p.attacks(m.from_spec(), sq));
        assert(attacked_by(p, sq, color.opposite_spec()));
    }
}

/// The kings face each other if and only if they stand in one column with no piece
/// between them.
pub proof fn law_kings_face_along_an_empty_column(p: Position, rr: int, rc: int, br: int, bc: int)
    requires
        p.cells.len() == 256,
        0 <= rr <= 9,
        0 <= rc <= 8,
        0 <= br <= 9,
        0 <= bc <= 8,
        p.red_king_sq == 16 * rr + rc,
        p.black_king_sq == 16 * br + bc,
    ensures
        p.kings_facing() <==> rc == bc && forall|r: int|
            between(rr, r, br) ==> (#[trigger] at(p, r, rc)) is None,
{
    if p.kings_facing() {
        assert forall|r: int| between(rr, r, br) implies (#[trigger] at(p, r, rc)) is None by {
            assert(p.is_empty(square_at(r, rc)));
            assert(on_board(square_at(r, rc)));
        }
    }
    if rc == bc && forall|r: int| between(rr, r, br) ==> (#[trigger] at(p, r, rc)) is None {
        assert forall|row: int| br < row < rr || rr < row < br implies p.is_empty(
            #[trigger] square_at(row, rc),
        ) by {
            assert(at(p, row, rc) is None);
        }
    }
}

/// The legal moves are those captures and quiet moves after which the kings do not face
/// each other and the mover's king is not in check.
pub proof fn law_legal_moves_keep_the_king_safe<R: Rules>(rules: &R, p: Position, m: Move)
    ensures
        legal_moves_spec(rules, p).contains(m) <==> (rules.captures_spec(p).contains(m)
            || rules.quiets_spec(p).contains(m)) && !p.after_move(m).kings_facing()
            && !p.after_move(m).in_check(p.side_to_move),
{
    reveal(Position::is_safe);
    let safe = |x: Move| p.is_safe(x);
    let c = rules.captures_spec(p);
    let q = rules.quiets_spec(p);
    let all = pseudo_legal(rules, p);
    let legal = legal_moves_spec(rules, p);
    assert(all.contains(m) <==> c.contains(m) || q.contains(m)) by {
        if all.contains(m) {
            let i = all.index_of(m);
            if i < c.len() {
                assert(c[i] == m);
            } else {
                assert(q[i - c.len()] == m);
            }
        }
        if c.contains(m) {
            assert(all[c.index_of(m)] == m);
        }
        if q.contains(m) {
            assert(all[c.len() + q.index_of(m)] == m);
        }
    }
    if legal.contains(m) {
        all.lemma_filter_contains_rev(safe, m);
        all.lemma_filter_pred(safe, legal.index_of(m));
    }
    if all.contains(m) && p.is_safe(m) {
        all.lemma_filter_contains(safe, all.index_of(m));
    }
}

/// A move puts the piece of its first square on its second and leaves every other square
/// as it was; the turn passes, and a king is known to stand where it went.
pub proof fn law_a_move_moves_one_piece(p: Position, m: Move, sq: int)
    requires
        p.cells.len() == 256,
        on_board(m.from_spec()),
        on_board(m.to_spec()),
        m.from_spec() != m.to_spec(),
        p.cells[m.from_spec()] is Some,
        0 <= sq < 256,
    ensures
        ({
            let q = p.after_move(m);
            let piece = p.cells[m.from_spec()]->0;
            &&& q.cells.len() == 256
            &&& q.cells[sq] == (if sq == m.to_spec() {
                Some(piece)
            } else if sq == m.from_spec() {
                None
            } else {
                p.cells[sq]
            })
            &&& q.side_to_move != p.side_to_move
            &&& q.red_king_sq == (if piece.piece_type == PieceType::King && piece.color
                == Color::Red {
                m.to_spec()
            } else {
                p.red_king_sq as int
            })
            &&& q.black_king_sq == (if piece.piece_type == PieceType::King && piece.color
                == Color::Black {
                m.to_spec()
            } else {
                p.black_king_sq as int
            })
        }),
{
    reveal(Position::after_move);
}

/// Legal moves keep the order in which they are generated, the captures before the others:
/// once one of them takes nothing, none behind it takes anything.
pub proof fn law_captures_come_first<R: Rules>(rules: &R, p: Position, i: int, j: int)
    requires
        p.cells.len() == 256,
        0 <= i < j < legal_moves_spec(rules, p).len(),
        p.is_empty(legal_moves_spec(rules, p)[i].to_spec()),
    ensures
        p.is_empty(legal_moves_spec(rules, p)[j].to_spec()),
{
    let safe = |m: Move| p.is_safe(m);
    let c = rules.captures_spec(p);
    let q = rules.quiets_spec(p);
    let taking = c.filter(safe);
    let going = q.filter(safe);
    let legal = legal_moves_spec(rules, p);
    rules.captures_are_captures(p);
    rules.quiets_are_quiet(p);
    lemma_filter_sum(c, q, safe);
    assert(legal == taking + going);
    if i < taking.len() {
        assert(legal[i] == taking[i]);
        assert(taking.contains(taking[i]));
        c.lemma_filter_contains_rev(safe, taking[i]);
        assert(p.is_capture_step(c[c.index_of(taking[i])]));
    }
    assert(legal[j] == going[j - taking.len()]);
    assert(going.contains(legal[j]));
    q.lemma_filter_contains_rev(safe, legal[j]);
    assert(p.is_quiet_step(q[q.index_of(legal[j])]));
}

proof fn lemma_filter_sum(a: Seq<Move>, b: Seq<Move>, safe: spec_fn(Move) -> bool)
    ensures
        (a + b).filter(safe) == a.filter(safe) + b.filter(safe),
    decreases b.len(),
{
    reveal_with_fuel(Seq::filter, 1);
    if b.len() == 0 {
        assert(a + b =~= a);
        assert(b.filter(safe) =~= Seq::<Move>::empty());
        assert(a.filter(safe) + b.filter(safe) =~= a.filter(safe));
    } else {
        let rest = b.drop_last();
        lemma_filter_sum(a, rest, safe);
        assert((a + b).drop_last() =~= a + rest);
        assert((a + b).last() == b.last());
        assert((a + b).filter(safe) =~= a.filter(safe) + b.filter(safe));
    }
}

} // verus!
