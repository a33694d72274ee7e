//! What pieces are worth, which of them hang, and in what order they are taken.

use crate::board::{Color, Piece, PieceType, Position};
use crate::moves::{
    dense_of, lemma_dense_round_trip, lemma_square_round_trip, on_board, packed, square_of_dense,
    Move,
};
use crate::ordering::{
    first_same, hint_first, law_ranked_captures_fall, lemma_rank_captures_same, mvv_lva_spec,
    rank_captures, same_squares,
};
use crate::rules::Rules;
use crate::steps::at;
use crate::xiangqi::{
    generated, guarded, hanging, hangs, has_color, law_every_pseudo_legal_move_is_generated,
    law_generated_moves_are_pseudo_legal, material, piece_value_spec, pseudo_move, Xiangqi,
};
use vstd::prelude::*;

verus! {

// ---------------------------------------------------------------------------
// Material
// ---------------------------------------------------------------------------
/// What a piece counts for a side.
spec fn counts(piece: Option<Piece>, side: Color) -> int {
    match piece {
        None => 0,
        Some(x) => if x.color == side {
            piece_value_spec(x.piece_type) as int
        } else {
            -piece_value_spec(x.piece_type) as int
        },
    }
}

proof fn lemma_material(p: Position, side: Color, n: int)
    requires
        0 <= n <= 90,
    ensures
        material(p, side, n) == -material(p, side.opposite_spec(), n),
        -10000 * n <= material(p, side, n) <= 10000 * n,
    decreases n,
{
    if n > 0 {
        lemma_material(p, side, n - 1);
    }
}

/// Squares with the same pieces have the same material.
proof fn lemma_same_material(p: Position, q: Position, side: Color, n: int)
    requires
        0 <= n <= 90,
        forall|sq: int| on_board(sq) ==> #[trigger] q.cells[sq] == p.cells[sq],
    ensures
        material(q, side, n) == material(p, side, n),
    decreases n,
{
    if n > 0 {
        lemma_same_material(p, q, side, n - 1);
        lemma_square_round_trip(n - 1);
    }
}

proof fn lemma_material_after(p: Position, m: Move, side: Color, n: int)
    requires
        p.cells.len() == 256,
        on_board(m.from_spec()),
        on_board(m.to_spec()),
        m.from_spec() != m.to_spec(),
        p.cells[m.from_spec()] is Some,
        0 <= n <= 90,
    ensures
        ({
            let piece = p.cells[m.from_spec()];
            let victim = p.cells[m.to_spec()];
            material(p.after_move(m), side, n) == material(p, side, n) + (if dense_of(m.to_spec())
                < n {
                counts(piece, side) - counts(victim, side)
            } else {
                0
            }) - (if dense_of(m.from_spec()) < n {
                counts(piece, side)
            } else {
                0
            })
        }),
    decreases n,
{
    reveal(Position::after_move);
    lemma_dense_round_trip(m.from_spec());
    lemma_dense_round_trip(m.to_spec());
    if n > 0 {
        lemma_material_after(p, m, side, n - 1);
        lemma_square_round_trip(n - 1);
        let q = p.after_move(m);
        let sq = square_of_dense(n - 1);
        assert(q.piece_at(sq) == (if sq == m.to_spec() {
            p.cells[m.from_spec()]
        } else if sq == m.from_spec() {
            None
        } else {
            p.cells[sq]
        }));
        assert(sq == m.to_spec() <==> dense_of(m.to_spec()) == n - 1);
        assert(sq == m.from_spec() <==> dense_of(m.from_spec()) == n - 1);
    }
}

/// The score is for the side to move: it is the opposite for the other side.
pub proof fn law_what_one_side_is_ahead_the_other_is_behind(rules: &Xiangqi, p: Position)
    ensures
        ({
            let other = if p.side_to_move == Color::Red {
                Color::Black
            } else {
                Color::Red
            };
            rules.evaluate_spec(Position { side_to_move: other, ..p }) == -rules.evaluate_spec(p)
        }),
{
    let other = p.side_to_move.opposite_spec();
    let q = Position { side_to_move: other, ..p };
    lemma_material(p, p.side_to_move, 90);
    lemma_material(p, other, 90);
    lemma_same_material(p, q, other, 90);
}

/// A capture wins what the captured piece is worth, a quiet move wins nothing; the score is
/// then the other side's.
pub proof fn law_a_capture_wins_what_it_takes(rules: &Xiangqi, p: Position, m: Move)
    requires
        p.cells.len() == 256,
        on_board(m.from_spec()),
        on_board(m.to_spec()),
        m.from_spec() != m.to_spec(),
        p.cells[m.from_spec()] is Some,
        p.cells[m.to_spec()] is Some ==> (p.cells[m.to_spec()]->0).color != p.side_to_move,
    ensures
        rules.evaluate_spec(p.after_move(m)) == -rules.evaluate_spec(p) - (match p.cells[
        m.to_spec()] {
            None => 0int,
            Some(victim) => rules.value_spec(victim.piece_type) as int,
        }),
{
    let q = p.after_move(m);
    let side = p.side_to_move;
    lemma_material_after(p, m, side, 90);
    lemma_dense_round_trip(m.from_spec());
    lemma_dense_round_trip(m.to_spec());
    assert(q.side_to_move == side.opposite_spec()) by {
        reveal(Position::after_move);
    }
    lemma_material(q, side, 90);
    lemma_material(q, side.opposite_spec(), 90);
    lemma_material(p, side, 90);
}

/// A king outweighs every other piece, then a rook, a cannon, a horse, the defenders alike,
/// and a pawn, which counts a hundred points. A defender is worth two pawns, a horse two
/// defenders, a rook nine pawns or two cannons, and a king a hundred pawns.
pub proof fn law_pieces_rank(rules: &Xiangqi)
    ensures
        rules.value_spec(PieceType::King) > 2 * rules.value_spec(PieceType::Rook)
            + 2 * rules.value_spec(PieceType::Cannon) + 2 * rules.value_spec(PieceType::Horse)
            + 4 * rules.value_spec(PieceType::Advisor) + 5 * rules.value_spec(PieceType::Pawn),
        rules.value_spec(PieceType::Rook) > rules.value_spec(PieceType::Cannon),
        rules.value_spec(PieceType::Cannon) > rules.value_spec(PieceType::Horse),
        rules.value_spec(PieceType::Horse) > rules.value_spec(PieceType::Elephant),
        rules.value_spec(PieceType::Elephant) == rules.value_spec(PieceType::Advisor),
        rules.value_spec(PieceType::Advisor) > rules.value_spec(PieceType::Pawn),
        rules.value_spec(PieceType::Pawn) == 100,
        rules.value_spec(PieceType::Advisor) == 2 * rules.value_spec(PieceType::Pawn),
        rules.value_spec(PieceType::Horse) == 2 * rules.value_spec(PieceType::Advisor),
        rules.value_spec(PieceType::Rook) == 2 * rules.value_spec(PieceType::Cannon),
        rules.value_spec(PieceType::Rook) == 9 * rules.value_spec(PieceType::Pawn),
        rules.value_spec(PieceType::King) == 100 * rules.value_spec(PieceType::Pawn),
{
}

// ---------------------------------------------------------------------------
// Threats
// ---------------------------------------------------------------------------
/// One more bit.
proof fn lemma_one_more_bit(x: u128, k: u128, d: u128)
    requires
        k < 90,
        d < 90,
    ensures
        ((x | (1u128 << k)) & (1u128 << d) != 0) == (x & (1u128 << d) != 0 || d == k),
        0u128 & (1u128 << d) == 0,
{
    assert(((x | (1u128 << k)) & (1u128 << d) != 0) == (x & (1u128 << d) != 0 || d == k))
        by (bit_vector)
        requires
            k < 90,
            d < 90,
    ;
    assert(0u128 & (1u128 << d) == 0) by (bit_vector);
}

proof fn lemma_hanging_bits(p: Position, side: Color, n: int, d: int)
    requires
        0 <= n <= 90,
        0 <= d < 90,
    ensures
        hanging(p, side, n) & (1u128 << (d as u128)) != 0 <==> d < n && hangs(
            p,
            square_of_dense(d),
            side,
        ),
    decreases n,
{
    if n > 0 {
        lemma_hanging_bits(p, side, n - 1, d);
        lemma_one_more_bit(hanging(p, side, n - 1), (n - 1) as u128, d as u128);
    } else {
        lemma_one_more_bit(0, 0, d as u128);
    }
}

/// Positions with the same squares empty have the same lines.
proof fn lemma_same_line(p: Position, q: Position, a: int, d: int, n: int)
    requires
        forall|sq: int| #[trigger] p.is_empty(sq) == q.is_empty(sq),
    ensures
        p.pieces_on_line(a, d, n) == q.pieces_on_line(a, d, n),
    decreases n,
{
    if n > 0 {
        lemma_same_line(p, q, a, d, n - 1);
    }
}

/// A piece goes alike where it is the same and the same squares are empty.
proof fn lemma_goes_alike(p: Position, q: Position, from: int, to: int)
    requires
        forall|sq: int| #[trigger] p.is_empty(sq) == q.is_empty(sq),
        p.piece_at(from) == q.piece_at(from),
    ensures
        p.attacks(from, to) == q.attacks(from, to),
{
    lemma_same_line(p, q, from, 1, to - from - 1);
    lemma_same_line(p, q, from, -1, from - to - 1);
    lemma_same_line(p, q, from, 16, to / 16 - from / 16 - 1);
    lemma_same_line(p, q, from, -16, from / 16 - to / 16 - 1);
    assert(p.pieces_between(from, to) == q.pieces_between(from, to));
    assert(p.is_empty((from + to) / 2) == q.is_empty((from + to) / 2));
    assert(p.horse_step(from, to) == q.horse_step(from, to)) by {
        let jumps = crate::board::horse_jumps();
        let legs = crate::board::horse_legs();
        if p.horse_step(from, to) {
            let i = choose|i: int|
                0 <= i < 8 && to == from + #[trigger] jumps[i] && p.is_empty(from + legs[i]);
            assert(to == from + jumps[i] && q.is_empty(from + legs[i]));
        }
        if q.horse_step(from, to) {
            let i = choose|i: int|
                0 <= i < 8 && to == from + #[trigger] jumps[i] && q.is_empty(from + legs[i]);
            assert(to == from + jumps[i] && p.is_empty(from + legs[i]));
        }
    }
}

/// A square is guarded by a colour if and only if that colour could take an enemy there.
proof fn lemma_guarded_is_takeable(rules: &Xiangqi, p: Position, q: Position, sq: int, color: Color)
    requires
        p.cells.len() == 256,
        q.cells.len() == 256,
        on_board(sq),
        q.side_to_move == color,
        q.cells[sq] is Some,
        p.cells[sq] is Some,
        (q.cells[sq]->0).color != color,
        forall|x: int| 0 <= x < 256 && x != sq ==> #[trigger] q.cells[x] == p.cells[x],
    ensures
        guarded(p, sq, color) <==> exists|m: Move| #[trigger]
            rules.captures_spec(q).contains(m) && m.to_spec() == sq,
{
    let all = generated(q, true, 90);
    law_generated_moves_are_pseudo_legal(q, true, 90);
    assert(forall|x: int| #[trigger] p.is_empty(x) == q.is_empty(x));
    if guarded(p, sq, color) {
        let d = choose|d: int|
            0 <= d < 90 && #[trigger] has_color(p, square_of_dense(d), color) && p.attacks(
                square_of_dense(d),
                sq,
            );
        let from = square_of_dense(d);
        lemma_square_round_trip(d);
        assert(from != sq) by {
            if from == sq {
                assert(!p.horse_step(sq, sq)) by {
                    let jumps = crate::board::horse_jumps();
                    assert(forall|i: int| 0 <= i < 8 ==> #[trigger] jumps[i] != 0);
                }
            }
        }
        assert(p.piece_at(from) == q.piece_at(from));
        lemma_goes_alike(p, q, from, sq);
        assert(pseudo_move(q, from, sq, true));
        law_every_pseudo_legal_move_is_generated(q, from, sq, true);
        let m = Move(packed(from as usize, sq as usize, true));
        Move::lemma_packed(from as usize, sq as usize, true);
        assert(rules.captures_spec(q).contains(m) && m.to_spec() == sq);
    }
    if exists|m: Move| #[trigger] rules.captures_spec(q).contains(m) && m.to_spec() == sq {
        let m = choose|m: Move| #[trigger]
            rules.captures_spec(q).contains(m) && m.to_spec() == sq;
        let from = m.from_spec();
        assert(all[all.index_of(m)] == m);
        assert(pseudo_move(q, from, sq, true));
        assert(from != sq);
        assert(p.piece_at(from) == q.piece_at(from));
        lemma_goes_alike(p, q, from, sq);
        lemma_dense_round_trip(from);
        assert(has_color(p, square_of_dense(dense_of(from)), color));
    }
}

/// A piece is under threat of a side, one bit for each square counted by rows of nine, if and
/// only if it is no king, that side could take it if it were to move, and nothing could take
/// back: no piece of its own colour could take on its square if an enemy stood there.
pub proof fn law_threats_are_pieces_that_can_be_taken_for_nothing(
    rules: &Xiangqi,
    p: Position,
    side: Color,
    other: Color,
    row: int,
    col: int,
)
    requires
        p.cells.len() == 256,
        other != side,
        0 <= row <= 9,
        0 <= col <= 8,
    ensures
        ({
            let sq = 16 * row + col;
            let taking = Position { side_to_move: side, ..p };
            let taken = Position {
                cells: p.cells.update(sq, Some(Piece { piece_type: PieceType::Rook, color: side })),
                side_to_move: other,
                ..p
            };
            let bit = 1u128 << ((9 * row + col) as u128);
            rules.threats_spec(p, side) & bit != 0 <==> {
                &&& at(p, row, col) matches Some(victim)
                &&& victim.color == other
                &&& victim.piece_type != PieceType::King
                &&& exists|m: Move| #[trigger]
                    rules.captures_spec(taking).contains(m) && m.to_spec() == sq
                &&& !exists|m: Move| #[trigger]
                    rules.captures_spec(taken).contains(m) && m.to_spec() == sq
            }
        }),
{
    let sq = 16 * row + col;
    let d = 9 * row + col;
    let taking = Position { side_to_move: side, ..p };
    let taken = Position {
        cells: p.cells.update(sq, Some(Piece { piece_type: PieceType::Rook, color: side })),
        side_to_move: other,
        ..p
    };
    assert(square_of_dense(d) == sq);
    lemma_hanging_bits(p, side, 90, d);
    if p.cells[sq] is Some && (p.cells[sq]->0).color == other {
        lemma_guarded_is_takeable(rules, p, taking, sq, side);
        lemma_guarded_is_takeable(rules, p, taken, sq, other);
    }
}

// ---------------------------------------------------------------------------
// Order
// ---------------------------------------------------------------------------
/// Captures are tried so that of two with the same taker the dearer victim comes first, and
/// of two with the same victim the cheaper taker. A cheaper victim comes before a dearer one
/// only where its taker is cheaper by a hundred times as much.
pub proof fn law_dear_victims_and_cheap_takers_come_first<R: Rules>(
    rules: &R,
    p: Position,
    captures: Seq<Move>,
    i: int,
    j: int,
)
    requires
        0 <= i < j < captures.len(),
    ensures
        ({
            let ranked = rank_captures(rules, p, captures);
            let taker = |m: Move| rules.value_spec(p.piece_at(m.from_spec())->0.piece_type);
            let victim = |m: Move| rules.value_spec(p.piece_at(m.to_spec())->0.piece_type);
            &&& ranked.len() == captures.len()
            &&& taker(ranked[i]) == taker(ranked[j]) ==> victim(ranked[i]) >= victim(ranked[j])
            &&& victim(ranked[i]) == victim(ranked[j]) ==> taker(ranked[i]) <= taker(ranked[j])
            &&& 100 * (victim(ranked[j]) - victim(ranked[i])) <= taker(ranked[j]) - taker(ranked[i])
        }),
{
    law_ranked_captures_fall(rules, p, captures);
    lemma_rank_captures_same(rules, p, captures);
    let ranked = rank_captures(rules, p, captures);
    assert(mvv_lva_spec(rules, p, ranked[i]) >= mvv_lva_spec(rules, p, ranked[j]));
}

/// The move that a table offers comes to the front, changing places with the one that was
/// there; all others stay, and all stay where none has its squares.
pub proof fn law_an_offered_move_comes_first(moves: Seq<Move>, h: Move, i: int)
    requires
        0 <= i < moves.len(),
        moves[i].from_spec() == h.from_spec(),
        moves[i].to_spec() == h.to_spec(),
        forall|j: int|
            0 <= j < i ==> (#[trigger] moves[j]).from_spec() != h.from_spec() || moves[j].to_spec()
                != h.to_spec(),
    ensures
        hint_first(moves, Some(h)).len() == moves.len(),
        hint_first(moves, Some(h))[0] == moves[i],
        hint_first(moves, Some(h))[i] == moves[0],
        forall|j: int|
            0 < j < moves.len() && j != i ==> #[trigger] hint_first(moves, Some(h))[j] == moves[j],
        hint_first(moves, None) == moves,
{
    assert(same_squares(moves[i], h));
    lemma_first_is(moves, h, 0, i);
}

proof fn lemma_first_is(moves: Seq<Move>, h: Move, start: int, i: int)
    requires
        0 <= start <= i < moves.len(),
        same_squares(moves[i], h),
        forall|j: int| 0 <= j < i ==> !same_squares(#[trigger] moves[j], h),
    ensures
        first_same(moves, h, start) == i,
    decreases i - start,
{
    if start < i {
        assert(!same_squares(moves[start], h));
        lemma_first_is(moves, h, start + 1, i);
    }
}

} // verus!
