//! The order in which a search looks at moves.

use crate::board::{Board, Position};
use crate::moves::Move;
use crate::rules::Rules;
use vstd::prelude::*;

verus! {

/// The rank of a capture: a valuable victim first, then a cheap attacker.
pub open spec fn mvv_lva_spec<R: Rules>(rules: &R, p: Position, m: Move) -> int {
    rules.value_spec(p.piece_at(m.to_spec())->0.piece_type) * 100 - rules.value_spec(
        p.piece_at(m.from_spec())->0.piece_type,
    )
}

pub fn mvv_lva<R: Rules>(rules: &R, board: &Board, m: Move) -> (rank: i32)
    requires
        board@.piece_at(m.to_spec()) is Some,
        board@.piece_at(m.from_spec()) is Some,
    ensures
        rank == mvv_lva_spec(rules, board@, m),
{
    let victim = board.piece_at(m.to_sq()).unwrap();
    let attacker = board.piece_at(m.from_sq()).unwrap();
    rules.value(victim.piece_type) * 100 - rules.value(attacker.piece_type)
}

/// `ranked` with `m` put behind every capture of at least its rank.
pub open spec fn insert_ranked<R: Rules>(
    rules: &R,
    p: Position,
    ranked: Seq<Move>,
    m: Move,
) -> Seq<Move>
    decreases ranked.len(),
{
    if ranked.len() == 0 || mvv_lva_spec(rules, p, ranked.last()) >= mvv_lva_spec(rules, p, m) {
        ranked.push(m)
    } else {
        insert_ranked(rules, p, ranked.drop_last(), m).push(ranked.last())
    }
}

/// The captures by falling rank; those of equal rank keep their order.
pub open spec fn rank_captures<R: Rules>(rules: &R, p: Position, captures: Seq<Move>) -> Seq<Move>
    decreases captures.len(),
{
    if captures.len() == 0 {
        captures
    } else {
        insert_ranked(rules, p, rank_captures(rules, p, captures.drop_last()), captures.last())
    }
}

/// Where `insert_ranked` puts the move, and what that keeps.
proof fn lemma_insert_ranked<R: Rules>(
    rules: &R,
    p: Position,
    ranked: Seq<Move>,
    m: Move,
    pos: int,
)
    requires
        0 <= pos <= ranked.len(),
        pos > 0 ==> mvv_lva_spec(rules, p, ranked[pos - 1]) >= mvv_lva_spec(rules, p, m),
        forall|j: int|
            pos <= j < ranked.len() ==> mvv_lva_spec(rules, p, #[trigger] ranked[j])
                < mvv_lva_spec(rules, p, m),
    ensures
        insert_ranked(rules, p, ranked, m) =~= ranked.insert(pos, m),
    decreases ranked.len(),
{
    if pos < ranked.len() {
        lemma_insert_ranked(rules, p, ranked.drop_last(), m, pos);
        assert(ranked.drop_last().insert(pos, m).push(ranked.last()) =~= ranked.insert(pos, m));
    } else {
        assert(ranked.push(m) =~= ranked.insert(pos, m));
    }
}

/// Ranking drops nothing and adds nothing.
pub proof fn lemma_rank_captures_same<R: Rules>(rules: &R, p: Position, captures: Seq<Move>)
    ensures
        rank_captures(rules, p, captures).len() == captures.len(),
        forall|m: Move|
            #![trigger rank_captures(rules, p, captures).contains(m)]
            rank_captures(rules, p, captures).contains(m) <==> captures.contains(m),
    decreases captures.len(),
{
    if captures.len() > 0 {
        let rest = captures.drop_last();
        let last = captures.last();
        lemma_rank_captures_same(rules, p, rest);
        lemma_insert_ranked_same(rules, p, rank_captures(rules, p, rest), last);
        assert forall|m: Move|
            #![trigger rank_captures(rules, p, captures).contains(m)]
            rank_captures(rules, p, captures).contains(m) <==> captures.contains(m) by {
            assert(rank_captures(rules, p, rest).contains(m) <==> rest.contains(m));
            if captures.contains(m) && m != last {
                let j = captures.index_of(m);
                assert(rest[j] == m);
            }
            if rest.contains(m) {
                let j = rest.index_of(m);
                assert(captures[j] == m);
            }
            if m == last {
                assert(captures[captures.len() - 1] == m);
            }
        }
    }
}

proof fn lemma_insert_ranked_same<R: Rules>(rules: &R, p: Position, ranked: Seq<Move>, m: Move)
    ensures
        insert_ranked(rules, p, ranked, m).len() == ranked.len() + 1,
        forall|x: Move|
            #![trigger insert_ranked(rules, p, ranked, m).contains(x)]
            insert_ranked(rules, p, ranked, m).contains(x) <==> (ranked.contains(x) || x == m),
    decreases ranked.len(),
{
    let out = insert_ranked(rules, p, ranked, m);
    if ranked.len() == 0 || mvv_lva_spec(rules, p, ranked.last()) >= mvv_lva_spec(rules, p, m) {
        assert forall|x: Move|
            #![trigger out.contains(x)]
            out.contains(x) <==> (ranked.contains(x) || x == m) by {
            if ranked.contains(x) {
                assert(out[ranked.index_of(x)] == x);
            }
            assert(out[ranked.len() as int] == m);
            if out.contains(x) && x != m {
                assert(ranked[out.index_of(x)] == x);
            }
        }
    } else {
        let rest = ranked.drop_last();
        lemma_insert_ranked_same(rules, p, rest, m);
        let inner = insert_ranked(rules, p, rest, m);
        assert forall|x: Move|
            #![trigger out.contains(x)]
            out.contains(x) <==> (ranked.contains(x) || x == m) by {
            assert(inner.contains(x) <==> (rest.contains(x) || x == m));
            if out.contains(x) {
                let j = out.index_of(x);
                if j < inner.len() {
                    assert(inner[j] == x);
                    if rest.contains(x) {
                        assert(ranked[rest.index_of(x)] == x);
                    }
                } else {
                    assert(ranked[ranked.len() - 1] == x);
                }
            }
            if inner.contains(x) {
                assert(out[inner.index_of(x)] == x);
            }
            if ranked.contains(x) {
                let j = ranked.index_of(x);
                if j < rest.len() {
                    assert(rest[j] == x);
                } else {
                    assert(out[inner.len() as int] == x);
                }
            }
        }
    }
}

/// The ranks never rise along the ranked captures.
pub proof fn law_ranked_captures_fall<R: Rules>(rules: &R, p: Position, captures: Seq<Move>)
    ensures
        forall|i: int, j: int|
            0 <= i <= j < captures.len() ==> mvv_lva_spec(
                rules,
                p,
                #[trigger] rank_captures(rules, p, captures)[i],
            ) >= mvv_lva_spec(rules, p, #[trigger] rank_captures(rules, p, captures)[j]),
    decreases captures.len(),
{
    if captures.len() > 0 {
        let rest = captures.drop_last();
        law_ranked_captures_fall(rules, p, rest);
        lemma_rank_captures_same(rules, p, rest);
        lemma_insert_ranked_falls(rules, p, rank_captures(rules, p, rest), captures.last());
        lemma_rank_captures_same(rules, p, captures);
    }
}

/// Captures of the same rank keep their order: taken alone, those of any rank stand ranked as
/// they stood before.
pub proof fn law_captures_of_one_rank_keep_their_order<R: Rules>(
    rules: &R,
    p: Position,
    captures: Seq<Move>,
    rank: int,
)
    ensures
        ({
            let of_rank = |m: Move| mvv_lva_spec(rules, p, m) == rank;
            rank_captures(rules, p, captures).filter(of_rank) == captures.filter(of_rank)
        }),
    decreases captures.len(),
{
    let of_rank = |m: Move| mvv_lva_spec(rules, p, m) == rank;
    if captures.len() > 0 {
        let rest = captures.drop_last();
        law_captures_of_one_rank_keep_their_order(rules, p, rest, rank);
        lemma_insert_keeps_the_rank(
            rules,
            p,
            rank_captures(rules, p, rest),
            captures.last(),
            rank,
        );
        rest.lemma_filter_push(captures.last(), of_rank);
        assert(captures =~= rest.push(captures.last()));
    }
}

proof fn lemma_insert_keeps_the_rank<R: Rules>(
    rules: &R,
    p: Position,
    ranked: Seq<Move>,
    m: Move,
    rank: int,
)
    ensures
        ({
            let of_rank = |x: Move| mvv_lva_spec(rules, p, x) == rank;
            insert_ranked(rules, p, ranked, m).filter(of_rank) == if of_rank(m) {
                ranked.filter(of_rank).push(m)
            } else {
                ranked.filter(of_rank)
            }
        }),
    decreases ranked.len(),
{
    let of_rank = |x: Move| mvv_lva_spec(rules, p, x) == rank;
    if ranked.len() == 0 || mvv_lva_spec(rules, p, ranked.last()) >= mvv_lva_spec(rules, p, m) {
        ranked.lemma_filter_push(m, of_rank);
    } else {
        let rest = ranked.drop_last();
        lemma_insert_keeps_the_rank(rules, p, rest, m, rank);
        insert_ranked(rules, p, rest, m).lemma_filter_push(ranked.last(), of_rank);
        rest.lemma_filter_push(ranked.last(), of_rank);
        assert(ranked =~= rest.push(ranked.last()));
    }
}

proof fn lemma_insert_ranked_falls<R: Rules>(rules: &R, p: Position, ranked: Seq<Move>, m: Move)
    requires
        forall|i: int, j: int|
            0 <= i <= j < ranked.len() ==> mvv_lva_spec(rules, p, #[trigger] ranked[i])
                >= mvv_lva_spec(rules, p, #[trigger] ranked[j]),
    ensures
        ({
            let out = insert_ranked(rules, p, ranked, m);
            forall|i: int, j: int|
                0 <= i <= j < out.len() ==> mvv_lva_spec(rules, p, #[trigger] out[i])
                    >= mvv_lva_spec(rules, p, #[trigger] out[j])
        }),
    decreases ranked.len(),
{
    if ranked.len() == 0 || mvv_lva_spec(rules, p, ranked.last()) >= mvv_lva_spec(rules, p, m) {
    } else {
        let rest = ranked.drop_last();
        assert forall|i: int, j: int| 0 <= i <= j < rest.len() implies mvv_lva_spec(
            rules,
            p,
            #[trigger] rest[i],
        ) >= mvv_lva_spec(rules, p, #[trigger] rest[j]) by {
            assert(rest[i] == ranked[i] && rest[j] == ranked[j]);
        }
        lemma_insert_ranked_falls(rules, p, rest, m);
        lemma_insert_ranked_same(rules, p, rest, m);
        let inner = insert_ranked(rules, p, rest, m);
        let out = insert_ranked(rules, p, ranked, m);
        assert forall|i: int, j: int| 0 <= i <= j < out.len() implies mvv_lva_spec(
            rules,
            p,
            #[trigger] out[i],
        ) >= mvv_lva_spec(rules, p, #[trigger] out[j]) by {
            if j < inner.len() {
                assert(out[i] == inner[i] && out[j] == inner[j]);
            } else if i < inner.len() {
                assert(out[i] == inner[i]);
                assert(inner.contains(inner[i]));
                if inner[i] != m {
                    let k = rest.index_of(inner[i]);
                    assert(ranked[k] == inner[i]);
                }
            }
        }
    }
}

/// Sorts captures by falling rank.
pub fn rank_captures_vec<R: Rules>(rules: &R, board: &Board, captures: &Vec<Move>) -> (ranked: Vec<Move>)
    requires
        forall|i: int|
            0 <= i < captures@.len() ==> board@.is_capture_step(#[trigger] captures@[i]),
    ensures
        ranked@ == rank_captures(rules, board@, captures@),
{
    let mut ranked: Vec<Move> = Vec::new();
    let mut i: usize = 0;
    assert(captures@.take(0) =~= Seq::<Move>::empty());
    while i < captures.len()
        invariant
            i <= captures@.len(),
            forall|k: int|
                0 <= k < captures@.len() ==> board@.is_capture_step(#[trigger] captures@[k]),
            ranked@ == rank_captures(rules, board@, captures@.take(i as int)),
        decreases captures@.len() - i,
    {
        let m = captures[i];
        let rank = mvv_lva(rules, board, m);
        proof {
            lemma_rank_captures_same(rules, board@, captures@.take(i as int));
        }
        let mut pos: usize = ranked.len();
        while pos > 0 && mvv_lva_at(rules, board, &ranked, pos, captures, i) < rank
            invariant
                i < captures@.len(),
                m == captures@[i as int],
                rank == mvv_lva_spec(rules, board@, m),
                pos <= ranked@.len(),
                forall|k: int|
                    0 <= k < captures@.len() ==> board@.is_capture_step(#[trigger] captures@[k]),
                ranked@ == rank_captures(rules, board@, captures@.take(i as int)),
                forall|j: int|
                    pos <= j < ranked@.len() ==> mvv_lva_spec(rules, board@, #[trigger] ranked@[j])
                        < rank,
            decreases pos,
        {
            pos -= 1;
        }
        proof {
            lemma_insert_ranked(rules, board@, ranked@, m, pos as int);
            let next = captures@.take(i + 1);
            assert(next.drop_last() =~= captures@.take(i as int));
            assert(next.last() == m);
        }
        ranked.insert(pos, m);
        i += 1;
    }
    assert(captures@.take(i as int) =~= captures@);
    ranked
}

/// The rank of the capture before position `pos`.
fn mvv_lva_at<R: Rules>(
    rules: &R,
    board: &Board,
    ranked: &Vec<Move>,
    pos: usize,
    captures: &Vec<Move>,
    i: usize,
) -> (rank: i32)
    requires
        0 < pos <= ranked@.len(),
        i <= captures@.len(),
        forall|k: int|
            0 <= k < captures@.len() ==> board@.is_capture_step(#[trigger] captures@[k]),
        ranked@ == rank_captures(rules, board@, captures@.take(i as int)),
    ensures
        rank == mvv_lva_spec(rules, board@, ranked@[pos - 1]),
{
    let m = ranked[pos - 1];
    proof {
        let done = captures@.take(i as int);
        lemma_rank_captures_same(rules, board@, done);
        assert(ranked@.contains(m));
        assert(done.contains(m));
        assert(captures@[done.index_of(m)] == m);
    }
    mvv_lva(rules, board, m)
}

/// Both moves lead from one same square to another.
pub open spec fn same_squares(m: Move, h: Move) -> bool {
    m.to_spec() == h.to_spec() && m.from_spec() == h.from_spec()
}

/// The first of the moves that has the squares of `hint` comes to the front, in
/// exchange for the one that was there.
pub open spec fn hint_first(moves: Seq<Move>, hint: Option<Move>) -> Seq<Move> {
    match hint {
        None => moves,
        Some(h) => {
            if exists|i: int| 0 <= i < moves.len() && same_squares(#[trigger] moves[i], h) {
                let pos = first_same(moves, h, 0);
                moves.update(0, moves[pos]).update(pos, moves[0])
            } else {
                moves
            }
        },
    }
}

/// The first index from `i` on whose move has the squares of `h`.
pub open spec fn first_same(moves: Seq<Move>, h: Move, i: int) -> int
    decreases moves.len() - i,
{
    if i >= moves.len() || same_squares(moves[i], h) {
        i
    } else {
        first_same(moves, h, i + 1)
    }
}

pub fn put_hint_first(moves: &mut Vec<Move>, hint: Option<Move>)
    ensures
        final(moves)@ == hint_first(old(moves)@, hint),
{
    if let Some(h) = hint {
        let ghost before = moves@;
        let mut pos: usize = 0;
        while pos < moves.len()
            invariant
                moves@ == before,
                before == old(moves)@,
                hint == Some(h),
                pos <= moves@.len(),
                first_same(before, h, 0) == first_same(before, h, pos as int),
                forall|j: int|
                    0 <= j < pos ==> !same_squares(#[trigger] before[j], h),
            decreases moves@.len() - pos,
        {
            let m = moves[pos];
            if m.to_sq() == h.to_sq() && m.from_sq() == h.from_sq() {
                let first = moves[0];
                moves.set(0, m);
                moves.set(pos, first);
                assert(same_squares(before[pos as int], h));
                return;
            }
            pos += 1;
        }
    }
}

pub proof fn lemma_hint_first_same(moves: Seq<Move>, hint: Option<Move>)
    ensures
        hint_first(moves, hint).len() == moves.len(),
        forall|m: Move|
            #![trigger hint_first(moves, hint).contains(m)]
            hint_first(moves, hint).contains(m) <==> moves.contains(m),
{
    let out = hint_first(moves, hint);
    if let Some(h) = hint {
        if exists|i: int| 0 <= i < moves.len() && same_squares(#[trigger] moves[i], h) {
            let w = choose|i: int| 0 <= i < moves.len() && same_squares(#[trigger] moves[i], h);
            lemma_first_same(moves, h, 0, w);
            let pos = first_same(moves, h, 0);
            assert forall|m: Move|
                #![trigger out.contains(m)]
                out.contains(m) <==> moves.contains(m) by {
                if out.contains(m) {
                    let j = out.index_of(m);
                    if j == pos {
                        assert(moves[0] == m);
                    } else if j == 0 {
                        assert(moves[pos] == m);
                    } else {
                        assert(moves[j] == m);
                    }
                }
                if moves.contains(m) {
                    let j = moves.index_of(m);
                    if j == 0 {
                        assert(out[pos] == m);
                    } else if j == pos {
                        assert(out[0] == m);
                    } else {
                        assert(out[j] == m);
                    }
                }
            }
        }
    }
}

proof fn lemma_first_same(moves: Seq<Move>, h: Move, i: int, w: int)
    requires
        0 <= i <= w < moves.len(),
        same_squares(moves[w], h),
    ensures
        i <= first_same(moves, h, i) <= w,
    decreases w - i,
{
    if !same_squares(moves[i], h) {
        lemma_first_same(moves, h, i + 1, w);
    }
}

} // verus!
