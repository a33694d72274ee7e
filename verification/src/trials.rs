//! What a search does with the moves it tries, whatever its table offers.

use crate::board::{PieceType, Position};
use crate::moves::Move;
use crate::ordering::{hint_first, lemma_hint_first_same, lemma_rank_captures_same, rank_captures};
use crate::rules::{
    entry_of, legal_moves_spec, pseudo_legal, HistoryEntry, RepetitionResult, Rules,
};
use crate::scores::{Bound, ScoreCache, ScoreEntry, ScoreTable};
use crate::search::{
    flip, negamax_spec, scan, scan_all, scan_start, search_reversible, search_spec, settle, Scan,
    INFINITY,
};
use vstd::prelude::*;

verus! {

/// Moves tried one after the other, the score of each, and the table before each of them
/// and after the last.
pub struct Trial<V> {
    pub order: Seq<Move>,
    pub scores: Seq<i32>,
    pub tables: Seq<V>,
}

/// The highest of the first `n` scores, and at least the floor.
pub open spec fn highest(scores: Seq<i32>, n: int) -> i32
    decreases n,
{
    if n <= 0 {
        (-50000) as i32
    } else if scores[n - 1] > highest(scores, n - 1) {
        scores[n - 1]
    } else {
        highest(scores, n - 1)
    }
}

/// Where and how far a node is searched.
pub struct Window {
    pub depth: u8,
    pub ply: u8,
    pub alpha: i32,
    pub beta: i32,
}

/// The window that a search opens with.
pub open spec fn opening(depth: u8) -> Window {
    Window { depth, ply: 0, alpha: (-50000) as i32, beta: 50000 }
}

/// The lower end of the window once `best` was scored.
pub open spec fn raised(w: Window, best: i32) -> i32 {
    if best > w.alpha {
        best
    } else {
        w.alpha
    }
}

/// What the other side's search answers to a move, when the best score so far is `best`. A
/// move without check costs one of depth; a check costs none.
pub open spec fn answered<R: Rules, T: ScoreTable>(
    rules: &R,
    p: Position,
    w: Window,
    history: Seq<HistoryEntry>,
    m: Move,
    best: i32,
    tt: T::V,
) -> (Option<i32>, T::V) {
    let keeps = p.is_empty(m.to_spec()) && p.piece_at(m.from_spec())->0.piece_type
        != PieceType::Pawn;
    let entry = entry_of(rules, p, m, keeps);
    let left = if entry.is_check {
        w.depth
    } else {
        (w.depth - 1) as u8
    };
    if w.ply >= 255 || w.depth == 0 && !entry.is_check {
        (None, tt)
    } else {
        negamax_spec::<R, T>(
            rules,
            p.after_move(m),
            left,
            (w.ply + 1) as u8,
            (-w.beta) as i32,
            (-raised(w, best)) as i32,
            tt,
            history.push(entry),
        )
    }
}

/// Each move was tried with the table that the one before left and with the best score
/// until then, and scores the opposite of what the other side's search answered.
#[verifier::opaque]
pub open spec fn is_trial<R: Rules, T: ScoreTable>(
    rules: &R,
    p: Position,
    w: Window,
    history: Seq<HistoryEntry>,
    t: Trial<T::V>,
) -> bool {
    &&& t.scores.len() == t.order.len()
    &&& t.tables.len() == t.order.len() + 1
    &&& forall|k: int|
        0 <= k < t.order.len() ==> {
            let (answer, left) = answered::<R, T>(
                rules,
                p,
                w,
                history,
                #[trigger] t.order[k],
                highest(t.scores, k),
                t.tables[k],
            );
            &&& answer is Some
            &&& t.scores[k] == (-answer->0) as i32
            &&& t.tables[k + 1] == left
        }
}

/// The move number `k` has the highest score, above the floor, and is the first that has it.
pub open spec fn leads<V>(t: Trial<V>, k: int) -> bool {
    &&& 0 <= k < t.order.len()
    &&& t.scores[k] > -50000
    &&& forall|j: int| 0 <= j < t.scores.len() ==> #[trigger] t.scores[j] <= t.scores[k]
    &&& forall|j: int| 0 <= j < k ==> #[trigger] t.scores[j] < t.scores[k]
}

proof fn lemma_highest_prefix(scores: Seq<i32>, x: i32, n: int)
    requires
        n <= scores.len(),
    ensures
        highest(scores.push(x), n) == highest(scores, n),
    decreases n,
{
    if n > 0 {
        lemma_highest_prefix(scores, x, n - 1);
    }
}

proof fn lemma_highest(scores: Seq<i32>, n: int)
    requires
        0 <= n <= scores.len(),
    ensures
        forall|j: int| 0 <= j < n ==> #[trigger] scores[j] <= highest(scores, n),
        highest(scores, n) >= -50000,
    decreases n,
{
    if n > 0 {
        lemma_highest(scores, n - 1);
    }
}

/// The state of a scan tells a trial: its best score and move, and its table.
#[verifier::opaque]
spec fn tells<R: Rules, T: ScoreTable>(
    rules: &R,
    p: Position,
    w: Window,
    history: Seq<HistoryEntry>,
    t: Trial<T::V>,
    s: Scan<T::V>,
) -> bool {
    let best = highest(t.scores, t.scores.len() as int);
    &&& is_trial::<R, T>(rules, p, w, history, t)
    &&& !s.stuck
    &&& s.alpha == raised(w, best)
    &&& s.best_score == best
    &&& s.has_legal_moves == (t.order.len() > 0)
    &&& s.tt == t.tables.last()
    &&& match s.best_move {
        None => best == -50000,
        Some(m) => exists|k: int| #[trigger] leads(t, k) && t.order[k] == m && t.scores[k] == best,
    }
}

/// No move was tried after the window was closed.
pub open spec fn stops_in_time<V>(w: Window, t: Trial<V>) -> bool {
    forall|k: int| 0 < k < t.order.len() ==> raised(w, #[trigger] highest(t.scores, k)) < w.beta
}

/// The trial can go no further: a move that is safe cannot be answered.
pub open spec fn breaks_off<R: Rules, T: ScoreTable>(
    rules: &R,
    p: Position,
    w: Window,
    history: Seq<HistoryEntry>,
    t: Trial<T::V>,
    m: Move,
) -> bool {
    answered::<R, T>(
        rules,
        p,
        w,
        history,
        m,
        highest(t.scores, t.scores.len() as int),
        t.tables.last(),
    ).0 is None
}

/// The window is still open after the moves tried, if that is looked at.
spec fn still_open<V>(w: Window, t: Trial<V>, stop: bool) -> bool {
    stop ==> stops_in_time(w, t) && (t.order.len() > 0 ==> raised(
        w,
        highest(t.scores, t.scores.len() as int),
    ) < w.beta)
}

/// The first of the moves are tried after the others, and `n` of them were looked at.
spec fn goes_on_with<V>(p: Position, t0: Trial<V>, t: Trial<V>, moves: Seq<Move>, n: int) -> bool {
    &&& 0 <= n <= moves.len()
    &&& t.order == t0.order + moves.take(n).filter(|m: Move| p.is_safe(m))
}

/// One more safe move.
#[verifier::rlimit(40)]
proof fn lemma_one_more<R: Rules, T: ScoreTable>(
    rules: &R,
    p: Position,
    moves: Seq<Move>,
    quiet: bool,
    w: Window,
    stop: bool,
    history: Seq<HistoryEntry>,
    start: Scan<T::V>,
    t: Trial<T::V>,
    n: int,
) -> (u: Trial<T::V>)
    requires
        0 < n <= moves.len(),
        p.is_empty(moves[n - 1].to_spec()) == quiet,
        p.is_safe(moves[n - 1]),
        ({
            let prev = scan::<R, T>(
                rules,
                p,
                moves,
                quiet,
                w.depth,
                w.ply,
                w.beta,
                stop,
                history,
                start,
                n - 1,
            );
            !prev.cut && !prev.cut_by_capture && tells::<R, T>(rules, p, w, history, t, prev)
        }),
        still_open(w, t, stop),
    ensures
        ({
            let s = scan::<R, T>(
                rules,
                p,
                moves,
                quiet,
                w.depth,
                w.ply,
                w.beta,
                stop,
                history,
                start,
                n,
            );
            let m = moves[n - 1];
            &&& u.tables.len() > 0 && u.tables[0] == t.tables[0]
            &&& is_trial::<R, T>(rules, p, w, history, u)
            &&& s.stuck ==> !s.cut && !s.cut_by_capture && u == t && breaks_off::<R, T>(
                rules,
                p,
                w,
                history,
                t,
                m,
            )
            &&& !s.stuck ==> {
                &&& tells::<R, T>(rules, p, w, history, u, s)
                &&& u.order == t.order.push(m)
                &&& s.cut_by_capture == (s.cut && !quiet)
                &&& s.cut ==> stop && s.alpha >= w.beta
                &&& !s.cut ==> still_open(w, u, stop)
                &&& stop ==> stops_in_time(w, u)
            }
        }),
{
    reveal(tells);
    reveal(is_trial);
    let m = moves[n - 1];
    let prev = scan::<R, T>(
        rules,
        p,
        moves,
        quiet,
        w.depth,
        w.ply,
        w.beta,
        stop,
        history,
        start,
        n - 1,
    );
    let best = highest(t.scores, t.scores.len() as int);
    let (answer, left) = answered::<R, T>(rules, p, w, history, m, best, t.tables.last());
    if answer is None {
        t
    } else {
        let score = (-answer->0) as i32;
        let u = Trial {
            order: t.order.push(m),
            scores: t.scores.push(score),
            tables: t.tables.push(left),
        };
        lemma_extended::<R, T>(rules, p, w, history, t, m, score, left);
        lemma_new_leader(t, u, m, score, prev.best_move);
        if stop {
            assert forall|k: int| 0 < k < u.order.len() implies raised(
                w,
                #[trigger] highest(u.scores, k),
            ) < w.beta by {
                lemma_highest_prefix(t.scores, score, k);
            }
        }
        u
    }
}

/// Looking at one more move adds it to the safe ones if it is safe.
proof fn lemma_filter_one_more(moves: Seq<Move>, safe: spec_fn(Move) -> bool, n: int)
    requires
        0 < n <= moves.len(),
    ensures
        moves.take(n).filter(safe) == (if safe(moves[n - 1]) {
            moves.take(n - 1).filter(safe).push(moves[n - 1])
        } else {
            moves.take(n - 1).filter(safe)
        }),
{
    let next = moves.take(n);
    assert(next.drop_last() =~= moves.take(n - 1));
    assert(next.last() == moves[n - 1]);
    reveal_with_fuel(Seq::filter, 1);
}

/// A scan of some of the moves goes on with a trial.
proof fn lemma_scan_is_a_trial<R: Rules, T: ScoreTable>(
    rules: &R,
    p: Position,
    moves: Seq<Move>,
    quiet: bool,
    w: Window,
    stop: bool,
    history: Seq<HistoryEntry>,
    start: Scan<T::V>,
    t0: Trial<T::V>,
    n: int,
) -> (t: Trial<T::V>)
    requires
        0 <= n <= moves.len(),
        forall|i: int| 0 <= i < moves.len() ==> p.is_empty((#[trigger] moves[i]).to_spec()) == quiet,
        tells::<R, T>(rules, p, w, history, t0, start),
        !start.cut,
        !start.cut_by_capture,
        still_open(w, t0, stop),
    ensures
        ({
            let s = scan::<R, T>(
                rules,
                p,
                moves,
                quiet,
                w.depth,
                w.ply,
                w.beta,
                stop,
                history,
                start,
                n,
            );
            &&& t.tables.len() > 0 && t.tables[0] == t0.tables[0]
            &&& is_trial::<R, T>(rules, p, w, history, t)
            &&& s.cut ==> stop && !s.stuck
            &&& s.cut_by_capture == (s.cut && !quiet)
            &&& !s.stuck ==> tells::<R, T>(rules, p, w, history, t, s)
            &&& !s.stuck && !s.cut ==> goes_on_with(p, t0, t, moves, n) && still_open(w, t, stop)
            &&& s.cut ==> {
                &&& stops_in_time(w, t)
                &&& t.order.len() > 0
                &&& s.alpha >= w.beta
                &&& exists|j: int| #[trigger] goes_on_with(p, t0, t, moves, j)
            }
            &&& s.stuck ==> exists|m: Move| #[trigger]
                moves.contains(m) && p.is_safe(m) && breaks_off::<R, T>(
                    rules,
                    p,
                    w,
                    history,
                    t,
                    m,
                )
        }),
    decreases n,
{
    let safe = |m: Move| p.is_safe(m);
    if n <= 0 {
        assert(moves.take(0).filter(safe) =~= Seq::<Move>::empty()) by {
            reveal_with_fuel(Seq::filter, 1);
        }
        assert(t0.order + Seq::<Move>::empty() =~= t0.order);
        assert(moves.take(n) =~= moves.take(0));
        assert(is_trial::<R, T>(rules, p, w, history, t0) && !start.stuck && t0.tables.len() > 0)
            by {
            reveal(tells);
            reveal(is_trial);
        }
        t0
    } else {
        let t = lemma_scan_is_a_trial::<R, T>(
            rules,
            p,
            moves,
            quiet,
            w,
            stop,
            history,
            start,
            t0,
            n - 1,
        );
        let prev = scan::<R, T>(
            rules,
            p,
            moves,
            quiet,
            w.depth,
            w.ply,
            w.beta,
            stop,
            history,
            start,
            n - 1,
        );
        let s = scan::<R, T>(
            rules,
            p,
            moves,
            quiet,
            w.depth,
            w.ply,
            w.beta,
            stop,
            history,
            start,
            n,
        );
        let m = moves[n - 1];
        lemma_filter_one_more(moves, safe, n);
        if prev.cut || prev.stuck || !p.is_safe(m) {
            assert(s == prev);
            t
        } else {
            let u = lemma_one_more::<R, T>(
                rules,
                p,
                moves,
                quiet,
                w,
                stop,
                history,
                start,
                t,
                n,
            );
            assert(moves.contains(m));
            if !s.stuck {
                assert(u.order =~= t0.order + moves.take(n).filter(safe));
                assert(goes_on_with(p, t0, u, moves, n));
            }
            u
        }
    }
}

/// A trial with one more move.
proof fn lemma_extended<R: Rules, T: ScoreTable>(
    rules: &R,
    p: Position,
    w: Window,
    history: Seq<HistoryEntry>,
    t: Trial<T::V>,
    m: Move,
    score: i32,
    left: T::V,
)
    requires
        is_trial::<R, T>(rules, p, w, history, t),
        ({
            let a = answered::<R, T>(
                rules,
                p,
                w,
                history,
                m,
                highest(t.scores, t.scores.len() as int),
                t.tables.last(),
            );
            a.0 is Some && score == (-a.0->0) as i32 && left == a.1
        }),
    ensures
        is_trial::<R, T>(
            rules,
            p,
            w,
            history,
            Trial {
                order: t.order.push(m),
                scores: t.scores.push(score),
                tables: t.tables.push(left),
            },
        ),
{
    reveal(is_trial);
    let u = Trial::<T::V> {
        order: t.order.push(m),
        scores: t.scores.push(score),
        tables: t.tables.push(left),
    };
    assert forall|k: int| 0 <= k < u.order.len() implies {
        let (answer, l) = answered::<R, T>(
            rules,
            p,
            w,
            history,
            #[trigger] u.order[k],
            highest(u.scores, k),
            u.tables[k],
        );
        &&& answer is Some
        &&& u.scores[k] == (-answer->0) as i32
        &&& u.tables[k + 1] == l
    } by {
        lemma_highest_prefix(t.scores, score, k);
        if k < t.order.len() {
            assert(u.order[k] == t.order[k]);
            assert(u.tables[k] == t.tables[k] && u.tables[k + 1] == t.tables[k + 1]);
        } else {
            assert(u.tables[k] == t.tables.last());
        }
    }
}

/// Who leads after one more move.
proof fn lemma_new_leader<V>(
    t: Trial<V>,
    u: Trial<V>,
    m: Move,
    score: i32,
    leader: Option<Move>,
)
    requires
        t.scores.len() == t.order.len(),
        u.order == t.order.push(m),
        u.scores == t.scores.push(score),
        ({
            let best = highest(t.scores, t.scores.len() as int);
            match leader {
                None => best == -50000,
                Some(x) => exists|k: int| #[trigger]
                    leads(t, k) && t.order[k] == x && t.scores[k] == best,
            }
        }),
    ensures
        ({
            let before = highest(t.scores, t.scores.len() as int);
            let best = highest(u.scores, u.scores.len() as int);
            let now = if score > before {
                Some(m)
            } else {
                leader
            };
            &&& best == (if score > before {
                score
            } else {
                before
            })
            &&& match now {
                None => best == -50000,
                Some(x) => exists|k: int| #[trigger]
                    leads(u, k) && u.order[k] == x && u.scores[k] == best,
            }
        }),
{
    let n = t.scores.len() as int;
    let before = highest(t.scores, n);
    lemma_highest_prefix(t.scores, score, n);
    lemma_highest(t.scores, n);
    assert(u.scores[n] == score);
    assert(forall|j: int| 0 <= j < n ==> #[trigger] u.scores[j] == t.scores[j]);
    if score > before {
        assert(leads(u, n));
        assert(u.order[n] == m);
    } else if leader is Some {
        let k = choose|k: int| #[trigger]
            leads(t, k) && t.order[k] == leader->0 && t.scores[k] == before;
        assert(leads(u, k));
        assert(u.order[k] == t.order[k]);
    }
}

/// Some move that a table offers changes only the order in which the moves are tried.
proof fn lemma_tried_moves<R: Rules>(rules: &R, p: Position, hint: Option<Move>, x: Move)
    ensures
        ({
            let safe = |m: Move| p.is_safe(m);
            let captures = hint_first(rank_captures(rules, p, rules.captures_spec(p)), hint);
            let quiets = hint_first(rules.quiets_spec(p), hint);
            &&& captures.filter(safe).contains(x) <==> rules.captures_spec(p).contains(x)
                && p.is_safe(x)
            &&& (captures.filter(safe) + quiets.filter(safe)).contains(x) <==> legal_moves_spec(
                rules,
                p,
            ).contains(x)
        }),
{
    let safe = |m: Move| p.is_safe(m);
    let c = rules.captures_spec(p);
    let q = rules.quiets_spec(p);
    let all = pseudo_legal(rules, p);
    let captures = hint_first(rank_captures(rules, p, c), hint);
    let quiets = hint_first(q, hint);
    lemma_rank_captures_same(rules, p, c);
    lemma_hint_first_same(rank_captures(rules, p, c), hint);
    lemma_hint_first_same(q, hint);
    lemma_filtered(captures, safe, x);
    lemma_filtered(quiets, safe, x);
    lemma_filtered(all, safe, x);
    assert(captures.contains(x) <==> rank_captures(rules, p, c).contains(x));
    assert(rank_captures(rules, p, c).contains(x) <==> c.contains(x));
    assert(quiets.contains(x) <==> q.contains(x));
    lemma_in_sum(c, q, x);
    lemma_in_sum(captures.filter(safe), quiets.filter(safe), x);
    assert(legal_moves_spec(rules, p) == all.filter(safe));
}

proof fn lemma_in_sum(a: Seq<Move>, b: Seq<Move>, x: Move)
    ensures
        (a + b).contains(x) <==> a.contains(x) || b.contains(x),
{
    if (a + b).contains(x) {
        let i = (a + b).index_of(x);
        if i < a.len() {
            assert(a[i] == x);
        } else {
            assert(b[i - a.len()] == x);
        }
    }
    if a.contains(x) {
        assert((a + b)[a.index_of(x)] == x);
    }
    if b.contains(x) {
        assert((a + b)[a.len() + b.index_of(x)] == x);
    }
}

proof fn lemma_filtered(moves: Seq<Move>, safe: spec_fn(Move) -> bool, x: Move)
    ensures
        moves.filter(safe).contains(x) <==> moves.contains(x) && safe(x),
{
    if moves.filter(safe).contains(x) {
        moves.lemma_filter_contains_rev(safe, x);
        moves.lemma_filter_pred(safe, moves.filter(safe).index_of(x));
    }
    if moves.contains(x) && safe(x) {
        moves.lemma_filter_contains(safe, moves.index_of(x));
    }
}

/// All legal moves are in the trial, and no others; or, where a score closed the window, at
/// least no others.
pub open spec fn tries_all<R: Rules, V>(rules: &R, p: Position, w: Window, t: Trial<V>) -> bool {
    &&& forall|m: Move| #[trigger]
        t.order.contains(m) ==> legal_moves_spec(rules, p).contains(m)
    &&& {
        ||| forall|m: Move| #[trigger]
            legal_moves_spec(rules, p).contains(m) ==> t.order.contains(m)
        ||| t.order.len() > 0 && raised(w, highest(t.scores, t.scores.len() as int)) >= w.beta
    }
}

/// The moves are tried in this order, though perhaps not all: the captures of the most
/// valuable pieces first, then the quiet moves, each with the table's move in front.
pub open spec fn in_order<R: Rules, V>(
    rules: &R,
    p: Position,
    hint: Option<Move>,
    t: Trial<V>,
) -> bool {
    let safe = |m: Move| p.is_safe(m);
    let captures = hint_first(rank_captures(rules, p, rules.captures_spec(p)), hint);
    let quiets = hint_first(rules.quiets_spec(p), hint);
    t.order.is_prefix_of(captures.filter(safe) + quiets.filter(safe))
}

/// What stands on the squares that captures and quiet moves go to.
proof fn lemma_targets<R: Rules>(rules: &R, p: Position, hint: Option<Move>)
    requires
        p.cells.len() == 256,
    ensures
        ({
            let captures = hint_first(rank_captures(rules, p, rules.captures_spec(p)), hint);
            let quiets = hint_first(rules.quiets_spec(p), hint);
            &&& forall|i: int|
                0 <= i < captures.len() ==> !p.is_empty((#[trigger] captures[i]).to_spec())
            &&& forall|i: int|
                0 <= i < quiets.len() ==> p.is_empty((#[trigger] quiets[i]).to_spec())
        }),
{
    let c = rules.captures_spec(p);
    let q = rules.quiets_spec(p);
    let captures = hint_first(rank_captures(rules, p, c), hint);
    let quiets = hint_first(q, hint);
    rules.captures_are_captures(p);
    rules.quiets_are_quiet(p);
    lemma_rank_captures_same(rules, p, c);
    lemma_hint_first_same(rank_captures(rules, p, c), hint);
    lemma_hint_first_same(q, hint);
    assert forall|i: int| 0 <= i < captures.len() implies !p.is_empty(
        (#[trigger] captures[i]).to_spec(),
    ) by {
        assert(captures.contains(captures[i]));
        assert(rank_captures(rules, p, c).contains(captures[i]));
        assert(c.contains(captures[i]));
        assert(p.is_capture_step(c[c.index_of(captures[i])]));
    }
    assert forall|i: int| 0 <= i < quiets.len() implies p.is_empty(
        (#[trigger] quiets[i]).to_spec(),
    ) by {
        assert(quiets.contains(quiets[i]));
        assert(q.contains(quiets[i]));
        assert(p.is_quiet_step(q[q.index_of(quiets[i])]));
    }
}

/// A tried move is legal.
proof fn lemma_tried_is_legal<R: Rules>(rules: &R, p: Position, hint: Option<Move>, m: Move)
    requires
        hint_first(rank_captures(rules, p, rules.captures_spec(p)), hint).contains(m) || hint_first(
            rules.quiets_spec(p),
            hint,
        ).contains(m),
        p.is_safe(m),
    ensures
        legal_moves_spec(rules, p).contains(m),
{
    let safe = |x: Move| p.is_safe(x);
    let captures = hint_first(rank_captures(rules, p, rules.captures_spec(p)), hint);
    let quiets = hint_first(rules.quiets_spec(p), hint);
    lemma_tried_moves(rules, p, hint, m);
    lemma_filtered(captures, safe, m);
    lemma_filtered(quiets, safe, m);
    lemma_in_sum(captures.filter(safe), quiets.filter(safe), m);
}

/// The first moves of a list, filtered, are the first of the filtered list.
proof fn lemma_filtered_prefix(moves: Seq<Move>, safe: spec_fn(Move) -> bool, n: int)
    requires
        0 <= n <= moves.len(),
    ensures
        moves.take(n).filter(safe).is_prefix_of(moves.filter(safe)),
    decreases moves.len() - n,
{
    if n < moves.len() {
        lemma_filtered_prefix(moves, safe, n + 1);
        let next = moves.take(n + 1);
        assert(next.drop_last() =~= moves.take(n));
        assert(next.filter(safe) == (if safe(moves[n]) {
            moves.take(n).filter(safe).push(moves[n])
        } else {
            moves.take(n).filter(safe)
        })) by {
            reveal_with_fuel(Seq::filter, 1);
        }
        let a = moves.take(n).filter(safe);
        let b = next.filter(safe);
        let c = moves.filter(safe);
        assert(a =~= b.subrange(0, a.len() as int));
        assert(b == c.subrange(0, b.len() as int));
        assert(a =~= c.subrange(0, a.len() as int));
    } else {
        assert(moves.take(n) =~= moves);
        assert(moves.filter(safe) =~= moves.filter(safe).subrange(
            0,
            moves.filter(safe).len() as int,
        ));
    }
}

/// What is tried in order is legal.
proof fn lemma_in_order_is_legal<R: Rules, V>(rules: &R, p: Position, hint: Option<Move>, t: Trial<V>)
    requires
        in_order(rules, p, hint, t),
    ensures
        forall|m: Move| #[trigger]
            t.order.contains(m) ==> legal_moves_spec(rules, p).contains(m),
{
    let safe = |x: Move| p.is_safe(x);
    let captures = hint_first(rank_captures(rules, p, rules.captures_spec(p)), hint);
    let quiets = hint_first(rules.quiets_spec(p), hint);
    let all = captures.filter(safe) + quiets.filter(safe);
    assert forall|m: Move| #[trigger] t.order.contains(m) implies legal_moves_spec(
        rules,
        p,
    ).contains(m) by {
        let i = t.order.index_of(m);
        assert(all.subrange(0, t.order.len() as int)[i] == all[i]);
        assert(all.contains(m));
        lemma_tried_moves(rules, p, hint, m);
    }
}

/// Before the first move.
proof fn lemma_start_tells<R: Rules, T: ScoreTable>(
    rules: &R,
    p: Position,
    w: Window,
    tt: T::V,
    history: Seq<HistoryEntry>,
)
    requires
        w.alpha >= -50000,
    ensures
        tells::<R, T>(
            rules,
            p,
            w,
            history,
            Trial { order: Seq::empty(), scores: Seq::empty(), tables: seq![tt] },
            scan_start(w.alpha, tt),
        ),
{
    reveal(tells);
    reveal(is_trial);
}

/// The scan of all moves is a trial.
#[verifier::rlimit(40)]
proof fn lemma_scan_all_is_a_trial<R: Rules, T: ScoreTable>(
    rules: &R,
    p: Position,
    w: Window,
    stop: bool,
    tt: T::V,
    history: Seq<HistoryEntry>,
    hint: Option<Move>,
) -> (t: Trial<T::V>)
    requires
        p.cells.len() == 256,
        w.alpha >= -50000,
    ensures
        ({
            let s = scan_all::<R, T>(
                rules,
                p,
                w.depth,
                w.ply,
                w.beta,
                stop,
                history,
                hint,
                scan_start(w.alpha, tt),
            );
            &&& is_trial::<R, T>(rules, p, w, history, t)
            &&& t.tables[0] == tt
            &&& s.cut_by_capture ==> s.alpha >= w.beta
            &&& !s.stuck ==> {
                &&& tells::<R, T>(rules, p, w, history, t, s)
                &&& tries_all(rules, p, w, t) || s.alpha >= w.beta && t.order.len() == 0
                &&& in_order(rules, p, hint, t)
                &&& stop ==> stops_in_time(w, t) && tries_all(rules, p, w, t)
            }
            &&& s.stuck ==> exists|m: Move| #[trigger]
                legal_moves_spec(rules, p).contains(m) && breaks_off::<R, T>(
                    rules,
                    p,
                    w,
                    history,
                    t,
                    m,
                )
        }),
{
    let safe = |m: Move| p.is_safe(m);
    let captures = hint_first(rank_captures(rules, p, rules.captures_spec(p)), hint);
    let quiets = hint_first(rules.quiets_spec(p), hint);
    let all = captures.filter(safe) + quiets.filter(safe);
    let start = scan_start(w.alpha, tt);
    let none = Trial::<T::V> { order: Seq::empty(), scores: Seq::empty(), tables: seq![tt] };
    lemma_targets(rules, p, hint);
    lemma_start_tells::<R, T>(rules, p, w, tt, history);
    let s1 = scan::<R, T>(
        rules,
        p,
        captures,
        false,
        w.depth,
        w.ply,
        w.beta,
        stop,
        history,
        start,
        captures.len() as int,
    );
    let t1 = lemma_scan_is_a_trial::<R, T>(
        rules,
        p,
        captures,
        false,
        w,
        stop,
        history,
        start,
        none,
        captures.len() as int,
    );
    if s1.stuck {
        let m = choose|m: Move| #[trigger]
            captures.contains(m) && p.is_safe(m) && breaks_off::<R, T>(
                rules,
                p,
                w,
                history,
                t1,
                m,
            );
        lemma_tried_is_legal(rules, p, hint, m);
        t1
    } else if s1.cut || (!stop && s1.alpha >= w.beta) {
        let j = if s1.cut {
            choose|j: int| #[trigger] goes_on_with(p, none, t1, captures, j)
        } else {
            captures.len() as int
        };
        assert(goes_on_with(p, none, t1, captures, j));
        lemma_filtered_prefix(captures, safe, j);
        let part = captures.take(j).filter(safe);
        assert(none.order + part =~= part);
        assert(t1.order == part);
        assert(part == captures.filter(safe).subrange(0, part.len() as int));
        assert(part =~= all.subrange(0, part.len() as int));
        lemma_in_order_is_legal(rules, p, hint, t1);
        assert(s1.alpha == raised(w, highest(t1.scores, t1.scores.len() as int))) by {
            reveal(tells);
        }
        t1
    } else {
        assert(goes_on_with(p, none, t1, captures, captures.len() as int));
        assert(captures.take(captures.len() as int) =~= captures);
        assert(none.order + captures.filter(safe) =~= captures.filter(safe));
        assert(t1.order == captures.filter(safe));
        let s = scan::<R, T>(
            rules,
            p,
            quiets,
            true,
            w.depth,
            w.ply,
            w.beta,
            stop,
            history,
            s1,
            quiets.len() as int,
        );
        let t = lemma_scan_is_a_trial::<R, T>(
            rules,
            p,
            quiets,
            true,
            w,
            stop,
            history,
            s1,
            t1,
            quiets.len() as int,
        );
        if s.stuck {
            let m = choose|m: Move| #[trigger]
                quiets.contains(m) && p.is_safe(m) && breaks_off::<R, T>(
                    rules,
                    p,
                    w,
                    history,
                    t,
                    m,
                );
            lemma_tried_is_legal(rules, p, hint, m);
        } else {
            let j = if s.cut {
                choose|j: int| #[trigger] goes_on_with(p, t1, t, quiets, j)
            } else {
                quiets.len() as int
            };
            assert(goes_on_with(p, t1, t, quiets, j));
            lemma_filtered_prefix(quiets, safe, j);
            let part = quiets.take(j).filter(safe);
            assert(t.order == captures.filter(safe) + part);
            assert(part == quiets.filter(safe).subrange(0, part.len() as int));
            assert(t.order =~= all.subrange(0, t.order.len() as int));
            lemma_in_order_is_legal(rules, p, hint, t);
            if s.cut {
                assert(s.alpha == raised(w, highest(t.scores, t.scores.len() as int))) by {
                    reveal(tells);
                }
            } else {
                assert(quiets.take(quiets.len() as int) =~= quiets);
                assert forall|m: Move| #[trigger] legal_moves_spec(rules, p).contains(
                    m,
                ) implies t.order.contains(m) by {
                    lemma_tried_moves(rules, p, hint, m);
                }
            }
        }
        t
    }
}

/// The move that the table offers for a window.
pub open spec fn offered<R: Rules, T: ScoreTable>(rules: &R, p: Position, w: Window, tt: T::V) -> Option<
    Move,
> {
    match T::probe_spec(tt, rules.hash_spec(p), w.depth, w.ply, w.alpha, w.beta) {
        Some(found) => found.1,
        None => None,
    }
}

/// Whatever the table holds, the search tries every legal move and answers the first of
/// those with the highest score; the table's own score of the position is not asked for.
/// Only where no move scores above the floor is it the first legal move. There is no
/// answer only where a legal move cannot be answered.
pub proof fn law_the_search_answers_a_highest_score<R: Rules, T: ScoreTable>(
    rules: &R,
    p: Position,
    depth: u8,
    tt: T::V,
    history: Seq<HistoryEntry>,
) -> (t: Trial<T::V>)
    requires
        p.cells.len() == 256,
    ensures
        is_trial::<R, T>(rules, p, opening(depth), history, t),
        t.tables[0] == tt,
        search_spec::<R, T>(rules, p, depth, tt, history).0 matches Some(m) ==> {
            let left = search_spec::<R, T>(rules, p, depth, tt, history).1;
            &&& tries_all(rules, p, opening(depth), t)
            &&& in_order(rules, p, offered::<R, T>(rules, p, opening(depth), tt), t)
            &&& {
                ||| exists|k: int| #[trigger]
                    leads(t, k) && t.order[k] == m && left == T::record_spec(
                        t.tables.last(),
                        rules.hash_spec(p),
                        depth,
                        0,
                        t.scores[k],
                        Bound::Exact,
                        Some(m),
                    )
                ||| (forall|j: int| 0 <= j < t.scores.len() ==> #[trigger] t.scores[j] <= -50000)
                    && m == legal_moves_spec(rules, p)[0] && left == t.tables.last()
            }
        },
        search_spec::<R, T>(rules, p, depth, tt, history).0 is None ==> exists|m: Move| #[trigger]
            legal_moves_spec(rules, p).contains(m) && breaks_off::<R, T>(
                rules,
                p,
                opening(depth),
                history,
                t,
                m,
            ),
{
    let w = opening(depth);
    let hint = offered::<R, T>(rules, p, w, tt);
    let t = lemma_scan_all_is_a_trial::<R, T>(rules, p, w, false, tt, history, hint);
    reveal(tells);
    lemma_highest(t.scores, t.scores.len() as int);
    t
}

/// The move leads with that score; no move leads where none scores above the floor.
pub open spec fn is_leader<V>(t: Trial<V>, best: Option<Move>, score: i32) -> bool {
    match best {
        None => score == -50000,
        Some(m) => exists|k: int| #[trigger]
            leads(t, k) && t.order[k] == m && t.scores[k] == score,
    }
}

/// What the state of a scan tells of a trial.
proof fn lemma_told<R: Rules, T: ScoreTable>(
    rules: &R,
    p: Position,
    w: Window,
    history: Seq<HistoryEntry>,
    t: Trial<T::V>,
    s: Scan<T::V>,
)
    requires
        tells::<R, T>(rules, p, w, history, t, s),
    ensures
        s.best_score == highest(t.scores, t.scores.len() as int),
        s.alpha == raised(w, s.best_score),
        s.has_legal_moves == (t.order.len() > 0),
        s.tt == t.tables.last(),
        is_leader(t, s.best_move, s.best_score),
        t.tables.len() == t.order.len() + 1,
{
    reveal(tells);
    reveal(is_trial);
}

/// The node, searched.
pub open spec fn node<R: Rules, T: ScoreTable>(
    rules: &R,
    p: Position,
    w: Window,
    tt: T::V,
    history: Seq<HistoryEntry>,
) -> (Option<i32>, T::V) {
    negamax_spec::<R, T>(rules, p, w.depth, w.ply, w.alpha, w.beta, tt, history)
}

/// The score that the table tells for a window, if it has one.
pub open spec fn told<R: Rules, T: ScoreTable>(rules: &R, p: Position, w: Window, tt: T::V) -> Option<
    i32,
> {
    match T::probe_spec(tt, rules.hash_spec(p), w.depth, w.ply, w.alpha, w.beta) {
        Some(found) => if found.0 != i32::MIN {
            Some(found.0)
        } else {
            None
        },
        None => None,
    }
}

/// A node that is judged by a repetition, or given up for a draw, or has no depth left is
/// not searched, and the table stays as it is: a repetition won is a mate at this ply, one
/// lost a mate against the mover, and a line without depth is settled by captures.
pub proof fn law_a_judged_node_is_not_searched<R: Rules, T: ScoreTable>(
    rules: &R,
    p: Position,
    w: Window,
    tt: T::V,
    history: Seq<HistoryEntry>,
)
    ensures
        ({
            let found = node::<R, T>(rules, p, w, tt, history);
            let verdict = rules.repetition_spec(p, history, 1);
            let pruned = rules.prune_spec(p, history, w.beta);
            let decided = pruned || verdict != RepetitionResult::Undecided || w.depth == 0;
            &&& decided ==> found.0 is Some && found.1 == tt
            &&& pruned ==> found.0 == Some(0i32)
            &&& !pruned ==> {
                &&& verdict == RepetitionResult::Win ==> (found.0->0) == 20000 - w.ply
                &&& verdict == RepetitionResult::Loss ==> (found.0->0) == -20000 + w.ply
                &&& verdict == RepetitionResult::Draw ==> (found.0->0) == 0
                &&& verdict == RepetitionResult::Undecided && w.depth == 0 && w.alpha <= w.beta
                    ==> {
                    let v = settle(rules, p);
                    &&& v <= w.alpha ==> (found.0->0) == w.alpha
                    &&& w.alpha < v < w.beta ==> (found.0->0) == v
                    &&& v >= w.beta ==> (found.0->0) == w.beta
                }
            }
        }),
{
}

/// A table is asked for a score, and if it has one the node answers it and is not searched.
pub proof fn law_a_told_score_is_answered<R: Rules, T: ScoreTable>(
    rules: &R,
    p: Position,
    w: Window,
    tt: T::V,
    history: Seq<HistoryEntry>,
)
    requires
        w.depth > 0,
        !rules.prune_spec(p, history, w.beta),
        rules.repetition_spec(p, history, 1) == RepetitionResult::Undecided,
        told::<R, T>(rules, p, w, tt) is Some,
    ensures
        node::<R, T>(rules, p, w, tt, history) == (told::<R, T>(rules, p, w, tt), tt),
{
}

/// What a node answers, whatever the table holds, once nothing is pruned or judged, there is
/// depth left and the table has no score to tell: a loss at this ply without a legal move;
/// else the highest score of the moves tried, which are all legal ones unless a score closed
/// the window. What it found is recorded as a bound where it lies outside the window, and
/// as exact inside it. There is no answer only where a legal move cannot be answered.
#[verifier::rlimit(30)]
pub proof fn law_a_node_answers_a_highest_score<R: Rules, T: ScoreTable>(
    rules: &R,
    p: Position,
    w: Window,
    tt: T::V,
    history: Seq<HistoryEntry>,
) -> (found: (Trial<T::V>, Option<Move>))
    requires
        p.cells.len() == 256,
        -50000 <= w.alpha < w.beta,
        w.depth > 0,
        !rules.prune_spec(p, history, w.beta),
        rules.repetition_spec(p, history, 1) == RepetitionResult::Undecided,
        told::<R, T>(rules, p, w, tt) is None,
    ensures
        is_trial::<R, T>(rules, p, w, history, found.0),
        found.0.tables[0] == tt,
        node::<R, T>(rules, p, w, tt, history).0 is None ==> exists|m: Move| #[trigger]
            legal_moves_spec(rules, p).contains(m) && breaks_off::<R, T>(
                rules,
                p,
                w,
                history,
                found.0,
                m,
            ),
        node::<R, T>(rules, p, w, tt, history).0 is Some ==> {
            &&& tries_all(rules, p, w, found.0)
            &&& in_order(rules, p, offered::<R, T>(rules, p, w, tt), found.0)
            &&& stops_in_time(w, found.0)
        },
        legal_moves_spec(rules, p).len() == 0 ==> node::<R, T>(rules, p, w, tt, history) == (
            Some((-20000 + w.ply) as i32),
            tt,
        ),
        legal_moves_spec(rules, p).len() > 0 ==> (node::<R, T>(
            rules,
            p,
            w,
            tt,
            history,
        ).0 matches Some(v) ==> v == highest(found.0.scores, found.0.scores.len() as int) && found.0.order.len() > 0),
        legal_moves_spec(rules, p).len() > 0 ==> (node::<R, T>(
            rules,
            p,
            w,
            tt,
            history,
        ).0 matches Some(v) ==> is_leader(found.0, found.1, v) && node::<R, T>(
            rules,
            p,
            w,
            tt,
            history,
        ).1 == T::record_spec(
            found.0.tables.last(),
            rules.hash_spec(p),
            w.depth,
            w.ply,
            v,
            if v <= w.alpha {
                Bound::Alpha
            } else if v >= w.beta {
                Bound::Beta
            } else {
                Bound::Exact
            },
            found.1,
        )),
{
    let hint = offered::<R, T>(rules, p, w, tt);
    let t = lemma_scan_all_is_a_trial::<R, T>(rules, p, w, true, tt, history, hint);
    let s = scan_all::<R, T>(
        rules,
        p,
        w.depth,
        w.ply,
        w.beta,
        true,
        history,
        hint,
        scan_start(w.alpha, tt),
    );
    lemma_node_of_scan::<R, T>(rules, p, w, tt, history, hint);
    if !s.stuck {
        lemma_told::<R, T>(rules, p, w, history, t, s);
        lemma_some_are_tried(rules, p, w, t);
    } else {
        let m = choose|m: Move| #[trigger]
            legal_moves_spec(rules, p).contains(m) && breaks_off::<R, T>(
                rules,
                p,
                w,
                history,
                t,
                m,
            );
        let legal = legal_moves_spec(rules, p);
        assert(legal[legal.index_of(m)] == m);
    }
    (t, s.best_move)
}

/// A move is tried if and only if there is a legal one.
proof fn lemma_some_are_tried<R: Rules, V>(rules: &R, p: Position, w: Window, t: Trial<V>)
    requires
        tries_all(rules, p, w, t),
    ensures
        t.order.len() > 0 <==> legal_moves_spec(rules, p).len() > 0,
{
    let legal = legal_moves_spec(rules, p);
    if legal.len() > 0 {
        assert(legal.contains(legal[0]));
    } else if t.order.len() > 0 {
        assert(t.order.contains(t.order[0]));
        assert(legal.contains(t.order[0]));
    }
}

/// What a node answers from the scan of its moves.
proof fn lemma_node_of_scan<R: Rules, T: ScoreTable>(
    rules: &R,
    p: Position,
    w: Window,
    tt: T::V,
    history: Seq<HistoryEntry>,
    hint: Option<Move>,
)
    requires
        w.depth > 0,
        !rules.prune_spec(p, history, w.beta),
        rules.repetition_spec(p, history, 1) == RepetitionResult::Undecided,
        hint == offered::<R, T>(rules, p, w, tt),
        told::<R, T>(rules, p, w, tt) is None,
    ensures
        ({
            let (answer, left) = node::<R, T>(rules, p, w, tt, history);
            let s = scan_all::<R, T>(
                rules,
                p,
                w.depth,
                w.ply,
                w.beta,
                true,
                history,
                hint,
                scan_start(w.alpha, tt),
            );
            if s.stuck {
                answer is None
            } else if !s.has_legal_moves {
                answer == Some((-20000 + w.ply) as i32) && left == s.tt
            } else {
                let bound = if s.cut_by_capture {
                    Bound::Beta
                } else if s.best_score <= w.alpha {
                    Bound::Alpha
                } else if s.best_score >= w.beta {
                    Bound::Beta
                } else {
                    Bound::Exact
                };
                answer == Some(s.best_score) && left == T::record_spec(
                    s.tt,
                    rules.hash_spec(p),
                    w.depth,
                    w.ply,
                    s.best_score,
                    bound,
                    s.best_move,
                )
            }
        }),
{
}

/// A search remembers its answer: another search of the same position to the same depth, with
/// the table that the first one left, is offered that move and tries it first, if it is a
/// capture, or as the first of the quiet moves; and it answers the first of the moves with
/// the highest score that it finds itself, whatever score the table remembers.
pub proof fn law_a_second_search_starts_from_the_first_answer<R: Rules>(
    rules: &R,
    p: Position,
    depth: u8,
    v: Seq<Option<ScoreEntry>>,
    history: Seq<HistoryEntry>,
) -> (trials: (Trial<Seq<Option<ScoreEntry>>>, Trial<Seq<Option<ScoreEntry>>>))
    requires
        p.cells.len() == 256,
        v.len() > 0,
        search_spec::<R, ScoreCache>(rules, p, depth, v, history).0 is Some,
        ({
            let left = search_spec::<R, ScoreCache>(rules, p, depth, v, history).1;
            search_spec::<R, ScoreCache>(rules, p, depth, left, history).0 is Some
        }),
    ensures
        ({
            let (first, left) = search_spec::<R, ScoreCache>(rules, p, depth, v, history);
            let (second, _) = search_spec::<R, ScoreCache>(rules, p, depth, left, history);
            let w = opening(depth);
            let (a, b) = trials;
            &&& is_trial::<R, ScoreCache>(rules, p, w, history, a) && a.tables[0] == v
            &&& is_trial::<R, ScoreCache>(rules, p, w, history, b) && b.tables[0] == left
            &&& tries_all(rules, p, w, a) && tries_all(rules, p, w, b)
            &&& (exists|k: int| #[trigger] leads(a, k) && a.order[k] == first->0) || (forall|
                j: int,
            |
                0 <= j < a.scores.len() ==> #[trigger] a.scores[j] <= -50000)
            &&& (exists|k: int| #[trigger] leads(b, k) && b.order[k] == second->0) || (forall|
                j: int,
            |
                0 <= j < b.scores.len() ==> #[trigger] b.scores[j] <= -50000)
            &&& (exists|k: int| #[trigger] leads(a, k)) ==> in_order(rules, p, first, b)
        }),
{
    let (first, left) = search_spec::<R, ScoreCache>(rules, p, depth, v, history);
    let a = law_the_search_answers_a_highest_score::<R, ScoreCache>(rules, p, depth, v, history);
    let b = law_the_search_answers_a_highest_score::<R, ScoreCache>(rules, p, depth, left, history);
    if exists|k: int| #[trigger] leads(a, k) {
        let k = choose|k: int| #[trigger] leads(a, k);
        assert(a.scores[k] > -50000);
        assert(k < a.scores.len()) by {
            reveal(is_trial);
        }
        lemma_search_keeps_the_size(rules, p, depth, v, history);
        assert(offered::<R, ScoreCache>(rules, p, opening(depth), left) == first);
    }
    (a, b)
}

/// A node leaves the table as large as it was.
proof fn lemma_node_keeps_the_size<R: Rules>(
    rules: &R,
    p: Position,
    depth: u8,
    ply: u8,
    alpha: i32,
    beta: i32,
    v: Seq<Option<ScoreEntry>>,
    history: Seq<HistoryEntry>,
)
    ensures
        negamax_spec::<R, ScoreCache>(
            rules,
            p,
            depth,
            ply,
            alpha,
            beta,
            v,
            history,
        ).1.len() == v.len(),
    decreases 256 - ply, 2int, 0int,
{
    let probed = ScoreCache::probe_spec(v, rules.hash_spec(p), depth, ply, alpha, beta);
    let hint = if probed is Some {
        (probed->0).1
    } else {
        None
    };
    lemma_scan_all_keeps_the_size(
        rules,
        p,
        depth,
        ply,
        beta,
        true,
        history,
        hint,
        scan_start(alpha, v),
    );
}

proof fn lemma_scan_all_keeps_the_size<R: Rules>(
    rules: &R,
    p: Position,
    depth: u8,
    ply: u8,
    beta: i32,
    stop: bool,
    history: Seq<HistoryEntry>,
    hint: Option<Move>,
    start: Scan<Seq<Option<ScoreEntry>>>,
)
    ensures
        scan_all::<R, ScoreCache>(
            rules,
            p,
            depth,
            ply,
            beta,
            stop,
            history,
            hint,
            start,
        ).tt.len() == start.tt.len(),
    decreases 256 - ply, 1int, 0int,
{
    let captures = hint_first(rank_captures(rules, p, rules.captures_spec(p)), hint);
    let quiets = hint_first(rules.quiets_spec(p), hint);
    let n = captures.len() as int;
    lemma_scan_keeps_the_size(
        rules,
        p,
        captures,
        false,
        depth,
        ply,
        beta,
        stop,
        history,
        start,
        n,
    );
    let s = scan::<R, ScoreCache>(
        rules,
        p,
        captures,
        false,
        depth,
        ply,
        beta,
        stop,
        history,
        start,
        n,
    );
    lemma_scan_keeps_the_size(
        rules,
        p,
        quiets,
        true,
        depth,
        ply,
        beta,
        stop,
        history,
        s,
        quiets.len() as int,
    );
}

proof fn lemma_scan_keeps_the_size<R: Rules>(
    rules: &R,
    p: Position,
    moves: Seq<Move>,
    quiet: bool,
    depth: u8,
    ply: u8,
    beta: i32,
    stop: bool,
    history: Seq<HistoryEntry>,
    start: Scan<Seq<Option<ScoreEntry>>>,
    n: int,
)
    ensures
        scan::<R, ScoreCache>(
            rules,
            p,
            moves,
            quiet,
            depth,
            ply,
            beta,
            stop,
            history,
            start,
            n,
        ).tt.len() == start.tt.len(),
    decreases 256 - ply, 0int, n,
{
    if n > 0 {
        lemma_scan_keeps_the_size(
            rules,
            p,
            moves,
            quiet,
            depth,
            ply,
            beta,
            stop,
            history,
            start,
            n - 1,
        );
        let s = scan::<R, ScoreCache>(
            rules,
            p,
            moves,
            quiet,
            depth,
            ply,
            beta,
            stop,
            history,
            start,
            n - 1,
        );
        let m = moves[n - 1];
        let entry = entry_of(rules, p, m, search_reversible(p, m, quiet));
        if !(s.cut || s.stuck || !p.is_safe(m)) && !(ply >= 255 || (!entry.is_check && depth == 0)) {
            lemma_node_keeps_the_size(
                rules,
                p.after_move(m),
                if entry.is_check {
                    depth
                } else {
                    (depth - 1) as u8
                },
                (ply + 1) as u8,
                flip(beta),
                flip(s.alpha),
                s.tt,
                history.push(entry),
            );
        }
    }
}

/// A search leaves the table as large as it was.
proof fn lemma_search_keeps_the_size<R: Rules>(
    rules: &R,
    p: Position,
    depth: u8,
    v: Seq<Option<ScoreEntry>>,
    history: Seq<HistoryEntry>,
)
    ensures
        search_spec::<R, ScoreCache>(rules, p, depth, v, history).1.len() == v.len(),
{
    lemma_scan_all_keeps_the_size(
        rules,
        p,
        depth,
        0,
        INFINITY,
        false,
        history,
        offered::<R, ScoreCache>(rules, p, opening(depth), v),
        scan_start((-INFINITY) as i32, v),
    );
}

} // verus!
