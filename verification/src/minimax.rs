//! What the alpha-beta search computes, said without a window: the minimax value.

use crate::board::{PieceType, Position};
use crate::moves::Move;
use crate::ordering::{hint_first, lemma_hint_first_same, lemma_rank_captures_same, rank_captures};
use crate::rules::{
    entry_of, legal_moves_spec, pseudo_legal, HistoryEntry, RepetitionResult, Rules,
};
use crate::scores::ScoreTable;
use crate::search::{
    flip, max, negamax_spec, scan, scan_all, scan_start, search_reversible, search_spec,
    settle, Scan, INFINITY, MATE_VALUE,
};
use vstd::prelude::*;

verus! {

/// The value of a position: what the repetition judgement says; the settled value at
/// depth 0; a loss for a side without a legal move; else the best reply. A check is
/// searched without loss of depth. Replies past ply 255 have no value (0 stands for it).
pub open spec fn minimax<R: Rules>(
    rules: &R,
    p: Position,
    depth: u8,
    ply: u8,
    history: Seq<HistoryEntry>,
) -> int
    decreases 256 - ply, 1int, 0int,
{
    match rules.repetition_spec(p, history, 1) {
        RepetitionResult::Win => MATE_VALUE - ply,
        RepetitionResult::Loss => -MATE_VALUE + ply,
        RepetitionResult::Draw => 0,
        RepetitionResult::Undecided => if depth == 0 {
            settle(rules, p)
        } else {
            match best_reply(
                rules,
                p,
                depth,
                ply,
                history,
                pseudo_legal(rules, p).len() as int,
            ) {
                None => -MATE_VALUE + ply,
                Some(v) => v,
            }
        },
    }
}

/// The value of playing `m`: the negative of what it leads to.
pub open spec fn reply<R: Rules>(
    rules: &R,
    p: Position,
    depth: u8,
    ply: u8,
    history: Seq<HistoryEntry>,
    m: Move,
    quiet: bool,
) -> int
    decreases 256 - ply, 0int, 0int,
{
    let entry = entry_of(rules, p, m, search_reversible(p, m, quiet));
    let next_depth = if entry.is_check {
        depth
    } else {
        (depth - 1) as u8
    };
    if ply >= 255 {
        0
    } else {
        -minimax(rules, p.after_move(m), next_depth, (ply + 1) as u8, history.push(entry))
    }
}

/// The best value among the legal ones of the first `n` pseudo-legal moves.
pub open spec fn best_reply<R: Rules>(
    rules: &R,
    p: Position,
    depth: u8,
    ply: u8,
    history: Seq<HistoryEntry>,
    n: int,
) -> Option<int>
    decreases 256 - ply, 0int, n,
{
    if n <= 0 {
        None
    } else {
        let rest = best_reply(rules, p, depth, ply, history, n - 1);
        let m = pseudo_legal(rules, p)[n - 1];
        if p.is_safe(m) {
            let quiet = n - 1 >= rules.captures_spec(p).len();
            let v = reply(rules, p, depth, ply, history, m, quiet);
            match rest {
                None => Some(v),
                Some(best) => Some(max(best, v)),
            }
        } else {
            rest
        }
    }
}

/// The value of the `i`-th pseudo-legal move.
spec fn reply_at<R: Rules>(
    rules: &R,
    p: Position,
    depth: u8,
    ply: u8,
    history: Seq<HistoryEntry>,
    i: int,
) -> int {
    reply(
        rules,
        p,
        depth,
        ply,
        history,
        pseudo_legal(rules, p)[i],
        i >= rules.captures_spec(p).len(),
    )
}

proof fn lemma_best_reply<R: Rules>(
    rules: &R,
    p: Position,
    depth: u8,
    ply: u8,
    history: Seq<HistoryEntry>,
    n: int,
)
    requires
        0 <= n <= pseudo_legal(rules, p).len(),
    ensures
        ({
            let best = best_reply(rules, p, depth, ply, history, n);
            &&& best is None ==> forall|i: int|
                0 <= i < n ==> !p.is_safe(#[trigger] pseudo_legal(rules, p)[i])
            &&& best is Some ==> exists|i: int|
                0 <= i < n && p.is_safe(#[trigger] pseudo_legal(rules, p)[i]) && best->0
                    == reply_at(rules, p, depth, ply, history, i)
            &&& forall|i: int|
                0 <= i < n && p.is_safe(#[trigger] pseudo_legal(rules, p)[i]) ==> best is Some
                    && best->0 >= reply_at(rules, p, depth, ply, history, i)
        }),
    decreases n,
{
    if n > 0 {
        lemma_best_reply(rules, p, depth, ply, history, n - 1);
        let m = pseudo_legal(rules, p)[n - 1];
        let rest = best_reply(rules, p, depth, ply, history, n - 1);
        let best = best_reply(rules, p, depth, ply, history, n);
        if p.is_safe(m) {
            let v = reply_at(rules, p, depth, ply, history, n - 1);
            if rest is None || v >= rest->0 {
                assert(best == Some(v));
            } else {
                assert(best == rest);
                let i = choose|i: int|
                    0 <= i < n - 1 && p.is_safe(#[trigger] pseudo_legal(rules, p)[i]) && rest->0
                        == reply_at(rules, p, depth, ply, history, i);
                assert(p.is_safe(pseudo_legal(rules, p)[i]));
            }
        } else {
            assert(best == rest);
        }
    }
}

/// The minimax value is the best that a legal move leads to: with depth left and nothing to
/// judge, it is no less than the opposite of the value after any legal move, it is that of
/// one of them, and without a legal move the game is lost at this ply. A move that gives
/// check leaves the depth as it is, any other takes one off.
pub proof fn law_the_minimax_value_is_the_best_reply<R: Rules>(
    rules: &R,
    p: Position,
    depth: u8,
    ply: u8,
    history: Seq<HistoryEntry>,
    m: Move,
) -> (best: Move)
    requires
        p.cells.len() == 256,
        depth > 0,
        ply < 255,
        rules.repetition_spec(p, history, 1) == RepetitionResult::Undecided,
    ensures
        ({
            let value = minimax(rules, p, depth, ply, history);
            let remembered = |x: Move|
                entry_of(
                    rules,
                    p,
                    x,
                    p.is_empty(x.to_spec()) && p.piece_at(x.from_spec())->0.piece_type
                        != PieceType::Pawn,
                );
            let after = |x: Move|
                minimax(
                    rules,
                    p.after_move(x),
                    if remembered(x).is_check {
                        depth
                    } else {
                        (depth - 1) as u8
                    },
                    (ply + 1) as u8,
                    history.push(remembered(x)),
                );
            let legal = legal_moves_spec(rules, p);
            &&& legal.len() == 0 ==> value == -20000 + ply
            &&& legal.contains(m) ==> value >= -after(m)
            &&& legal.len() > 0 ==> legal.contains(best) && value == -after(best)
        }),
{
    let all = pseudo_legal(rules, p);
    let c = rules.captures_spec(p);
    let q = rules.quiets_spec(p);
    let n = all.len() as int;
    let safe = |x: Move| p.is_safe(x);
    let legal = legal_moves_spec(rules, p);
    lemma_best_reply(rules, p, depth, ply, history, n);
    rules.captures_are_captures(p);
    rules.quiets_are_quiet(p);
    assert forall|i: int| 0 <= i < n implies p.is_empty((#[trigger] all[i]).to_spec()) == (i
        >= c.len()) by {
        if i < c.len() {
            assert(p.is_capture_step(c[i]));
        } else {
            assert(p.is_quiet_step(q[i - c.len()]));
        }
    }
    let found = best_reply(rules, p, depth, ply, history, n);
    if legal.contains(m) {
        all.lemma_filter_contains_rev(safe, m);
        all.lemma_filter_pred(safe, legal.index_of(m));
        assert(p.is_safe(all[all.index_of(m)]));
    }
    if legal.len() > 0 {
        let x = legal[0];
        assert(legal.contains(x));
        all.lemma_filter_contains_rev(safe, x);
        all.lemma_filter_pred(safe, 0);
        assert(p.is_safe(all[all.index_of(x)]));
        let i = choose|i: int|
            0 <= i < n && p.is_safe(#[trigger] all[i]) && found->0 == reply_at(
                rules,
                p,
                depth,
                ply,
                history,
                i,
            );
        all.lemma_filter_contains(safe, i);
        all[i]
    } else {
        if found is Some {
            let i = choose|i: int|
                0 <= i < n && p.is_safe(#[trigger] all[i]) && found->0 == reply_at(
                    rules,
                    p,
                    depth,
                    ply,
                    history,
                    i,
                );
            all.lemma_filter_contains(safe, i);
        }
        m
    }
}

/// What is judged by a repetition has the value of a mate at this ply, of a mate against the
/// mover, or of a draw; without depth a position has its settled value.
pub proof fn law_the_minimax_value_of_what_is_judged<R: Rules>(
    rules: &R,
    p: Position,
    depth: u8,
    ply: u8,
    history: Seq<HistoryEntry>,
)
    ensures
        ({
            let value = minimax(rules, p, depth, ply, history);
            let verdict = rules.repetition_spec(p, history, 1);
            &&& verdict == RepetitionResult::Win ==> value == 20000 - ply
            &&& verdict == RepetitionResult::Loss ==> value == -20000 + ply
            &&& verdict == RepetitionResult::Draw ==> value == 0
            &&& verdict == RepetitionResult::Undecided && depth == 0 ==> value == settle(rules, p)
        }),
{
}

/// The table offers moves to try first, but no scores.
pub open spec fn hints_only<T: ScoreTable>() -> bool {
    forall|v: T::V, key: u64, depth: u8, ply: u8, alpha: i32, beta: i32|
        (#[trigger] T::probe_spec(v, key, depth, ply, alpha, beta)) is Some ==> (T::probe_spec(
            v,
            key,
            depth,
            ply,
            alpha,
            beta,
        )->0).0 == i32::MIN
}

/// Lines are pruned only where a draw is enough and no worse is to be had.
pub open spec fn prune_is_sound<R: Rules>(rules: &R) -> bool {
    forall|p: Position, history: Seq<HistoryEntry>, beta: i32, depth: u8, ply: u8|
        #![trigger rules.prune_spec(p, history, beta), minimax(rules, p, depth, ply, history)]
        rules.prune_spec(p, history, beta) ==> beta <= 0 && minimax(rules, p, depth, ply, history)
            >= 0
}

/// `score` is what an alpha-beta search of the window may answer for the true `value`:
/// the value itself inside the window, an upper bound below it, a lower bound above it.
pub open spec fn answers_window(score: int, value: int, alpha: int, beta: int) -> bool {
    &&& score <= alpha ==> value <= score
    &&& alpha < score < beta ==> value == score
    &&& beta <= score ==> score <= value
}

/// Alpha-beta is minimax: where the table only orders moves and pruned lines are
/// draws that nothing worse follows, a node answers its window for the minimax value.
pub proof fn law_alpha_beta_is_minimax<R: Rules, T: ScoreTable>(
    rules: &R,
    p: Position,
    depth: u8,
    ply: u8,
    alpha: i32,
    beta: i32,
    tt: T::V,
    history: Seq<HistoryEntry>,
)
    requires
        hints_only::<T>(),
        prune_is_sound(rules),
        -INFINITY <= alpha < beta <= INFINITY,
    ensures
        negamax_spec::<R, T>(
            rules,
            p,
            depth,
            ply,
            alpha,
            beta,
            tt,
            history,
        ).0 matches Some(score) ==> score >= -INFINITY && answers_window(
            score as int,
            minimax(rules, p, depth, ply, history),
            alpha as int,
            beta as int,
        ),
    decreases 256 - ply, 2int, 0int,
{
    let value = minimax(rules, p, depth, ply, history);
    let (answer, _) = negamax_spec::<R, T>(rules, p, depth, ply, alpha, beta, tt, history);
    let verdict = rules.repetition_spec(p, history, 1);
    let probed = T::probe_spec(tt, rules.hash_spec(p), depth, ply, alpha, beta);
    if rules.prune_spec(p, history, beta) {
    } else if verdict != RepetitionResult::Undecided {
    } else if depth == 0 {
    } else {
        let hint = if probed is Some {
            (probed->0).1
        } else {
            None
        };
        let s = scan_all::<R, T>(
            rules,
            p,
            depth,
            ply,
            beta,
            true,
            history,
            hint,
            scan_start(alpha, tt),
        );
        if !s.stuck {
            lemma_scan_all_bounds::<R, T>(rules, p, depth, ply, alpha, beta, history, hint, tt);
        }
    }
}

/// The state of a scan, as far as its bounds go.
spec fn scan_bounds<V>(s: Scan<V>, alpha: int, beta: int) -> bool {
    &&& s.best_score >= -INFINITY
    &&& !s.cut && !s.stuck ==> s.alpha == max(alpha, s.best_score as int) && s.alpha < beta
}

#[verifier::rlimit(60)]
proof fn lemma_scan_bounds<R: Rules, T: ScoreTable>(
    rules: &R,
    p: Position,
    moves: Seq<Move>,
    quiet: bool,
    depth: u8,
    ply: u8,
    alpha: i32,
    beta: i32,
    history: Seq<HistoryEntry>,
    start: Scan<T::V>,
    n: int,
)
    requires
        hints_only::<T>(),
        prune_is_sound(rules),
        -INFINITY <= alpha < beta <= INFINITY,
        0 <= n <= moves.len(),
        scan_bounds(start, alpha as int, beta as int),
        !start.cut,
        !start.stuck,
        depth > 0,
    ensures
        ({
            let s = scan::<R, T>(rules, p, moves, quiet, depth, ply, beta, true, history, start, n);
            &&& scan_bounds(s, alpha as int, beta as int)
            &&& s.best_score >= start.best_score
            &&& !s.stuck && !s.cut ==> {
                &&& forall|k: int|
                    0 <= k < n && p.is_safe(#[trigger] moves[k]) ==> reply(
                        rules,
                        p,
                        depth,
                        ply,
                        history,
                        moves[k],
                        quiet,
                    ) <= s.best_score
                &&& s.best_score == start.best_score || s.best_score <= alpha || exists|k: int|
                    0 <= k < n && p.is_safe(#[trigger] moves[k]) && reply(
                        rules,
                        p,
                        depth,
                        ply,
                        history,
                        moves[k],
                        quiet,
                    ) == s.best_score
                &&& s.has_legal_moves <==> start.has_legal_moves || exists|k: int|
                    0 <= k < n && p.is_safe(#[trigger] moves[k])
            }
            &&& !s.stuck && s.cut ==> {
                &&& s.has_legal_moves
                &&& s.best_score >= beta
                &&& exists|k: int|
                    0 <= k < n && p.is_safe(#[trigger] moves[k]) && reply(
                        rules,
                        p,
                        depth,
                        ply,
                        history,
                        moves[k],
                        quiet,
                    ) >= s.best_score
            }
        }),
    decreases 256 - ply, 0int, n,
{
    if n > 0 {
        lemma_scan_bounds::<R, T>(
            rules,
            p,
            moves,
            quiet,
            depth,
            ply,
            alpha,
            beta,
            history,
            start,
            n - 1,
        );
        let prev = scan::<R, T>(
            rules,
            p,
            moves,
            quiet,
            depth,
            ply,
            beta,
            true,
            history,
            start,
            n - 1,
        );
        let s = scan::<R, T>(rules, p, moves, quiet, depth, ply, beta, true, history, start, n);
        let m = moves[n - 1];
        if prev.cut || prev.stuck || !p.is_safe(m) {
            assert(s == prev);
        } else if ply >= 255 {
            assert(s.stuck);
        } else {
            let entry = entry_of(rules, p, m, search_reversible(p, m, quiet));
            let next_depth = if entry.is_check {
                depth
            } else {
                (depth - 1) as u8
            };
            law_alpha_beta_is_minimax::<R, T>(
                rules,
                p.after_move(m),
                next_depth,
                (ply + 1) as u8,
                flip(beta),
                flip(prev.alpha),
                prev.tt,
                history.push(entry),
            );
            let (answer, _) = negamax_spec::<R, T>(
                rules,
                p.after_move(m),
                next_depth,
                (ply + 1) as u8,
                flip(beta),
                flip(prev.alpha),
                prev.tt,
                history.push(entry),
            );
            let r = reply(rules, p, depth, ply, history, m, quiet);
            if let Some(v) = answer {
                let score = flip(v);
                assert(!s.stuck);
                assert(score <= prev.alpha ==> r <= score);
                assert(prev.alpha < score < beta ==> r == score);
                assert(beta <= score ==> score <= r);
                assert(s.best_score == max(prev.best_score as int, score as int));
                assert(p.is_safe(moves[n - 1]));
            } else {
                assert(s.stuck);
            }
        }
    }
}

proof fn lemma_scan_all_bounds<R: Rules, T: ScoreTable>(
    rules: &R,
    p: Position,
    depth: u8,
    ply: u8,
    alpha: i32,
    beta: i32,
    history: Seq<HistoryEntry>,
    hint: Option<Move>,
    tt: T::V,
)
    requires
        hints_only::<T>(),
        prune_is_sound(rules),
        -INFINITY <= alpha < beta <= INFINITY,
        depth > 0,
    ensures
        ({
            let s = scan_all::<R, T>(
                rules,
                p,
                depth,
                ply,
                beta,
                true,
                history,
                hint,
                scan_start(alpha, tt),
            );
            let best = best_reply(
                rules,
                p,
                depth,
                ply,
                history,
                pseudo_legal(rules, p).len() as int,
            );
            !s.stuck ==> {
                &&& s.best_score >= -INFINITY
                &&& s.has_legal_moves <==> best is Some
                &&& best matches Some(v) ==> answers_window(
                    s.best_score as int,
                    v,
                    alpha as int,
                    beta as int,
                )
            }
        }),
    decreases 256 - ply, 1int, 0int,
{
    let c = rules.captures_spec(p);
    let q = rules.quiets_spec(p);
    let all = pseudo_legal(rules, p);
    let captures = hint_first(rank_captures(rules, p, c), hint);
    let quiets = hint_first(q, hint);
    let start = scan_start(alpha, tt);
    let s1 = scan::<R, T>(
        rules,
        p,
        captures,
        false,
        depth,
        ply,
        beta,
        true,
        history,
        start,
        captures.len() as int,
    );
    lemma_scan_bounds::<R, T>(
        rules,
        p,
        captures,
        false,
        depth,
        ply,
        alpha,
        beta,
        history,
        start,
        captures.len() as int,
    );
    lemma_best_reply(rules, p, depth, ply, history, all.len() as int);
    lemma_rank_captures_same(rules, p, c);
    lemma_hint_first_same(rank_captures(rules, p, c), hint);
    lemma_hint_first_same(q, hint);
    let best = best_reply(rules, p, depth, ply, history, all.len() as int);
    // Where a looked-at move stands among the pseudo-legal ones, and the other way round.
    assert forall|k: int| 0 <= k < captures.len() && p.is_safe(#[trigger] captures[k]) implies {
        &&& best is Some
        &&& best->0 >= reply(rules, p, depth, ply, history, captures[k], false)
    } by {
        assert(captures.contains(captures[k]));
        assert(rank_captures(rules, p, c).contains(captures[k]));
        assert(c.contains(captures[k]));
        let i = c.index_of(captures[k]);
        assert(all[i] == captures[k]);
    }
    assert forall|k: int| 0 <= k < quiets.len() && p.is_safe(#[trigger] quiets[k]) implies {
        &&& best is Some
        &&& best->0 >= reply(rules, p, depth, ply, history, quiets[k], true)
    } by {
        assert(quiets.contains(quiets[k]));
        assert(q.contains(quiets[k]));
        let i = q.index_of(quiets[k]);
        assert(all[c.len() + i] == quiets[k]);
    }
    if !s1.stuck && !s1.cut {
        let s = scan::<R, T>(
            rules,
            p,
            quiets,
            true,
            depth,
            ply,
            beta,
            true,
            history,
            s1,
            quiets.len() as int,
        );
        lemma_scan_bounds::<R, T>(
            rules,
            p,
            quiets,
            true,
            depth,
            ply,
            alpha,
            beta,
            history,
            s1,
            quiets.len() as int,
        );
        if !s.stuck && best is Some {
            let w = choose|i: int|
                0 <= i < all.len() && p.is_safe(#[trigger] all[i]) && best->0 == reply_at(
                    rules,
                    p,
                    depth,
                    ply,
                    history,
                    i,
                );
            assert(p.is_safe(all[w]));
            if w < c.len() {
                assert(c[w] == all[w]);
                assert(c.contains(all[w]));
                assert(rank_captures(rules, p, c).contains(all[w]));
                assert(captures.contains(all[w]));
                let k = captures.index_of(all[w]);
                assert(captures[k] == all[w]);
            } else {
                assert(q[w - c.len()] == all[w]);
                assert(q.contains(all[w]));
                assert(quiets.contains(all[w]));
                let k = quiets.index_of(all[w]);
                assert(quiets[k] == all[w]);
            }
        }
    }
}

/// Every legal reply at the root has a value inside the window that the search opens
/// with.
pub open spec fn replies_inside<R: Rules>(
    rules: &R,
    p: Position,
    depth: u8,
    history: Seq<HistoryEntry>,
) -> bool {
    forall|i: int|
        0 <= i < pseudo_legal(rules, p).len() && p.is_safe(#[trigger] pseudo_legal(rules, p)[i])
            ==> -INFINITY < reply(
            rules,
            p,
            depth,
            0,
            history,
            pseudo_legal(rules, p)[i],
            i >= rules.captures_spec(p).len(),
        ) < INFINITY
}

/// Every safe one of `moves` has a value inside that window.
spec fn all_inside<R: Rules>(
    rules: &R,
    p: Position,
    depth: u8,
    history: Seq<HistoryEntry>,
    moves: Seq<Move>,
    quiet: bool,
) -> bool {
    forall|k: int|
        0 <= k < moves.len() && p.is_safe(#[trigger] moves[k]) ==> -INFINITY < reply(
            rules,
            p,
            depth,
            0,
            history,
            moves[k],
            quiet,
        ) < INFINITY
}

/// `m` is one of `moves`, is safe and has that value.
spec fn has_reply<R: Rules>(
    rules: &R,
    p: Position,
    depth: u8,
    history: Seq<HistoryEntry>,
    moves: Seq<Move>,
    quiet: bool,
    m: Move,
    value: int,
) -> bool {
    &&& moves.contains(m)
    &&& p.is_safe(m)
    &&& reply(rules, p, depth, 0, history, m, quiet) == value
}

#[verifier::rlimit(40)]
proof fn lemma_root_scan<R: Rules, T: ScoreTable>(
    rules: &R,
    p: Position,
    moves: Seq<Move>,
    quiet: bool,
    depth: u8,
    history: Seq<HistoryEntry>,
    start: Scan<T::V>,
    n: int,
)
    requires
        hints_only::<T>(),
        prune_is_sound(rules),
        all_inside(rules, p, depth, history, moves, quiet),
        depth > 0,
        0 <= n <= moves.len(),
        !start.cut,
        !start.stuck,
        start.alpha == start.best_score,
        -INFINITY <= start.alpha < INFINITY,
    ensures
        ({
            let s = scan::<R, T>(
                rules,
                p,
                moves,
                quiet,
                depth,
                0,
                INFINITY,
                false,
                history,
                start,
                n,
            );
            &&& !s.cut
            &&& !s.stuck ==> {
                &&& s.alpha == s.best_score
                &&& start.alpha <= s.alpha < INFINITY
                &&& forall|k: int|
                    0 <= k < n && p.is_safe(#[trigger] moves[k]) ==> reply(
                        rules,
                        p,
                        depth,
                        0,
                        history,
                        moves[k],
                        quiet,
                    ) <= s.alpha
                &&& {
                    ||| s.best_move == start.best_move && s.alpha == start.alpha
                    ||| s.best_move is Some && has_reply(
                        rules,
                        p,
                        depth,
                        history,
                        moves,
                        quiet,
                        s.best_move->0,
                        s.alpha as int,
                    )
                }
            }
        }),
    decreases n,
{
    if n > 0 {
        lemma_root_scan::<R, T>(rules, p, moves, quiet, depth, history, start, n - 1);
        let prev = scan::<R, T>(
            rules,
            p,
            moves,
            quiet,
            depth,
            0,
            INFINITY,
            false,
            history,
            start,
            n - 1,
        );
        let s = scan::<R, T>(
            rules,
            p,
            moves,
            quiet,
            depth,
            0,
            INFINITY,
            false,
            history,
            start,
            n,
        );
        let m = moves[n - 1];
        if prev.stuck || !p.is_safe(m) {
            assert(s == prev);
        } else {
            let entry = entry_of(rules, p, m, search_reversible(p, m, quiet));
            let next_depth = if entry.is_check {
                depth
            } else {
                (depth - 1) as u8
            };
            law_alpha_beta_is_minimax::<R, T>(
                rules,
                p.after_move(m),
                next_depth,
                1,
                flip(INFINITY),
                flip(prev.alpha),
                prev.tt,
                history.push(entry),
            );
            let (answer, _) = negamax_spec::<R, T>(
                rules,
                p.after_move(m),
                next_depth,
                1,
                flip(INFINITY),
                flip(prev.alpha),
                prev.tt,
                history.push(entry),
            );
            let r = reply(rules, p, depth, 0, history, m, quiet);
            assert(-INFINITY < r < INFINITY) by {
                assert(p.is_safe(moves[n - 1]));
            }
            if let Some(v) = answer {
                let score = flip(v);
                assert(!s.stuck);
                assert(score <= prev.alpha ==> r <= score);
                assert(prev.alpha < score < INFINITY ==> r == score);
                assert(INFINITY <= score ==> score <= r);
                assert(moves.contains(m));
            } else {
                assert(s.stuck);
            }
        }
    }
}

/// The search finds a best move: where the table only orders moves, pruned lines are
/// draws that nothing worse follows and every reply has a value inside the opening
/// window, the move found is legal and no legal move has a better minimax value.
pub proof fn law_search_finds_a_best_move<R: Rules, T: ScoreTable>(
    rules: &R,
    p: Position,
    depth: u8,
    tt: T::V,
    history: Seq<HistoryEntry>,
)
    requires
        hints_only::<T>(),
        prune_is_sound(rules),
        replies_inside(rules, p, depth, history),
        depth > 0,
        exists|i: int|
            0 <= i < pseudo_legal(rules, p).len() && p.is_safe(#[trigger] pseudo_legal(rules, p)[i]),
    ensures
        search_spec::<R, T>(rules, p, depth, tt, history).0 matches Some(m) ==> exists|i: int|
            0 <= i < pseudo_legal(rules, p).len() && #[trigger] pseudo_legal(rules, p)[i] == m
                && p.is_safe(m) && best_reply(
                rules,
                p,
                depth,
                0,
                history,
                pseudo_legal(rules, p).len() as int,
            ) == Some(
                reply(rules, p, depth, 0, history, m, i >= rules.captures_spec(p).len()),
            ),
{
    let floor = (-INFINITY) as i32;
    let probed = T::probe_spec(tt, rules.hash_spec(p), depth, 0, floor, INFINITY);
    let hint = if probed is Some {
        (probed->0).1
    } else {
        None
    };
    let c = rules.captures_spec(p);
    let q = rules.quiets_spec(p);
    let all = pseudo_legal(rules, p);
    let captures = hint_first(rank_captures(rules, p, c), hint);
    let quiets = hint_first(q, hint);
    let start = scan_start(floor, tt);
    lemma_rank_captures_same(rules, p, c);
    lemma_hint_first_same(rank_captures(rules, p, c), hint);
    lemma_hint_first_same(q, hint);
    assert(all_inside(rules, p, depth, history, captures, false)) by {
        assert forall|k: int| 0 <= k < captures.len() && p.is_safe(
            #[trigger] captures[k],
        ) implies -INFINITY < reply(rules, p, depth, 0, history, captures[k], false) < INFINITY by {
            assert(captures.contains(captures[k]));
            assert(rank_captures(rules, p, c).contains(captures[k]));
            assert(c.contains(captures[k]));
            assert(all[c.index_of(captures[k])] == captures[k]);
        }
    }
    assert(all_inside(rules, p, depth, history, quiets, true)) by {
        assert forall|k: int| 0 <= k < quiets.len() && p.is_safe(
            #[trigger] quiets[k],
        ) implies -INFINITY < reply(rules, p, depth, 0, history, quiets[k], true) < INFINITY by {
            assert(quiets.contains(quiets[k]));
            assert(q.contains(quiets[k]));
            assert(all[c.len() + q.index_of(quiets[k])] == quiets[k]);
        }
    }
    let s1 = scan::<R, T>(
        rules,
        p,
        captures,
        false,
        depth,
        0,
        INFINITY,
        false,
        history,
        start,
        captures.len() as int,
    );
    lemma_root_scan::<R, T>(
        rules,
        p,
        captures,
        false,
        depth,
        history,
        start,
        captures.len() as int,
    );
    lemma_best_reply(rules, p, depth, 0, history, all.len() as int);
    let best = best_reply(rules, p, depth, 0, history, all.len() as int);
    if !s1.stuck {
        let s = scan::<R, T>(
            rules,
            p,
            quiets,
            true,
            depth,
            0,
            INFINITY,
            false,
            history,
            s1,
            quiets.len() as int,
        );
        lemma_root_scan::<R, T>(
            rules,
            p,
            quiets,
            true,
            depth,
            history,
            s1,
            quiets.len() as int,
        );
        if !s.stuck {
            // No legal move is better than what was found.
            let w = choose|i: int|
                0 <= i < all.len() && p.is_safe(#[trigger] all[i]) && best->0 == reply_at(
                    rules,
                    p,
                    depth,
                    0,
                    history,
                    i,
                );
            assert(p.is_safe(all[w]));
            if w < c.len() {
                assert(c[w] == all[w]);
                assert(c.contains(all[w]));
                assert(rank_captures(rules, p, c).contains(all[w]));
                assert(captures.contains(all[w]));
                assert(captures[captures.index_of(all[w])] == all[w]);
            } else {
                assert(q[w - c.len()] == all[w]);
                assert(q.contains(all[w]));
                assert(quiets.contains(all[w]));
                assert(quiets[quiets.index_of(all[w])] == all[w]);
            }
            assert(best->0 <= s.alpha);
            assert(s.alpha > -INFINITY);
            let m = s.best_move->0;
            if has_reply(rules, p, depth, history, quiets, true, m, s.alpha as int)
                && s.best_move is Some {
                assert(q.contains(m));
                let i = c.len() + q.index_of(m);
                assert(all[i] == m);
            } else {
                assert(has_reply(rules, p, depth, history, captures, false, m, s.alpha as int));
                assert(rank_captures(rules, p, c).contains(m));
                assert(c.contains(m));
                let i = c.index_of(m);
                assert(all[i] == m);
            }
        }
    }
}

} // verus!
