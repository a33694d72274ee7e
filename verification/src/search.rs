//! Alpha-beta search with staged move generation, check extensions, repetition
//! judgement and a quiescence search at the leaves.

use crate::board::{law_unmake_undoes_make, Board, PieceType, Position};
use crate::moves::Move;
use crate::ordering::{
    hint_first, lemma_hint_first_same, lemma_rank_captures_same, put_hint_first, rank_captures,
    rank_captures_vec,
};
use crate::rules::{
    entry_of, get_legal_moves, is_safe_move, legal_moves_spec, make_recorded_move,
    pseudo_legal, HistoryEntry, RepetitionResult, Rules,
};
use crate::scores::{Bound, ScoreTable};
use vstd::prelude::*;

verus! {

pub const INFINITY: i32 = 50000;

pub const MATE_VALUE: i32 = 20000;

pub open spec fn max(a: int, b: int) -> int {
    if a >= b {
        a
    } else {
        b
    }
}

// ---------------------------------------------------------------------------
// Quiescence
// ---------------------------------------------------------------------------
/// The capture may be played: it captures, and leaves the king safe.
pub open spec fn playable_capture(p: Position, m: Move) -> bool {
    &&& p.cells.len() == 256
    &&& p.is_capture_step(m)
    &&& p.is_safe(m)
}

/// The value of a position when only captures are played and each side may stop at
/// its static score: the best of standing pat and of every playable capture.
pub open spec fn settle<R: Rules>(rules: &R, p: Position) -> int
    decreases p.pieces(), 1int, 0int,
{
    settle_over(rules, p, rules.captures_spec(p).len() as int)
}

/// The same, of the first `n` captures only.
pub open spec fn settle_over<R: Rules>(rules: &R, p: Position, n: int) -> int
    decreases p.pieces(), 0int, n,
{
    if n <= 0 {
        rules.evaluate_spec(p) as int
    } else {
        let m = rules.captures_spec(p)[n - 1];
        let rest = settle_over(rules, p, n - 1);
        if playable_capture(p, m) {
            proof {
                p.law_capture_removes_a_piece(m);
            }
            max(rest, -settle(rules, p.after_move(m)))
        } else {
            rest
        }
    }
}

/// Standing pat and every playable capture are lower bounds of the settled value, and
/// one of them attains it.
proof fn lemma_settle_over<R: Rules>(rules: &R, p: Position, n: int)
    requires
        0 <= n <= rules.captures_spec(p).len(),
    ensures
        settle_over(rules, p, n) >= rules.evaluate_spec(p),
        forall|i: int|
            0 <= i < n && playable_capture(p, #[trigger] rules.captures_spec(p)[i])
                ==> settle_over(rules, p, n) >= -settle(
                rules,
                p.after_move(rules.captures_spec(p)[i]),
            ),
        settle_over(rules, p, n) == rules.evaluate_spec(p) || exists|i: int|
            0 <= i < n && playable_capture(p, #[trigger] rules.captures_spec(p)[i])
                && settle_over(rules, p, n) == -settle(
                rules,
                p.after_move(rules.captures_spec(p)[i]),
            ),
    decreases n,
{
    if n > 0 {
        lemma_settle_over(rules, p, n - 1);
        let m = rules.captures_spec(p)[n - 1];
        if playable_capture(p, m) {
            let rest = settle_over(rules, p, n - 1);
            let v = -settle(rules, p.after_move(m));
            assert(settle_over(rules, p, n) == max(rest, v));
        } else {
            assert(settle_over(rules, p, n) == settle_over(rules, p, n - 1));
        }
    }
}

/// A position settles at its best: no worse than it stands, no worse than after any legal
/// capture, and as one of these.
pub proof fn law_a_position_settles_at_its_best<R: Rules>(rules: &R, p: Position)
    requires
        p.cells.len() == 256,
    ensures
        settle(rules, p) >= rules.evaluate_spec(p),
        forall|m: Move|
            #![trigger rules.captures_spec(p).contains(m)]
            rules.captures_spec(p).contains(m) && p.is_safe(m) ==> settle(rules, p) >= -settle(
                rules,
                p.after_move(m),
            ),
        settle(rules, p) == rules.evaluate_spec(p) || exists|m: Move|
            #![trigger rules.captures_spec(p).contains(m)]
            rules.captures_spec(p).contains(m) && p.is_safe(m) && settle(rules, p) == -settle(
                rules,
                p.after_move(m),
            ),
{
    let all = rules.captures_spec(p);
    lemma_settle_over(rules, p, all.len() as int);
    rules.captures_are_captures(p);
    assert forall|m: Move| #[trigger] all.contains(m) && p.is_safe(m) implies settle(rules, p)
        >= -settle(rules, p.after_move(m)) by {
        let i = all.index_of(m);
        assert(playable_capture(p, all[i]));
    }
    if settle(rules, p) != rules.evaluate_spec(p) {
        let i = choose|i: int|
            0 <= i < all.len() && playable_capture(p, #[trigger] all[i]) && settle(rules, p)
                == -settle(rules, p.after_move(all[i]));
        assert(all.contains(all[i]));
    }
}

/// Some capture may be played.
pub open spec fn has_playable_capture<R: Rules>(rules: &R, p: Position) -> bool {
    exists|i: int|
        0 <= i < rules.captures_spec(p).len() && playable_capture(
            p,
            #[trigger] rules.captures_spec(p)[i],
        )
}

/// The answer of a quiescence search: the settled value, cut to the window. A window
/// that is turned round (`alpha > beta`) is answered by its lower end as soon as
/// standing pat reaches it or anything can be captured.
pub open spec fn quiescence_spec<R: Rules>(rules: &R, p: Position, alpha: int, beta: int) -> int {
    if alpha <= beta {
        let v = settle(rules, p);
        if v >= beta {
            beta
        } else if v <= alpha {
            alpha
        } else {
            v
        }
    } else if rules.evaluate_spec(p) >= beta || has_playable_capture(rules, p) {
        beta
    } else {
        alpha
    }
}

pub fn quiescence<R: Rules>(rules: &R, board: &mut Board, alpha: i32, beta: i32) -> (score: i32)
    requires
        alpha > i32::MIN,
        beta > i32::MIN,
    ensures
        final(board)@ == old(board)@,
        score == quiescence_spec(rules, old(board)@, alpha as int, beta as int),
    decreases old(board)@.pieces(),
{
    let ghost p = board@;
    let mut low: i32 = alpha;
    proof {
        board.lemma_cells_len();
        rules.captures_are_captures(p);
        lemma_settle_over(rules, p, rules.captures_spec(p).len() as int);
    }
    let stand_pat = rules.evaluate(board);
    if stand_pat >= beta {
        return beta;
    }
    if stand_pat > low {
        low = stand_pat;
    }
    let generated = rules.generate_captures(board);
    let captures = rank_captures_vec(rules, board, &generated);
    let ghost all = rules.captures_spec(p);
    proof {
        lemma_rank_captures_same(rules, p, all);
    }
    let mut i: usize = 0;
    while i < captures.len()
        invariant
            i <= captures@.len(),
            board@ == p,
            p == old(board)@,
            p.cells.len() == 256,
            all == rules.captures_spec(p),
            captures@ == rank_captures(rules, p, all),
            forall|m: Move| #[trigger] captures@.contains(m) <==> all.contains(m),
            forall|k: int| 0 <= k < all.len() ==> p.is_capture_step(#[trigger] all[k]),
            low > i32::MIN,
            alpha > i32::MIN,
            beta > i32::MIN,
            stand_pat == rules.evaluate_spec(p),
            stand_pat < beta,
            low >= alpha,
            low >= stand_pat,
            alpha < beta ==> low < beta,
            alpha >= beta ==> low == alpha,
            low == alpha || low == stand_pat || exists|k: int|
                0 <= k < i && playable_capture(p, #[trigger] captures@[k]) && low == -settle(
                    rules,
                    p.after_move(captures@[k]),
                ),
            forall|k: int|
                0 <= k < i && playable_capture(p, #[trigger] captures@[k]) ==> alpha < beta
                    && -settle(rules, p.after_move(captures@[k])) <= low,
            settle(rules, p) >= stand_pat,
            forall|k: int|
                0 <= k < all.len() && playable_capture(p, #[trigger] all[k]) ==> settle(rules, p)
                    >= -settle(rules, p.after_move(all[k])),
        decreases captures@.len() - i,
    {
        let m = captures[i];
        proof {
            assert(captures@.contains(m));
            assert(all.contains(m));
            let k = all.index_of(m);
            assert(all[k] == m);
            p.law_capture_removes_a_piece(m);
            p.lemma_step_keeps(m);
        }
        if is_safe_move(board, m) {
            assert(playable_capture(p, m));
            let undo = board.make_move(m);
            proof {
                law_unmake_undoes_make(p, m, undo);
                let next = p.after_move(m);
                lemma_settle_over(rules, next, rules.captures_spec(next).len() as int);
            }
            let score = -quiescence(rules, board, -beta, -low);
            board.unmake_move(m, undo);
            if score >= beta {
                return beta;
            }
            if score > low {
                low = score;
            }
        }
        i += 1;
    }
    proof {
        assert forall|k: int| 0 <= k < all.len() && playable_capture(p, #[trigger] all[k]) implies {
            &&& alpha < beta
            &&& -settle(rules, p.after_move(all[k])) <= low
        } by {
            assert(all.contains(all[k]));
            assert(captures@.contains(all[k]));
            let j = captures@.index_of(all[k]);
            assert(captures@[j] == all[k]);
        }
        assert(settle(rules, p) <= low || settle(rules, p) <= stand_pat);
        if low != alpha && low != stand_pat {
            let k = choose|k: int|
                0 <= k < i && playable_capture(p, #[trigger] captures@[k]) && low == -settle(
                    rules,
                    p.after_move(captures@[k]),
                );
            assert(captures@.contains(captures@[k]));
            assert(all.contains(captures@[k]));
            let j = all.index_of(captures@[k]);
            assert(all[j] == captures@[k]);
            assert(low <= settle(rules, p));
        }
    }
    low
}

// ---------------------------------------------------------------------------
// Alpha-beta
// ---------------------------------------------------------------------------
/// How far a node has come in looking at its moves.
#[verifier::ext_equal]
pub struct Scan<V> {
    pub alpha: i32,
    pub best_score: i32,
    pub best_move: Option<Move>,
    pub has_legal_moves: bool,
    /// The window is closed: no further move is looked at.
    pub cut: bool,
    /// It was a capture that closed the window.
    pub cut_by_capture: bool,
    /// A counter ran out: the line is longer than 255 plies, or a move without check
    /// was to be searched at depth 0.
    pub stuck: bool,
    pub tt: V,
}

/// The negative of a score.
pub open spec fn flip(score: i32) -> i32 {
    (-score) as i32
}

/// A quiet move counts as reversible for the search unless a pawn makes it; a
/// capture never does.
pub open spec fn search_reversible(p: Position, m: Move, quiet: bool) -> bool {
    quiet && p.piece_at(m.from_spec())->0.piece_type != PieceType::Pawn
}

/// The node's progress after the first `n` of `moves`. With `stop` set, a closed
/// window ends the scan.
pub open spec fn scan<R: Rules, T: ScoreTable>(
    rules: &R,
    p: Position,
    moves: Seq<Move>,
    quiet: bool,
    depth: u8,
    ply: u8,
    beta: i32,
    stop: bool,
    history: Seq<HistoryEntry>,
    start: Scan<T::V>,
    n: int,
) -> Scan<T::V>
    decreases 256 - ply, 0int, n,
{
    if n <= 0 {
        start
    } else {
        let s = scan::<R, T>(
            rules,
            p,
            moves,
            quiet,
            depth,
            ply,
            beta,
            stop,
            history,
            start,
            n - 1,
        );
        let m = moves[n - 1];
        if s.cut || s.stuck || !p.is_safe(m) {
            s
        } else {
            let entry = entry_of(rules, p, m, search_reversible(p, m, quiet));
            if ply >= 255 || (!entry.is_check && depth == 0) {
                Scan { has_legal_moves: true, stuck: true, ..s }
            } else {
                let next_depth = if entry.is_check {
                    depth
                } else {
                    (depth - 1) as u8
                };
                let (reply, tt) = negamax_spec::<R, T>(
                    rules,
                    p.after_move(m),
                    next_depth,
                    (ply + 1) as u8,
                    flip(beta),
                    flip(s.alpha),
                    s.tt,
                    history.push(entry),
                );
                match reply {
                    None => Scan { has_legal_moves: true, stuck: true, tt, ..s },
                    Some(v) => {
                        let score = flip(v);
                        let alpha = if score > s.alpha {
                            score
                        } else {
                            s.alpha
                        };
                        Scan {
                            alpha,
                            best_score: if score > s.best_score {
                                score
                            } else {
                                s.best_score
                            },
                            best_move: if score > s.best_score {
                                Some(m)
                            } else {
                                s.best_move
                            },
                            has_legal_moves: true,
                            cut: stop && alpha >= beta,
                            cut_by_capture: stop && alpha >= beta && !quiet,
                            stuck: false,
                            tt,
                        }
                    },
                }
            }
        }
    }
}

/// The start of a scan.
pub open spec fn scan_start<V>(alpha: i32, tt: V) -> Scan<V> {
    Scan {
        alpha,
        best_score: (-INFINITY) as i32,
        best_move: None,
        has_legal_moves: false,
        cut: false,
        cut_by_capture: false,
        stuck: false,
        tt,
    }
}

/// The scan of all captures and then, unless the window closed, of all quiet moves.
/// Where nothing ends the scan early, the window is looked at between the two.
pub open spec fn scan_all<R: Rules, T: ScoreTable>(
    rules: &R,
    p: Position,
    depth: u8,
    ply: u8,
    beta: i32,
    stop: bool,
    history: Seq<HistoryEntry>,
    hint: Option<Move>,
    start: Scan<T::V>,
) -> Scan<T::V>
    decreases 256 - ply, 1int, 0int,
{
    let captures = hint_first(rank_captures(rules, p, rules.captures_spec(p)), hint);
    let quiets = hint_first(rules.quiets_spec(p), hint);
    let s = scan::<R, T>(
        rules,
        p,
        captures,
        false,
        depth,
        ply,
        beta,
        stop,
        history,
        start,
        captures.len() as int,
    );
    if s.cut || s.stuck || (!stop && s.alpha >= beta) {
        s
    } else {
        scan::<R, T>(
            rules,
            p,
            quiets,
            true,
            depth,
            ply,
            beta,
            stop,
            history,
            s,
            quiets.len() as int,
        )
    }
}

/// What a node answers, and the table it leaves; `None` when a counter ran out.
pub open spec fn negamax_spec<R: Rules, T: ScoreTable>(
    rules: &R,
    p: Position,
    depth: u8,
    ply: u8,
    alpha: i32,
    beta: i32,
    tt: T::V,
    history: Seq<HistoryEntry>,
) -> (Option<i32>, T::V)
    decreases 256 - ply, 2int, 0int,
{
    let verdict = rules.repetition_spec(p, history, 1);
    let key = rules.hash_spec(p);
    let probed = T::probe_spec(tt, key, depth, ply, alpha, beta);
    if rules.prune_spec(p, history, beta) {
        (Some(0i32), tt)
    } else if verdict == RepetitionResult::Win {
        (Some((MATE_VALUE - ply) as i32), tt)
    } else if verdict == RepetitionResult::Loss {
        (Some((-MATE_VALUE + ply) as i32), tt)
    } else if verdict == RepetitionResult::Draw {
        (Some(0i32), tt)
    } else if depth == 0 {
        (Some(quiescence_spec(rules, p, alpha as int, beta as int) as i32), tt)
    } else if probed is Some && (probed->0).0 != i32::MIN {
        (Some((probed->0).0), tt)
    } else {
        let hint = if probed is Some {
            (probed->0).1
        } else {
            None
        };
        let s = scan_all::<R, T>(
            rules,
            p,
            depth,
            ply,
            beta,
            true,
            history,
            hint,
            scan_start(alpha, tt),
        );
        if s.stuck {
            (None, s.tt)
        } else if !s.has_legal_moves {
            (Some((-MATE_VALUE + ply) as i32), s.tt)
        } else {
            let bound = if s.cut_by_capture {
                Bound::Beta
            } else if s.best_score <= alpha {
                Bound::Alpha
            } else if s.best_score >= beta {
                Bound::Beta
            } else {
                Bound::Exact
            };
            (
                Some(s.best_score),
                T::record_spec(s.tt, key, depth, ply, s.best_score, bound, s.best_move),
            )
        }
    }
}

/// A node's progress.
struct Progress {
    alpha: i32,
    best_score: i32,
    best_move: Option<Move>,
    has_legal_moves: bool,
    cut: bool,
    cut_by_capture: bool,
    stuck: bool,
}

impl Progress {
    spec fn with<V>(self, tt: V) -> Scan<V> {
        Scan {
            alpha: self.alpha,
            best_score: self.best_score,
            best_move: self.best_move,
            has_legal_moves: self.has_legal_moves,
            cut: self.cut,
            cut_by_capture: self.cut_by_capture,
            stuck: self.stuck,
            tt,
        }
    }

    fn start(alpha: i32) -> (s: Progress)
        ensures
            s == (Progress {
                alpha,
                best_score: (-INFINITY) as i32,
                best_move: None,
                has_legal_moves: false,
                cut: false,
                cut_by_capture: false,
                stuck: false,
            }),
    {
        Progress {
            alpha,
            best_score: -INFINITY,
            best_move: None,
            has_legal_moves: false,
            cut: false,
            cut_by_capture: false,
            stuck: false,
        }
    }
}

/// Looks at `moves` one after the other.
fn scan_moves<R: Rules, T: ScoreTable>(
    rules: &R,
    board: &mut Board,
    moves: &Vec<Move>,
    quiet: bool,
    depth: u8,
    ply: u8,
    beta: i32,
    stop: bool,
    tt: &mut T,
    history: &mut Vec<HistoryEntry>,
    start: Progress,
) -> (s: Progress)
    requires
        beta > i32::MIN,
        start.alpha > i32::MIN,
        forall|i: int| 0 <= i < moves@.len() ==> old(board)@.is_step(#[trigger] moves@[i]),
    ensures
        final(board)@ == old(board)@,
        final(history)@ == old(history)@,
        s.alpha > i32::MIN,
        start.best_score > i32::MIN ==> s.best_score > i32::MIN,
        s.with(final(tt)@) == scan::<R, T>(
            rules,
            old(board)@,
            moves@,
            quiet,
            depth,
            ply,
            beta,
            stop,
            old(history)@,
            start.with(old(tt)@),
            moves@.len() as int,
        ),
    decreases 256 - ply, 0int,
{
    let ghost p = board@;
    let ghost h = history@;
    let ghost tt0 = tt@;
    let mut s = start;
    let mut i: usize = 0;
    proof {
        board.lemma_cells_len();
    }
    while i < moves.len() && !s.cut && !s.stuck
        invariant
            i <= moves@.len(),
            p == old(board)@,
            h == old(history)@,
            tt0 == old(tt)@,
            board@ == p,
            history@ == h,
            p.cells.len() == 256,
            beta > i32::MIN,
            s.alpha > i32::MIN,
            start.best_score > i32::MIN ==> s.best_score > i32::MIN,
            forall|k: int| 0 <= k < moves@.len() ==> p.is_step(#[trigger] moves@[k]),
            s.with(tt@) == scan::<R, T>(
                rules,
                p,
                moves@,
                quiet,
                depth,
                ply,
                beta,
                stop,
                h,
                start.with(tt0),
                i as int,
            ),
        decreases moves@.len() - i,
    {
        let m = moves[i];
        if is_safe_move(board, m) {
            proof {
                p.lemma_step_keeps(m);
            }
            s.has_legal_moves = true;
            let piece = board.piece_at(m.from_sq()).unwrap();
            let is_reversible = quiet && piece.piece_type != PieceType::Pawn;
            let (undo, entry) = make_recorded_move(rules, board, m, is_reversible);
            proof {
                law_unmake_undoes_make(p, m, undo);
            }
            if ply == 255 || (!entry.is_check && depth == 0) {
                board.unmake_move(m, undo);
                s.stuck = true;
            } else {
                let next_depth: u8 = if entry.is_check {
                    depth
                } else {
                    depth - 1
                };
                history.push(entry);
                let reply = negamax(rules, board, next_depth, ply + 1, -beta, -s.alpha, tt, history);
                history.pop();
                assert(history@ =~= h);
                board.unmake_move(m, undo);
                match reply {
                    None => {
                        s.stuck = true;
                    },
                    Some(v) => {
                        let score: i32 = -v;
                        if score > s.best_score {
                            s.best_score = score;
                            s.best_move = Some(m);
                        }
                        if score > s.alpha {
                            s.alpha = score;
                        }
                        s.cut = stop && s.alpha >= beta;
                        s.cut_by_capture = stop && s.alpha >= beta && !quiet;
                    },
                }
            }
        }
        i += 1;
    }
    proof {
        lemma_scan_over::<R, T>(
            rules,
            p,
            moves@,
            quiet,
            depth,
            ply,
            beta,
            stop,
            h,
            start.with(tt0),
            i as int,
            moves@.len() as int,
        );
    }
    s
}

/// Once a scan has ended it does not change.
proof fn lemma_scan_over<R: Rules, T: ScoreTable>(
    rules: &R,
    p: Position,
    moves: Seq<Move>,
    quiet: bool,
    depth: u8,
    ply: u8,
    beta: i32,
    stop: bool,
    history: Seq<HistoryEntry>,
    start: Scan<T::V>,
    n: int,
    m: int,
)
    requires
        0 <= n <= m,
        ({
            let s = scan::<R, T>(rules, p, moves, quiet, depth, ply, beta, stop, history, start, n);
            n == m || s.cut || s.stuck
        }),
    ensures
        scan::<R, T>(rules, p, moves, quiet, depth, ply, beta, stop, history, start, m) == scan::<
            R,
            T,
        >(rules, p, moves, quiet, depth, ply, beta, stop, history, start, n),
    decreases m - n,
{
    if n < m {
        lemma_scan_over::<R, T>(
            rules,
            p,
            moves,
            quiet,
            depth,
            ply,
            beta,
            stop,
            history,
            start,
            n,
            m - 1,
        );
    }
}

/// Looks at all captures and then at the quiet moves.
fn scan_all_moves<R: Rules, T: ScoreTable>(
    rules: &R,
    board: &mut Board,
    depth: u8,
    ply: u8,
    alpha: i32,
    beta: i32,
    stop: bool,
    tt: &mut T,
    history: &mut Vec<HistoryEntry>,
    hint: Option<Move>,
) -> (s: Progress)
    requires
        alpha > i32::MIN,
        beta > i32::MIN,
    ensures
        final(board)@ == old(board)@,
        final(history)@ == old(history)@,
        s.alpha > i32::MIN,
        s.best_score > i32::MIN,
        s.with(final(tt)@) == scan_all::<R, T>(
            rules,
            old(board)@,
            depth,
            ply,
            beta,
            stop,
            old(history)@,
            hint,
            scan_start(alpha, old(tt)@),
        ),
    decreases 256 - ply, 1int,
{
    let ghost p = board@;
    proof {
        board.lemma_cells_len();
        rules.captures_are_captures(p);
        rules.quiets_are_quiet(p);
        let c = rules.captures_spec(p);
        lemma_rank_captures_same(rules, p, c);
        lemma_hint_first_same(rank_captures(rules, p, c), hint);
        lemma_hint_first_same(rules.quiets_spec(p), hint);
        let captures = hint_first(rank_captures(rules, p, c), hint);
        assert forall|i: int| 0 <= i < captures.len() implies p.is_step(#[trigger] captures[i]) by {
            assert(captures.contains(captures[i]));
            assert(rank_captures(rules, p, c).contains(captures[i]));
            assert(c.contains(captures[i]));
            assert(p.is_capture_step(c[c.index_of(captures[i])]));
        }
        let q = rules.quiets_spec(p);
        let quiets = hint_first(q, hint);
        assert forall|i: int| 0 <= i < quiets.len() implies p.is_step(#[trigger] quiets[i]) by {
            assert(quiets.contains(quiets[i]));
            assert(q.contains(quiets[i]));
            assert(p.is_quiet_step(q[q.index_of(quiets[i])]));
        }
    }
    let generated = rules.generate_captures(board);
    let mut captures = rank_captures_vec(rules, board, &generated);
    put_hint_first(&mut captures, hint);
    let start = Progress::start(alpha);
    let s = scan_moves(
        rules,
        board,
        &captures,
        false,
        depth,
        ply,
        beta,
        stop,
        tt,
        history,
        start,
    );
    if s.cut || s.stuck || (!stop && s.alpha >= beta) {
        return s;
    }
    let mut quiets = rules.generate_quiets(board);
    put_hint_first(&mut quiets, hint);
    scan_moves(rules, board, &quiets, true, depth, ply, beta, stop, tt, history, s)
}

/// The score of a position for the side to move, or `None` when a counter ran out.
pub fn negamax<R: Rules, T: ScoreTable>(
    rules: &R,
    board: &mut Board,
    depth: u8,
    ply: u8,
    alpha: i32,
    beta: i32,
    tt: &mut T,
    history: &mut Vec<HistoryEntry>,
) -> (score: Option<i32>)
    requires
        alpha > i32::MIN,
        beta > i32::MIN,
    ensures
        final(board)@ == old(board)@,
        final(history)@ == old(history)@,
        score matches Some(v) ==> v > i32::MIN,
        (score, final(tt)@) == negamax_spec::<R, T>(
            rules,
            old(board)@,
            depth,
            ply,
            alpha,
            beta,
            old(tt)@,
            old(history)@,
        ),
    decreases 256 - ply, 2int,
{
    if rules.judge_prune(board, history, beta) {
        return Some(0);
    }
    match rules.judge_repetition(board, history, 1) {
        RepetitionResult::Win => {
            return Some(MATE_VALUE - ply as i32);
        },
        RepetitionResult::Loss => {
            return Some(-MATE_VALUE + ply as i32);
        },
        RepetitionResult::Draw => {
            return Some(0);
        },
        RepetitionResult::Undecided => {},
    }
    if depth == 0 {
        return Some(quiescence(rules, board, alpha, beta));
    }
    let key = rules.zobrist_key(board);
    let mut hint: Option<Move> = None;
    if let Some((score, best)) = tt.probe(key, depth, ply, alpha, beta) {
        if score != i32::MIN {
            return Some(score);
        }
        hint = best;
    }
    let s = scan_all_moves(rules, board, depth, ply, alpha, beta, true, tt, history, hint);
    if s.stuck {
        return None;
    }
    if !s.has_legal_moves {
        return Some(-MATE_VALUE + ply as i32);
    }
    let bound = if s.cut_by_capture {
        Bound::Beta
    } else if s.best_score <= alpha {
        Bound::Alpha
    } else if s.best_score >= beta {
        Bound::Beta
    } else {
        Bound::Exact
    };
    tt.record(key, depth, ply, s.best_score, bound, s.best_move);
    Some(s.best_score)
}

// ---------------------------------------------------------------------------
// The root
// ---------------------------------------------------------------------------
/// What the search answers at the root, and the table it leaves; `None` when a counter
/// ran out. Without a move that scores above the floor it is the first legal one.
pub open spec fn search_spec<R: Rules, T: ScoreTable>(
    rules: &R,
    p: Position,
    depth: u8,
    tt: T::V,
    history: Seq<HistoryEntry>,
) -> (Option<Move>, T::V) {
    let floor = (-INFINITY) as i32;
    let key = rules.hash_spec(p);
    let probed = T::probe_spec(tt, key, depth, 0, floor, INFINITY);
    let hint = if probed is Some {
        (probed->0).1
    } else {
        None
    };
    let s = scan_all::<R, T>(
        rules,
        p,
        depth,
        0,
        INFINITY,
        false,
        history,
        hint,
        scan_start(floor, tt),
    );
    if s.stuck {
        (None, s.tt)
    } else {
        match s.best_move {
            Some(m) => (
                Some(m),
                T::record_spec(s.tt, key, depth, 0, s.alpha, Bound::Exact, Some(m)),
            ),
            None => (Some(legal_moves_spec(rules, p)[0]), s.tt),
        }
    }
}

/// Searches for the best move, or answers `None` when a counter ran out: a line of play
/// longer than 255 plies, or a move without check to be searched at depth 0.
pub fn search_best_move<R: Rules, T: ScoreTable>(
    rules: &R,
    board: &mut Board,
    depth: u8,
    tt: &mut T,
    game_history: &Vec<HistoryEntry>,
) -> (best: Option<Move>)
    requires
        legal_moves_spec(rules, old(board)@).len() > 0,
    ensures
        final(board)@ == old(board)@,
        (best, final(tt)@) == search_spec::<R, T>(
            rules,
            old(board)@,
            depth,
            old(tt)@,
            game_history@,
        ),
        best matches Some(m) ==> legal_moves_spec(rules, old(board)@).contains(m),
{
    let ghost p = board@;
    let mut history = game_history.clone();
    assert(history@ =~= game_history@);
    let key = rules.zobrist_key(board);
    let mut hint: Option<Move> = None;
    if let Some((_, best)) = tt.probe(key, depth, 0, -INFINITY, INFINITY) {
        hint = best;
    }
    let ghost tt0 = tt@;
    let s = scan_all_moves(
        rules,
        board,
        depth,
        0,
        -INFINITY,
        INFINITY,
        false,
        tt,
        &mut history,
        hint,
    );
    proof {
        board.lemma_cells_len();
        lemma_scan_all_best::<R, T>(
            rules,
            p,
            depth,
            0,
            INFINITY,
            false,
            game_history@,
            hint,
            scan_start((-INFINITY) as i32, tt0),
        );
    }
    if s.stuck {
        return None;
    }
    if let Some(m) = s.best_move {
        tt.record(key, depth, 0, s.alpha, Bound::Exact, Some(m));
        return Some(m);
    }
    let legal = get_legal_moves(rules, board);
    assert(legal@.contains(legal@[0]));
    Some(legal[0])
}

/// A best move found by a scan is one of the moves looked at, and safe.
proof fn lemma_scan_best<R: Rules, T: ScoreTable>(
    rules: &R,
    p: Position,
    moves: Seq<Move>,
    quiet: bool,
    depth: u8,
    ply: u8,
    beta: i32,
    stop: bool,
    history: Seq<HistoryEntry>,
    start: Scan<T::V>,
    n: int,
)
    requires
        0 <= n <= moves.len(),
    ensures
        ({
            let s = scan::<R, T>(rules, p, moves, quiet, depth, ply, beta, stop, history, start, n);
            s.best_move is Some && s.best_move != start.best_move ==> {
                &&& moves.contains(s.best_move->0)
                &&& p.is_safe(s.best_move->0)
            }
        }),
    decreases n,
{
    if n > 0 {
        lemma_scan_best::<R, T>(
            rules,
            p,
            moves,
            quiet,
            depth,
            ply,
            beta,
            stop,
            history,
            start,
            n - 1,
        );
        assert(moves.contains(moves[n - 1]));
    }
}

proof fn lemma_scan_all_best<R: Rules, T: ScoreTable>(
    rules: &R,
    p: Position,
    depth: u8,
    ply: u8,
    beta: i32,
    stop: bool,
    history: Seq<HistoryEntry>,
    hint: Option<Move>,
    start: Scan<T::V>,
)
    requires
        start.best_move is None,
    ensures
        scan_all::<R, T>(
            rules,
            p,
            depth,
            ply,
            beta,
            stop,
            history,
            hint,
            start,
        ).best_move matches Some(m) ==> legal_moves_spec(rules, p).contains(m),
{
    let c = rules.captures_spec(p);
    let q = rules.quiets_spec(p);
    let captures = hint_first(rank_captures(rules, p, c), hint);
    let quiets = hint_first(q, hint);
    let s1 = scan::<R, T>(
        rules,
        p,
        captures,
        false,
        depth,
        ply,
        beta,
        stop,
        history,
        start,
        captures.len() as int,
    );
    lemma_scan_best::<R, T>(
        rules,
        p,
        captures,
        false,
        depth,
        ply,
        beta,
        stop,
        history,
        start,
        captures.len() as int,
    );
    lemma_scan_best::<R, T>(
        rules,
        p,
        quiets,
        true,
        depth,
        ply,
        beta,
        stop,
        history,
        s1,
        quiets.len() as int,
    );
    lemma_rank_captures_same(rules, p, c);
    lemma_hint_first_same(rank_captures(rules, p, c), hint);
    lemma_hint_first_same(q, hint);
    let s = scan_all::<R, T>(rules, p, depth, ply, beta, stop, history, hint, start);
    if let Some(m) = s.best_move {
        let all = pseudo_legal(rules, p);
        if captures.contains(m) {
            assert(rank_captures(rules, p, c).contains(m));
            assert(c.contains(m));
            assert(all[c.index_of(m)] == m);
        } else {
            assert(quiets.contains(m));
            assert(q.contains(m));
            assert(all[c.len() + q.index_of(m)] == m);
        }
        let safe = |x: Move| p.is_safe(x);
        let k = all.index_of(m);
        all.lemma_filter_contains(safe, k);
    }
}

/// The search answers only with legal moves.
pub proof fn law_the_search_answers_a_legal_move<R: Rules, T: ScoreTable>(
    rules: &R,
    p: Position,
    depth: u8,
    tt: T::V,
    history: Seq<HistoryEntry>,
)
    requires
        legal_moves_spec(rules, p).len() > 0,
    ensures
        search_spec::<R, T>(rules, p, depth, tt, history).0 matches Some(m)
            ==> legal_moves_spec(rules, p).contains(m),
{
    let floor = (-INFINITY) as i32;
    let probed = T::probe_spec(tt, rules.hash_spec(p), depth, 0, floor, INFINITY);
    let hint = if probed is Some {
        (probed->0).1
    } else {
        None
    };
    lemma_scan_all_best::<R, T>(
        rules,
        p,
        depth,
        0,
        INFINITY,
        false,
        history,
        hint,
        scan_start(floor, tt),
    );
    assert(legal_moves_spec(rules, p).contains(legal_moves_spec(rules, p)[0]));
}

} // verus!
