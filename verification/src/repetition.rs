//! What the judgement on repetitions says, entry by entry.

use crate::board::{Color, PieceType, Position};
use crate::moves::{on_board, Move};
use crate::rules::{entry_of, reversible, HistoryEntry, RepetitionResult, Rules};
use crate::xiangqi::{by_last_mover, chases_throughout, checks_throughout, earlier, Xiangqi};
use vstd::prelude::*;

verus! {

/// How many of the entries `from` to `upto` (exclusive) hold the position.
pub open spec fn standings(history: Seq<HistoryEntry>, hash: u64, from: int, upto: int) -> nat
    decreases upto - from,
{
    if upto <= from {
        0
    } else {
        standings(history, hash, from, upto - 1) + (if history[upto - 1].hash == hash {
            1nat
        } else {
            0nat
        })
    }
}

/// The position stood after the entry `start`, has stood `times` times since then, the last
/// entry not counted, and every move since then could be taken back.
pub open spec fn stood_since(
    history: Seq<HistoryEntry>,
    hash: u64,
    start: int,
    last: int,
    times: int,
) -> bool {
    &&& 0 <= start < last
    &&& history[start].hash == hash
    &&& standings(history, hash, start, last) == (if times <= 1 {
        1
    } else {
        times
    })
    &&& forall|k: int| start < k <= last ==> (#[trigger] history[k]).is_reversible
}

/// A position that stands at the first entry is counted.
proof fn lemma_counts_the_first(history: Seq<HistoryEntry>, hash: u64, from: int, upto: int)
    requires
        from < upto,
        history[from].hash == hash,
    ensures
        standings(history, hash, from, upto) >= 1,
    decreases upto - from,
{
    if from < upto - 1 {
        lemma_counts_the_first(history, hash, from, upto - 1);
    }
}

proof fn lemma_earlier(history: Seq<HistoryEntry>, hash: u64, i: int, times: int, start: int)
    requires
        i < history.len(),
    ensures
        earlier(history, hash, i, times) == Some(start) <==> stood_since(
            history,
            hash,
            start,
            i,
            times,
        ),
    decreases i,
{
    if i <= 0 || !history[i].is_reversible {
    } else {
        let hit = history[i - 1].hash == hash;
        let left = if hit && times > 1 {
            times - 1
        } else {
            times
        };
        lemma_earlier(history, hash, i - 1, left, start);
        reveal_with_fuel(standings, 2);
        if 0 <= start < i - 1 && history[start].hash == hash {
            lemma_counts_the_first(history, hash, start, i - 1);
        }
        if stood_since(history, hash, start, i, times) {
            if start < i - 1 {
                assert forall|k: int| start < k <= i - 1 implies (
                #[trigger] history[k]).is_reversible by {}
            }
        }
        if stood_since(history, hash, start, i - 1, left) {
            assert forall|k: int| start < k <= i implies (#[trigger] history[k]).is_reversible by {}
        }
    }
}

/// Where the position has recurred, the side that alone gave check with every move since
/// then loses; where neither did, the side that alone threatened an unprotected piece anew
/// with every move loses; all else is a draw. The moves of the side to move are the second
/// last entry and every second one before it, those of the other side the last one and
/// every second one before it.
pub proof fn law_who_repeats_against_the_rules_loses(
    rules: &Xiangqi,
    p: Position,
    history: Seq<HistoryEntry>,
    times: usize,
    start: int,
)
    requires
        history.len() >= 1,
        stood_since(history, rules.hash_spec(p), start, history.len() - 1, times as int),
    ensures
        ({
            let n = history.len() as int;
            let own_checks = forall|k: int|
                start < k < n && (n - k) % 2 == 0 ==> (#[trigger] history[k]).is_check;
            let other_checks = forall|k: int|
                start < k < n && (n - k) % 2 == 1 ==> (#[trigger] history[k]).is_check;
            let own_chases = forall|k: int|
                start < k < n && (n - k) % 2 == 0 ==> (#[trigger] history[k]).chased_set != 0;
            let other_chases = forall|k: int|
                start < k < n && (n - k) % 2 == 1 ==> (#[trigger] history[k]).chased_set != 0;
            let result = rules.repetition_spec(p, history, times);
            &&& own_checks && !other_checks ==> result == RepetitionResult::Loss
            &&& other_checks && !own_checks ==> result == RepetitionResult::Win
            &&& own_checks && other_checks ==> result == RepetitionResult::Draw
            &&& !own_checks && !other_checks ==> {
                &&& own_chases && !other_chases ==> result == RepetitionResult::Loss
                &&& other_chases && !own_chases ==> result == RepetitionResult::Win
                &&& own_chases == other_chases ==> result == RepetitionResult::Draw
            }
        }),
{
    let n = history.len() as int;
    lemma_earlier(history, rules.hash_spec(p), n - 1, times as int, start);
    let own_checks = forall|k: int|
        start < k < n && (n - k) % 2 == 0 ==> (#[trigger] history[k]).is_check;
    let other_checks = forall|k: int|
        start < k < n && (n - k) % 2 == 1 ==> (#[trigger] history[k]).is_check;
    let own_chases = forall|k: int|
        start < k < n && (n - k) % 2 == 0 ==> (#[trigger] history[k]).chased_set != 0;
    let other_chases = forall|k: int|
        start < k < n && (n - k) % 2 == 1 ==> (#[trigger] history[k]).chased_set != 0;
    assert(forall|k: int| #[trigger] by_last_mover(history, k) == ((n - k) % 2 == 1));
    assert(own_checks == checks_throughout(history, start, false));
    assert(other_checks == checks_throughout(history, start, true));
    assert(own_chases == chases_throughout(history, start, false));
    assert(other_chases == chases_throughout(history, start, true));
}

/// Where the position has not recurred so often since the last move that cannot be taken
/// back, nothing is decided; where it has, something is.
pub proof fn law_only_repetitions_are_judged(
    rules: &Xiangqi,
    p: Position,
    history: Seq<HistoryEntry>,
    times: usize,
)
    ensures
        rules.repetition_spec(p, history, times) != RepetitionResult::Undecided <==> exists|
            start: int,
        | #[trigger]
            stood_since(history, rules.hash_spec(p), start, history.len() - 1, times as int),
{
    let hash = rules.hash_spec(p);
    let found = earlier(history, hash, history.len() - 1, times as int);
    if exists|start: int| #[trigger]
        stood_since(history, hash, start, history.len() - 1, times as int) {
        let start = choose|start: int| #[trigger]
            stood_since(history, hash, start, history.len() - 1, times as int);
        lemma_earlier(history, hash, history.len() - 1, times as int, start);
        law_who_repeats_against_the_rules_loses(rules, p, history, times, start);
    }
    if let Some(start) = found {
        if history.len() > 0 {
            lemma_earlier(history, hash, history.len() - 1, times as int, start);
            assert(stood_since(history, hash, start, history.len() - 1, times as int));
        }
    }
}

/// The two sides are judged alike: with the moves of one side in the place of the other's,
/// a win is a loss and a loss a win. The entries of the two lines of play agree crosswise,
/// in pairs counted from the end.
pub proof fn law_both_sides_are_judged_alike(
    rules: &Xiangqi,
    p: Position,
    q: Position,
    history: Seq<HistoryEntry>,
    crossed: Seq<HistoryEntry>,
    times: usize,
    start: int,
)
    requires
        history.len() >= 1,
        crossed.len() == history.len(),
        stood_since(history, rules.hash_spec(p), start, history.len() - 1, times as int),
        stood_since(crossed, rules.hash_spec(q), start, history.len() - 1, times as int),
        (history.len() - 1 - start) % 2 == 0,
        forall|k: int|
            start < k < history.len() ==> {
                let other = if (history.len() - k) % 2 == 1 {
                    k - 1
                } else {
                    k + 1
                };
                &&& (#[trigger] crossed[k]).is_check == history[other].is_check
                &&& crossed[k].chased_set == history[other].chased_set
            },
    ensures
        rules.repetition_spec(p, history, times) == RepetitionResult::Win
            <==> rules.repetition_spec(q, crossed, times) == RepetitionResult::Loss,
        rules.repetition_spec(p, history, times) == RepetitionResult::Loss
            <==> rules.repetition_spec(q, crossed, times) == RepetitionResult::Win,
{
    let n = history.len() as int;
    law_who_repeats_against_the_rules_loses(rules, p, history, times, start);
    law_who_repeats_against_the_rules_loses(rules, q, crossed, times, start);
    lemma_crossed(history, crossed, start, true);
    lemma_crossed(history, crossed, start, false);
    assert(forall|k: int| #[trigger] by_last_mover(history, k) == ((n - k) % 2 == 1));
    assert(forall|k: int| #[trigger] by_last_mover(crossed, k) == ((n - k) % 2 == 1));
    lemma_earlier(history, rules.hash_spec(p), n - 1, times as int, start);
    lemma_earlier(crossed, rules.hash_spec(q), n - 1, times as int, start);
}

proof fn lemma_crossed(
    history: Seq<HistoryEntry>,
    crossed: Seq<HistoryEntry>,
    start: int,
    last_mover: bool,
)
    requires
        history.len() >= 1,
        crossed.len() == history.len(),
        0 <= start < history.len(),
        (history.len() - 1 - start) % 2 == 0,
        forall|k: int|
            start < k < history.len() ==> {
                let other = if (history.len() - k) % 2 == 1 {
                    k - 1
                } else {
                    k + 1
                };
                &&& (#[trigger] crossed[k]).is_check == history[other].is_check
                &&& crossed[k].chased_set == history[other].chased_set
            },
    ensures
        checks_throughout(crossed, start, last_mover) == checks_throughout(
            history,
            start,
            !last_mover,
        ),
        chases_throughout(crossed, start, last_mover) == chases_throughout(
            history,
            start,
            !last_mover,
        ),
{
    let n = history.len() as int;
    if checks_throughout(history, start, !last_mover) {
        assert forall|k: int| start < k < n && by_last_mover(crossed, k) == last_mover implies (
        #[trigger] crossed[k]).is_check by {
            let other = if (n - k) % 2 == 1 {
                k - 1
            } else {
                k + 1
            };
            assert(history[other].is_check);
        }
    }
    if checks_throughout(crossed, start, last_mover) {
        assert forall|k: int| start < k < n && by_last_mover(history, k) == !last_mover implies (
        #[trigger] history[k]).is_check by {
            let other = if (n - k) % 2 == 1 {
                k - 1
            } else {
                k + 1
            };
            assert(crossed[other].is_check);
        }
    }
    if chases_throughout(history, start, !last_mover) {
        assert forall|k: int| start < k < n && by_last_mover(crossed, k) == last_mover implies (
        #[trigger] crossed[k]).chased_set != 0 by {
            let other = if (n - k) % 2 == 1 {
                k - 1
            } else {
                k + 1
            };
            assert(history[other].chased_set != 0);
        }
    }
    if chases_throughout(crossed, start, last_mover) {
        assert forall|k: int| start < k < n && by_last_mover(history, k) == !last_mover implies (
        #[trigger] history[k]).chased_set != 0 by {
            let other = if (n - k) % 2 == 1 {
                k - 1
            } else {
                k + 1
            };
            assert(crossed[other].chased_set != 0);
        }
    }
}

/// A line is given up for a draw only where a draw is enough, and there whenever the side
/// to move has a draw or better.
pub proof fn law_lines_are_given_up_for_a_draw(
    rules: &Xiangqi,
    p: Position,
    history: Seq<HistoryEntry>,
    beta: i32,
)
    ensures
        beta > 0 ==> !rules.prune_spec(p, history, beta),
        beta <= 0 ==> (rules.prune_spec(p, history, beta) <==> rules.repetition_spec(p, history, 1)
            == RepetitionResult::Draw || rules.repetition_spec(p, history, 1)
            == RepetitionResult::Win),
{
}

/// What is remembered of a move: the position it leads to, whether it attacks the other
/// king, and the pieces it threatens that were not threatened before, if it can be taken
/// back and gives no check.
pub proof fn law_what_is_remembered_of_a_move<R: Rules>(
    rules: &R,
    p: Position,
    m: Move,
    is_reversible: bool,
)
    ensures
        ({
            let entry = entry_of(rules, p, m, is_reversible);
            let next = p.after_move(m);
            let mover = p.side_to_move;
            let other = if mover == Color::Red {
                Color::Black
            } else {
                Color::Red
            };
            &&& entry.hash == rules.hash_spec(next)
            &&& entry.is_check == next.in_check(other)
            &&& entry.is_reversible == is_reversible
            &&& !is_reversible || entry.is_check ==> entry.chased_set == 0
            &&& is_reversible && !entry.is_check ==> entry.chased_set == rules.threats_spec(
                next,
                mover,
            ) & !rules.threats_spec(p, mover)
        }),
{
    reveal(entry_of);
    reveal(Position::after_move);
}

/// A move can be taken back unless it captures or is a pawn's step to another row.
pub proof fn law_what_can_be_taken_back(p: Position, m: Move)
    requires
        on_board(m.from_spec()),
        on_board(m.to_spec()),
        p.cells[m.from_spec()] is Some,
    ensures
        !reversible(p, m) <==> p.cells[m.to_spec()] is Some || (p.cells[m.from_spec()]->0).piece_type
            == PieceType::Pawn && m.from_spec() / 16 != m.to_spec() / 16,
{
}

} // verus!
