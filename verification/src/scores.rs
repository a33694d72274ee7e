//! What an alpha-beta search asks of its transposition table.

use crate::moves::Move;
use vstd::prelude::*;

verus! {

/// What a recorded score says about the true one.
#[derive(Copy, Clone, Debug, PartialEq, Eq, Structural)]
pub enum Bound {
    /// The true score is at most the recorded one.
    Alpha,
    /// The true score is at least the recorded one.
    Beta,
    Exact,
}

/// A table of searched positions.
pub trait ScoreTable: View + Sized {
    /// What the table `v` answers: nothing, or a score and the best move. The score
    /// `i32::MIN` stands for an entry that has only the move to offer.
    spec fn probe_spec(v: Self::V, key: u64, depth: u8, ply: u8, alpha: i32, beta: i32) -> Option<
        (i32, Option<Move>),
    >;

    /// The table after a score was recorded.
    spec fn record_spec(
        v: Self::V,
        key: u64,
        depth: u8,
        ply: u8,
        score: i32,
        bound: Bound,
        best_move: Option<Move>,
    ) -> Self::V;

    fn probe(&self, key: u64, depth: u8, ply: u8, alpha: i32, beta: i32) -> (found: Option<
        (i32, Option<Move>),
    >)
        ensures
            found == Self::probe_spec(self@, key, depth, ply, alpha, beta),
    ;

    fn record(
        &mut self,
        key: u64,
        depth: u8,
        ply: u8,
        score: i32,
        bound: Bound,
        best_move: Option<Move>,
    )
        ensures
            final(self)@ == Self::record_spec(
                old(self)@,
                key,
                depth,
                ply,
                score,
                bound,
                best_move,
            ),
    ;
}

/// No table: nothing is found, nothing is kept.
pub struct NoScores {}

impl View for NoScores {
    type V = ();

    open spec fn view(&self) -> () {
        ()
    }
}

impl ScoreTable for NoScores {
    open spec fn probe_spec(v: (), key: u64, depth: u8, ply: u8, alpha: i32, beta: i32) -> Option<
        (i32, Option<Move>),
    > {
        None
    }

    open spec fn record_spec(
        v: (),
        key: u64,
        depth: u8,
        ply: u8,
        score: i32,
        bound: Bound,
        best_move: Option<Move>,
    ) -> () {
        ()
    }

    fn probe(&self, key: u64, depth: u8, ply: u8, alpha: i32, beta: i32) -> (found: Option<
        (i32, Option<Move>),
    >) {
        None
    }

    fn record(
        &mut self,
        key: u64,
        depth: u8,
        ply: u8,
        score: i32,
        bound: Bound,
        best_move: Option<Move>,
    ) {
    }
}

/// A searched position.
#[derive(Copy, Clone, PartialEq, Eq, Structural)]
pub struct ScoreEntry {
    pub key: u64,
    pub depth: u8,
    /// The score; a mate is counted from this position.
    pub score: i32,
    pub bound: Bound,
    pub best_move: Option<Move>,
}

/// Scores of at least this size tell of a mate.
pub const MATE_NEAR: i32 = 19000;

pub const MATE_FAR: i32 = 21000;

/// A score found at `ply` as it is kept: the distance to a mate counts from the position.
pub open spec fn kept_score(score: i32, ply: u8) -> i32 {
    if MATE_NEAR <= score <= MATE_FAR {
        (score + ply) as i32
    } else if -MATE_FAR <= score <= -MATE_NEAR {
        (score - ply) as i32
    } else {
        score
    }
}

/// A kept score as it is told at `ply`: the distance to a mate counts from the root.
pub open spec fn told_score(score: i32, ply: u8) -> i32 {
    if MATE_NEAR <= score <= MATE_FAR + 255 {
        (score - ply) as i32
    } else if -MATE_FAR - 255 <= score <= -MATE_NEAR {
        (score + ply) as i32
    } else {
        score
    }
}

/// What is kept at a ply is told unchanged at the same ply.
pub proof fn law_kept_scores_are_told(score: i32, ply: u8)
    requires
        -MATE_FAR <= score <= MATE_FAR,
    ensures
        told_score(kept_score(score, ply), ply) == score,
{
}

/// A table of searched positions, one slot for each residue of the hash; the newest
/// entry takes the slot.
pub struct ScoreCache {
    pub entries: Vec<Option<ScoreEntry>>,
}

impl View for ScoreCache {
    type V = Seq<Option<ScoreEntry>>;

    open spec fn view(&self) -> Seq<Option<ScoreEntry>> {
        self.entries@
    }
}

/// What an entry of the right key answers: its score if it was searched deep enough
/// and settles the window, else only its move.
pub open spec fn answer(entry: ScoreEntry, depth: u8, ply: u8, alpha: i32, beta: i32) -> (
    i32,
    Option<Move>,
) {
    let score = told_score(entry.score, ply);
    let settles = match entry.bound {
        Bound::Exact => true,
        Bound::Alpha => score <= alpha,
        Bound::Beta => score >= beta,
    };
    if entry.depth >= depth && settles {
        (score, entry.best_move)
    } else {
        (i32::MIN, entry.best_move)
    }
}

impl ScoreCache {
    /// An empty table.
    pub fn new(slots: usize) -> (table: ScoreCache)
        ensures
            table@ == Seq::new(slots as nat, |i: int| None::<ScoreEntry>),
    {
        let mut entries: Vec<Option<ScoreEntry>> = Vec::with_capacity(slots);
        let mut i: usize = 0;
        while i < slots
            invariant
                i <= slots,
                entries@ == Seq::new(i as nat, |j: int| None::<ScoreEntry>),
            decreases slots - i,
        {
            entries.push(None);
            i += 1;
            assert(entries@ =~= Seq::new(i as nat, |j: int| None::<ScoreEntry>));
        }
        ScoreCache { entries }
    }
}

impl ScoreTable for ScoreCache {
    open spec fn probe_spec(
        v: Seq<Option<ScoreEntry>>,
        key: u64,
        depth: u8,
        ply: u8,
        alpha: i32,
        beta: i32,
    ) -> Option<(i32, Option<Move>)> {
        if v.len() == 0 {
            None
        } else {
            match v[key as int % v.len() as int] {
                Some(entry) => if entry.key == key {
                    Some(answer(entry, depth, ply, alpha, beta))
                } else {
                    None
                },
                None => None,
            }
        }
    }

    open spec fn record_spec(
        v: Seq<Option<ScoreEntry>>,
        key: u64,
        depth: u8,
        ply: u8,
        score: i32,
        bound: Bound,
        best_move: Option<Move>,
    ) -> Seq<Option<ScoreEntry>> {
        if v.len() == 0 {
            v
        } else {
            v.update(
                key as int % v.len() as int,
                Some(ScoreEntry { key, depth, score: kept_score(score, ply), bound, best_move }),
            )
        }
    }

    fn probe(&self, key: u64, depth: u8, ply: u8, alpha: i32, beta: i32) -> (found: Option<
        (i32, Option<Move>),
    >) {
        if self.entries.len() == 0 {
            return None;
        }
        let slot = (key % self.entries.len() as u64) as usize;
        match self.entries[slot] {
            Some(entry) => if entry.key == key {
                let kept = entry.score;
                let score: i32 = if MATE_NEAR <= kept && kept <= MATE_FAR + 255 {
                    kept - ply as i32
                } else if -MATE_FAR - 255 <= kept && kept <= -MATE_NEAR {
                    kept + ply as i32
                } else {
                    kept
                };
                let settles = match entry.bound {
                    Bound::Exact => true,
                    Bound::Alpha => score <= alpha,
                    Bound::Beta => score >= beta,
                };
                if entry.depth >= depth && settles {
                    Some((score, entry.best_move))
                } else {
                    Some((i32::MIN, entry.best_move))
                }
            } else {
                None
            },
            None => None,
        }
    }

    fn record(
        &mut self,
        key: u64,
        depth: u8,
        ply: u8,
        score: i32,
        bound: Bound,
        best_move: Option<Move>,
    ) {
        if self.entries.len() == 0 {
            return;
        }
        let slot = (key % self.entries.len() as u64) as usize;
        let kept: i32 = if MATE_NEAR <= score && score <= MATE_FAR {
            score + ply as i32
        } else if -MATE_FAR <= score && score <= -MATE_NEAR {
            score - ply as i32
        } else {
            score
        };
        self.entries.set(slot, Some(ScoreEntry { key, depth, score: kept, bound, best_move }));
    }
}

/// A position that was just recorded with an exact score answers with that score, at
/// the same ply and to no greater depth.
pub proof fn law_an_exact_score_is_found_again(
    v: Seq<Option<ScoreEntry>>,
    key: u64,
    depth: u8,
    ply: u8,
    score: i32,
    best_move: Option<Move>,
    asked: u8,
    alpha: i32,
    beta: i32,
)
    requires
        v.len() > 0,
        -MATE_FAR <= score <= MATE_FAR,
        asked <= depth,
    ensures
        ScoreCache::probe_spec(
            ScoreCache::record_spec(v, key, depth, ply, score, Bound::Exact, best_move),
            key,
            asked,
            ply,
            alpha,
            beta,
        ) == Some((score, best_move)),
{
    law_kept_scores_are_told(score, ply);
}

/// A mate so many moves away is told at any ply as a mate so many moves away, and all other
/// scores are told as they were found.
pub proof fn law_mates_are_told_from_where_they_are_asked(away: int, found: u8, asked: u8, score: i32)
    requires
        0 <= away <= 700,
        -19000 < score < 19000,
    ensures
        told_score(kept_score((20000 - found - away) as i32, found), asked) == 20000 - asked - away,
        told_score(kept_score((-20000 + found + away) as i32, found), asked) == -20000 + asked
            + away,
        told_score(kept_score(score, found), asked) == score,
{
}

/// The table answers only for the position asked for, tells a score only if it was searched
/// at least as deep and decides the window, and offers the move that goes with it.
pub proof fn law_a_score_is_told_only_where_it_decides(
    v: Seq<Option<ScoreEntry>>,
    key: u64,
    depth: u8,
    ply: u8,
    alpha: i32,
    beta: i32,
)
    requires
        v.len() > 0,
    ensures
        ({
            let found = ScoreCache::probe_spec(v, key, depth, ply, alpha, beta);
            let slot = v[key as int % v.len() as int];
            &&& found is Some <==> slot is Some && (slot->0).key == key
            &&& found is Some ==> (found->0).1 == (slot->0).best_move
            &&& found is Some && (found->0).0 != i32::MIN ==> {
                let score = (found->0).0;
                &&& (slot->0).depth >= depth
                &&& (slot->0).bound == Bound::Alpha ==> score <= alpha
                &&& (slot->0).bound == Bound::Beta ==> score >= beta
            }
        }),
{
}

/// What was recorded is told again at the same ply wherever it decides: an exact score always,
/// a bound where it lies beyond the window; never to a greater depth. Every other position
/// is answered as before, unless it had the same place.
pub proof fn law_a_record_is_told_where_it_decides(
    v: Seq<Option<ScoreEntry>>,
    key: u64,
    depth: u8,
    ply: u8,
    score: i32,
    bound: Bound,
    best_move: Option<Move>,
    asked: u8,
    alpha: i32,
    beta: i32,
    other: u64,
)
    requires
        v.len() > 0,
        -MATE_FAR <= score <= MATE_FAR,
        other != key,
    ensures
        ({
            let w = ScoreCache::record_spec(v, key, depth, ply, score, bound, best_move);
            let found = ScoreCache::probe_spec(w, key, asked, ply, alpha, beta);
            let decides = asked <= depth && (bound == Bound::Alpha ==> score <= alpha) && (bound
                == Bound::Beta ==> score >= beta);
            &&& found == Some(
                (
                    if decides {
                        score
                    } else {
                        i32::MIN
                    },
                    best_move,
                ),
            )
            &&& w.len() == v.len()
            &&& ScoreCache::probe_spec(w, other, asked, ply, alpha, beta) == (if other as int
                % v.len() as int == key as int % v.len() as int {
                None
            } else {
                ScoreCache::probe_spec(v, other, asked, ply, alpha, beta)
            })
        }),
{
    law_kept_scores_are_told(score, ply);
}

} // verus!
