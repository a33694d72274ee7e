//! The rules of Xiangqi.

use crate::board::{Board, Color, PieceType, Position};
use crate::minimax::{hints_only, prune_is_sound};
use crate::movement::can_go;
use crate::moves::{
    dense_of, lemma_dense_round_trip, lemma_square_round_trip, on_board, packed, square_of_dense,
    Move,
};
use crate::nn::action_of;
use crate::rules::{HistoryEntry, RepetitionResult, Rules};
use crate::scores::NoScores;
use crate::zobrist::Zobrist;
use vstd::prelude::*;

verus! {

/// The rules of Xiangqi, with the key table for hashing.
pub struct Xiangqi {
    pub zobrist: Zobrist,
}

// ---------------------------------------------------------------------------
// Move generation
// ---------------------------------------------------------------------------
/// The side to move may play its piece on `from` to `to`: as a capture, or onto an
/// empty square.
pub open spec fn pseudo_move(p: Position, from: int, to: int, capture: bool) -> bool {
    &&& p.piece_at(from) matches Some(piece)
    &&& piece.color == p.side_to_move
    &&& if capture {
        p.may_capture(from, to)
    } else {
        p.may_go(from, to)
    }
}

/// The moves from one square to the first `n` squares in dense order.
pub open spec fn moves_from(p: Position, from: int, capture: bool, n: int) -> Seq<Move>
    decreases n,
{
    if n <= 0 {
        Seq::empty()
    } else {
        let rest = moves_from(p, from, capture, n - 1);
        let to = square_of_dense(n - 1);
        if pseudo_move(p, from, to, capture) {
            rest.push(Move(packed(from as usize, to as usize, capture)))
        } else {
            rest
        }
    }
}

/// The moves from the first `n` squares in dense order.
pub open spec fn generated(p: Position, capture: bool, n: int) -> Seq<Move>
    decreases n,
{
    if n <= 0 {
        Seq::empty()
    } else {
        generated(p, capture, n - 1) + moves_from(p, square_of_dense(n - 1), capture, 90)
    }
}

/// Only a piece of the side to move moves.
proof fn lemma_no_moves_from(p: Position, from: int, capture: bool, n: int)
    requires
        forall|to: int| !pseudo_move(p, from, to, capture),
    ensures
        moves_from(p, from, capture, n) == Seq::<Move>::empty(),
    decreases n,
{
    if n > 0 {
        lemma_no_moves_from(p, from, capture, n - 1);
    }
}

/// Generates the pseudo-legal captures, or the pseudo-legal quiet moves.
fn generate(board: &Board, capture: bool) -> (moves: Vec<Move>)
    ensures
        moves@ == generated(board@, capture, 90),
{
    let mut moves: Vec<Move> = Vec::new();
    let screens: usize = if capture {
        1
    } else {
        0
    };
    let mut f: usize = 0;
    while f < 90
        invariant
            f <= 90,
            screens == (if capture {
                1usize
            } else {
                0usize
            }),
            moves@ == generated(board@, capture, f as int),
        decreases 90 - f,
    {
        let from = Move::from_dense(f);
        let ghost before = moves@;
        match board.piece_at(from) {
            Some(piece) if piece.color == board.side_to_move => {
                let mut t: usize = 0;
                assert(before + Seq::<Move>::empty() =~= before);
                while t < 90
                    invariant
                        t <= 90,
                        from == square_of_dense(f as int),
                        screens == (if capture {
                            1usize
                        } else {
                            0usize
                        }),
                        board@.piece_at(from as int) == Some(piece),
                        piece.color == board@.side_to_move,
                        moves@ == before + moves_from(board@, from as int, capture, t as int),
                    decreases 90 - t,
                {
                    let to = Move::from_dense(t);
                    let fits = match board.piece_at(to) {
                        Some(victim) => capture && victim.color != piece.color,
                        None => !capture,
                    };
                    if fits && can_go(board, from, to, screens) {
                        assert(pseudo_move(board@, from as int, to as int, capture));
                        moves.push(Move::new(from, to, capture));
                    }
                    t += 1;
                    assert(moves@ =~= before + moves_from(board@, from as int, capture, t as int));
                }
            },
            _ => {
                proof {
                    lemma_no_moves_from(board@, from as int, capture, 90);
                }
                assert(before + Seq::<Move>::empty() =~= before);
            },
        }
        f += 1;
    }
    moves
}

/// What the moves from one square are.
proof fn lemma_moves_from(p: Position, from: int, capture: bool, n: int)
    requires
        p.cells.len() == 256,
        on_board(from),
        0 <= n <= 90,
    ensures
        forall|i: int|
            0 <= i < moves_from(p, from, capture, n).len() ==> {
                let m = #[trigger] moves_from(p, from, capture, n)[i];
                &&& m.from_spec() == from
                &&& on_board(m.to_spec())
                &&& pseudo_move(p, from, m.to_spec(), capture)
                &&& m.0 == packed(from as usize, m.to_spec() as usize, capture)
            },
        forall|d: int|
            0 <= d < n && pseudo_move(p, from, #[trigger] square_of_dense(d), capture)
                ==> moves_from(p, from, capture, n).contains(
                Move(packed(from as usize, square_of_dense(d) as usize, capture)),
            ),
    decreases n,
{
    if n > 0 {
        lemma_moves_from(p, from, capture, n - 1);
        let to = square_of_dense(n - 1);
        lemma_square_round_trip(n - 1);
        let rest = moves_from(p, from, capture, n - 1);
        let all = moves_from(p, from, capture, n);
        if pseudo_move(p, from, to, capture) {
            let m = Move(packed(from as usize, to as usize, capture));
            Move::lemma_packed(from as usize, to as usize, capture);
            assert(all == rest.push(m));
            assert(all[rest.len() as int] == m);
            assert forall|d: int|
                0 <= d < n && pseudo_move(p, from, #[trigger] square_of_dense(d), capture) implies all.contains(
                Move(packed(from as usize, square_of_dense(d) as usize, capture)),
            ) by {
                let x = Move(packed(from as usize, square_of_dense(d) as usize, capture));
                if d < n - 1 {
                    assert(rest.contains(x));
                    assert(all[rest.index_of(x)] == x);
                }
            }
        }
    }
}

/// Every generated move is a move of the side to move that the rules allow, under the
/// capture flag asked for.
pub proof fn law_generated_moves_are_pseudo_legal(p: Position, capture: bool, n: int)
    requires
        p.cells.len() == 256,
        0 <= n <= 90,
    ensures
        forall|i: int|
            0 <= i < generated(p, capture, n).len() ==> {
                let m = #[trigger] generated(p, capture, n)[i];
                &&& on_board(m.from_spec())
                &&& on_board(m.to_spec())
                &&& pseudo_move(p, m.from_spec(), m.to_spec(), capture)
                &&& m.0 == packed(m.from_spec() as usize, m.to_spec() as usize, capture)
            },
    decreases n,
{
    if n > 0 {
        law_generated_moves_are_pseudo_legal(p, capture, n - 1);
        let from = square_of_dense(n - 1);
        lemma_square_round_trip(n - 1);
        lemma_moves_from(p, from, capture, 90);
        let rest = generated(p, capture, n - 1);
        let here = moves_from(p, from, capture, 90);
        assert forall|i: int| 0 <= i < generated(p, capture, n).len() implies {
            let m = #[trigger] generated(p, capture, n)[i];
            &&& on_board(m.from_spec())
            &&& on_board(m.to_spec())
            &&& pseudo_move(p, m.from_spec(), m.to_spec(), capture)
            &&& m.0 == packed(m.from_spec() as usize, m.to_spec() as usize, capture)
        } by {
            if i < rest.len() {
                assert(generated(p, capture, n)[i] == rest[i]);
            } else {
                assert(generated(p, capture, n)[i] == here[i - rest.len()]);
            }
        }
    }
}

/// Every move of the side to move that the rules allow is generated.
pub proof fn law_every_pseudo_legal_move_is_generated(
    p: Position,
    from: int,
    to: int,
    capture: bool,
)
    requires
        p.cells.len() == 256,
        on_board(from),
        on_board(to),
        pseudo_move(p, from, to, capture),
    ensures
        generated(p, capture, 90).contains(Move(packed(from as usize, to as usize, capture))),
{
    lemma_generated_contains(p, from, to, capture, 90);
}

proof fn lemma_generated_contains(p: Position, from: int, to: int, capture: bool, n: int)
    requires
        p.cells.len() == 256,
        on_board(from),
        on_board(to),
        pseudo_move(p, from, to, capture),
        dense_of(from) < n <= 90,
    ensures
        generated(p, capture, n).contains(Move(packed(from as usize, to as usize, capture))),
    decreases n,
{
    let m = Move(packed(from as usize, to as usize, capture));
    let rest = generated(p, capture, n - 1);
    let here = moves_from(p, square_of_dense(n - 1), capture, 90);
    let d = dense_of(from);
    lemma_dense_round_trip(from);
    lemma_dense_round_trip(to);
    if d == n - 1 {
        lemma_moves_from(p, from, capture, 90);
        assert(pseudo_move(p, from, square_of_dense(dense_of(to)), capture));
        assert(here.contains(m));
        assert((rest + here)[rest.len() + here.index_of(m)] == m);
    } else {
        lemma_generated_contains(p, from, to, capture, n - 1);
        assert((rest + here)[rest.index_of(m)] == m);
    }
}

/// The action index of a move.
spec fn action(m: Move) -> int {
    action_of(m.from_spec(), m.to_spec())
}

proof fn lemma_moves_from_rise(p: Position, from: int, capture: bool, n: int)
    requires
        p.cells.len() == 256,
        on_board(from),
        0 <= n <= 90,
    ensures
        forall|i: int|
            0 <= i < moves_from(p, from, capture, n).len() ==> dense_of(from) * 90 <= action(
                #[trigger] moves_from(p, from, capture, n)[i],
            ) < dense_of(from) * 90 + n,
        forall|i: int, j: int|
            0 <= i < j < moves_from(p, from, capture, n).len() ==> action(
                #[trigger] moves_from(p, from, capture, n)[i],
            ) < action(#[trigger] moves_from(p, from, capture, n)[j]),
    decreases n,
{
    if n > 0 {
        lemma_moves_from_rise(p, from, capture, n - 1);
        let to = square_of_dense(n - 1);
        lemma_square_round_trip(n - 1);
        Move::lemma_packed(from as usize, to as usize, capture);
        let m = Move(packed(from as usize, to as usize, capture));
        assert(action(m) == dense_of(from) * 90 + (n - 1));
        let rest = moves_from(p, from, capture, n - 1);
        let all = moves_from(p, from, capture, n);
        assert forall|i: int| 0 <= i < all.len() implies dense_of(from) * 90 <= action(
            #[trigger] all[i],
        ) < dense_of(from) * 90 + n by {
            if i < rest.len() {
                assert(all[i] == rest[i]);
            }
        }
        assert forall|i: int, j: int| 0 <= i < j < all.len() implies action(#[trigger] all[i])
            < action(#[trigger] all[j]) by {
            assert(all[i] == rest[i]);
            if j < rest.len() {
                assert(all[j] == rest[j]);
            }
        }
    }
}

proof fn lemma_generated_rise(p: Position, capture: bool, n: int)
    requires
        p.cells.len() == 256,
        0 <= n <= 90,
    ensures
        forall|i: int|
            0 <= i < generated(p, capture, n).len() ==> action(
                #[trigger] generated(p, capture, n)[i],
            ) < n * 90,
        forall|i: int, j: int|
            0 <= i < j < generated(p, capture, n).len() ==> action(
                #[trigger] generated(p, capture, n)[i],
            ) < action(#[trigger] generated(p, capture, n)[j]),
    decreases n,
{
    if n > 0 {
        let from = square_of_dense(n - 1);
        lemma_square_round_trip(n - 1);
        lemma_generated_rise(p, capture, n - 1);
        lemma_moves_from_rise(p, from, capture, 90);
        let rest = generated(p, capture, n - 1);
        let here = moves_from(p, from, capture, 90);
        let all = generated(p, capture, n);
        assert forall|i: int| 0 <= i < all.len() implies action(#[trigger] all[i]) < n * 90 by {
            if i < rest.len() {
                assert(all[i] == rest[i]);
            } else {
                assert(all[i] == here[i - rest.len()]);
            }
        }
        assert forall|i: int, j: int| 0 <= i < j < all.len() implies action(#[trigger] all[i])
            < action(#[trigger] all[j]) by {
            if j < rest.len() {
                assert(all[i] == rest[i] && all[j] == rest[j]);
            } else if i >= rest.len() {
                assert(all[i] == here[i - rest.len()] && all[j] == here[j - rest.len()]);
            } else {
                assert(all[i] == rest[i] && all[j] == here[j - rest.len()]);
            }
        }
    }
}

/// Moves are generated in the order of their action indices; none is generated twice.
pub proof fn law_generated_moves_are_in_order(p: Position, capture: bool)
    requires
        p.cells.len() == 256,
    ensures
        forall|i: int, j: int|
            0 <= i < j < generated(p, capture, 90).len() ==> {
                let a = #[trigger] generated(p, capture, 90)[i];
                let b = #[trigger] generated(p, capture, 90)[j];
                action_of(a.from_spec(), a.to_spec()) < action_of(b.from_spec(), b.to_spec())
            },
        generated(p, capture, 90).no_duplicates(),
{
    lemma_generated_rise(p, capture, 90);
    let all = generated(p, capture, 90);
    assert forall|i: int, j: int| 0 <= i < j < all.len() implies {
        let a = #[trigger] all[i];
        let b = #[trigger] all[j];
        action_of(a.from_spec(), a.to_spec()) < action_of(b.from_spec(), b.to_spec())
    } by {
        assert(action(all[i]) < action(all[j]));
    }
    assert forall|i: int, j: int| 0 <= i < all.len() && 0 <= j < all.len() && i != j implies all[i]
        != all[j] by {
        if i < j {
            assert(action(all[i]) < action(all[j]));
        } else {
            assert(action(all[j]) < action(all[i]));
        }
    }
}

// ---------------------------------------------------------------------------
// Values and threats
// ---------------------------------------------------------------------------
pub open spec fn piece_value_spec(piece_type: PieceType) -> i32 {
    match piece_type {
        PieceType::King => 10000,
        PieceType::Advisor => 200,
        PieceType::Elephant => 200,
        PieceType::Horse => 400,
        PieceType::Rook => 900,
        PieceType::Cannon => 450,
        PieceType::Pawn => 100,
    }
}

/// What a piece is worth.
pub fn piece_value(piece_type: PieceType) -> (value: i32)
    ensures
        value == piece_value_spec(piece_type),
{
    match piece_type {
        PieceType::King => 10000,
        PieceType::Advisor => 200,
        PieceType::Elephant => 200,
        PieceType::Horse => 400,
        PieceType::Rook => 900,
        PieceType::Cannon => 450,
        PieceType::Pawn => 100,
    }
}

/// The material of `side` less the other side's, on the first `n` squares in dense order.
pub open spec fn material(p: Position, side: Color, n: int) -> int
    decreases n,
{
    if n <= 0 {
        0
    } else {
        material(p, side, n - 1) + match p.piece_at(square_of_dense(n - 1)) {
            None => 0int,
            Some(piece) => if piece.color == side {
                piece_value_spec(piece.piece_type) as int
            } else {
                -piece_value_spec(piece.piece_type) as int
            },
        }
    }
}

/// A piece of that colour stands on the square.
pub open spec fn has_color(p: Position, sq: int, color: Color) -> bool {
    p.piece_at(sq) matches Some(piece) && piece.color == color
}

/// A piece of that colour attacks (or protects) the square.
pub open spec fn guarded(p: Position, sq: int, color: Color) -> bool {
    exists|d: int|
        0 <= d < 90 && #[trigger] has_color(p, square_of_dense(d), color) && p.attacks(
            square_of_dense(d),
            sq,
        )
}

/// A piece of the other side, not its king, that `side` attacks and nothing protects.
pub open spec fn hangs(p: Position, sq: int, side: Color) -> bool {
    &&& p.piece_at(sq) matches Some(victim)
    &&& victim.color != side
    &&& victim.piece_type != PieceType::King
    &&& guarded(p, sq, side)
    &&& !guarded(p, sq, victim.color)
}

/// The hanging pieces on the first `n` squares, one bit for each dense index.
pub open spec fn hanging(p: Position, side: Color, n: int) -> u128
    decreases n,
{
    if n <= 0 {
        0
    } else if hangs(p, square_of_dense(n - 1), side) {
        hanging(p, side, n - 1) | (1u128 << ((n - 1) as u128))
    } else {
        hanging(p, side, n - 1)
    }
}

fn is_guarded(board: &Board, sq: usize, color: Color) -> (found: bool)
    ensures
        found == guarded(board@, sq as int, color),
{
    let mut d: usize = 0;
    while d < 90
        invariant
            d <= 90,
            forall|e: int|
                0 <= e < d && #[trigger] has_color(board@, square_of_dense(e), color)
                    ==> !board@.attacks(square_of_dense(e), sq as int),
        decreases 90 - d,
    {
        let from = Move::from_dense(d);
        if let Some(piece) = board.piece_at(from) {
            if piece.color == color && can_go(board, from, sq, 1) {
                assert(has_color(board@, square_of_dense(d as int), color));
                return true;
            }
        }
        d += 1;
    }
    false
}

// ---------------------------------------------------------------------------
// Repetition
// ---------------------------------------------------------------------------
/// Where the position `hash` stood for the `times`-th time before the entry `i`,
/// counted backwards. Nothing recurs across a move that cannot be taken back.
pub open spec fn earlier(history: Seq<HistoryEntry>, hash: u64, i: int, times: int) -> Option<int>
    decreases i,
{
    if i <= 0 || !history[i].is_reversible {
        None
    } else if history[i - 1].hash != hash {
        earlier(history, hash, i - 1, times)
    } else if times <= 1 {
        Some(i - 1)
    } else {
        earlier(history, hash, i - 1, times - 1)
    }
}

/// The entry `k` was made by the side that moved last.
pub open spec fn by_last_mover(history: Seq<HistoryEntry>, k: int) -> bool {
    (history.len() - 1 - k) % 2 == 0
}

/// Every move of one side since the entry `start` gave check.
pub open spec fn checks_throughout(history: Seq<HistoryEntry>, start: int, last_mover: bool) -> bool {
    forall|k: int|
        start < k < history.len() && by_last_mover(history, k) == last_mover ==> (
        #[trigger] history[k]).is_check
}

/// Every move of one side since the entry `start` threatened a piece anew.
pub open spec fn chases_throughout(history: Seq<HistoryEntry>, start: int, last_mover: bool) -> bool {
    forall|k: int|
        start < k < history.len() && by_last_mover(history, k) == last_mover ==> (
        #[trigger] history[k]).chased_set != 0
}

/// Who has to give way, for the side to move: the one that alone checks throughout
/// loses, or else the one that alone chases throughout.
pub open spec fn judgement(
    own_checks: bool,
    other_checks: bool,
    own_chases: bool,
    other_chases: bool,
) -> RepetitionResult {
    if own_checks != other_checks {
        if own_checks {
            RepetitionResult::Loss
        } else {
            RepetitionResult::Win
        }
    } else if own_checks {
        RepetitionResult::Draw
    } else if own_chases != other_chases {
        if own_chases {
            RepetitionResult::Loss
        } else {
            RepetitionResult::Win
        }
    } else {
        RepetitionResult::Draw
    }
}

/// The judgement on the position with that hash, reached by the last entry.
pub open spec fn judged(hash: u64, history: Seq<HistoryEntry>, times: int) -> RepetitionResult {
    match earlier(history, hash, history.len() - 1, times) {
        None => RepetitionResult::Undecided,
        Some(start) => judgement(
            checks_throughout(history, start, false),
            checks_throughout(history, start, true),
            chases_throughout(history, start, false),
            chases_throughout(history, start, true),
        ),
    }
}

/// Looks for an earlier occurrence and judges the moves since.
fn judge(hash: u64, history: &Vec<HistoryEntry>, times: usize) -> (result: RepetitionResult)
    ensures
        result == judged(hash, history@, times as int),
{
    let len = history.len();
    if len == 0 {
        return RepetitionResult::Undecided;
    }
    let mut i: usize = len - 1;
    let mut left: usize = times;
    let mut own_checks = true;
    let mut other_checks = true;
    let mut own_chases = true;
    let mut other_chases = true;
    let mut last_mover = true;
    while i > 0 && history[i].is_reversible
        invariant
            i < len,
            len == history@.len(),
            last_mover == by_last_mover(history@, i as int),
            own_checks == checks_throughout(history@, i as int, false),
            other_checks == checks_throughout(history@, i as int, true),
            own_chases == chases_throughout(history@, i as int, false),
            other_chases == chases_throughout(history@, i as int, true),
            earlier(history@, hash, len - 1, times as int) == earlier(
                history@,
                hash,
                i as int,
                left as int,
            ),
        decreases i,
    {
        let entry = history[i];
        if last_mover {
            other_checks = other_checks && entry.is_check;
            other_chases = other_chases && entry.chased_set != 0;
        } else {
            own_checks = own_checks && entry.is_check;
            own_chases = own_chases && entry.chased_set != 0;
        }
        last_mover = !last_mover;
        i -= 1;
        proof {
            lemma_one_more(history@, i as int);
        }
        if history[i].hash == hash {
            if left <= 1 {
                if own_checks != other_checks {
                    return if own_checks {
                        RepetitionResult::Loss
                    } else {
                        RepetitionResult::Win
                    };
                }
                if !own_checks && own_chases != other_chases {
                    return if own_chases {
                        RepetitionResult::Loss
                    } else {
                        RepetitionResult::Win
                    };
                }
                return RepetitionResult::Draw;
            }
            left -= 1;
        }
    }
    RepetitionResult::Undecided
}

/// One entry more to be looked at.
proof fn lemma_one_more(history: Seq<HistoryEntry>, i: int)
    requires
        0 <= i < history.len() - 1,
    ensures
        by_last_mover(history, i) == !by_last_mover(history, i + 1),
        forall|last_mover: bool| #[trigger]
            checks_throughout(history, i, last_mover) == (checks_throughout(
                history,
                i + 1,
                last_mover,
            ) && (by_last_mover(history, i + 1) == last_mover ==> history[i + 1].is_check)),
        forall|last_mover: bool| #[trigger]
            chases_throughout(history, i, last_mover) == (chases_throughout(
                history,
                i + 1,
                last_mover,
            ) && (by_last_mover(history, i + 1) == last_mover ==> history[i + 1].chased_set != 0)),
{
}

impl Xiangqi {
    pub fn new() -> (rules: Xiangqi)
        ensures
            rules.zobrist.wf(),
    {
        Xiangqi { zobrist: Zobrist::new() }
    }
}

impl Rules for Xiangqi {
    open spec fn captures_spec(&self, p: Position) -> Seq<Move> {
        generated(p, true, 90)
    }

    open spec fn quiets_spec(&self, p: Position) -> Seq<Move> {
        generated(p, false, 90)
    }

    open spec fn value_spec(&self, piece_type: PieceType) -> i32 {
        piece_value_spec(piece_type)
    }

    /// The material balance.
    open spec fn evaluate_spec(&self, p: Position) -> i32 {
        material(p, p.side_to_move, 90) as i32
    }

    open spec fn threats_spec(&self, p: Position, side: Color) -> u128 {
        hanging(p, side, 90)
    }

    open spec fn repetition_spec(
        &self,
        p: Position,
        history: Seq<HistoryEntry>,
        times: usize,
    ) -> RepetitionResult {
        judged(self.zobrist.hash_spec(p), history, times as int)
    }

    /// A draw is at hand, or better, and is enough against `beta`.
    open spec fn prune_spec(&self, p: Position, history: Seq<HistoryEntry>, beta: i32) -> bool {
        let result = judged(self.zobrist.hash_spec(p), history, 1);
        beta <= 0 && (result == RepetitionResult::Draw || result == RepetitionResult::Win)
    }

    open spec fn hash_spec(&self, p: Position) -> u64 {
        self.zobrist.hash_spec(p)
    }

    proof fn captures_are_captures(&self, p: Position) {
        law_generated_moves_are_pseudo_legal(p, true, 90);
    }

    proof fn quiets_are_quiet(&self, p: Position) {
        law_generated_moves_are_pseudo_legal(p, false, 90);
    }

    fn generate_captures(&self, board: &Board) -> (moves: Vec<Move>) {
        generate(board, true)
    }

    fn generate_quiets(&self, board: &Board) -> (moves: Vec<Move>) {
        generate(board, false)
    }

    fn value(&self, piece_type: PieceType) -> (value: i32) {
        piece_value(piece_type)
    }

    fn evaluate(&self, board: &Board) -> (score: i32) {
        let mut score: i32 = 0;
        let mut d: usize = 0;
        while d < 90
            invariant
                d <= 90,
                score == material(board@, board@.side_to_move, d as int),
                -10000 * d <= score <= 10000 * d,
            decreases 90 - d,
        {
            if let Some(piece) = board.piece_at(Move::from_dense(d)) {
                if piece.color == board.side_to_move {
                    score += piece_value(piece.piece_type);
                } else {
                    score -= piece_value(piece.piece_type);
                }
            }
            d += 1;
        }
        score
    }

    fn get_unprotected_threats(&self, board: &Board, side: Color) -> (threats: u128) {
        let mut threats: u128 = 0;
        let mut d: usize = 0;
        while d < 90
            invariant
                d <= 90,
                threats == hanging(board@, side, d as int),
            decreases 90 - d,
        {
            let sq = Move::from_dense(d);
            if let Some(victim) = board.piece_at(sq) {
                if victim.color != side && victim.piece_type != PieceType::King && is_guarded(
                    board,
                    sq,
                    side,
                ) && !is_guarded(board, sq, victim.color) {
                    threats = threats | (1u128 << (d as u128));
                }
            }
            d += 1;
        }
        threats
    }

    fn judge_repetition(&self, board: &Board, history: &Vec<HistoryEntry>, times: usize) -> (result:
        RepetitionResult) {
        judge(self.zobrist.hash(board), history, times)
    }

    fn judge_prune(&self, board: &Board, history: &Vec<HistoryEntry>, beta: i32) -> (prune: bool) {
        beta <= 0 && match judge(self.zobrist.hash(board), history, 1) {
            RepetitionResult::Draw | RepetitionResult::Win => true,
            _ => false,
        }
    }

    fn zobrist_key(&self, board: &Board) -> (key: u64) {
        self.zobrist.hash(board)
    }
}

/// No line is pruned whose minimax value falls short of a draw.
pub proof fn law_pruning_is_sound(rules: &Xiangqi)
    ensures
        prune_is_sound(rules),
{
}

/// A table that keeps nothing offers no scores.
pub proof fn law_no_table_offers_no_scores()
    ensures
        hints_only::<NoScores>(),
{
}

} // verus!
