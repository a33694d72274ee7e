//! What the searches ask of the game: pseudo-legal moves, an evaluation, a hash, and
//! a judgement on repeated positions. Everything in this crate that plays or
//! searches is written, and verified, against [`Rules`]; the standard rules of
//! Xiangqi implement it in [`crate::xiangqi`].

use crate::board::{
    horse_jumps, initial_piece, initial_position, law_unmake_undoes_make, line_square, square_at, Board,
    Color, PieceType, Position, UndoInfo,
};
use crate::moves::{on_board, Move};
use vstd::prelude::*;

verus! {

/// What is remembered of a played move for judging repetitions.
#[derive(Copy, Clone, Debug, PartialEq, Eq, Structural)]
pub struct HistoryEntry {
    /// The hash of the position that the move led to.
    pub hash: u64,
    /// The move gave check.
    pub is_check: bool,
    /// The unprotected enemy pieces that the move newly threatens, as a set of squares.
    pub chased_set: u128,
    /// The move can be taken back by later moves.
    pub is_reversible: bool,
}

/// The judgement on a line of play, for the side to move.
#[derive(Copy, Clone, Debug, PartialEq, Eq, Structural)]
pub enum RepetitionResult {
    Win,
    Loss,
    Draw,
    Undecided,
}

/// The largest value that a piece can have.
pub const MAX_PIECE_VALUE: i32 = 10_000_000;

impl Position {
    /// The move takes a piece of the side to move to another square of the board.
    pub open spec fn is_step(self, m: Move) -> bool {
        &&& self.piece_at(m.from_spec()) matches Some(piece)
        &&& piece.color == self.side_to_move
        &&& on_board(m.to_spec())
        &&& m.from_spec() != m.to_spec()
    }

    /// A step onto a piece of the other side.
    pub open spec fn is_capture_step(self, m: Move) -> bool {
        &&& self.is_step(m)
        &&& self.piece_at(m.to_spec()) matches Some(victim)
        &&& victim.color != self.side_to_move
    }

    /// A step onto an empty square.
    pub open spec fn is_quiet_step(self, m: Move) -> bool {
        &&& self.is_step(m)
        &&& self.is_empty(m.to_spec())
    }

    /// The move leaves its own king neither attacked nor facing the other king.
    #[verifier::opaque]
    pub open spec fn is_safe(self, m: Move) -> bool {
        let next = self.after_move(m);
        !next.kings_facing() && !next.in_check(self.side_to_move)
    }

    /// A step after which the own king stands neither attacked nor facing the other.
    pub open spec fn is_safe_step(self, m: Move) -> bool {
        self.is_step(m) && self.is_safe(m)
    }

    /// The number of occupied cells among the first `n`.
    pub open spec fn occupied(self, n: int) -> nat
        decreases n,
    {
        if n <= 0 {
            0
        } else {
            self.occupied(n - 1) + (if self.cells[n - 1] is Some {
                1nat
            } else {
                0nat
            })
        }
    }

    /// The number of pieces.
    #[verifier::opaque]
    pub open spec fn pieces(self) -> nat {
        self.occupied(256)
    }

    proof fn lemma_occupied_after_capture(self, m: Move, n: int)
        requires
            self.cells.len() == 256,
            self.is_capture_step(m),
            0 <= n <= 256,
        ensures
            self.after_move(m).occupied(n) == self.occupied(n) - (if m.from_spec() < n {
                1int
            } else {
                0int
            }),
        decreases n,
    {
        reveal(Position::after_move);
        if n > 0 {
            self.lemma_occupied_after_capture(m, n - 1);
        }
    }

    /// A capture takes exactly one piece off the board.
    pub proof fn law_capture_removes_a_piece(self, m: Move)
        requires
            self.cells.len() == 256,
            self.is_capture_step(m),
        ensures
            self.after_move(m).pieces() + 1 == self.pieces(),
    {
        reveal(Position::pieces);
        self.lemma_occupied_after_capture(m, 256);
    }

    /// What every step keeps and changes: the array's size, and whose turn it is.
    pub proof fn lemma_step_keeps(self, m: Move)
        requires
            self.cells.len() == 256,
            self.is_step(m),
        ensures
            self.after_move(m).cells.len() == 256,
            self.after_move(m).side_to_move == self.side_to_move.opposite_spec(),
    {
        reveal(Position::after_move);
    }
}

/// How many pieces stand in a row at the start.
spec fn start_count(row: int) -> nat {
    if row == 0 || row == 9 {
        9
    } else if row == 2 || row == 7 {
        2
    } else if row == 3 || row == 6 {
        5
    } else {
        0
    }
}

/// The pieces of one row.
proof fn lemma_start_row_count(row: int)
    requires
        0 <= row < 16,
    ensures
        initial_position().occupied(16 * row + 16) == initial_position().occupied(16 * row)
            + start_count(row),
{
    let p = initial_position();
    reveal_with_fuel(Position::occupied, 17);
    assert forall|col: int| 0 <= col < 16 implies #[trigger] p.cells[16 * row + col]
        == initial_piece(row, col) by {
        let sq = 16 * row + col;
        assert(sq / 16 == row && sq % 16 == col);
    }
    assert(p.cells[16 * row + 0] == initial_piece(row, 0));
    assert(p.cells[16 * row + 1] == initial_piece(row, 1));
    assert(p.cells[16 * row + 2] == initial_piece(row, 2));
    assert(p.cells[16 * row + 3] == initial_piece(row, 3));
    assert(p.cells[16 * row + 4] == initial_piece(row, 4));
    assert(p.cells[16 * row + 5] == initial_piece(row, 5));
    assert(p.cells[16 * row + 6] == initial_piece(row, 6));
    assert(p.cells[16 * row + 7] == initial_piece(row, 7));
    assert(p.cells[16 * row + 8] == initial_piece(row, 8));
    assert(p.cells[16 * row + 9] == initial_piece(row, 9));
    assert(p.cells[16 * row + 10] == initial_piece(row, 10));
    assert(p.cells[16 * row + 11] == initial_piece(row, 11));
    assert(p.cells[16 * row + 12] == initial_piece(row, 12));
    assert(p.cells[16 * row + 13] == initial_piece(row, 13));
    assert(p.cells[16 * row + 14] == initial_piece(row, 14));
    assert(p.cells[16 * row + 15] == initial_piece(row, 15));
}

/// No line from a king at the start leads to a rook or a cannon of the other side.
proof fn lemma_start_lines(color: Color, dir: int)
    requires
        dir == 1 || dir == -1 || dir == 16 || dir == -16,
    ensures
        !initial_position().line_attacked(
            initial_position().king_square(color),
            dir,
            color.opposite_spec(),
        ),
{
    let p = initial_position();
    let sq = p.king_square(color);
    let opp = color.opposite_spec();
    assert forall|k: int| k >= 1 implies !p.line_hit(sq, dir, opp, k) by {
        if p.line_hit(sq, dir, opp, k) {
            let at = line_square(sq, dir, k);
            assert(on_board(at));
            assert(p.cells[at] == initial_piece(at / 16, at % 16));
            if dir == 16 {
                assert(at == sq + 16 * k);
            } else if dir == -16 {
                assert(at == sq - 16 * k);
            } else if dir == 1 {
                assert(at == sq + k);
                if k >= 5 {
                    assert(on_board(line_square(sq, dir, 5)));
                }
            } else {
                assert(at == sq - k);
                if k >= 5 {
                    assert(on_board(line_square(sq, dir, 5)));
                }
            }
        }
    }
}

/// No horse and no pawn is near a king at the start.
proof fn lemma_start_neighbours(color: Color)
    ensures
        ({
            let p = initial_position();
            let sq = p.king_square(color);
            let opp = color.opposite_spec();
            &&& forall|i: int| 0 <= i < 8 ==> !p.horse_hit(sq, opp, i)
            &&& !p.pawn_attacked(sq, opp)
        }),
{
    let p = initial_position();
    let sq = p.king_square(color);
    let opp = color.opposite_spec();
    assert forall|i: int| 0 <= i < 8 implies !p.horse_hit(sq, opp, i) by {
        let horse = sq - horse_jumps()[i];
        assert(-33 <= horse_jumps()[i] <= 33);
        if on_board(horse) {
            assert(p.cells[horse] == initial_piece(horse / 16, horse % 16));
        }
    }
}

/// At the start there are thirty-two pieces, the kings do not face each other, and neither
/// is in check.
pub proof fn law_the_start_is_quiet()
    ensures
        initial_position().pieces() == 32,
        !initial_position().kings_facing(),
        !initial_position().in_check(Color::Red),
        !initial_position().in_check(Color::Black),
{
    let p = initial_position();
    reveal(Position::pieces);
    lemma_start_row_count(0);
    lemma_start_row_count(1);
    lemma_start_row_count(2);
    lemma_start_row_count(3);
    lemma_start_row_count(4);
    lemma_start_row_count(5);
    lemma_start_row_count(6);
    lemma_start_row_count(7);
    lemma_start_row_count(8);
    lemma_start_row_count(9);
    lemma_start_row_count(10);
    lemma_start_row_count(11);
    lemma_start_row_count(12);
    lemma_start_row_count(13);
    lemma_start_row_count(14);
    lemma_start_row_count(15);
    assert(!p.is_empty(square_at(3, 4)));
    lemma_start_lines(Color::Red, 1);
    lemma_start_lines(Color::Red, -1);
    lemma_start_lines(Color::Red, 16);
    lemma_start_lines(Color::Red, -16);
    lemma_start_lines(Color::Black, 1);
    lemma_start_lines(Color::Black, -1);
    lemma_start_lines(Color::Black, 16);
    lemma_start_lines(Color::Black, -16);
    lemma_start_neighbours(Color::Red);
    lemma_start_neighbours(Color::Black);
}

/// The rules of a game on the board.
pub trait Rules: Sized {
    /// The pseudo-legal captures of the side to move, in the order of generation.
    spec fn captures_spec(&self, p: Position) -> Seq<Move>;

    /// The pseudo-legal moves of the side to move onto empty squares.
    spec fn quiets_spec(&self, p: Position) -> Seq<Move>;

    spec fn value_spec(&self, piece_type: PieceType) -> i32;

    /// The static score of a position for the side to move.
    spec fn evaluate_spec(&self, p: Position) -> i32;

    /// The squares of unprotected enemy pieces that `side` threatens.
    spec fn threats_spec(&self, p: Position, side: Color) -> u128;

    /// The judgement on the position reached, after `times` earlier occurrences.
    spec fn repetition_spec(
        &self,
        p: Position,
        history: Seq<HistoryEntry>,
        times: usize,
    ) -> RepetitionResult;

    /// The line need not be searched: a draw is at hand and is enough against `beta`.
    spec fn prune_spec(&self, p: Position, history: Seq<HistoryEntry>, beta: i32) -> bool;

    spec fn hash_spec(&self, p: Position) -> u64;

    proof fn captures_are_captures(&self, p: Position)
        requires
            p.cells.len() == 256,
        ensures
            forall|i: int|
                0 <= i < self.captures_spec(p).len() ==> p.is_capture_step(
                    #[trigger] self.captures_spec(p)[i],
                ),
    ;

    proof fn quiets_are_quiet(&self, p: Position)
        requires
            p.cells.len() == 256,
        ensures
            forall|i: int|
                0 <= i < self.quiets_spec(p).len() ==> p.is_quiet_step(
                    #[trigger] self.quiets_spec(p)[i],
                ),
    ;

    fn generate_captures(&self, board: &Board) -> (moves: Vec<Move>)
        ensures
            moves@ == self.captures_spec(board@),
    ;

    fn generate_quiets(&self, board: &Board) -> (moves: Vec<Move>)
        ensures
            moves@ == self.quiets_spec(board@),
    ;

    fn value(&self, piece_type: PieceType) -> (value: i32)
        ensures
            value == self.value_spec(piece_type),
            0 <= value <= MAX_PIECE_VALUE,
    ;

    fn evaluate(&self, board: &Board) -> (score: i32)
        ensures
            score == self.evaluate_spec(board@),
    ;

    fn get_unprotected_threats(&self, board: &Board, side: Color) -> (threats: u128)
        ensures
            threats == self.threats_spec(board@, side),
    ;

    fn judge_repetition(&self, board: &Board, history: &Vec<HistoryEntry>, times: usize) -> (result:
        RepetitionResult)
        ensures
            result == self.repetition_spec(board@, history@, times),
    ;

    fn judge_prune(&self, board: &Board, history: &Vec<HistoryEntry>, beta: i32) -> (prune: bool)
        ensures
            prune == self.prune_spec(board@, history@, beta),
    ;

    fn zobrist_key(&self, board: &Board) -> (key: u64)
        ensures
            key == self.hash_spec(board@),
    ;
}

/// The pseudo-legal moves, captures first.
pub open spec fn pseudo_legal<R: Rules>(rules: &R, p: Position) -> Seq<Move> {
    rules.captures_spec(p) + rules.quiets_spec(p)
}

/// The legal moves: the pseudo-legal ones that are safe, in the same order.
pub open spec fn legal_moves_spec<R: Rules>(rules: &R, p: Position) -> Seq<Move> {
    pseudo_legal(rules, p).filter(|m: Move| p.is_safe(m))
}

/// Every pseudo-legal move is a step.
pub proof fn lemma_pseudo_legal_steps<R: Rules>(rules: &R, p: Position)
    requires
        p.cells.len() == 256,
    ensures
        forall|i: int|
            0 <= i < pseudo_legal(rules, p).len() ==> p.is_step(
                #[trigger] pseudo_legal(rules, p)[i],
            ),
{
    rules.captures_are_captures(p);
    rules.quiets_are_quiet(p);
    let c = rules.captures_spec(p);
    let q = rules.quiets_spec(p);
    assert forall|i: int| 0 <= i < pseudo_legal(rules, p).len() implies p.is_step(
        #[trigger] pseudo_legal(rules, p)[i],
    ) by {
        if i < c.len() {
            assert(p.is_capture_step(c[i]));
        } else {
            assert(p.is_quiet_step(q[i - c.len()]));
        }
    }
}

/// Every legal move is a safe step.
pub proof fn law_legal_moves_are_safe_steps<R: Rules>(rules: &R, p: Position)
    requires
        p.cells.len() == 256,
    ensures
        forall|i: int|
            0 <= i < legal_moves_spec(rules, p).len() ==> p.is_safe_step(
                #[trigger] legal_moves_spec(rules, p)[i],
            ),
{
    lemma_pseudo_legal_steps(rules, p);
    let all = pseudo_legal(rules, p);
    let legal = legal_moves_spec(rules, p);
    assert forall|i: int| 0 <= i < legal.len() implies p.is_safe_step(#[trigger] legal[i]) by {
        all.lemma_filter_pred(|m: Move| p.is_safe(m), i);
        assert(legal.contains(legal[i]));
        all.lemma_filter_contains_rev(|m: Move| p.is_safe(m), legal[i]);
        assert(all.contains(legal[i]));
        assert(p.is_step(all[all.index_of(legal[i])]));
    }
}

/// Tries a move: makes it, looks at the king, and takes it back.
pub fn is_safe_move(board: &mut Board, m: Move) -> (safe: bool)
    requires
        old(board)@.is_step(m),
    ensures
        final(board)@ == old(board)@,
        safe == old(board)@.is_safe(m),
{
    let moving_side = board.side_to_move;
    proof {
        board.lemma_cells_len();
    }
    let undo = board.make_move(m);
    proof {
        old(board)@.lemma_step_keeps(m);
        law_unmake_undoes_make(old(board)@, m, undo);
    }
    reveal(Position::is_safe);
    let safe = !board.kings_facing() && !board.king_attacked(moving_side);
    board.unmake_move(m, undo);
    safe
}

/// The legal moves of the side to move, captures first.
pub fn get_legal_moves<R: Rules>(rules: &R, board: &mut Board) -> (legal: Vec<Move>)
    ensures
        final(board)@ == old(board)@,
        legal@ == legal_moves_spec(rules, old(board)@),
{
    let mut moves = rules.generate_captures(board);
    let mut quiets = rules.generate_quiets(board);
    moves.append(&mut quiets);
    let ghost p = board@;
    let ghost safe = |m: Move| p.is_safe(m);
    proof {
        board.lemma_cells_len();
        lemma_pseudo_legal_steps(rules, p);
        assert(moves@ =~= pseudo_legal(rules, p));
    }
    let mut legal: Vec<Move> = Vec::new();
    let mut i: usize = 0;
    assert(moves@.take(0).filter(safe) =~= Seq::<Move>::empty()) by {
        reveal_with_fuel(Seq::filter, 1);
    }
    while i < moves.len()
        invariant
            i <= moves@.len(),
            board@ == p,
            safe == (|m: Move| p.is_safe(m)),
            forall|j: int| 0 <= j < moves@.len() ==> p.is_step(#[trigger] moves@[j]),
            legal@ == moves@.take(i as int).filter(safe),
        decreases moves@.len() - i,
    {
        let m = moves[i];
        let ok = is_safe_move(board, m);
        if ok {
            legal.push(m);
        }
        proof {
            let next = moves@.take(i + 1);
            assert(next.drop_last() =~= moves@.take(i as int));
            assert(next.last() == m);
            reveal_with_fuel(Seq::filter, 1);
        }
        i += 1;
    }
    assert(moves@.take(i as int) =~= moves@);
    legal
}

/// The move can be undone by later moves: it captures nothing and is no pawn's step
/// forward.
pub open spec fn reversible(p: Position, m: Move) -> bool {
    &&& p.is_empty(m.to_spec())
    &&& {
        ||| p.piece_at(m.from_spec())->0.piece_type != PieceType::Pawn
        ||| m.from_spec() / 16 == m.to_spec() / 16
    }
}

/// What is remembered of a move played in a game.
#[verifier::opaque]
pub open spec fn entry_of<R: Rules>(
    rules: &R,
    p: Position,
    m: Move,
    is_reversible: bool,
) -> HistoryEntry {
    let next = p.after_move(m);
    let is_check = next.in_check(next.side_to_move);
    HistoryEntry {
        hash: rules.hash_spec(next),
        is_check,
        chased_set: if is_reversible && !is_check {
            rules.threats_spec(next, p.side_to_move) & !rules.threats_spec(p, p.side_to_move)
        } else {
            0
        },
        is_reversible,
    }
}

/// Makes a move and returns what takes it back and what is to be remembered of it, given
/// whether it counts as reversible.
pub fn make_recorded_move<R: Rules>(
    rules: &R,
    board: &mut Board,
    m: Move,
    is_reversible: bool,
) -> (made: (UndoInfo, HistoryEntry))
    requires
        old(board)@.piece_at(m.from_spec()) is Some,
    ensures
        final(board)@ == old(board)@.after_move(m),
        made.0.captured_piece == old(board)@.piece_at(m.to_spec()),
        made.0.previous_red_king_sq == old(board)@.red_king_sq,
        made.0.previous_black_king_sq == old(board)@.black_king_sq,
        made.1 == entry_of(rules, old(board)@, m, is_reversible),
{
    reveal(Position::after_move);
    reveal(entry_of);
    let moving_side = board.side_to_move;
    let pre_threats: u128 = if is_reversible {
        rules.get_unprotected_threats(board, moving_side)
    } else {
        0
    };
    let undo = board.make_move(m);
    let gives_check = board.king_attacked(board.side_to_move);
    let chased_set: u128 = if is_reversible && !gives_check {
        let post_threats: u128 = rules.get_unprotected_threats(board, moving_side);
        post_threats & !pre_threats
    } else {
        0
    };
    let hash = rules.zobrist_key(board);
    (undo, HistoryEntry { hash, is_check: gives_check, chased_set, is_reversible })
}

/// Plays a move in a game and remembers it.
pub fn apply_move_to_game<R: Rules>(
    rules: &R,
    board: &mut Board,
    m: Move,
    history: &mut Vec<HistoryEntry>,
)
    requires
        old(board)@.piece_at(m.from_spec()) is Some,
    ensures
        final(board)@ == old(board)@.after_move(m),
        final(history)@ == old(history)@.push(
            entry_of(rules, old(board)@, m, reversible(old(board)@, m)),
        ),
{
    let is_capture = !board.is_empty(m.to_sq());
    let piece = board.piece_at(m.from_sq()).unwrap();
    let is_reversible = !is_capture && (piece.piece_type != PieceType::Pawn || {
        let (from_row, _) = Board::square_to_coord(m.from_sq());
        let (to_row, _) = Board::square_to_coord(m.to_sq());
        from_row == to_row
    });
    let (_, entry) = make_recorded_move(rules, board, m, is_reversible);
    history.push(entry);
}

} // verus!
