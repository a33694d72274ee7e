//! Hash keys for pieces on squares.

use crate::board::{Board, Color, Piece, PieceType, Position};
use crate::moves::{on_board, Move};
use vstd::prelude::*;

verus! {

/// One key for each of the fourteen kinds of coloured pieces on each square, and one
/// for the side to move.
pub struct Zobrist {
    pub keys: [[u64; 256]; 14],
    pub side: u64,
}

pub const PCG_MULTIPLIER: u64 = 6364136223846793005;

pub const PCG_INCREMENT: u64 = 1442695040888963407;

pub const ZOBRIST_SEED: u64 = 1234567890123456789;

/// The generator's next state: one step of a linear congruential generator.
pub open spec fn pcg_step(state: u64, inc: u64) -> u64 {
    state.wrapping_mul(PCG_MULTIPLIER).wrapping_add(inc | 1)
}

/// The generator's output: a folded part of the state, rotated right by its top five
/// bits.
pub open spec fn pcg_output(state: u64) -> u32 {
    let folded = (((state >> 18u64) ^ state) >> 27u64) as u32;
    let rot = (state >> 59u64) as u32;
    (folded >> rot) | (folded << (((32 - rot) as u32) & 31))
}

/// Draws thirty-two bits.
pub fn pcg32_random_r(state: &mut u64, inc: u64) -> (out: u32)
    ensures
        *final(state) == pcg_step(*old(state), inc),
        out == pcg_output(*old(state)),
{
    let oldstate = *state;
    *state = oldstate.wrapping_mul(PCG_MULTIPLIER).wrapping_add(inc | 1);
    let folded: u32 = (((oldstate >> 18u64) ^ oldstate) >> 27u64) as u32;
    assert((oldstate >> 59u64) < 32) by (bit_vector);
    let rot: u32 = (oldstate >> 59u64) as u32;
    let back: u32 = 32 - rot;
    assert(back & 31 < 32) by (bit_vector);
    (folded >> rot) | (folded << (back & 31))
}

/// Two outputs in a row, the first in the upper half.
pub open spec fn u64_output(state: u64) -> u64 {
    ((pcg_output(state) as u64) << 32u64) | (pcg_output(pcg_step(state, PCG_INCREMENT)) as u64)
}

/// The state after two draws.
pub open spec fn u64_step(state: u64) -> u64 {
    pcg_step(pcg_step(state, PCG_INCREMENT), PCG_INCREMENT)
}

/// Draws sixty-four bits.
pub fn next_u64(state: &mut u64) -> (out: u64)
    ensures
        *final(state) == u64_step(*old(state)),
        out == u64_output(*old(state)),
{
    let v1 = pcg32_random_r(state, PCG_INCREMENT) as u64;
    let v2 = pcg32_random_r(state, PCG_INCREMENT) as u64;
    (v1 << 32u64) | v2
}

/// How the generator goes on: its state is multiplied and an odd number added, modulo the number
/// of states.
pub proof fn law_how_the_generator_goes_on(state: u64, inc: u64)
    ensures
        pcg_step(state, inc) as int == (state * 6364136223846793005 + (inc | 1)) % 18446744073709551616,
{
    let m = state * 6364136223846793005;
    assert(state.wrapping_mul(PCG_MULTIPLIER) as int == m % 18446744073709551616);
}

/// What the generator draws: the thirty-two bits, from the twenty-seventh on, of the exclusive or
/// of the state and the state shifted right by eighteen, turned right by as many as the state's
/// top five bits say; and a longer number has the first draw in its upper half.
pub proof fn law_what_the_generator_draws(state: u64, i: u64)
    requires
        i < 32,
    ensures
        (pcg_output(state) as u64 >> i) & 1 == ((state ^ (state >> 18u64)) >> ((27 + (i + state
            / 576460752303423488) % 32) as u64)) & 1,
        u64_output(state) / 4294967296 == pcg_output(state),
        u64_output(state) % 4294967296 == pcg_output(pcg_step(state, PCG_INCREMENT)),
{
    assert(state / 576460752303423488 == state >> 59u64) by (bit_vector);
    assert((pcg_output(state) as u64 >> i) & 1 == ((state ^ (state >> 18u64)) >> ((27 + (i + (state
        >> 59u64)) % 32) as u64)) & 1) by (bit_vector)
        requires
            i < 32,
    ;
    let upper = pcg_output(state);
    let lower = pcg_output(pcg_step(state, PCG_INCREMENT));
    assert((((upper as u64) << 32u64) | (lower as u64)) / 4294967296 == upper) by (bit_vector);
    assert((((upper as u64) << 32u64) | (lower as u64)) % 4294967296 == lower) by (bit_vector);
}

/// The state after `k` draws of sixty-four bits from the seed.
pub open spec fn seeded_state(k: int) -> u64
    decreases k,
{
    if k <= 0 {
        ZOBRIST_SEED
    } else {
        u64_step(seeded_state(k - 1))
    }
}

/// The draw number `k`, counted from 0.
pub open spec fn seeded_draw(k: int) -> u64 {
    u64_output(seeded_state(k))
}

/// The row of a piece in the key table.
pub open spec fn piece_index_spec(piece: Piece) -> int {
    let kind = match piece.piece_type {
        PieceType::King => 0int,
        PieceType::Advisor => 1,
        PieceType::Elephant => 2,
        PieceType::Horse => 3,
        PieceType::Rook => 4,
        PieceType::Cannon => 5,
        PieceType::Pawn => 6,
    };
    if piece.color == Color::Red {
        kind
    } else {
        kind + 7
    }
}

pub fn piece_index(piece: Piece) -> (index: usize)
    ensures
        index == piece_index_spec(piece),
        index < 14,
{
    let kind: usize = match piece.piece_type {
        PieceType::King => 0,
        PieceType::Advisor => 1,
        PieceType::Elephant => 2,
        PieceType::Horse => 3,
        PieceType::Rook => 4,
        PieceType::Cannon => 5,
        PieceType::Pawn => 6,
    };
    if piece.color == Color::Red {
        kind
    } else {
        kind + 7
    }
}

impl Zobrist {
    /// The table is the one drawn from the seed, row by row, the side's key last.
    pub open spec fn wf(&self) -> bool {
        &&& forall|i: int, j: int|
            0 <= i < 14 && 0 <= j < 256 ==> #[trigger] self.keys@[i]@[j] == seeded_draw(i * 256 + j)
        &&& self.side == seeded_draw(3584)
    }

    pub fn new() -> (z: Zobrist)
        ensures
            z.wf(),
    {
        let mut state: u64 = ZOBRIST_SEED;
        let mut keys: [[u64; 256]; 14] = [[0; 256]; 14];
        let mut i: usize = 0;
        while i < 14
            invariant
                i <= 14,
                state == seeded_state(i * 256),
                forall|a: int, j: int|
                    0 <= a < i && 0 <= j < 256 ==> #[trigger] keys@[a]@[j] == seeded_draw(
                        a * 256 + j,
                    ),
            decreases 14 - i,
        {
            let mut row: [u64; 256] = [0; 256];
            let mut j: usize = 0;
            while j < 256
                invariant
                    i < 14,
                    j <= 256,
                    state == seeded_state(i * 256 + j),
                    forall|b: int| 0 <= b < j ==> #[trigger] row@[b] == seeded_draw(i * 256 + b),
                decreases 256 - j,
            {
                row[j] = next_u64(&mut state);
                j += 1;
            }
            keys[i] = row;
            i += 1;
        }
        let side = next_u64(&mut state);
        Zobrist { keys, side }
    }

    /// The exclusive or of the keys of all pieces on the first `n` indices.
    pub open spec fn cells_hash(&self, p: Position, n: int) -> u64
        decreases n,
    {
        if n <= 0 {
            0
        } else {
            let rest = self.cells_hash(p, n - 1);
            match p.piece_at(n - 1) {
                Some(piece) => rest ^ self.keys@[piece_index_spec(piece)]@[n - 1],
                None => rest,
            }
        }
    }

    /// The hash of a position: all its pieces, and the side's key if black is to move.
    pub open spec fn hash_spec(&self, p: Position) -> u64 {
        if p.side_to_move == Color::Black {
            self.cells_hash(p, 256) ^ self.side
        } else {
            self.cells_hash(p, 256)
        }
    }

    /// Computes the hash of a board.
    pub fn hash(&self, board: &Board) -> (hash: u64)
        ensures
            hash == self.hash_spec(board@),
    {
        let mut hash: u64 = 0;
        let mut sq: usize = 0;
        while sq < 256
            invariant
                sq <= 256,
                hash == self.cells_hash(board@, sq as int),
            decreases 256 - sq,
        {
            if let Some(piece) = board.piece_at(sq) {
                hash = hash ^ self.keys[piece_index(piece)][sq];
            }
            sq += 1;
        }
        if board.side_to_move == Color::Black {
            hash = hash ^ self.side;
        }
        hash
    }
}

impl Zobrist {
    /// The key of what stands on a square; an empty square has none.
    pub open spec fn cell_key(&self, cell: Option<Piece>, sq: int) -> u64 {
        match cell {
            Some(piece) => self.keys@[piece_index_spec(piece)]@[sq],
            None => 0,
        }
    }

    proof fn lemma_cells_hash(&self, p: Position, n: int)
        requires
            n > 0,
        ensures
            self.cells_hash(p, n) == self.cells_hash(p, n - 1) ^ self.cell_key(
                p.piece_at(n - 1),
                n - 1,
            ),
    {
        let rest = self.cells_hash(p, n - 1);
        assert(rest ^ 0 == rest) by (bit_vector);
    }

    /// Only the cells matter.
    proof fn lemma_same_cells(&self, p: Position, q: Position, n: int)
        requires
            forall|sq: int| on_board(sq) ==> #[trigger] p.piece_at(sq) == q.piece_at(sq),
        ensures
            self.cells_hash(p, n) == self.cells_hash(q, n),
        decreases n,
    {
        if n > 0 {
            self.lemma_same_cells(p, q, n - 1);
            assert(p.piece_at(n - 1) == q.piece_at(n - 1));
        }
    }

    /// The hash is a function of the squares and the side to move alone: positions that
    /// agree in these have one hash, however they came about.
    pub proof fn law_the_hash_is_of_squares_and_side(&self, p: Position, q: Position)
        requires
            forall|sq: int| on_board(sq) ==> #[trigger] p.piece_at(sq) == q.piece_at(sq),
            p.side_to_move == q.side_to_move,
        ensures
            self.hash_spec(p) == self.hash_spec(q),
    {
        self.lemma_same_cells(p, q, 256);
    }

    /// What a change on one square does to the hash.
    proof fn lemma_one_cell(&self, p: Position, sq: int, new: Option<Piece>, n: int)
        requires
            p.cells.len() == 256,
            on_board(sq),
            0 <= n <= 256,
        ensures
            self.cells_hash(p.with_piece(sq, new), n) == (if sq < n {
                self.cells_hash(p, n) ^ self.cell_key(p.piece_at(sq), sq) ^ self.cell_key(new, sq)
            } else {
                self.cells_hash(p, n)
            }),
        decreases n,
    {
        if n > 0 {
            let q = p.with_piece(sq, new);
            self.lemma_one_cell(p, sq, new, n - 1);
            self.lemma_cells_hash(p, n);
            self.lemma_cells_hash(q, n);
            let rest = self.cells_hash(p, n - 1);
            let old_key = self.cell_key(p.piece_at(sq), sq);
            let new_key = self.cell_key(new, sq);
            let here = self.cell_key(p.piece_at(n - 1), n - 1);
            if sq == n - 1 {
                assert(rest ^ new_key == (rest ^ old_key) ^ old_key ^ new_key) by (bit_vector);
            } else if sq < n - 1 {
                assert((rest ^ old_key ^ new_key) ^ here == (rest ^ here) ^ old_key ^ new_key)
                    by (bit_vector);
            }
        }
    }

    /// A step changes the hash by four keys: the piece leaves its square and reaches the
    /// other, what stood there goes, and the turn passes.
    pub proof fn law_hash_follows_the_moves(&self, p: Position, m: Move)
        requires
            p.cells.len() == 256,
            p.is_step(m),
        ensures
            ({
                let piece = p.piece_at(m.from_spec());
                self.hash_spec(p.after_move(m)) == self.hash_spec(p) ^ self.cell_key(
                    piece,
                    m.from_spec(),
                ) ^ self.cell_key(p.piece_at(m.to_spec()), m.to_spec()) ^ self.cell_key(
                    piece,
                    m.to_spec(),
                ) ^ self.side
            }),
    {
        reveal(Position::after_move);
        let from = m.from_spec();
        let to = m.to_spec();
        let piece = p.piece_at(from);
        let landed = p.with_piece(to, piece);
        let moved = landed.with_piece(from, None);
        self.lemma_one_cell(p, to, piece, 256);
        self.lemma_one_cell(landed, from, None, 256);
        self.lemma_same_cells(p.after_move(m), moved, 256);
        let h = self.cells_hash(p, 256);
        let taken = self.cell_key(p.piece_at(to), to);
        let lands = self.cell_key(piece, to);
        let leaves = self.cell_key(piece, from);
        let side = self.side;
        assert(landed.piece_at(from) == piece);
        assert((h ^ taken ^ lands) ^ leaves ^ 0 == h ^ leaves ^ taken ^ lands) by (bit_vector);
        assert((h ^ side) ^ leaves ^ taken ^ lands ^ side == h ^ leaves ^ taken ^ lands)
            by (bit_vector);
    }
}

/// A piece put on an empty square changes the hash by the key of its kind, its colour and the
/// square, and the turn changes it by the key of the side.
pub proof fn law_every_piece_and_the_turn_have_their_keys(
    z: &Zobrist,
    p: Position,
    sq: int,
    piece: Piece,
)
    requires
        p.cells.len() == 256,
        on_board(sq),
        p.cells[sq] is None,
    ensures
        ({
            let placed = Position { cells: p.cells.update(sq, Some(piece)), ..p };
            let kind = match piece.piece_type {
                PieceType::King => 0int,
                PieceType::Advisor => 1,
                PieceType::Elephant => 2,
                PieceType::Horse => 3,
                PieceType::Rook => 4,
                PieceType::Cannon => 5,
                PieceType::Pawn => 6,
            };
            let row = if piece.color == Color::Red {
                kind
            } else {
                kind + 7
            };
            z.hash_spec(placed) == z.hash_spec(p) ^ z.keys@[row]@[sq]
        }),
        z.hash_spec(Position { side_to_move: Color::Black, ..p }) == z.hash_spec(
            Position { side_to_move: Color::Red, ..p },
        ) ^ z.side,
        (forall|x: int| on_board(x) ==> #[trigger] p.cells[x] is None) && p.side_to_move
            == Color::Red ==> z.hash_spec(p) == 0,
{
    let placed = p.with_piece(sq, Some(piece));
    z.lemma_one_cell(p, sq, Some(piece), 256);
    let h = z.cells_hash(p, 256);
    let key = z.cell_key(Some(piece), sq);
    let side = z.side;
    assert(h ^ 0 ^ key == h ^ key) by (bit_vector);
    assert((h ^ key) ^ side == (h ^ side) ^ key) by (bit_vector);
    let red = Position { side_to_move: Color::Red, ..p };
    let black = Position { side_to_move: Color::Black, ..p };
    z.lemma_same_cells(red, black, 256);
    if forall|x: int| on_board(x) ==> #[trigger] p.cells[x] is None {
        lemma_nothing_hashes_to_nothing(z, p, 256);
    }
}

proof fn lemma_nothing_hashes_to_nothing(z: &Zobrist, p: Position, n: int)
    requires
        forall|x: int| on_board(x) ==> #[trigger] p.cells[x] is None,
    ensures
        z.cells_hash(p, n) == 0,
    decreases n,
{
    if n > 0 {
        lemma_nothing_hashes_to_nothing(z, p, n - 1);
    }
}

} // verus!
