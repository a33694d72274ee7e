//! Moves packed into sixteen bits.
//!
//! A board square is named in two ways. The *0x88 index* spreads the board over
//! rows of sixteen (`row * 16 + col`); the *dense index* packs it into rows of
//! nine (`row * 9 + col`, at most 89), which fits in seven bits. A [`Move`] holds
//! the dense `from` index in bits 0 to 6, the dense `to` index in bits 7 to 13 and
//! the capture flag in bit 14.

use vstd::prelude::*;

verus! {

/// The 0x88 index `sq` lies on the board: ten rows of nine columns.
pub open spec fn on_board(sq: int) -> bool {
    &&& 0 <= sq
    &&& sq % 16 <= 8
    &&& sq / 16 <= 9
}

/// The dense index of a 0x88 index.
pub open spec fn dense_of(sq: int) -> int {
    (sq / 16) * 9 + sq % 16
}

/// The 0x88 index of a dense index.
pub open spec fn square_of_dense(dense: int) -> int {
    (dense / 9) * 16 + dense % 9
}

/// A single move.
#[derive(Copy, Clone, PartialEq, Eq, Structural)]
pub struct Move(pub u16);

/// The packed form of a move, as a number.
pub open spec fn packed(from: usize, to: usize, is_capture: bool) -> u16 {
    ((dense_of(to as int) as u16) << 7u16) | (dense_of(from as int) as u16) | (if is_capture {
        0x4000u16
    } else {
        0u16
    })
}

impl Move {
    /// The 0x88 index that the move leaves.
    pub open spec fn from_spec(self) -> int {
        square_of_dense((self.0 & 0x7F) as int)
    }

    /// The 0x88 index that the move reaches.
    pub open spec fn to_spec(self) -> int {
        square_of_dense(((self.0 >> 7u16) & 0x7F) as int)
    }

    /// The capture flag.
    pub open spec fn capture_spec(self) -> bool {
        self.0 & 0x4000 != 0
    }

    /// A packed move has the squares and the flag that were packed.
    pub proof fn lemma_packed(from: usize, to: usize, is_capture: bool)
        requires
            on_board(from as int),
            on_board(to as int),
        ensures
            Move(packed(from, to, is_capture)).from_spec() == from,
            Move(packed(from, to, is_capture)).to_spec() == to,
            Move(packed(from, to, is_capture)).capture_spec() == is_capture,
    {
        lemma_unpack(dense_of(from as int) as u16, dense_of(to as int) as u16, is_capture);
        lemma_dense_round_trip(from as int);
        lemma_dense_round_trip(to as int);
    }

    /// Creates a new move from two 0x88 board indices and a capture flag.
    pub fn new(from_0x88: usize, to_0x88: usize, is_capture: bool) -> (m: Self)
        ensures
            m.0 == packed(from_0x88, to_0x88, is_capture),
            on_board(from_0x88 as int) && on_board(to_0x88 as int) ==> {
                &&& m.from_spec() == from_0x88
                &&& m.to_spec() == to_0x88
                &&& m.capture_spec() == is_capture
            },
    {
        let from_dense: u16 = Self::to_dense(from_0x88) as u16;
        let to_dense: u16 = Self::to_dense(to_0x88) as u16;
        let capture_bit: u16 = if is_capture { 0x4000 } else { 0 };
        let m = Self((to_dense << 7u16) | from_dense | capture_bit);
        proof {
            if on_board(from_0x88 as int) && on_board(to_0x88 as int) {
                Self::lemma_packed(from_0x88, to_0x88, is_capture);
            }
        }
        m
    }

    /// Converts a 0x88 index to a dense index.
    pub fn to_dense(sq: usize) -> (dense: usize)
        ensures
            dense == dense_of(sq as int),
            dense <= sq,
    {
        (sq / 16) * 9 + (sq % 16)
    }

    /// Converts a dense index back to a 0x88 index.
    pub fn from_dense(dense: usize) -> (sq: usize)
        requires
            square_of_dense(dense as int) <= usize::MAX,
        ensures
            sq == square_of_dense(dense as int),
    {
        (dense / 9) * 16 + (dense % 9)
    }

    /// Gets the original 0x88 `from` square.
    pub fn from_sq(&self) -> (sq: usize)
        ensures
            sq == self.from_spec(),
            sq < 256,
    {
        let raw: u16 = self.0;
        assert(raw & 0x7F <= 127) by (bit_vector);
        let bits: u16 = raw & 0x7F;
        Self::from_dense(bits as usize)
    }

    /// Gets the original 0x88 `to` square.
    pub fn to_sq(&self) -> (sq: usize)
        ensures
            sq == self.to_spec(),
            sq < 256,
    {
        let raw: u16 = self.0;
        assert((raw >> 7u16) & 0x7F <= 127) by (bit_vector);
        let bits: u16 = (raw >> 7u16) & 0x7F;
        Self::from_dense(bits as usize)
    }

    /// Returns whether this move is a capture.
    pub fn is_capture(&self) -> (capture: bool)
        ensures
            capture == self.capture_spec(),
    {
        (self.0 & 0x4000) != 0
    }
}

/// The three fields of a packed move do not disturb one another.
proof fn lemma_unpack(from_dense: u16, to_dense: u16, is_capture: bool)
    requires
        from_dense < 128,
        to_dense < 128,
    ensures
        ({
            let bits = (to_dense << 7u16) | from_dense | (if is_capture {
                0x4000u16
            } else {
                0u16
            });
            &&& bits & 0x7F == from_dense
            &&& (bits >> 7u16) & 0x7F == to_dense
            &&& (bits & 0x4000 != 0) == is_capture
        }),
{
    let flag: u16 = if is_capture {
        0x4000
    } else {
        0
    };
    let bits = (to_dense << 7u16) | from_dense | flag;
    assert(bits & 0x7F == from_dense && (bits >> 7u16) & 0x7F == to_dense && bits & 0x4000 == flag)
        by (bit_vector)
        requires
            from_dense < 128,
            to_dense < 128,
            flag == 0x4000 || flag == 0,
            bits == (to_dense << 7u16) | from_dense | flag,
    ;
}

/// On the board the two square numberings are inverse to each other.
pub proof fn lemma_dense_round_trip(sq: int)
    requires
        on_board(sq),
    ensures
        0 <= dense_of(sq) < 90,
        square_of_dense(dense_of(sq)) == sq,
{
}

/// Every dense index below ninety names exactly one board square.
pub proof fn lemma_square_round_trip(dense: int)
    requires
        0 <= dense < 90,
    ensures
        on_board(square_of_dense(dense)),
        dense_of(square_of_dense(dense)) == dense,
{
}

} // verus!
