//! Batches for training a network.

use crate::bits::{greater, greater_spec};
use crate::board::{Board, Color, PieceType};
use crate::fen::{fen_position, parse_fen};
use crate::mcts::ONE_BITS;
use crate::nn::{
    board_to_tensor, flip_action_index, flipped_action, law_a_flipped_action_has_turned_squares,
    law_a_mirrored_action_has_mirrored_columns, law_a_tensor_shows_every_piece,
    law_flipping_an_action_twice, law_mirroring_an_action_twice, mirror_tensor, mirrored_action,
    mirrored_tensor, tensor_of, ACTION_SPACE,
};
use vstd::prelude::*;

verus! {

/// A position, the bits of its value, and the action index of the move to learn.
pub struct TrainItem {
    pub fen: String,
    pub value: u32,
    pub policy: usize,
}

/// What self-play produces is what training takes.
pub type SelfPlayItem = TrainItem;

/// Items held in memory.
pub struct RAMDataset {
    pub items: Vec<TrainItem>,
}

impl RAMDataset {
    /// The item at an index, if there is one.
    pub fn get(&self, index: usize) -> (item: Option<&TrainItem>)
        ensures
            item == (if index < self.items@.len() {
                Some(&self.items@[index as int])
            } else {
                None
            }),
    {
        if index < self.items.len() {
            Some(&self.items[index])
        } else {
            None
        }
    }

    pub fn len(&self) -> (len: usize)
        ensures
            len == self.items@.len(),
    {
        self.items.len()
    }
}

/// The bits of -1.
pub const MINUS_ONE_BITS: u32 = 0xBF80_0000;

/// The value brought between -1 and 1; what is not a number stays.
pub open spec fn clamped(value: u32) -> u32 {
    if greater_spec(MINUS_ONE_BITS, value) {
        MINUS_ONE_BITS
    } else if greater_spec(value, ONE_BITS) {
        ONE_BITS
    } else {
        value
    }
}

pub fn clamp_value(value: u32) -> (out: u32)
    ensures
        out == clamped(value),
{
    if greater(MINUS_ONE_BITS, value) {
        MINUS_ONE_BITS
    } else if greater(value, ONE_BITS) {
        ONE_BITS
    } else {
        value
    }
}

// ---------------------------------------------------------------------------
// One sample
// ---------------------------------------------------------------------------
/// The tensor to learn from, mirrored if the coin says so.
pub open spec fn sample_tensor(fen: Seq<char>, mirror: bool) -> Seq<u8> {
    let data = tensor_of(fen_position(fen));
    if mirror {
        mirrored_tensor(data)
    } else {
        data
    }
}

/// The action to learn: as the mover sees it, and mirrored with the tensor.
pub open spec fn sample_policy(fen: Seq<char>, policy: int, mirror: bool) -> int {
    let seen = if fen_position(fen).side_to_move == Color::Black {
        flipped_action(policy)
    } else {
        policy
    };
    if mirror {
        mirrored_action(seen)
    } else {
        seen
    }
}

/// A mirrored sample is the sample mirrored, whoever is to move: in its tensor every plane
/// has its columns in reverse, and its action leaves and reaches the same rows and the
/// mirrored columns.
pub proof fn law_a_mirrored_sample_is_the_sample_mirrored(
    fen: Seq<char>,
    policy: int,
    plane: int,
    row: int,
    col: int,
)
    requires
        policy >= 0,
        fen_position(fen).side_to_move == Color::Black ==> policy < 8100,
        0 <= plane < 14,
        0 <= row <= 9,
        0 <= col <= 8,
    ensures
        ({
            let plain = sample_tensor(fen, false);
            let mirrored = sample_tensor(fen, true);
            let a = sample_policy(fen, policy, false);
            let b = sample_policy(fen, policy, true);
            &&& plain.len() == 1260 && mirrored.len() == 1260
            &&& mirrored[90 * plane + 9 * row + col] == plain[90 * plane + 9 * row + (8 - col)]
            &&& b / 90 / 9 == a / 90 / 9
            &&& b / 90 % 9 == 8 - a / 90 % 9
            &&& b % 90 / 9 == a % 90 / 9
            &&& b % 90 % 9 == 8 - a % 90 % 9
        }),
{
    let i = 90 * plane + 9 * row + col;
    assert(i % 9 == col);
    assert(i - i % 9 + (8 - i % 9) == 90 * plane + 9 * row + (8 - col));
    if fen_position(fen).side_to_move == Color::Black {
        law_a_flipped_action_has_turned_squares(policy);
    }
    law_a_mirrored_action_has_mirrored_columns(sample_policy(fen, policy, false));
}

/// A sample is what the mover sees: where red is to move the board and the action are as
/// they stand, and where black is, both are turned round.
pub proof fn law_a_sample_is_what_the_mover_sees(
    fen: Seq<char>,
    policy: int,
    plane: int,
    row: int,
    col: int,
)
    requires
        policy >= 0,
        fen_position(fen).side_to_move == Color::Black ==> policy < 8100,
        0 <= plane < 14,
        0 <= row <= 9,
        0 <= col <= 8,
    ensures
        ({
            let p = fen_position(fen);
            let cell = sample_tensor(fen, false)[90 * plane + 9 * row + col];
            let a = sample_policy(fen, policy, false);
            let there = if p.side_to_move == Color::Red {
                p.cells[16 * row + col]
            } else {
                p.cells[16 * (9 - row) + (8 - col)]
            };
            let kind = seq![
                PieceType::King,
                PieceType::Advisor,
                PieceType::Elephant,
                PieceType::Horse,
                PieceType::Rook,
                PieceType::Cannon,
                PieceType::Pawn,
            ][plane % 7];
            &&& cell == 0 || cell == 1
            &&& cell == 1 <==> there is Some && (there->0).piece_type == kind && ((there->0).color
                == p.side_to_move <==> plane < 7)
            &&& p.side_to_move == Color::Red ==> a == policy
            &&& p.side_to_move == Color::Black ==> {
                &&& 0 <= a < 8100
                &&& a / 90 / 9 == 9 - policy / 90 / 9
                &&& a / 90 % 9 == 8 - policy / 90 % 9
                &&& a % 90 / 9 == 9 - policy % 90 / 9
                &&& a % 90 % 9 == 8 - policy % 90 % 9
            }
        }),
{
    law_a_tensor_shows_every_piece(fen_position(fen), plane, row, col);
    if fen_position(fen).side_to_move == Color::Black {
        law_a_flipped_action_has_turned_squares(policy);
    }
}

/// Clamping brings a number into the range from -1 to 1 and changes nothing inside it. A
/// number is below its sign bit a magnitude that grows with its bits; 1 has the magnitude
/// 0x3F800000, and beyond 0x7F800000 there is no number.
pub proof fn law_values_are_clamped(value: u32)
    ensures
        ({
            let magnitude = value as int % 0x8000_0000;
            let negative = value >= 0x8000_0000;
            &&& magnitude <= 0x3F80_0000 || magnitude > 0x7F80_0000 ==> clamped(value) == value
            &&& 0x3F80_0000 < magnitude <= 0x7F80_0000 && !negative ==> clamped(value)
                == 0x3F80_0000
            &&& 0x3F80_0000 < magnitude <= 0x7F80_0000 && negative ==> clamped(value)
                == 0xBF80_0000
        }),
{
}

/// The item can be made into a sample: its action can be turned round and mirrored where
/// that is needed.
pub open spec fn is_usable(item: TrainItem, mirror: bool) -> bool {
    &&& fen_position(item.fen@).side_to_move == Color::Black ==> item.policy < ACTION_SPACE
    &&& mirror ==> mirrored_action(item.policy as int) <= usize::MAX
}

/// An action of the board can always be made into a sample, and any number where red is to
/// move and nothing is mirrored.
pub proof fn law_actions_of_the_board_are_usable(item: TrainItem, mirror: bool)
    ensures
        item.policy < 8100 ==> is_usable(item, mirror),
        fen_position(item.fen@).side_to_move == Color::Red ==> is_usable(item, false),
        fen_position(item.fen@).side_to_move == Color::Black && item.policy >= 8100 ==> !is_usable(
            item,
            mirror,
        ),
{
    if item.policy < 8100 {
        law_mirroring_an_action_twice(item.policy as int);
    }
}

/// Tests whether an item can be made into a sample.
pub fn check_usable(item: &TrainItem, mirror: bool) -> (usable: bool)
    ensures
        usable == is_usable(*item, mirror),
{
    if mirror {
        let from = item.policy / 90;
        let to = item.policy % 90;
        let new_from = from - from % 9 + (8 - from % 9);
        let new_to = to - to % 9 + (8 - to % 9);
        if new_from as u128 * 90 + new_to as u128 > usize::MAX as u128 {
            return false;
        }
    }
    let mut board = Board::new();
    parse_fen(&mut board, item.fen.as_str());
    board.side_to_move == Color::Red || item.policy < ACTION_SPACE
}

/// The action mirrored left to right.
fn mirror_action(policy: usize) -> (mirrored: usize)
    requires
        mirrored_action(policy as int) <= usize::MAX,
    ensures
        mirrored == mirrored_action(policy as int),
{
    let from = policy / 90;
    let to = policy % 90;
    let new_from = from - from % 9 + (8 - from % 9);
    let new_to = to - to % 9 + (8 - to % 9);
    new_from * 90 + new_to
}

/// Makes an item into a sample.
pub fn make_sample(item: &TrainItem, mirror: bool) -> (sample: ([u8; 1260], usize))
    requires
        is_usable(*item, mirror),
    ensures
        sample.0@ == sample_tensor(item.fen@, mirror),
        sample.1 == sample_policy(item.fen@, item.policy as int, mirror),
{
    let mut board = Board::new();
    parse_fen(&mut board, item.fen.as_str());
    let mut tensor = board_to_tensor(&board);
    let mut policy = item.policy;
    if board.side_to_move == Color::Black {
        policy = flip_action_index(policy);
    }
    if mirror {
        mirror_tensor(&mut tensor);
        proof {
            if board.side_to_move == Color::Black {
                law_flipping_an_action_twice(item.policy as int);
                law_mirroring_an_action_twice(policy as int);
            }
        }
        policy = mirror_action(policy);
    }
    (tensor, policy)
}

// ---------------------------------------------------------------------------
// Batches
// ---------------------------------------------------------------------------
/// Makes items into batches.
#[derive(Copy, Clone, Debug, PartialEq, Eq, Structural)]
pub struct XiangqiBatcher {
    /// Samples may be mirrored.
    pub is_training: bool,
    /// Values are brought between -1 and 1.
    pub clamps: bool,
}

/// A batch: the tensors one behind the other, the bits of the values, the actions.
pub struct TrainingBatch {
    pub inputs: Vec<u8>,
    pub targets_v: Vec<u32>,
    pub targets_p: Vec<i32>,
}

impl XiangqiBatcher {
    pub fn new(is_training: bool, clamps: bool) -> (batcher: Self)
        ensures
            batcher.is_training == is_training,
            batcher.clamps == clamps,
    {
        XiangqiBatcher { is_training, clamps }
    }

    /// Whether the sample is mirrored.
    pub open spec fn mirrors(self, coin: bool) -> bool {
        self.is_training && coin
    }

    pub open spec fn target_value(self, value: u32) -> u32 {
        if self.clamps {
            clamped(value)
        } else {
            value
        }
    }

    /// The tensors of the first `n` items.
    pub open spec fn inputs_upto(
        self,
        items: Seq<TrainItem>,
        coins: Seq<bool>,
        n: int,
    ) -> Seq<u8>
        decreases n,
    {
        if n <= 0 {
            Seq::empty()
        } else {
            self.inputs_upto(items, coins, n - 1) + sample_tensor(
                items[n - 1].fen@,
                self.mirrors(coins[n - 1]),
            )
        }
    }

    /// Makes a batch. `coins` says for each item whether to mirror it. Of an action only
    /// the lower thirty-two bits go into the target.
    pub fn batch(&self, items: &Vec<TrainItem>, coins: &Vec<bool>) -> (batch: TrainingBatch)
        requires
            items@.len() == coins@.len(),
            forall|i: int|
                0 <= i < items@.len() ==> is_usable(#[trigger] items@[i], self.mirrors(coins@[i])),
        ensures
            batch.inputs@ == self.inputs_upto(items@, coins@, items@.len() as int),
            batch.targets_v@ == Seq::new(
                items@.len(),
                |i: int| self.target_value(items@[i].value),
            ),
            batch.targets_p@ == Seq::new(
                items@.len(),
                |i: int|
                    sample_policy(
                        items@[i].fen@,
                        items@[i].policy as int,
                        self.mirrors(coins@[i]),
                    ) as i32,
            ),
    {
        let mut inputs: Vec<u8> = Vec::new();
        let mut targets_v: Vec<u32> = Vec::with_capacity(items.len());
        let mut targets_p: Vec<i32> = Vec::with_capacity(items.len());
        let mut i: usize = 0;
        while i < items.len()
            invariant
                i <= items@.len(),
                items@.len() == coins@.len(),
                forall|j: int|
                    0 <= j < items@.len() ==> is_usable(
                        #[trigger] items@[j],
                        self.mirrors(coins@[j]),
                    ),
                inputs@ == self.inputs_upto(items@, coins@, i as int),
                targets_v@ == Seq::new(i as nat, |j: int| self.target_value(items@[j].value)),
                targets_p@ == Seq::new(
                    i as nat,
                    |j: int|
                        sample_policy(
                            items@[j].fen@,
                            items@[j].policy as int,
                            self.mirrors(coins@[j]),
                        ) as i32,
                ),
            decreases items@.len() - i,
        {
            let item = &items[i];
            assert(is_usable(items@[i as int], self.mirrors(coins@[i as int])));
            let mirror = self.is_training && coins[i];
            let (tensor, policy) = make_sample(item, mirror);
            let ghost before = inputs@;
            let mut k: usize = 0;
            assert(before + tensor@.take(0) =~= before);
            while k < 1260
                invariant
                    k <= 1260,
                    inputs@ == before + tensor@.take(k as int),
                decreases 1260 - k,
            {
                inputs.push(tensor[k]);
                k += 1;
                assert(inputs@ =~= before + tensor@.take(k as int));
            }
            assert(tensor@.take(1260) =~= tensor@);
            let value = if self.clamps {
                clamp_value(item.value)
            } else {
                item.value
            };
            targets_v.push(value);
            targets_p.push(policy as i32);
            i += 1;
            assert(targets_v@ =~= Seq::new(i as nat, |j: int| self.target_value(items@[j].value)));
            assert(targets_p@ =~= Seq::new(
                i as nat,
                |j: int|
                    sample_policy(
                        items@[j].fen@,
                        items@[j].policy as int,
                        self.mirrors(coins@[j]),
                    ) as i32,
            ));
        }
        TrainingBatch { inputs, targets_v, targets_p }
    }
}

/// A batch holds its samples one behind the other, in the order of the items; a sample is
/// mirrored in training where its coin says so, and never otherwise; values are clamped
/// only where the batcher clamps.
pub proof fn law_a_batch_holds_its_samples(
    batcher: XiangqiBatcher,
    items: Seq<TrainItem>,
    coins: Seq<bool>,
    n: int,
    i: int,
    x: int,
)
    requires
        0 <= i < n,
        0 <= x < 1260,
    ensures
        batcher.inputs_upto(items, coins, n).len() == 1260 * n,
        batcher.inputs_upto(items, coins, n)[1260 * i + x] == sample_tensor(
            items[i].fen@,
            batcher.is_training && coins[i],
        )[x],
        batcher.mirrors(coins[i]) == (batcher.is_training && coins[i]),
        batcher.target_value(items[i].value) == (if batcher.clamps {
            clamped(items[i].value)
        } else {
            items[i].value
        }),
    decreases n,
{
    lemma_inputs_len(batcher, items, coins, n - 1);
    lemma_inputs_len(batcher, items, coins, n);
    if i < n - 1 {
        law_a_batch_holds_its_samples(batcher, items, coins, n - 1, i, x);
    }
}

proof fn lemma_inputs_len(
    batcher: XiangqiBatcher,
    items: Seq<TrainItem>,
    coins: Seq<bool>,
    n: int,
)
    requires
        n >= 0,
    ensures
        batcher.inputs_upto(items, coins, n).len() == 1260 * n,
    decreases n,
{
    if n > 0 {
        lemma_inputs_len(batcher, items, coins, n - 1);
    }
}

// ---------------------------------------------------------------------------
// Epochs
// ---------------------------------------------------------------------------
/// The number of batches, the last one perhaps smaller.
pub open spec fn batches(len: int, batch_size: int) -> int {
    (len + batch_size - 1) / batch_size
}

pub fn count_batches(len: usize, batch_size: usize) -> (count: usize)
    requires
        batch_size > 0,
        len + batch_size - 1 <= usize::MAX,
    ensures
        count == batches(len as int, batch_size as int),
{
    (len + (batch_size - 1)) / batch_size
}

/// Where a batch begins and ends.
pub open spec fn span(batch_idx: int, batch_size: int, len: int) -> (int, int) {
    let start = batch_idx * batch_size;
    (
        start,
        if start + batch_size < len {
            start + batch_size
        } else {
            len
        },
    )
}

/// Says where a batch begins and ends.
pub fn batch_range(batch_idx: usize, batch_size: usize, len: usize) -> (range: (usize, usize))
    requires
        batch_idx * batch_size + batch_size <= usize::MAX,
    ensures
        range.0 == batch_idx * batch_size,
        range.1 == (if batch_idx * batch_size + batch_size < len {
            batch_idx * batch_size + batch_size
        } else {
            len as int
        }),
        (range.0 as int, range.1 as int) == span(
            batch_idx as int,
            batch_size as int,
            len as int,
        ),
{
    assert(batch_idx * batch_size <= usize::MAX);
    let start = batch_idx * batch_size;
    let end = start + batch_size;
    if end < len {
        (start, end)
    } else {
        (start, len)
    }
}

/// The index `i` lies in the batch.
pub open spec fn in_batch(i: int, batch_idx: int, batch_size: int, len: int) -> bool {
    &&& batch_idx * batch_size <= i < batch_idx * batch_size + batch_size
    &&& i < len
}

/// Every item lies in exactly one batch of an epoch.
pub proof fn law_batches_partition(i: int, batch_size: int, len: int)
    requires
        batch_size > 0,
        0 <= i < len,
    ensures
        in_batch(i, i / batch_size, batch_size, len),
        0 <= i / batch_size < batches(len, batch_size),
        forall|b: int| #[trigger] in_batch(i, b, batch_size, len) ==> b == i / batch_size,
{
    let b0 = i / batch_size;
    assert(b0 * batch_size <= i < b0 * batch_size + batch_size) by (nonlinear_arith)
        requires
            b0 == i / batch_size,
            batch_size > 0,
    ;
    assert(0 <= b0) by (nonlinear_arith)
        requires
            b0 == i / batch_size,
            batch_size > 0,
            i >= 0,
    ;
    let n = batches(len, batch_size);
    assert(b0 < n) by (nonlinear_arith)
        requires
            b0 * batch_size <= i,
            n == (len + batch_size - 1) / batch_size,
            batch_size > 0,
            i < len,
    ;
    assert forall|b: int| #[trigger] in_batch(i, b, batch_size, len) implies b == b0 by {
        assert(b == b0) by (nonlinear_arith)
            requires
                b * batch_size <= i < b * batch_size + batch_size,
                b0 * batch_size <= i < b0 * batch_size + batch_size,
                batch_size > 0,
        ;
    }
}

/// The batches of an epoch follow one another from the first item to the last: each begins
/// where the one before ends, none is empty, none is larger than asked for, and only the last
/// is smaller.
pub proof fn law_batches_follow_one_another(b: int, batch_size: int, len: int)
    requires
        batch_size > 0,
        len > 0,
        0 <= b < batches(len, batch_size),
    ensures
        span(0, batch_size, len).0 == 0,
        span(batches(len, batch_size) - 1, batch_size, len).1 == len,
        span(b, batch_size, len).0 < span(b, batch_size, len).1 <= len,
        span(b, batch_size, len).1 - span(b, batch_size, len).0 <= batch_size,
        b + 1 < batches(len, batch_size) ==> span(b + 1, batch_size, len).0 == span(
            b,
            batch_size,
            len,
        ).1 && span(b, batch_size, len).1 - span(b, batch_size, len).0 == batch_size,
{
    let n = batches(len, batch_size);
    assert(n * batch_size >= len && (n - 1) * batch_size < len && n * batch_size == (n - 1)
        * batch_size + batch_size) by (nonlinear_arith)
        requires
            n == (len + batch_size - 1) / batch_size,
            batch_size > 0,
    ;
    assert(b * batch_size <= (n - 1) * batch_size) by (nonlinear_arith)
        requires
            b <= n - 1,
            batch_size > 0,
    ;
    assert(0 * batch_size == 0) by (nonlinear_arith);
    assert((b + 1) * batch_size == b * batch_size + batch_size) by (nonlinear_arith);
    if b + 1 < n {
        assert((b + 1) * batch_size <= (n - 1) * batch_size) by (nonlinear_arith)
            requires
                b + 1 <= n - 1,
                batch_size > 0,
        ;
    }
}

/// A batch is followed by a validation: every so many, and the last one.
pub fn validates_after(batch_idx: usize, num_batches: usize, interval: usize) -> (validates: bool)
    requires
        batch_idx < num_batches,
        interval > 0,
    ensures
        validates == ((batch_idx + 1) % (interval as int) == 0 || batch_idx + 1 == num_batches),
{
    (batch_idx + 1) % interval == 0 || batch_idx == num_batches - 1
}

} // verus!
