//! The order of single-precision floating-point numbers, read off their bits.
//!
//! The tree and the tables of this crate hold such numbers as the 32 bits of their
//! IEEE 754 representation; what has to be decided about them is which is greater.

use vstd::prelude::*;

verus! {

/// The magnitude: the representation without its sign.
pub open spec fn magnitude(bits: u32) -> int {
    bits as int % 0x8000_0000
}

pub open spec fn is_nan_bits(bits: u32) -> bool {
    magnitude(bits) > 0x7F80_0000
}

/// An integer that orders the numbers as their values do; both zeros are 0.
pub open spec fn order_key(bits: u32) -> int {
    if bits >= 0x8000_0000 {
        -magnitude(bits)
    } else {
        magnitude(bits)
    }
}

/// `a > b`, false if one of the two is not a number.
pub open spec fn greater_spec(a: u32, b: u32) -> bool {
    &&& !is_nan_bits(a)
    &&& !is_nan_bits(b)
    &&& order_key(a) > order_key(b)
}

/// Compares two numbers by their bits.
pub fn greater(a: u32, b: u32) -> (g: bool)
    ensures
        g == greater_spec(a, b),
{
    let ma: i64 = (a % 0x8000_0000) as i64;
    let mb: i64 = (b % 0x8000_0000) as i64;
    let ka: i64 = if a >= 0x8000_0000 {
        -ma
    } else {
        ma
    };
    let kb: i64 = if b >= 0x8000_0000 {
        -mb
    } else {
        mb
    };
    ma <= 0x7F80_0000 && mb <= 0x7F80_0000 && ka > kb
}

/// The first of the greatest numbers above `floor`, if any is above it.
pub open spec fn is_first_greatest(scores: Seq<u32>, floor: u32, found: Option<usize>) -> bool {
    match found {
        None => forall|j: int| 0 <= j < scores.len() ==> !greater_spec(#[trigger] scores[j], floor),
        Some(i) => {
            &&& i < scores.len()
            &&& greater_spec(scores[i as int], floor)
            &&& forall|j: int|
                0 <= j < scores.len() ==> !greater_spec(#[trigger] scores[j], scores[i as int])
            &&& forall|j: int|
                0 <= j < i ==> is_nan_bits(#[trigger] scores[j]) || order_key(scores[j])
                    < order_key(scores[i as int])
        },
    }
}

/// Looks for the first of the greatest numbers above `floor`.
pub fn first_greatest(scores: &Vec<u32>, floor: u32) -> (found: Option<usize>)
    requires
        !is_nan_bits(floor),
    ensures
        is_first_greatest(scores@, floor, found),
{
    let mut best: u32 = floor;
    let mut found: Option<usize> = None;
    let mut i: usize = 0;
    while i < scores.len()
        invariant
            i <= scores@.len(),
            !is_nan_bits(floor),
            is_first_greatest(scores@.take(i as int), floor, found),
            best == (match found {
                None => floor,
                Some(k) => scores@[k as int],
            }),
        decreases scores@.len() - i,
    {
        let ghost before = scores@.take(i as int);
        let ghost after = scores@.take(i + 1);
        let ghost earlier = found;
        assert(forall|j: int| 0 <= j < i ==> #[trigger] after[j] == before[j]);
        assert(after[i as int] == scores@[i as int]);
        if greater(scores[i], best) {
            best = scores[i];
            found = Some(i);
            proof {
                assert forall|j: int| 0 <= j < i implies is_nan_bits(#[trigger] after[j])
                    || order_key(after[j]) < order_key(after[i as int]) by {
                    assert(after[j] == before[j]);
                    match earlier {
                        None => {
                            assert(!greater_spec(before[j], floor));
                        },
                        Some(k) => {
                            assert(!greater_spec(before[j], before[k as int]));
                        },
                    }
                }
            }
        } else {
            proof {
                assert forall|j: int| 0 <= j < after.len() implies !greater_spec(
                    #[trigger] after[j],
                    best,
                ) by {
                    if j < i {
                        assert(after[j] == before[j]);
                    }
                }
            }
        }
        i += 1;
    }
    assert(scores@.take(i as int) =~= scores@);
    found
}

/// At most one answer is right.
pub proof fn law_first_greatest_is_unique(
    scores: Seq<u32>,
    floor: u32,
    a: Option<usize>,
    b: Option<usize>,
)
    requires
        is_first_greatest(scores, floor, a),
        is_first_greatest(scores, floor, b),
    ensures
        a == b,
{
    if let (Some(i), Some(j)) = (a, b) {
        assert(!greater_spec(scores[i as int], scores[j as int]));
        assert(!greater_spec(scores[j as int], scores[i as int]));
    }
}

/// Numbers compare as their bits do: those without a sign bit by their bits, those with it the
/// other way round, and any without it above any with it, but for the two zeros. What is not
/// a number is neither greater nor less.
pub proof fn law_numbers_compare_by_their_bits(a: u32, b: u32)
    ensures
        a % 0x8000_0000 > 0x7F80_0000 || b % 0x8000_0000 > 0x7F80_0000 ==> !greater_spec(a, b),
        a <= 0x7F80_0000 && b <= 0x7F80_0000 ==> (greater_spec(a, b) <==> a > b),
        0x8000_0000 <= a <= 0xFF80_0000 && 0x8000_0000 <= b <= 0xFF80_0000 ==> (greater_spec(a, b)
            <==> a < b),
        a <= 0x7F80_0000 && 0x8000_0000 <= b <= 0xFF80_0000 ==> (greater_spec(a, b) <==> !(a == 0
            && b == 0x8000_0000)),
        0x8000_0000 <= a <= 0xFF80_0000 && b <= 0x7F80_0000 ==> !greater_spec(a, b),
{
}

} // verus!
