//! Distances as the bits of IEEE single floats, and the two orders on them: the total order by
//! which distances are sorted, and the comparison of their values, which no NaN takes part in.

use vstd::prelude::*;

verus! {

/// The rank of a float in the total order of all bit patterns: negative NaNs first, then the
/// numbers upwards (-0 before +0), then positive NaNs.
pub open spec fn rank(bits: u32) -> u32 {
    if bits < 0x8000_0000 {
        (bits + 0x8000_0000) as u32
    } else {
        (0xFFFF_FFFF - bits) as u32
    }
}

/// The float whose rank is `r`.
pub open spec fn unrank(r: u32) -> u32 {
    if r >= 0x8000_0000 {
        (r - 0x8000_0000) as u32
    } else {
        (0xFFFF_FFFF - r) as u32
    }
}

/// Whether the bits are not a number.
pub open spec fn is_nan(bits: u32) -> bool {
    bits % 0x8000_0000 > 0x7F80_0000
}

/// Whether the bits are one of the two zeros.
pub open spec fn is_zero(bits: u32) -> bool {
    bits % 0x8000_0000 == 0
}

/// Whether the value of `a` is below that of `b`: false where one is not a number.
pub open spec fn below(a: u32, b: u32) -> bool {
    !is_nan(a) && !is_nan(b) && !(is_zero(a) && is_zero(b)) && rank(a) < rank(b)
}

pub fn order_rank(bits: u32) -> (r: u32)
    ensures
        r == rank(bits),
{
    if bits < 0x8000_0000 {
        bits + 0x8000_0000
    } else {
        0xFFFF_FFFF - bits
    }
}

pub fn bits_of_rank(r: u32) -> (bits: u32)
    ensures
        bits == unrank(r),
{
    if r >= 0x8000_0000 {
        r - 0x8000_0000
    } else {
        0xFFFF_FFFF - r
    }
}

pub fn not_a_number(bits: u32) -> (r: bool)
    ensures
        r == is_nan(bits),
{
    bits % 0x8000_0000 > 0x7F80_0000
}

pub fn less(a: u32, b: u32) -> (r: bool)
    ensures
        r == below(a, b),
{
    let zeros: bool = a % 0x8000_0000 == 0 && b % 0x8000_0000 == 0;
    !not_a_number(a) && !not_a_number(b) && !zeros && order_rank(a) < order_rank(b)
}

/// Ranks tell floats apart and `unrank` goes back.
pub proof fn rank_is_one_to_one(bits: u32)
    ensures
        unrank(rank(bits)) == bits,
        rank(unrank(bits)) == bits,
{
}

/// `below` is a strict order: nothing is below itself, and it is transitive.
pub proof fn below_is_a_strict_order(a: u32, b: u32, c: u32)
    ensures
        !below(a, a),
        below(a, b) && below(b, c) ==> below(a, c),
{
}

/// What is not below a number is not below anything ranked no higher.
pub proof fn lemma_not_below_down(a: u32, b: u32, c: u32)
    requires
        !below(a, b),
        !is_nan(b),
        rank(c) <= rank(b),
    ensures
        !below(a, c),
{
}

/// Values compare as their signs and magnitudes do: among positive numbers the smaller magnitude
/// is below, among negative ones the larger, every negative number is below every positive one,
/// the two zeros are equal, and what is not a number is neither below nor above anything.
pub proof fn values_compare_by_sign_and_magnitude(a: u32, b: u32)
    ensures
        ({
            let x = a as int % 0x8000_0000;
            let y = b as int % 0x8000_0000;
            &&& x > 0x7F80_0000 || y > 0x7F80_0000 ==> !below(a, b)
            &&& x <= 0x7F80_0000 && y <= 0x7F80_0000 ==> {
                &&& a < 0x8000_0000 && b < 0x8000_0000 ==> (below(a, b) <==> x < y)
                &&& a >= 0x8000_0000 && b >= 0x8000_0000 ==> (below(a, b) <==> x > y)
                &&& a >= 0x8000_0000 && b < 0x8000_0000 ==> (below(a, b) <==> x > 0 || y > 0)
                &&& a < 0x8000_0000 && b >= 0x8000_0000 ==> !below(a, b)
            }
        }),
{
}

/// The total order goes with the values, and puts -0 before +0, the negative patterns that are
/// no numbers first and the positive ones last.
pub proof fn ranks_go_with_values(a: u32, b: u32)
    ensures
        below(a, b) ==> rank(a) < rank(b),
        rank(a) == rank(b) ==> a == b,
        rank(a) < rank(b) ==> below(a, b) || is_nan(a) || is_nan(b) || (a == 0x8000_0000 && b == 0),
        is_nan(a) && !is_nan(b) ==> if a >= 0x8000_0000 {
            rank(a) < rank(b)
        } else {
            rank(a) > rank(b)
        },
{
}

} // verus!
