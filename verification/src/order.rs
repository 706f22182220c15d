//! Order on IEEE 754 bit patterns.
//!
//! Fractional quantities — priorities, box corners — cross into the library
//! as their bit patterns, because all it ever does with them is compare.
//! `total_key` is the order `f32::total_cmp` sorts by; `num_lt`/`num_le` are
//! the operators `<` and `<=`, with a NaN unordered and the two zeros equal.

use vstd::prelude::*;

verus! {

/// The sign bit of a pattern is set.
pub open spec fn negative(bits: u32) -> bool {
    bits >= 0x8000_0000
}

/// Exponent and fraction of a pattern, as a number.
pub open spec fn magnitude(bits: u32) -> int {
    if negative(bits) {
        bits - 0x8000_0000
    } else {
        bits as int
    }
}

/// The pattern encodes no number.
pub open spec fn nan(bits: u32) -> bool {
    magnitude(bits) > 0x7f80_0000
}

/// Position of a pattern in the total order: negatives below positives,
/// larger magnitudes further from zero.
pub open spec fn total_rank(bits: u32) -> int {
    if negative(bits) {
        -magnitude(bits) - 1
    } else {
        magnitude(bits)
    }
}

/// Position of a pattern on the number line: as the total order, with one
/// zero.
pub open spec fn num_rank(bits: u32) -> int {
    if negative(bits) {
        -magnitude(bits)
    } else {
        magnitude(bits)
    }
}

/// The integer whose order is the total order of patterns.
pub fn total_key(bits: u32) -> (r: i32)
    ensures
        r == total_rank(bits),
{
    if bits >= 0x8000_0000 {
        let m: u32 = bits - 0x8000_0000;
        -(m as i32) - 1
    } else {
        bits as i32
    }
}

/// Whether the pattern encodes no number.
pub fn is_nan(bits: u32) -> (r: bool)
    ensures
        r == nan(bits),
{
    let m: u32 = if bits >= 0x8000_0000 {
        bits - 0x8000_0000
    } else {
        bits
    };
    m > 0x7f80_0000
}

/// The integer whose order is that of the numbers.
pub fn num_key(bits: u32) -> (r: i32)
    ensures
        r == num_rank(bits),
{
    if bits >= 0x8000_0000 {
        let m: u32 = bits - 0x8000_0000;
        -(m as i32)
    } else {
        bits as i32
    }
}

/// The operator `<` on the numbers two patterns encode.
pub open spec fn lt_num(a: u32, b: u32) -> bool {
    !nan(a) && !nan(b) && num_rank(a) < num_rank(b)
}

/// The operator `<=` on the numbers two patterns encode.
pub open spec fn le_num(a: u32, b: u32) -> bool {
    !nan(a) && !nan(b) && num_rank(a) <= num_rank(b)
}

/// `a < b` on the encoded numbers.
pub fn num_lt(a: u32, b: u32) -> (r: bool)
    ensures
        r == lt_num(a, b),
{
    !is_nan(a) && !is_nan(b) && num_key(a) < num_key(b)
}

/// `a <= b` on the encoded numbers.
pub fn num_le(a: u32, b: u32) -> (r: bool)
    ensures
        r == le_num(a, b),
{
    !is_nan(a) && !is_nan(b) && num_key(a) <= num_key(b)
}

/// The total order tells any two patterns apart.
pub proof fn total_rank_injective(a: u32, b: u32)
    requires
        total_rank(a) == total_rank(b),
    ensures
        a == b,
{
}

/// On numbers the total order refines `<`: a smaller number never ranks
/// above a larger one.
pub proof fn total_refines_num(a: u32, b: u32)
    requires
        lt_num(a, b),
    ensures
        total_rank(a) < total_rank(b),
{
}

// --- double precision -------------------------------------------------------

/// Exponent and fraction of a double-precision pattern, as a number.
pub open spec fn magnitude64(bits: u64) -> int {
    if bits >= 0x8000_0000_0000_0000 {
        bits - 0x8000_0000_0000_0000
    } else {
        bits as int
    }
}

/// The double-precision pattern encodes no number.
pub open spec fn nan64(bits: u64) -> bool {
    magnitude64(bits) > 0x7ff0_0000_0000_0000
}

/// Position of a double-precision pattern on the number line, with one zero.
pub open spec fn num_rank64(bits: u64) -> int {
    if bits >= 0x8000_0000_0000_0000 {
        -magnitude64(bits)
    } else {
        magnitude64(bits)
    }
}

/// The operator `<` on the numbers two double-precision patterns encode.
pub open spec fn lt_num64(a: u64, b: u64) -> bool {
    !nan64(a) && !nan64(b) && num_rank64(a) < num_rank64(b)
}

/// The operator `<=` on the numbers two double-precision patterns encode.
pub open spec fn le_num64(a: u64, b: u64) -> bool {
    !nan64(a) && !nan64(b) && num_rank64(a) <= num_rank64(b)
}

/// Whether the double-precision pattern encodes no number.
pub fn is_nan64(bits: u64) -> (r: bool)
    ensures
        r == nan64(bits),
{
    let m: u64 = if bits >= 0x8000_0000_0000_0000 {
        bits - 0x8000_0000_0000_0000
    } else {
        bits
    };
    m > 0x7ff0_0000_0000_0000
}

/// The integer whose order is that of double-precision numbers.
pub fn num_key64(bits: u64) -> (r: i64)
    ensures
        r == num_rank64(bits),
{
    if bits >= 0x8000_0000_0000_0000 {
        let m: u64 = bits - 0x8000_0000_0000_0000;
        -(m as i64)
    } else {
        bits as i64
    }
}

/// `a < b` on the encoded double-precision numbers.
pub fn num_lt64(a: u64, b: u64) -> (r: bool)
    ensures
        r == lt_num64(a, b),
{
    !is_nan64(a) && !is_nan64(b) && num_key64(a) < num_key64(b)
}

/// `a <= b` on the encoded double-precision numbers.
pub fn num_le64(a: u64, b: u64) -> (r: bool)
    ensures
        r == le_num64(a, b),
{
    !is_nan64(a) && !is_nan64(b) && num_key64(a) <= num_key64(b)
}

/// How numbers compare by their bits: what is no number compares with
/// nothing; of two without a sign the smaller bits are less, of two with one
/// the larger are; one with a sign is less than one without, but for the two
/// zeroes, which are equal.
pub proof fn numbers_compare_by_their_bits(a: u32, b: u32)
    ensures
        0x7f80_0000 < a < 0x8000_0000 || a > 0xff80_0000 ==> !lt_num(a, b) && !lt_num(b, a)
            && !le_num(a, b) && !le_num(b, a),
        a <= 0x7f80_0000 && b <= 0x7f80_0000 ==> (lt_num(a, b) <==> a < b) && (le_num(a, b) <==> a
            <= b),
        0x8000_0000 <= a <= 0xff80_0000 && 0x8000_0000 <= b <= 0xff80_0000 ==> (lt_num(a, b) <==> a
            > b) && (le_num(a, b) <==> a >= b),
        0x8000_0000 <= a <= 0xff80_0000 && b <= 0x7f80_0000 ==> le_num(a, b) && (lt_num(a, b)
            <==> a != 0x8000_0000 || b != 0) && !lt_num(b, a) && (le_num(b, a) <==> a
            == 0x8000_0000 && b == 0),
{
}

/// The same for wide numbers.
pub proof fn wide_numbers_compare_by_their_bits(a: u64, b: u64)
    ensures
        0x7ff0_0000_0000_0000 < a < 0x8000_0000_0000_0000 || a > 0xfff0_0000_0000_0000
            ==> !lt_num64(a, b) && !lt_num64(b, a) && !le_num64(a, b) && !le_num64(b, a),
        a <= 0x7ff0_0000_0000_0000 && b <= 0x7ff0_0000_0000_0000 ==> (lt_num64(a, b) <==> a < b)
            && (le_num64(a, b) <==> a <= b),
        0x8000_0000_0000_0000 <= a <= 0xfff0_0000_0000_0000 && 0x8000_0000_0000_0000 <= b
            <= 0xfff0_0000_0000_0000 ==> (lt_num64(a, b) <==> a > b) && (le_num64(a, b) <==> a
            >= b),
        0x8000_0000_0000_0000 <= a <= 0xfff0_0000_0000_0000 && b <= 0x7ff0_0000_0000_0000
            ==> le_num64(a, b) && (lt_num64(a, b) <==> a != 0x8000_0000_0000_0000 || b != 0)
            && !lt_num64(b, a),
{
}

/// The total order runs through all bits: those with a sign come first, from
/// the largest down, then those without, from the smallest up.
pub proof fn the_total_order_runs_through_all_bits(a: u32, b: u32)
    ensures
        a < 0x8000_0000 && b < 0x8000_0000 ==> (total_rank(a) < total_rank(b) <==> a < b),
        a >= 0x8000_0000 && b >= 0x8000_0000 ==> (total_rank(a) < total_rank(b) <==> a > b),
        a >= 0x8000_0000 && b < 0x8000_0000 ==> total_rank(a) < total_rank(b),
{
}

} // verus!
