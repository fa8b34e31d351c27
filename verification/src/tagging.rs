//! Tagged representation of run-time values.
//!
//! Numbers are stored shifted left by one bit, so their lowest bit (the tag)
//! is 0; booleans have tag 1.

use vstd::prelude::*;

verus! {

/// Tag bit of a number.
pub const NUM_TAG: i64 = 0;

/// Mask that selects the tag bit of a number.
pub const NUM_TAG_MASK: i64 = 1;

/// Tag bit of a boolean.
pub const BOOL_TAG: i64 = 1;

/// Mask that selects the tag bit of a boolean.
pub const BOOL_TAG_MASK: i64 = 1;

/// The word that the runtime prints as `true`, and that a tag test or a
/// comparison leaves when its answer is yes. (A `true` literal compiles to
/// the word 1 and `false` to 3, and `if` takes its first branch on 1: the
/// code generator keeps that encoding of literals and conditions.)
pub const TRUE_VAL: i64 = 3;

/// The word that the runtime prints as `false`, and that a tag test or a
/// comparison leaves when its answer is no.
pub const FALSE_VAL: i64 = 1;

/// The tagged form of the number `n`.
pub open spec fn tagged_num(n: int) -> int {
    2 * n
}

/// The number that the tagged word `tagged` stands for, cut to 32 bits.
pub open spec fn untagged_num(tagged: int) -> i32 {
    (tagged / 2) as i32
}

/// Tags a number: `n` shifted one bit to the left.
pub fn encode_num(n: i32) -> (tagged: i64)
    ensures
        tagged == tagged_num(n as int),
{
    let wide: i64 = n as i64;
    assert(wide << 1 == 2 * wide) by (bit_vector)
        requires
            i32::MIN <= wide <= i32::MAX,
    ;
    wide << 1
}

/// Untags a value: shifts it one bit to the right (arithmetically) and keeps
/// the low 32 bits.
pub fn decode_num(tagged: i64) -> (n: i32)
    ensures
        n == untagged_num(tagged as int),
        2 * i32::MIN <= tagged <= 2 * i32::MAX + 1 ==> n == tagged / 2,
{
    let shifted: i64 = tagged >> 1;
    assert(shifted == tagged / 2) by (bit_vector)
        requires
            shifted == tagged >> 1,
    ;
    shifted as i32
}

/// Untagging a tagged number gives the number back, and every tagged number
/// carries the number tag in its lowest bit.
pub proof fn lemma_num_tag_roundtrip(n: i32)
    ensures
        untagged_num(tagged_num(n as int)) == n,
        tagged_num(n as int) % 2 == NUM_TAG,
        i64::MIN <= tagged_num(n as int) <= i64::MAX,
{
}

/// The two boolean words carry the boolean tag, differ from each other, and
/// are never the tagged form of a number.
pub proof fn lemma_bool_words_tagged(n: int)
    ensures
        TRUE_VAL % 2 == BOOL_TAG,
        FALSE_VAL % 2 == BOOL_TAG,
        TRUE_VAL != FALSE_VAL,
        tagged_num(n) != TRUE_VAL,
        tagged_num(n) != FALSE_VAL,
{
}

} // verus!
