//! Order keys for values carried as IEEE-754 single-precision bit patterns.
use vstd::prelude::*;

verus! {

/// The sign bit of a single-precision pattern.
pub const SIGN_BIT: u32 = 0x8000_0000;

/// The pattern of positive infinity; every larger magnitude is a NaN.
pub const INFINITY_BITS: u32 = 0x7f80_0000;

/// The pattern of the canonical quiet NaN, the score of an unscored item.
pub const NAN_BITS: u32 = 0x7fc0_0000;

/// The rank key of every NaN: above the key of any number, in both directions.
pub const NAN_RANK: i64 = 0x8000_0000;

/// The pattern with its sign bit cleared.
pub open spec fn magnitude(bits: u32) -> int {
    if bits < SIGN_BIT {
        bits as int
    } else {
        bits - SIGN_BIT
    }
}

/// Whether the pattern is a NaN, of either sign.
pub open spec fn is_nan(bits: u32) -> bool {
    magnitude(bits) > INFINITY_BITS
}

/// Position of the pattern in the IEEE-754 total order: negative patterns
/// come first, larger magnitudes first among them, and `-0` comes just before
/// `+0`.
pub open spec fn total_key(bits: u32) -> int {
    if bits < SIGN_BIT {
        bits as int
    } else {
        -1 - magnitude(bits)
    }
}

/// Position of a number in numeric order: as `total_key`, but the two zeros
/// share the key 0.
pub open spec fn numeric_key(bits: u32) -> int {
    if bits < SIGN_BIT {
        bits as int
    } else {
        -magnitude(bits)
    }
}

/// The key by which scores are ranked, best first: the total order for
/// ascending ranking, its mirror image for descending ranking, and NaN after
/// every number either way.
pub open spec fn rank_key(bits: u32, descending: bool) -> int {
    if is_nan(bits) {
        NAN_RANK as int
    } else if descending {
        -total_key(bits)
    } else {
        total_key(bits)
    }
}

pub fn score_is_nan(bits: u32) -> (nan: bool)
    ensures
        nan == is_nan(bits),
{
    let mag: u32 = if bits < SIGN_BIT { bits } else { bits - SIGN_BIT };
    mag > INFINITY_BITS
}

pub fn total_order_key(bits: u32) -> (key: i64)
    ensures
        key == total_key(bits),
{
    if bits < SIGN_BIT {
        bits as i64
    } else {
        -1 - ((bits - SIGN_BIT) as i64)
    }
}

pub fn numeric_order_key(bits: u32) -> (key: i64)
    ensures
        key == numeric_key(bits),
{
    if bits < SIGN_BIT {
        bits as i64
    } else {
        -((bits - SIGN_BIT) as i64)
    }
}

pub fn ranking_key(bits: u32, descending: bool) -> (key: i64)
    ensures
        key == rank_key(bits, descending),
{
    if score_is_nan(bits) {
        NAN_RANK
    } else if descending {
        -total_order_key(bits)
    } else {
        total_order_key(bits)
    }
}

} // verus!
