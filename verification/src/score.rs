//! Confidences and weights.
//!
//! A score is a single-precision number held by its rank in the total order of such
//! numbers: its bits read as a signed integer, the lower 31 of them inverted where the sign
//! bit is set. Ranks order as the numbers do, and every number has its own rank. For a number
//! that is not negative the rank is its bit pattern.
use vstd::prelude::*;

verus! {

pub const ZERO: i32 = 0;

/// The rank of negative zero, which compares equal to zero.
pub const NEGATIVE_ZERO: i32 = -1;

/// 0.12
pub const MARGIN_NEAR_EXACT: i32 = 0x3DF5C28F;

/// 0.14
pub const MARGIN_STRONG: i32 = 0x3E0F5C29;

/// 0.18
pub const MARGIN_SUPPORTED: i32 = 0x3E3851EC;

/// 0.20
pub const MARGIN_SIMILAR: i32 = 0x3E4CCCCD;

/// 0.34
pub const EXAMPLE_FLOOR: i32 = 0x3EAE147B;

/// 0.42
pub const CANDIDATE_FLOOR: i32 = 0x3ED70A3D;

/// 0.5
pub const APP_WEIGHT: i32 = 0x3F000000;

/// 0.55
pub const FALLBACK: i32 = 0x3F0CCCCD;

/// 0.60
pub const DECISION_FLOOR: i32 = 0x3F19999A;

/// 0.62
pub const BEST_STRONG: i32 = 0x3F1EB852;

/// 0.68
pub const WEAK_CANDIDATE_FLOOR: i32 = 0x3F2E147B;

/// 0.7
pub const WINDOW_WEIGHT: i32 = 0x3F333333;

/// 0.72
pub const BEST_SUPPORTED: i32 = 0x3F3851EC;

/// 0.74
pub const BEST_SIMILAR: i32 = 0x3F3D70A4;

/// 0.79
pub const UNREVIEWED_CEILING: i32 = 0x3F4A3D71;

/// 0.82
pub const PAGE_WEIGHT: i32 = 0x3F51EB85;

/// 0.84
pub const RULE: i32 = 0x3F570A3D;

/// 0.86
pub const BEST_NEAR_EXACT: i32 = 0x3F5C28F6;

/// 0.88
pub const STRONG_MATCH: i32 = 0x3F6147AE;

/// 0.90
pub const PROPAGATED: i32 = 0x3F666666;

/// 0.92
pub const REMEMBERED: i32 = 0x3F6B851F;

/// 0.93
pub const NEAR_EXACT_MATCH: i32 = 0x3F6E147B;

/// 0.95
pub const SUPPORTED_MATCH: i32 = 0x3F733333;

/// 0.96
pub const IDLE: i32 = 0x3F75C28F;

/// 0.98
pub const PINNED: i32 = 0x3F7AE148;

/// 1.0
pub const ONE: i32 = 0x3F800000;

/// The rank of positive infinity; what lies beyond it or below `NEGATIVE_INFINITY` is no number.
pub const INFINITY: i32 = 0x7F800000;

pub const NEGATIVE_INFINITY: i32 = -2139095041;

/// The score is a number other than an infinity.
pub open spec fn finite(score: i32) -> bool {
    NEGATIVE_INFINITY < score < INFINITY
}

pub fn is_finite(score: i32) -> (result: bool)
    ensures
        result == finite(score),
{
    NEGATIVE_INFINITY < score && score < INFINITY
}

/// The score moved into the range from zero to one; negative zero counts as zero and stays.
pub open spec fn unit_clamped(score: i32) -> i32 {
    if score < NEGATIVE_ZERO {
        ZERO
    } else if score > ONE {
        ONE
    } else {
        score
    }
}

pub fn clamp_unit(score: i32) -> (result: i32)
    ensures
        result == unit_clamped(score),
{
    if score < NEGATIVE_ZERO {
        ZERO
    } else if score > ONE {
        ONE
    } else {
        score
    }
}

/// The greater of two scores.
pub open spec fn greater(left: i32, right: i32) -> i32 {
    if left < right {
        right
    } else {
        left
    }
}

pub fn max(left: i32, right: i32) -> (result: i32)
    ensures
        result == greater(left, right),
{
    if left < right {
        right
    } else {
        left
    }
}

} // verus!
