//! Whole-number arithmetic held to the range of its type, as the records need it.

use vstd::prelude::*;

verus! {

/// `value` held to the range of an `i64`.
pub open spec fn clamp_i64(value: int) -> int {
    if value > i64::MAX {
        i64::MAX as int
    } else if value < i64::MIN {
        i64::MIN as int
    } else {
        value
    }
}

/// `value` held to the range of a `u32`.
pub open spec fn clamp_u32(value: int) -> int {
    if value > u32::MAX {
        u32::MAX as int
    } else if value < 0 {
        0
    } else {
        value
    }
}

/// `a + b`, held to the range of an `i64`.
pub fn add_i64(a: i64, b: i64) -> (sum: i64)
    ensures
        sum == clamp_i64(a + b),
{
    let wide: i128 = a as i128 + b as i128;
    if wide > i64::MAX as i128 {
        i64::MAX
    } else if wide < i64::MIN as i128 {
        i64::MIN
    } else {
        wide as i64
    }
}

/// `a - b`, held to the range of an `i64`.
pub fn sub_i64(a: i64, b: i64) -> (difference: i64)
    ensures
        difference == clamp_i64(a - b),
{
    let wide: i128 = a as i128 - b as i128;
    if wide > i64::MAX as i128 {
        i64::MAX
    } else if wide < i64::MIN as i128 {
        i64::MIN
    } else {
        wide as i64
    }
}

/// `value` as a `u32` when it fits, else the largest `u32` or zero.
pub fn to_u32(value: i64) -> (clamped: u32)
    ensures
        clamped == clamp_u32(value as int),
{
    if value > u32::MAX as i64 {
        u32::MAX
    } else if value < 0 {
        0
    } else {
        value as u32
    }
}

} // verus!
