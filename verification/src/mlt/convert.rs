//! Conversions to and from the `int` that the playback framework counts with.
//!
//! A value out of range is clamped at the edge of what can be expressed,
//! rather than wrapped into a valid-looking one.
use vstd::prelude::*;

verus! {

/// The nearest `int` to a count.
pub open spec fn nearest_int(value: u64) -> i32 {
    if value <= i32::MAX { value as i32 } else { i32::MAX }
}

/// A number that the framework reported, with nothing below zero.
pub open spec fn at_least_zero(value: i32) -> int {
    if value > 0 { value as int } else { 0 }
}

/// A count or index as the framework's `int`.
pub fn mlt_int(value: u64) -> (n: i32)
    ensures
        n == nearest_int(value),
{
    if value <= i32::MAX as u64 {
        value as i32
    } else {
        i32::MAX
    }
}

/// A frame position that the framework reported. Negative means that there is
/// none, which is frame zero here.
pub fn frames(value: i32) -> (n: u64)
    ensures
        n == at_least_zero(value),
{
    size(value) as u64
}

/// A size or index that the framework reported, never negative.
pub fn size(value: i32) -> (n: u32)
    ensures
        n == at_least_zero(value),
{
    if value > 0 {
        value as u32
    } else {
        0
    }
}

/// A count that the framework reported.
pub fn count(value: i32) -> (n: usize)
    ensures
        n == at_least_zero(value),
{
    size(value) as usize
}

/// A position that the framework can address survives the crossing both ways.
pub proof fn addressable_positions_round_trip(value: u64)
    requires
        value <= i32::MAX,
    ensures
        at_least_zero(nearest_int(value)) == value,
{
}

/// A count that cannot be addressed becomes the highest that can, so that the
/// order of counts is kept.
pub proof fn counts_keep_their_order(a: u64, b: u64)
    requires
        a <= b,
    ensures
        0 <= nearest_int(a) <= nearest_int(b) <= i32::MAX,
        b > i32::MAX ==> nearest_int(b) == i32::MAX,
        nearest_int(a) <= a,
{
}

/// What is reported below zero is nothing, and everything else is as reported.
pub proof fn a_report_is_never_below_zero(value: i32)
    ensures
        at_least_zero(value) >= 0,
        value >= 0 ==> at_least_zero(value) == value,
        value < 0 ==> at_least_zero(value) == 0,
{
}

} // verus!
