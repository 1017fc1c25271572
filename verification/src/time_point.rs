//! A single sample: a millisecond timestamp and a 64-bit value pattern.

use crate::{Timestamp, Value};
use vstd::prelude::*;

verus! {

/// One sample of a time series. `value` carries the IEEE-754 bit pattern of
/// the measured 64-bit float; the engine stores and codes the bits and never
/// does arithmetic on the number, so equality here is bit equality.
#[derive(Clone, Copy, Debug, PartialEq, Eq, Structural)]
pub struct TimePoint {
    pub timestamp: Timestamp,
    pub value: Value,
}

impl TimePoint {
    pub fn new(timestamp: Timestamp, value: Value) -> (r: TimePoint)
        ensures
            r.timestamp == timestamp,
            r.value == value,
    {
        TimePoint { timestamp, value }
    }
}

/// The points are sorted by strictly increasing timestamp.
pub open spec fn strictly_increasing_ts(s: Seq<TimePoint>) -> bool {
    forall|i: int, j: int| 0 <= i < j < s.len() ==> s[i].timestamp < s[j].timestamp
}

} // verus!
