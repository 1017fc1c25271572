//! Time series: an id, its label set, and its ordered points; and the
//! monotonic id generator used by chunks.

use crate::label::Labels;
use crate::time_point::TimePoint;
use crate::{Timestamp, Value};
use vstd::prelude::*;

verus! {

/// Identifier of one time series, strictly increasing within a chunk; 0 is
/// reserved.
pub type TimeSeriesId = u64;

/// Result rows of a query: each label set with its points in time order.
pub type LabelPointPairs = Vec<(Labels, Vec<TimePoint>)>;

/// A time series as produced by reads.
#[derive(Clone)]
pub struct TimeSeries {
    id: TimeSeriesId,
    time_points: Vec<TimePoint>,
    meta_data: Labels,
}

impl View for TimeSeries {
    type V = (TimeSeriesId, Seq<(Seq<char>, Seq<char>)>, Seq<TimePoint>);

    closed spec fn view(&self) -> (TimeSeriesId, Seq<(Seq<char>, Seq<char>)>, Seq<TimePoint>) {
        (self.id, self.meta_data@, self.time_points@)
    }
}

impl TimeSeries {
    pub fn new(id: TimeSeriesId, meta_data: Labels) -> (r: TimeSeries)
        ensures
            r@ == (id, meta_data@, Seq::<TimePoint>::empty()),
    {
        let r = TimeSeries { id, time_points: Vec::new(), meta_data };
        proof {
            assert(r@.2 =~= Seq::<TimePoint>::empty());
        }
        r
    }

    pub fn from_data(id: TimeSeriesId, meta_data: Labels, time_points: Vec<TimePoint>) -> (r:
        TimeSeries)
        ensures
            r@ == (id, meta_data@, time_points@),
    {
        TimeSeries { id, time_points, meta_data }
    }

    pub fn meta_data(&self) -> (r: &Labels)
        ensures
            r@ == self@.1,
    {
        &self.meta_data
    }

    pub fn add(&mut self, timestamp: Timestamp, value: Value)
        ensures
            final(self)@.0 == old(self)@.0,
            final(self)@.1 == old(self)@.1,
            final(self)@.2 == old(self)@.2.push(TimePoint { timestamp, value }),
    {
        self.time_points.push(TimePoint::new(timestamp, value))
    }

    pub fn time_points(&self) -> (r: &Vec<TimePoint>)
        ensures
            r@ == self@.2,
    {
        &self.time_points
    }

    pub fn id(&self) -> (r: TimeSeriesId)
        ensures
            r == self@.0,
    {
        self.id
    }
}

/// Hands out strictly increasing series ids, starting from the value it was
/// created with.
pub struct IdGenerator(u64);

impl View for IdGenerator {
    type V = u64;

    closed spec fn view(&self) -> u64 {
        self.0
    }
}

impl IdGenerator {
    pub fn new(init_id: TimeSeriesId) -> (r: IdGenerator)
        ensures
            r@ == init_id,
    {
        IdGenerator(init_id)
    }

    /// Return the current id and advance. Each call returns a value strictly
    /// greater than every earlier one, which is what keeps series ids
    /// monotonic within a chunk.
    pub fn next(&mut self) -> (r: TimeSeriesId)
        requires
            old(self)@ < u64::MAX,
        ensures
            r == old(self)@,
            final(self)@ == old(self)@ + 1,
    {
        let r = self.0;
        self.0 = self.0 + 1;
        r
    }

    /// The id space is used up; `next` may no longer be called.
    pub fn exhausted(&self) -> (r: bool)
        ensures
            r == (self@ == u64::MAX),
    {
        self.0 == u64::MAX
    }
}

} // verus!
