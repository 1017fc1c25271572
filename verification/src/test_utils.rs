//! Test doubles: an in-memory raw backend, stub storage and indexer, and a
//! deterministic data builder.

use crate::backend::TiKvRawBackend;
use crate::error::MonolithErr;
use crate::indexer::Indexer;
use crate::label::{Label, Labels};
use crate::storage::Storage;
use crate::time_point::TimePoint;
use crate::time_series::{TimeSeries, TimeSeriesId};
use crate::{Timestamp, Value};
use vstd::prelude::*;

verus! {

/// The map an append-only association list denotes; later entries win.
pub open spec fn assoc_view(s: Seq<(Vec<u8>, Vec<u8>)>) -> Map<Seq<u8>, Seq<u8>>
    decreases s.len(),
{
    if s.len() == 0 {
        Map::<Seq<u8>, Seq<u8>>::empty()
    } else {
        assoc_view(s.drop_last()).insert(s.last().0@, s.last().1@)
    }
}

/// The last entry for a key decides its value.
proof fn lemma_assoc_lookup(s: Seq<(Vec<u8>, Vec<u8>)>, j: int, key: Seq<u8>)
    requires
        0 <= j < s.len(),
        s[j].0@ == key,
        forall|t: int| j < t < s.len() ==> (#[trigger] s[t]).0@ != key,
    ensures
        assoc_view(s).contains_key(key),
        assoc_view(s)[key] == s[j].1@,
    decreases s.len(),
{
    if j == s.len() - 1 {
    } else {
        assert(forall|t: int|
            j < t < s.len() - 1 ==> (#[trigger] s.drop_last()[t]).0@ != key);
        assert(s.drop_last()[j] == s[j]);
        lemma_assoc_lookup(s.drop_last(), j, key);
        assert(s.last().0@ != key);
    }
}

/// A key none of the entries carries is absent.
proof fn lemma_assoc_absent(s: Seq<(Vec<u8>, Vec<u8>)>, key: Seq<u8>)
    requires
        forall|t: int| 0 <= t < s.len() ==> (#[trigger] s[t]).0@ != key,
    ensures
        !assoc_view(s).contains_key(key),
    decreases s.len(),
{
    if s.len() > 0 {
        assert(forall|t: int|
            0 <= t < s.len() - 1 ==> (#[trigger] s.drop_last()[t]).0@ != key);
        lemma_assoc_absent(s.drop_last(), key);
    }
}

/// In-memory raw backend used for dry runs and tests: an append-only
/// association list where the latest entry for a key wins.
pub struct DummyTiKvBackend {
    pub tree: Vec<(Vec<u8>, Vec<u8>)>,
}

impl DummyTiKvBackend {
    pub fn new() -> (r: DummyTiKvBackend)
        ensures
            r.view() == Map::<Seq<u8>, Seq<u8>>::empty(),
    {
        DummyTiKvBackend { tree: Vec::new() }
    }
}

impl TiKvRawBackend for DummyTiKvBackend {
    open spec fn view(&self) -> Map<Seq<u8>, Seq<u8>> {
        assoc_view(self.tree@)
    }

    fn set(&mut self, key: Vec<u8>, value: Vec<u8>) -> (r: Result<(), MonolithErr>)
        ensures
            r is Ok,
    {
        let ghost pre = self.tree@;
        let ghost kview = key@;
        let ghost vview = value@;
        self.tree.push((key, value));
        proof {
            assert(self.tree@.drop_last() =~= pre);
            assert(self.tree@.last().0@ == kview);
            assert(self.tree@.last().1@ == vview);
        }
        Ok(())
    }

    fn get(&self, key: Vec<u8>) -> (r: Result<Option<Vec<u8>>, MonolithErr>)
        ensures
            r is Ok,
    {
        let n = self.tree.len();
        let mut i: usize = n;
        while i > 0
            invariant
                i <= n,
                n == self.tree@.len(),
                forall|t: int| i <= t < n ==> (#[trigger] self.tree@[t]).0@ != key@,
            decreases i,
        {
            i = i - 1;
            let pair = &self.tree[i];
            if pair.0 == key {
                proof {
                    assert(self.tree@[i as int].0@ =~= key@);
                    lemma_assoc_lookup(self.tree@, i as int, key@);
                }
                return Ok(Some(pair.1.clone()));
            }
            proof {
                assert(self.tree@[i as int].0@ != key@) by {
                    if self.tree@[i as int].0@ == key@ {
                        assert(self.tree@[i as int].0@ =~= key@);
                    }
                }
            }
        }
        proof {
            lemma_assoc_absent(self.tree@, key@);
        }
        Ok(None)
    }
}

/// Stub storage for tests that only need the type to exist; every call
/// fails with an internal error.
pub struct StubStorage {}

impl Storage for StubStorage {
    open spec fn sview(&self) -> Map<TimeSeriesId, Seq<u8>> {
        Map::<TimeSeriesId, Seq<u8>>::empty()
    }

    fn write_time_point(&mut self, _time_series_id: TimeSeriesId, _timestamp: Timestamp, _value: Value)
        -> (r: Result<(), MonolithErr>) {
        Err(MonolithErr::InternalErr(String::from_str("stub storage")))
    }

    fn read_time_series(
        &self,
        _time_series_id: TimeSeriesId,
        _start_time: Timestamp,
        _end_time: Timestamp,
    ) -> (r: Result<Vec<TimePoint>, MonolithErr>) {
        Err(MonolithErr::IoError(String::from_str("stub storage")))
    }
}

/// Stub indexer for tests; every call fails with an internal error.
pub struct StubIndexer {}

impl Indexer for StubIndexer {
    open spec fn iview(&self) -> Map<Seq<u8>, Seq<u8>> {
        Map::<Seq<u8>, Seq<u8>>::empty()
    }

    fn get_series_metadata_contains_labels(&self, _labels: Labels) -> (r: Result<
        Vec<(TimeSeriesId, Labels)>,
        MonolithErr,
    >) {
        Err(MonolithErr::InternalErr(String::from_str("stub indexer")))
    }

    fn get_series_id_contains_labels(&self, _labels: Labels) -> (r: Result<
        Vec<TimeSeriesId>,
        MonolithErr,
    >) {
        Err(MonolithErr::InternalErr(String::from_str("stub indexer")))
    }

    fn get_series_id_by_labels(&self, _labels: Labels) -> (r: Result<
        Option<TimeSeriesId>,
        MonolithErr,
    >) {
        Err(MonolithErr::InternalErr(String::from_str("stub indexer")))
    }

    fn create_index(&mut self, _labels: Labels, _time_series_id: TimeSeriesId) -> (r: Result<
        (),
        MonolithErr,
    >) {
        Err(MonolithErr::IoError(String::from_str("stub indexer")))
    }
}

/// Builds test time series from explicit ids, label pairs and points.
pub struct Ingester {
    pub data: Vec<TimeSeries>,
}

impl Ingester {
    pub fn from_data(
        ids: Vec<TimeSeriesId>,
        metadata: Vec<Vec<(&str, &str)>>,
        data: Vec<Vec<(Timestamp, Value)>>,
    ) -> (r: Ingester)
        requires
            ids@.len() == metadata@.len(),
            data@.len() == metadata@.len(),
        ensures
            r.data@.len() == ids@.len(),
    {
        let mut res: Vec<TimeSeries> = Vec::new();
        let n = ids.len();
        let mut i: usize = 0;
        while i < n
            invariant
                i <= n,
                n == ids@.len(),
                n == metadata@.len(),
                n == data@.len(),
                res@.len() == i,
            decreases n - i,
        {
            let pairs = &metadata[i];
            let mut meta: Vec<Label> = Vec::new();
            let m = pairs.len();
            let mut j: usize = 0;
            while j < m
                invariant
                    j <= m,
                    m == pairs@.len(),
                decreases m - j,
            {
                let (k, v) = pairs[j];
                meta.push(Label::from_key_value(k, v));
                j = j + 1;
            }
            let points = &data[i];
            let mut time_points: Vec<TimePoint> = Vec::new();
            let p = points.len();
            let mut t: usize = 0;
            while t < p
                invariant
                    t <= p,
                    p == points@.len(),
                decreases p - t,
            {
                let (ts, v) = points[t];
                time_points.push(TimePoint::new(ts, v));
                t = t + 1;
            }
            res.push(TimeSeries::from_data(ids[i], Labels::from_vec(meta), time_points));
            i = i + 1;
        }
        Ingester { data: res }
    }
}

} // verus!
