//! A chunk: one time window binding an indexer and a sample store, with
//! range enforcement and an open/closed state.

use crate::error::MonolithErr;
use crate::indexer::Indexer;
use crate::label::Labels;
use crate::storage::{decoded_series, stored_or_empty, trimmed, Storage};
use crate::time_point::TimePoint;
use crate::time_series::{IdGenerator, TimeSeries, TimeSeriesId};
use crate::utils::is_duration_overlap;
use crate::Timestamp;
use vstd::prelude::*;

verus! {

/// Options a chunk is created from: its window and its 16-byte identifier.
pub struct ChunkOpts {
    pub start_time: Option<Timestamp>,
    pub end_time: Option<Timestamp>,
    pub identifier: Vec<u8>,
}

impl ChunkOpts {
    pub fn new(start_time: Option<Timestamp>, end_time: Option<Timestamp>, identifier: Vec<u8>)
        -> (r: ChunkOpts)
        ensures
            r.start_time == start_time,
            r.end_time == end_time,
            r.identifier == identifier,
    {
        ChunkOpts { start_time, end_time, identifier }
    }
}

/// A set of time series within one half-open time window
/// `[start_time, end_time)`. A closed chunk rejects inserts and stays
/// readable.
pub struct Chunk<S: Storage, I: Indexer> {
    pub storage: S,
    pub indexer: I,
    pub start_time: Timestamp,
    pub end_time: Timestamp,
    pub closed: bool,
    pub id_generator: IdGenerator,
}

/// The timestamp lies in the chunk's half-open window.
pub open spec fn in_window(start: Timestamp, end: Timestamp, ts: Timestamp) -> bool {
    start <= ts < end
}

/// One accepted insert as a transition between chunk states: the window
/// and closed flag stand, the point lies in the open window, and either a
/// fresh series was registered under the next id or the point landed under
/// the id the canonical label-set row already held.
pub open spec fn insert_step_ok<S: Storage, I: Indexer>(
    pre: Chunk<S, I>,
    post: Chunk<S, I>,
    labels: Seq<(Seq<char>, Seq<char>)>,
    timepoint: TimePoint,
) -> bool {
    &&& post.start_time == pre.start_time
    &&& post.end_time == pre.end_time
    &&& post.closed == pre.closed
    &&& !pre.closed
    &&& in_window(pre.start_time, pre.end_time, timepoint.timestamp)
    &&& (post.id_generator@ == pre.id_generator@ || post.id_generator@ == pre.id_generator@ + 1)
    &&& exists|id: TimeSeriesId|
        {
            &&& post.storage.sview() == pre.storage.sview().insert(
                id,
                stored_or_empty(pre.storage.sview(), id) + crate::storage::encoded_point(
                    timepoint.timestamp,
                    timepoint.value,
                ),
            )
            &&& crate::storage::series_accepts(
                stored_or_empty(pre.storage.sview(), id),
                timepoint.timestamp,
            )
            &&& (post.id_generator@ == pre.id_generator@ + 1 ==> id == pre.id_generator@)
        }
    &&& (post.id_generator@ == pre.id_generator@ + 1 ==> {
        &&& (exists|sl: Seq<(Seq<char>, Seq<char>)>|
            #[trigger] crate::indexer::is_sorted_perm(sl, labels)
                && !pre.indexer.iview().contains_key(
                crate::indexer::utf8(crate::indexer::set_key_chars(sl)),
            ))
        &&& (exists|sl: Seq<(Seq<char>, Seq<char>)>|
            #[trigger] crate::indexer::is_sorted_perm(sl, labels)
                && post.indexer.iview() == crate::indexer::index_after_create(
                pre.indexer.iview(),
                sl,
                labels,
                pre.id_generator@,
            ))
    })
    &&& (post.id_generator@ == pre.id_generator@ ==> {
        &&& post.indexer == pre.indexer
        &&& exists|sl: Seq<(Seq<char>, Seq<char>)>, id: TimeSeriesId|
            {
                &&& crate::indexer::is_sorted_perm(sl, labels)
                &&& pre.indexer.iview().contains_key(
                    crate::indexer::utf8(crate::indexer::set_key_chars(sl)),
                )
                &&& #[trigger] crate::indexer::utf8_parses_to(
                    pre.indexer.iview()[crate::indexer::utf8(crate::indexer::set_key_chars(sl))],
                    id,
                )
                &&& post.storage.sview() == pre.storage.sview().insert(
                    id,
                    stored_or_empty(pre.storage.sview(), id) + crate::storage::encoded_point(
                        timepoint.timestamp,
                        timepoint.value,
                    ),
                )
            }
    })
}

/// The candidates a query keeps: those whose stored series, trimmed to the
/// query window, still holds a point.
pub open spec fn kept_candidates(
    sview: Map<TimeSeriesId, Seq<u8>>,
    cands: Seq<(TimeSeriesId, Labels)>,
    start: Timestamp,
    end: Timestamp,
) -> Seq<(TimeSeriesId, Labels)> {
    cands.filter(
        |c: (TimeSeriesId, Labels)|
            trimmed(decoded_series(stored_or_empty(sview, c.0)), start, end).len() > 0,
    )
}

/// A chunk's query answer is right: for some candidate list that is
/// exactly the indexer's matching series, the answer lists, in candidate
/// order, each candidate whose trimmed stored series is non-empty, under
/// its own label set and with exactly those points.
pub open spec fn query_rows_ok<S: Storage, I: Indexer>(
    c: Chunk<S, I>,
    labels: Seq<(Seq<char>, Seq<char>)>,
    start_time: Timestamp,
    end_time: Timestamp,
    v: Seq<TimeSeries>,
) -> bool {
    exists|cands: Seq<(TimeSeriesId, Labels)>|
        {
            &&& #[trigger] crate::indexer::metadata_rows_ok(c.indexer.iview(), labels, cands)
            &&& v.len() == kept_candidates(c.storage.sview(), cands, start_time, end_time).len()
            &&& forall|j: int|
                0 <= j < v.len() ==> {
                    &&& (#[trigger] v[j])@.0 == kept_candidates(
                        c.storage.sview(),
                        cands,
                        start_time,
                        end_time,
                    )[j].0
                    &&& v[j]@.1 == kept_candidates(
                        c.storage.sview(),
                        cands,
                        start_time,
                        end_time,
                    )[j].1@
                    &&& c.storage.sview().contains_key(v[j]@.0)
                    &&& v[j]@.2 == trimmed(
                        decoded_series(c.storage.sview()[v[j]@.0]),
                        start_time,
                        end_time,
                    )
                    &&& v[j]@.2.len() > 0
                }
        }
}

impl<S: Storage, I: Indexer> Chunk<S, I> {
    /// Build a chunk over its backends. The window comes from the options;
    /// a missing start falls back to `fallback_start`, a missing end to the
    /// start plus `default_size` (saturating). Series ids start at 1; 0 is
    /// reserved.
    pub fn new(
        storage: S,
        indexer: I,
        ops: &ChunkOpts,
        fallback_start: Timestamp,
        default_size: Timestamp,
    ) -> (r: Chunk<S, I>)
        ensures
            r.start_time == (match ops.start_time {
                Some(s) => s,
                None => fallback_start,
            }),
            ops.end_time matches Some(e) ==> r.end_time == e,
            !r.closed,
            r.id_generator@ == 1,
            r.storage == storage,
            r.indexer == indexer,
    {
        let start_time = match ops.start_time {
            Some(s) => s,
            None => fallback_start,
        };
        let end_time = match ops.end_time {
            Some(e) => e,
            None => {
                if start_time <= u64::MAX - default_size {
                    start_time + default_size
                } else {
                    u64::MAX
                }
            },
        };
        Chunk {
            storage,
            indexer,
            start_time,
            end_time,
            closed: false,
            id_generator: IdGenerator::new(1),
        }
    }

    /// Close the chunk: from now on inserts fail and reads still answer.
    pub fn close(&mut self)
        ensures
            final(self).closed,
            final(self).storage == old(self).storage,
            final(self).indexer == old(self).indexer,
            final(self).start_time == old(self).start_time,
            final(self).end_time == old(self).end_time,
            final(self).id_generator == old(self).id_generator,
    {
        self.closed = true;
    }

    pub fn is_closed(&self) -> (r: bool)
        ensures
            r == self.closed,
    {
        self.closed
    }

    /// Insert one sample. A closed chunk fails with `InternalErr`; a
    /// timestamp outside `[start_time, end_time)` fails with
    /// `OutOfRangeErr(start_time, end_time)`; a fresh label set when the id
    /// space is spent fails with `InternalErr` without registering
    /// anything. A new label set is registered in the indexer under the
    /// next series id, which strictly increases over the chunk's life; an
    /// already-registered set leaves the indexer alone and appends under
    /// the id its canonical row holds.
    pub fn insert(&mut self, labels: Labels, timepoint: TimePoint) -> (r: Result<(), MonolithErr>)
        ensures
            final(self).start_time == old(self).start_time,
            final(self).end_time == old(self).end_time,
            final(self).closed == old(self).closed,
            final(self).id_generator@ >= old(self).id_generator@,
            old(self).closed ==> (r matches Err(e) && e is InternalErr && *final(self) == *old(
                self,
            )),
            !old(self).closed && !in_window(
                old(self).start_time,
                old(self).end_time,
                timepoint.timestamp,
            ) ==> (r matches Err(e) && e matches MonolithErr::OutOfRangeErr(s, t) && s == old(
                self,
            ).start_time && t == old(self).end_time && *final(self) == *old(self)),
            r is Ok ==> !old(self).closed && in_window(
                old(self).start_time,
                old(self).end_time,
                timepoint.timestamp,
            ),
            r is Ok ==> (final(self).id_generator@ == old(self).id_generator@
                || final(self).id_generator@ == old(self).id_generator@ + 1),
            r is Ok ==> exists|id: TimeSeriesId|
                {
                    &&& final(self).storage.sview() == old(self).storage.sview().insert(
                        id,
                        stored_or_empty(old(self).storage.sview(), id)
                            + crate::storage::encoded_point(timepoint.timestamp, timepoint.value),
                    )
                    &&& crate::storage::series_accepts(
                        stored_or_empty(old(self).storage.sview(), id),
                        timepoint.timestamp,
                    )
                    &&& (final(self).id_generator@ == old(self).id_generator@ + 1 ==> id
                        == old(self).id_generator@)
                },
            r is Ok && final(self).id_generator@ == old(self).id_generator@ + 1 ==> {
                &&& (exists|sl: Seq<(Seq<char>, Seq<char>)>|
                    #[trigger] crate::indexer::is_sorted_perm(sl, labels@)
                        && !old(self).indexer.iview().contains_key(
                        crate::indexer::utf8(crate::indexer::set_key_chars(sl)),
                    ))
                &&& (exists|sl: Seq<(Seq<char>, Seq<char>)>|
                    #[trigger] crate::indexer::is_sorted_perm(sl, labels@)
                        && final(self).indexer.iview() == crate::indexer::index_after_create(
                        old(self).indexer.iview(),
                        sl,
                        labels@,
                        old(self).id_generator@,
                    ))
            },
            r is Ok && final(self).id_generator@ == old(self).id_generator@ ==> {
                &&& final(self).indexer == old(self).indexer
                &&& exists|sl: Seq<(Seq<char>, Seq<char>)>, id: TimeSeriesId|
                    {
                        &&& crate::indexer::is_sorted_perm(sl, labels@)
                        &&& old(self).indexer.iview().contains_key(
                            crate::indexer::utf8(crate::indexer::set_key_chars(sl)),
                        )
                        &&& #[trigger] crate::indexer::utf8_parses_to(
                            old(self).indexer.iview()[crate::indexer::utf8(
                                crate::indexer::set_key_chars(sl),
                            )],
                            id,
                        )
                        &&& final(self).storage.sview() == old(self).storage.sview().insert(
                            id,
                            stored_or_empty(old(self).storage.sview(), id)
                                + crate::storage::encoded_point(
                                timepoint.timestamp,
                                timepoint.value,
                            ),
                        )
                    }
            },
            old(self).id_generator@ == u64::MAX && r is Ok ==> final(self).id_generator@ == old(
                self,
            ).id_generator@ && final(self).indexer == old(self).indexer,
            r is Ok ==> insert_step_ok(*old(self), *final(self), labels@, timepoint),
    {
        if self.closed {
            return Err(MonolithErr::InternalErr(String::from_str("closed")));
        }
        if !(self.start_time <= timepoint.timestamp && timepoint.timestamp < self.end_time) {
            return Err(MonolithErr::OutOfRangeErr(self.start_time, self.end_time));
        }
        let query_labels = labels.duplicate();
        let id = match self.indexer.get_series_id_by_labels(query_labels) {
            Ok(opt) => opt,
            Err(e) => {
                return Err(e);
            },
        };
        match id {
            Some(existing) => {
                match self.storage.write_time_point(
                    existing,
                    timepoint.timestamp,
                    timepoint.value,
                ) {
                    Ok(_) => Ok(()),
                    Err(e) => Err(e),
                }
            },
            None => {
                if self.id_generator.exhausted() {
                    return Err(
                        MonolithErr::InternalErr(String::from_str("series id space exhausted")),
                    );
                }
                let new_id = self.id_generator.next();
                match self.indexer.create_index(labels, new_id) {
                    Ok(_) => {},
                    Err(e) => {
                        return Err(e);
                    },
                }
                match self.storage.write_time_point(
                    new_id,
                    timepoint.timestamp,
                    timepoint.value,
                ) {
                    Ok(_) => Ok(()),
                    Err(e) => Err(e),
                }
            },
        }
    }

    /// All series in this chunk that carry every one of `labels`, with
    /// their points inside `[start_time, end_time]` of the query: exactly
    /// the indexer's matching candidates whose trimmed stored series is
    /// non-empty, in candidate order, each under its own label set. Fails
    /// with `OutOfRangeErr` when the query window does not meet the
    /// chunk's.
    #[verifier::rlimit(50)]
    pub fn query(&self, labels: Labels, start_time: Timestamp, end_time: Timestamp) -> (r: Result<
        Vec<TimeSeries>,
        MonolithErr,
    >)
        ensures
            r matches Ok(v) ==> query_rows_ok(*self, labels@, start_time, end_time, v@),
            (start_time > self.end_time || end_time < self.start_time) ==> r is Err,
    {
        if !is_duration_overlap(self.start_time, self.end_time, start_time, end_time) {
            return Err(MonolithErr::OutOfRangeErr(self.start_time, self.end_time));
        }
        let candidates = match self.indexer.get_series_metadata_contains_labels(labels) {
            Ok(c) => c,
            Err(e) => {
                return Err(e);
            },
        };
        let ghost cands = candidates@;
        let n = candidates.len();
        let mut res: Vec<TimeSeries> = Vec::new();
        proof {
            reveal(Seq::filter);
            assert(cands.take(0int) =~= Seq::<(TimeSeriesId, Labels)>::empty());
            assert(kept_candidates(self.storage.sview(), cands.take(0int), start_time, end_time)
                =~= Seq::<(TimeSeriesId, Labels)>::empty());
        }
        let mut i: usize = 0;
        while i < n
            invariant
                i <= n,
                n == cands.len(),
                cands == candidates@,
                crate::indexer::metadata_rows_ok(self.indexer.iview(), labels@, cands),
                res@.len() == kept_candidates(
                    self.storage.sview(),
                    cands.take(i as int),
                    start_time,
                    end_time,
                ).len(),
                forall|j: int|
                    0 <= j < res@.len() ==> {
                        &&& (#[trigger] res@[j])@.0 == kept_candidates(
                            self.storage.sview(),
                            cands.take(i as int),
                            start_time,
                            end_time,
                        )[j].0
                        &&& res@[j]@.1 == kept_candidates(
                            self.storage.sview(),
                            cands.take(i as int),
                            start_time,
                            end_time,
                        )[j].1@
                        &&& self.storage.sview().contains_key(res@[j]@.0)
                        &&& res@[j]@.2 == trimmed(
                            decoded_series(self.storage.sview()[res@[j]@.0]),
                            start_time,
                            end_time,
                        )
                        &&& res@[j]@.2.len() > 0
                    },
            decreases n - i,
        {
            let (id, metadata) = match candidates[i] {
                (id, ref m) => (id, m.duplicate()),
            };
            let data = match self.storage.read_time_series(id, start_time, end_time) {
                Ok(d) => d,
                Err(e) => {
                    return Err(e);
                },
            };
            let ghost kept_pre = kept_candidates(
                self.storage.sview(),
                cands.take(i as int),
                start_time,
                end_time,
            );
            proof {
                reveal(Seq::filter);
                assert(cands.take(i + 1) =~= cands.take(i as int).push(cands[i as int]));
                assert(cands.take(i as int).push(cands[i as int]).drop_last() =~= cands.take(
                    i as int,
                ));
                assert(cands.take(i as int).push(cands[i as int]).last() == cands[i as int]);
                assert(cands[i as int].0 == id);
                assert(stored_or_empty(self.storage.sview(), id) == self.storage.sview()[id]);
                assert(data@ == trimmed(
                    decoded_series(stored_or_empty(self.storage.sview(), id)),
                    start_time,
                    end_time,
                ));
            }
            if data.len() == 0 {
                proof {
                    assert(kept_candidates(
                        self.storage.sview(),
                        cands.take(i + 1),
                        start_time,
                        end_time,
                    ) =~= kept_pre);
                }
                i = i + 1;
                continue ;
            }
            res.push(TimeSeries::from_data(id, metadata, data));
            proof {
                assert(kept_candidates(
                    self.storage.sview(),
                    cands.take(i + 1),
                    start_time,
                    end_time,
                ) =~= kept_pre.push(cands[i as int]));
            }
            i = i + 1;
        }
        proof {
            assert(cands.take(n as int) =~= cands);
        }
        Ok(res)
    }

    /// Whether the chunk's window meets the closed query window
    /// `[start_time, end_time]`.
    pub fn is_with_range(&self, start_time: Timestamp, end_time: Timestamp) -> (r: bool)
        ensures
            r == !(self.start_time > end_time || self.end_time < start_time),
    {
        is_duration_overlap(self.start_time, self.end_time, start_time, end_time)
    }

    /// Start and end time of this chunk.
    pub fn start_end_time(&self) -> (r: (Timestamp, Timestamp))
        ensures
            r.0 == self.start_time,
            r.1 == self.end_time,
    {
        (self.start_time, self.end_time)
    }

    /// Whether a timestamp falls in the chunk's half-open window.
    pub fn is_in_range(&self, timestamp: &Timestamp) -> (r: bool)
        ensures
            r == in_window(self.start_time, self.end_time, *timestamp),
    {
        self.start_time <= *timestamp && *timestamp < self.end_time
    }
}

/// The id generator never falls back: any accepted insert leaves it where
/// it was or one higher.
pub proof fn lemma_insert_gen_monotone<S: Storage, I: Indexer>(
    a: Chunk<S, I>,
    b: Chunk<S, I>,
    ls: Seq<(Seq<char>, Seq<char>)>,
    tp: TimePoint,
)
    requires
        insert_step_ok(a, b, ls, tp),
    ensures
        a.id_generator@ <= b.id_generator@ <= a.id_generator@ + 1,
{
}

/// Fresh ids strictly increase. A series-creating insert assigns the
/// generator's current value and advances it, so with the generator never
/// decreasing in between, a later creating insert assigns a strictly
/// greater id; a chunk born with its generator at 1 never assigns 0.
pub proof fn lemma_fresh_ids_strictly_increase<S: Storage, I: Indexer>(
    a: Chunk<S, I>,
    b: Chunk<S, I>,
    la: Seq<(Seq<char>, Seq<char>)>,
    ta: TimePoint,
    c: Chunk<S, I>,
    d: Chunk<S, I>,
    lc: Seq<(Seq<char>, Seq<char>)>,
    tc: TimePoint,
)
    requires
        insert_step_ok(a, b, la, ta),
        b.id_generator@ == a.id_generator@ + 1,
        insert_step_ok(c, d, lc, tc),
        d.id_generator@ == c.id_generator@ + 1,
        b.id_generator@ <= c.id_generator@,
    ensures
        c.id_generator@ > a.id_generator@,
        a.id_generator@ >= 1 ==> a.id_generator@ != 0 && c.id_generator@ != 0,
{
}

} // verus!
