//! The database: one active chunk and the ordered closed chunks behind it.
//! Recovery, timers and rotation scheduling live at the edge and hand
//! ready-built chunks in; the decisions are made and verified here.

use crate::chunk::{in_window, insert_step_ok, Chunk};
use crate::compaction::{be_bytes_of, u64_to_be_bytes};
use crate::error::MonolithErr;
use crate::indexer::{joined_pairs, utf8, Indexer};
use crate::label::Labels;
use crate::option::DbOpts;
use crate::sled_indexer::KvIndexerProcessor;
use crate::storage::Storage;
use crate::time_point::TimePoint;
use crate::time_series::LabelPointPairs;
use crate::wal::{
    wal_append_step, wal_room_ok, wal_wf, EntryType, FlushPolicy, Wal, WalConfig,
};
use crate::Timestamp;
use vstd::prelude::*;

verus! {

/// The byte run of a batch's samples: each one's timestamp then value,
/// big-endian.
pub open spec fn points_bytes(tps: Seq<TimePoint>) -> Seq<u8>
    decreases tps.len(),
{
    if tps.len() == 0 {
        Seq::<u8>::empty()
    } else {
        points_bytes(tps.drop_last()) + be_bytes_of(tps.last().timestamp) + be_bytes_of(
            tps.last().value,
        )
    }
}

/// One log record: the sample count, the samples, then the label pairs
/// joined as UTF-8 text. Replay splits on the count, reads the samples,
/// and decodes the label text back to a label set.
pub open spec fn sample_record_of(
    ls: Seq<(Seq<char>, Seq<char>)>,
    tps: Seq<TimePoint>,
) -> Seq<u8> {
    be_bytes_of(tps.len() as u64) + points_bytes(tps) + utf8(joined_pairs(ls))
}

/// Build the log record for one batch under one label set.
fn build_sample_record(labels: &Labels, points: &Vec<TimePoint>) -> (r: Vec<u8>)
    ensures
        r@ == sample_record_of(labels@, points@),
{
    let n = points.len();
    let mut r = u64_to_be_bytes(n as u64);
    let mut i: usize = 0;
    proof {
        assert(points@.take(0int) =~= Seq::<TimePoint>::empty());
    }
    while i < n
        invariant
            i <= n,
            n == points@.len(),
            r@ == be_bytes_of(n as u64) + points_bytes(points@.take(i as int)),
        decreases n - i,
    {
        let mut tsb = u64_to_be_bytes(points[i].timestamp);
        r.append(&mut tsb);
        let mut vb = u64_to_be_bytes(points[i].value);
        r.append(&mut vb);
        proof {
            assert(points@.take(i + 1).drop_last() =~= points@.take(i as int));
            assert(points@.take(i + 1).last() == points@[i as int]);
        }
        i = i + 1;
    }
    let joined = KvIndexerProcessor::join_labels(labels);
    let mut lb = joined.as_str().as_bytes_vec();
    r.append(&mut lb);
    proof {
        assert(points@.take(n as int) =~= points@);
    }
    r
}

/// A batch point is taken: it lies in the active half-open window and its
/// timestamp is not the reserved zero.
pub open spec fn eligible_point(start: Timestamp, end: Timestamp, tp: TimePoint) -> bool {
    start <= tp.timestamp < end && tp.timestamp != 0
}

/// The value of a chunk with its closed flag raised.
pub open spec fn closed_copy<S: Storage, I: Indexer>(c: Chunk<S, I>) -> Chunk<S, I> {
    Chunk { closed: true, ..c }
}

/// What a chunk keeps across a failed insert: its window, its closed flag,
/// and a never-decreasing id counter.
pub open spec fn insert_err_frame<S: Storage, I: Indexer>(
    pre: Chunk<S, I>,
    post: Chunk<S, I>,
) -> bool {
    &&& post.start_time == pre.start_time
    &&& post.end_time == pre.end_time
    &&& post.closed == pre.closed
    &&& post.id_generator@ >= pre.id_generator@
}

/// The storage engine: an active chunk taking writes and the closed chunks,
/// ordered by start time, answering reads. Every accepted write is first
/// appended to the write-ahead log under a write-through policy; the edge
/// persists the active segment's `synced` growth and fsyncs before
/// acknowledging. On restart the edge replays the persisted segments
/// oldest-first through `SegmentReader`, re-applies each record's samples,
/// and the rebuilt engine starts a fresh log.
pub struct MonolithDb<S: Storage, I: Indexer> {
    pub current_chunk: Chunk<S, I>,
    pub secondary_chunks: Vec<Chunk<S, I>>,
    pub options: DbOpts,
    pub wal: Wal,
}

impl<S: Storage, I: Indexer> MonolithDb<S, I> {
    /// Assemble a database from recovered parts, with a fresh write-ahead
    /// log: recovery has already replayed the old one.
    pub fn new(current_chunk: Chunk<S, I>, secondary_chunks: Vec<Chunk<S, I>>, options: DbOpts)
        -> (r: MonolithDb<S, I>)
        ensures
            r.current_chunk == current_chunk,
            r.secondary_chunks == secondary_chunks,
            r.options == options,
            wal_wf(r.wal),
            r.wal.next_seq == 1,
            r.wal.segments@.len() == 0,
    {
        let wal = Wal::open(
            WalConfig { sync_policy: FlushPolicy::Immediate, initial_seq: 1 },
            64 * 1024 * 1024,
        );
        MonolithDb { current_chunk, secondary_chunks, options, wal }
    }

    /// Insert one sample into the active chunk. The sample is first
    /// appended to the write-ahead log as a one-sample record whenever it
    /// fits an entry and the log has room; the insert proceeds either way.
    pub fn write_time_point(&mut self, labels: Labels, timepoint: TimePoint) -> (r: Result<
        (),
        MonolithErr,
    >)
        requires
            wal_wf(old(self).wal),
        ensures
            final(self).current_chunk.start_time == old(self).current_chunk.start_time,
            final(self).current_chunk.end_time == old(self).current_chunk.end_time,
            final(self).secondary_chunks == old(self).secondary_chunks,
            r is Ok ==> !old(self).current_chunk.closed && in_window(
                old(self).current_chunk.start_time,
                old(self).current_chunk.end_time,
                timepoint.timestamp,
            ),
            r is Ok ==> insert_step_ok(
                old(self).current_chunk,
                final(self).current_chunk,
                labels@,
                timepoint,
            ),
            wal_wf(final(self).wal),
            sample_record_of(labels@, seq![timepoint]).len() <= 0xFFFF && wal_room_ok(
                old(self).wal,
            ) ==> wal_append_step(
                old(self).wal,
                final(self).wal,
                sample_record_of(labels@, seq![timepoint]),
            ),
            !(sample_record_of(labels@, seq![timepoint]).len() <= 0xFFFF && wal_room_ok(
                old(self).wal,
            )) ==> final(self).wal == old(self).wal,
    {
        let mut pts: Vec<TimePoint> = Vec::new();
        pts.push(timepoint);
        proof {
            assert(pts@ =~= seq![timepoint]);
        }
        let record = build_sample_record(&labels, &pts);
        if record.len() <= 0xFFFF && self.wal.has_room() {
            let logged = self.wal.write(EntryType::Default, record);
            proof {
                assert(logged is Ok);
            }
        }
        self.current_chunk.insert(labels, timepoint)
    }

    /// Insert samples sharing one label set. Points outside the active
    /// half-open window, and points at timestamp 0, are silently dropped;
    /// the rest are inserted in order, and on success the active chunk is
    /// the result of exactly those accepted inserts; a non-empty set of
    /// failed inserts surfaces as `InternalErr`. The whole batch is first
    /// appended to the write-ahead log as one record whenever it fits an
    /// entry and the log has room; the inserts proceed either way.
    pub fn write_time_points(&mut self, labels: Labels, timepoints: Vec<TimePoint>) -> (r: Result<
        (),
        MonolithErr,
    >)
        requires
            wal_wf(old(self).wal),
        ensures
            wal_wf(final(self).wal),
            sample_record_of(labels@, timepoints@).len() <= 0xFFFF && wal_room_ok(old(self).wal)
                ==> wal_append_step(
                old(self).wal,
                final(self).wal,
                sample_record_of(labels@, timepoints@),
            ),
            !(sample_record_of(labels@, timepoints@).len() <= 0xFFFF && wal_room_ok(
                old(self).wal,
            )) ==> final(self).wal == old(self).wal,
            final(self).current_chunk.start_time == old(self).current_chunk.start_time,
            final(self).current_chunk.end_time == old(self).current_chunk.end_time,
            final(self).secondary_chunks == old(self).secondary_chunks,
            r matches Err(e) ==> e is InternalErr,
            r is Ok ==> exists|states: Seq<Chunk<S, I>>|
                {
                    &&& #[trigger] states.len() == timepoints@.len() + 1
                    &&& states.first() == old(self).current_chunk
                    &&& states.last() == final(self).current_chunk
                    &&& forall|k: int|
                        0 <= k < timepoints@.len() ==> (if eligible_point(
                            old(self).current_chunk.start_time,
                            old(self).current_chunk.end_time,
                            timepoints@[k],
                        ) {
                            insert_step_ok(
                                #[trigger] states[k],
                                states[k + 1],
                                labels@,
                                timepoints@[k],
                            )
                        } else {
                            states[k + 1] == states[k]
                        })
                },
            r is Err ==> exists|states: Seq<Chunk<S, I>>, oks: Seq<bool>|
                {
                    &&& #[trigger] states.len() == timepoints@.len() + 1
                    &&& #[trigger] oks.len() == timepoints@.len()
                    &&& states.first() == old(self).current_chunk
                    &&& states.last() == final(self).current_chunk
                    &&& (exists|k: int| 0 <= k < oks.len() && !(#[trigger] oks[k]))
                    &&& forall|k: int|
                        0 <= k < timepoints@.len() ==> (if eligible_point(
                            old(self).current_chunk.start_time,
                            old(self).current_chunk.end_time,
                            timepoints@[k],
                        ) {
                            if oks[k] {
                                insert_step_ok(
                                    #[trigger] states[k],
                                    states[k + 1],
                                    labels@,
                                    timepoints@[k],
                                )
                            } else {
                                insert_err_frame(states[k], states[k + 1])
                            }
                        } else {
                            states[k + 1] == states[k] && oks[k]
                        })
                },
    {
        let record = build_sample_record(&labels, &timepoints);
        if record.len() <= 0xFFFF && self.wal.has_room() {
            let logged = self.wal.write(EntryType::Default, record);
            proof {
                assert(logged is Ok);
            }
        }
        let ghost wal1 = self.wal;
        let ghost c0 = self.current_chunk;
        let (start_time, end_time) = self.current_chunk.start_end_time();
        let n = timepoints.len();
        let mut failed: usize = 0;
        let ghost mut states: Seq<Chunk<S, I>> = seq![c0];
        let ghost mut oks: Seq<bool> = Seq::<bool>::empty();
        let mut i: usize = 0;
        while i < n
            invariant
                i <= n,
                n == timepoints@.len(),
                failed <= i,
                c0 == old(self).current_chunk,
                start_time == old(self).current_chunk.start_time,
                end_time == old(self).current_chunk.end_time,
                self.current_chunk.start_time == old(self).current_chunk.start_time,
                self.current_chunk.end_time == old(self).current_chunk.end_time,
                self.secondary_chunks == old(self).secondary_chunks,
                self.wal == wal1,
                wal_wf(wal1),
                sample_record_of(labels@, timepoints@).len() <= 0xFFFF && wal_room_ok(
                    old(self).wal,
                ) ==> wal_append_step(
                    old(self).wal,
                    wal1,
                    sample_record_of(labels@, timepoints@),
                ),
                !(sample_record_of(labels@, timepoints@).len() <= 0xFFFF && wal_room_ok(
                    old(self).wal,
                )) ==> wal1 == old(self).wal,
                states.len() == i + 1,
                oks.len() == i,
                states.first() == c0,
                states.last() == self.current_chunk,
                failed == 0 ==> (forall|k: int| 0 <= k < i ==> #[trigger] oks[k]),
                failed > 0 ==> (exists|k: int| 0 <= k < i && !(#[trigger] oks[k])),
                forall|k: int|
                    0 <= k < i ==> (if eligible_point(c0.start_time, c0.end_time, timepoints@[k]) {
                        if oks[k] {
                            insert_step_ok(
                                #[trigger] states[k],
                                states[k + 1],
                                labels@,
                                timepoints@[k],
                            )
                        } else {
                            insert_err_frame(states[k], states[k + 1])
                        }
                    } else {
                        states[k + 1] == states[k] && oks[k]
                    }),
            decreases n - i,
        {
            let tp = timepoints[i];
            let ghost pre_states = states;
            let ghost pre_oks = oks;
            let ghost pre_chunk = self.current_chunk;
            let ghost pre_failed = failed as int;
            if tp.timestamp >= start_time && tp.timestamp < end_time && tp.timestamp != 0 {
                match self.current_chunk.insert(labels.duplicate(), tp) {
                    Ok(_) => {
                        proof {
                            states = states.push(self.current_chunk);
                            oks = oks.push(true);
                            assert(insert_step_ok(pre_chunk, self.current_chunk, labels@, tp));
                        }
                    },
                    Err(_) => {
                        failed = failed + 1;
                        proof {
                            states = states.push(self.current_chunk);
                            oks = oks.push(false);
                            assert(insert_err_frame(pre_chunk, self.current_chunk));
                        }
                    },
                }
            } else {
                proof {
                    states = states.push(self.current_chunk);
                    oks = oks.push(true);
                }
            }
            proof {
                assert(states.last() == self.current_chunk);
                assert(states[i as int] == pre_states[i as int] && pre_states[i as int]
                    == pre_chunk);
                assert(states[i + 1] == self.current_chunk);
                assert(oks[i as int] == oks.last());
                assert(forall|k: int| 0 <= k < i ==> #[trigger] pre_oks[k] == oks[k]);
                assert(forall|k: int|
                    0 <= k < i ==> #[trigger] pre_states[k] == states[k] && pre_states[k + 1]
                        == states[k + 1]);
                if pre_failed > 0 {
                    let w = choose|k: int| 0 <= k < i && !(#[trigger] pre_oks[k]);
                    assert(0 <= w < i + 1 && !oks[w]);
                }
                if failed as int > pre_failed {
                    assert(!oks[i as int]);
                }
                assert forall|k: int| 0 <= k < i + 1 implies (if eligible_point(
                    c0.start_time,
                    c0.end_time,
                    timepoints@[k],
                ) {
                    if oks[k] {
                        insert_step_ok(#[trigger] states[k], states[k + 1], labels@, timepoints@[k])
                    } else {
                        insert_err_frame(states[k], states[k + 1])
                    }
                } else {
                    states[k + 1] == states[k] && oks[k]
                }) by {
                    if k < i {
                        assert(states[k] == pre_states[k] && states[k + 1] == pre_states[k + 1]
                            && oks[k] == pre_oks[k]);
                    } else {
                        assert(k == i);
                        assert(states[k] == pre_chunk && states[k + 1] == self.current_chunk);
                        assert(timepoints@[k] == tp);
                    }
                }
            }
            i = i + 1;
        }
        if failed > 0 {
            proof {
                let w = choose|k: int| 0 <= k < n && !(#[trigger] oks[k]);
                assert(0 <= w < oks.len() && !oks[w]);
            }
            return Err(
                MonolithErr::InternalErr(String::from_str("multiple time point cannot insert")),
            );
        }
        proof {
            assert(states.len() == n + 1);
        }
        Ok(())
    }

    /// Answer a range query across every chunk whose window meets
    /// `[start_time, end_time]`, oldest first and the active chunk last,
    /// merging the per-chunk answers by label set so each series' points
    /// stay in time order. The result is the chained merge of one answer
    /// per chunk, where each non-empty answer satisfies the chunk's own
    /// query contract; a chunk that is skipped or fails contributes the
    /// empty answer.
    pub fn query(&self, labels: Labels, start_time: Timestamp, end_time: Timestamp) -> (r: Result<
        LabelPointPairs,
        MonolithErr,
    >)
        ensures
            r is Ok,
            r matches Ok(v) ==> exists|
                accs: Seq<Seq<(Labels, Vec<TimePoint>)>>,
                answers: Seq<Seq<crate::time_series::TimeSeries>>,
            |
                {
                    &&& #[trigger] accs.len() == self.secondary_chunks@.len() + 2
                    &&& #[trigger] answers.len() == self.secondary_chunks@.len() + 1
                    &&& accs.first() == Seq::<(Labels, Vec<TimePoint>)>::empty()
                    &&& accs.last() == v@
                    &&& forall|c: int|
                        0 <= c < answers.len() ==> {
                            &&& merge_rel(accs[c], #[trigger] answers[c], accs[c + 1])
                            &&& (answers[c].len() > 0 ==> crate::chunk::query_rows_ok(
                                if c < self.secondary_chunks@.len() {
                                    self.secondary_chunks@[c]
                                } else {
                                    self.current_chunk
                                },
                                labels@,
                                start_time,
                                end_time,
                                answers[c],
                            ))
                        }
                },
    {
        let mut acc: Vec<(Labels, Vec<TimePoint>)> = Vec::new();
        let ghost mut accs: Seq<Seq<(Labels, Vec<TimePoint>)>> = seq![acc@];
        let ghost mut answers: Seq<Seq<crate::time_series::TimeSeries>> = Seq::empty();
        let n = self.secondary_chunks.len();
        proof {
            assert(acc@ =~= Seq::<(Labels, Vec<TimePoint>)>::empty());
        }
        let mut i: usize = 0;
        while i < n
            invariant
                i <= n,
                n == self.secondary_chunks@.len(),
                distinct_views(entry_views(acc@)),
                accs.len() == i + 1,
                answers.len() == i,
                accs.first() == Seq::<(Labels, Vec<TimePoint>)>::empty(),
                accs.last() == acc@,
                forall|c: int|
                    0 <= c < i ==> {
                        &&& merge_rel(accs[c], #[trigger] answers[c], accs[c + 1])
                        &&& (answers[c].len() > 0 ==> crate::chunk::query_rows_ok(
                            self.secondary_chunks@[c],
                            labels@,
                            start_time,
                            end_time,
                            answers[c],
                        ))
                    },
            decreases n - i,
        {
            let ghost pre_acc = acc@;
            let chunk = &self.secondary_chunks[i];
            let mut answered = false;
            if chunk.is_with_range(start_time, end_time) {
                match chunk.query(labels.duplicate(), start_time, end_time) {
                    Ok(found) => {
                        merge_series(&mut acc, &found);
                        proof {
                            answers = answers.push(found@);
                            accs = accs.push(acc@);
                        }
                        answered = true;
                    },
                    Err(_) => {},
                }
            }
            if !answered {
                proof {
                    answers = answers.push(Seq::<crate::time_series::TimeSeries>::empty());
                    accs = accs.push(acc@);
                    lemma_merge_rel_empty(pre_acc);
                }
            }
            i = i + 1;
        }
        let ghost pre_acc = acc@;
        let mut answered = false;
        match self.current_chunk.query(labels.duplicate(), start_time, end_time) {
            Ok(found) => {
                merge_series(&mut acc, &found);
                proof {
                    answers = answers.push(found@);
                    accs = accs.push(acc@);
                }
                answered = true;
            },
            Err(_) => {},
        }
        if !answered {
            proof {
                answers = answers.push(Seq::<crate::time_series::TimeSeries>::empty());
                accs = accs.push(acc@);
                lemma_merge_rel_empty(pre_acc);
            }
        }
        proof {
            assert(accs.len() == n + 2);
            assert(answers.len() == n + 1);
            assert(accs.last() == acc@);
        }
        Ok(acc)
    }

    /// Rotate: close the active chunk, move it to the end of the closed
    /// chunks, and make `new_chunk` the active one. Nothing is lost: the
    /// old chunk, with everything it stored, stands closed among the
    /// secondaries, and every read now spans both it and the new chunk.
    pub fn swap(&mut self, new_chunk: Chunk<S, I>) -> (r: Result<(), MonolithErr>)
        ensures
            r is Ok,
            final(self).current_chunk == new_chunk,
            final(self).secondary_chunks@ == old(self).secondary_chunks@.push(
                closed_copy(old(self).current_chunk),
            ),
            final(self).options == old(self).options,
            final(self).wal == old(self).wal,
    {
        let mut incoming = new_chunk;
        core::mem::swap(&mut self.current_chunk, &mut incoming);
        incoming.close();
        proof {
            assert(incoming == closed_copy(old(self).current_chunk));
        }
        self.secondary_chunks.push(incoming);
        Ok(())
    }
}

/// The label-set views of the accumulator's entries, in entry order.
pub open spec fn entry_views(acc: Seq<(Labels, Vec<TimePoint>)>) -> Seq<
    Seq<(Seq<char>, Seq<char>)>,
> {
    acc.map(|i: int, e: (Labels, Vec<TimePoint>)| e.0@)
}

/// No two accumulator entries share a label set.
pub open spec fn distinct_views(views: Seq<Seq<(Seq<char>, Seq<char>)>>) -> bool {
    forall|a: int, b: int| 0 <= a < b < views.len() ==> views[a] != views[b]
}

/// The label-set views after merging a run of found series: each new label
/// set is appended once, at its first appearance.
pub open spec fn merged_views(
    views: Seq<Seq<(Seq<char>, Seq<char>)>>,
    found: Seq<crate::time_series::TimeSeries>,
) -> Seq<Seq<(Seq<char>, Seq<char>)>>
    decreases found.len(),
{
    if found.len() == 0 {
        views
    } else if views.contains(found.first()@.1) {
        merged_views(views, found.drop_first())
    } else {
        merged_views(views.push(found.first()@.1), found.drop_first())
    }
}

/// The points the found series contribute to one label set, in found
/// order.
pub open spec fn points_for(
    found: Seq<crate::time_series::TimeSeries>,
    lv: Seq<(Seq<char>, Seq<char>)>,
) -> Seq<TimePoint>
    decreases found.len(),
{
    if found.len() == 0 {
        Seq::<TimePoint>::empty()
    } else if found.first()@.1 == lv {
        found.first()@.2 + points_for(found.drop_first(), lv)
    } else {
        points_for(found.drop_first(), lv)
    }
}

/// One merge of a chunk's answer into the accumulator: existing entries
/// keep their label sets and append exactly their series' points in found
/// order; each new label set becomes one new entry holding its points.
pub open spec fn merge_rel(
    pre: Seq<(Labels, Vec<TimePoint>)>,
    found: Seq<crate::time_series::TimeSeries>,
    post: Seq<(Labels, Vec<TimePoint>)>,
) -> bool {
    &&& entry_views(post) == merged_views(entry_views(pre), found)
    &&& (forall|j: int| 0 <= j < pre.len() ==> (#[trigger] post[j]).0 == pre[j].0)
    &&& (forall|j: int|
        0 <= j < post.len() ==> (#[trigger] post[j]).1@ == (if j < pre.len() {
            pre[j].1@
        } else {
            Seq::<TimePoint>::empty()
        }) + points_for(found, post[j].0@))
}

/// Merging distributes over splitting the found run.
proof fn lemma_merged_views_concat(
    views: Seq<Seq<(Seq<char>, Seq<char>)>>,
    a: Seq<crate::time_series::TimeSeries>,
    b: Seq<crate::time_series::TimeSeries>,
)
    ensures
        merged_views(views, a + b) == merged_views(merged_views(views, a), b),
    decreases a.len(),
{
    if a.len() == 0 {
        assert(a + b =~= b);
    } else {
        assert((a + b).first() == a.first());
        assert((a + b).drop_first() =~= a.drop_first() + b);
        if views.contains(a.first()@.1) {
            lemma_merged_views_concat(views, a.drop_first(), b);
        } else {
            lemma_merged_views_concat(views.push(a.first()@.1), a.drop_first(), b);
        }
    }
}

/// Point contributions distribute over splitting the found run.
proof fn lemma_points_for_concat(
    a: Seq<crate::time_series::TimeSeries>,
    b: Seq<crate::time_series::TimeSeries>,
    lv: Seq<(Seq<char>, Seq<char>)>,
)
    ensures
        points_for(a + b, lv) == points_for(a, lv) + points_for(b, lv),
    decreases a.len(),
{
    if a.len() == 0 {
        assert(a + b =~= b);
        assert(points_for(a, lv) + points_for(b, lv) =~= points_for(b, lv));
    } else {
        assert((a + b).first() == a.first());
        assert((a + b).drop_first() =~= a.drop_first() + b);
        lemma_points_for_concat(a.drop_first(), b, lv);
        if a.first()@.1 == lv {
            assert(a.first()@.2 + (points_for(a.drop_first(), lv) + points_for(b, lv))
                =~= (a.first()@.2 + points_for(a.drop_first(), lv)) + points_for(b, lv));
        }
    }
}

/// A label set no found series carries gets no points.
proof fn lemma_points_for_absent(
    found: Seq<crate::time_series::TimeSeries>,
    lv: Seq<(Seq<char>, Seq<char>)>,
)
    requires
        forall|t: int| 0 <= t < found.len() ==> (#[trigger] found[t])@.1 != lv,
    ensures
        points_for(found, lv) == Seq::<TimePoint>::empty(),
    decreases found.len(),
{
    if found.len() > 0 {
        assert(found.first() == found[0]);
        assert(forall|t: int|
            0 <= t < found.len() - 1 ==> (#[trigger] found.drop_first()[t]) == found[t + 1]);
        lemma_points_for_absent(found.drop_first(), lv);
    }
}

/// The first accumulator entry carrying exactly this label set, if any.
fn find_entry_index(acc: &Vec<(Labels, Vec<TimePoint>)>, meta: &Labels) -> (r: Option<usize>)
    ensures
        r matches Some(j) ==> j < acc@.len() && acc@[j as int].0@ == meta@,
        r is None ==> forall|t: int| 0 <= t < acc@.len() ==> (#[trigger] acc@[t]).0@ != meta@,
{
    let m = acc.len();
    let mut j: usize = 0;
    while j < m
        invariant
            j <= m,
            m == acc@.len(),
            forall|t: int| 0 <= t < j ==> (#[trigger] acc@[t]).0@ != meta@,
        decreases m - j,
    {
        let hit = {
            let entry = &acc[j];
            entry.0 == *meta
        };
        if hit {
            return Some(j);
        }
        j = j + 1;
    }
    None
}

/// Merging the empty answer changes nothing.
proof fn lemma_merge_rel_empty(pre: Seq<(Labels, Vec<TimePoint>)>)
    ensures
        merge_rel(pre, Seq::<crate::time_series::TimeSeries>::empty(), pre),
{
    assert forall|j: int| 0 <= j < pre.len() implies (#[trigger] pre[j]).1@ == (if j < pre.len() {
        pre[j].1@
    } else {
        Seq::<TimePoint>::empty()
    }) + points_for(Seq::<crate::time_series::TimeSeries>::empty(), pre[j].0@) by {
        assert(pre[j].1@ + Seq::<TimePoint>::empty() =~= pre[j].1@);
    }
}

/// Merging one series into the view run.
proof fn lemma_merged_views_single(
    views: Seq<Seq<(Seq<char>, Seq<char>)>>,
    ts: crate::time_series::TimeSeries,
)
    ensures
        views.contains(ts@.1) ==> merged_views(views, seq![ts]) == views,
        !views.contains(ts@.1) ==> merged_views(views, seq![ts]) == views.push(ts@.1),
{
    assert(seq![ts].first() == ts);
    assert(seq![ts].drop_first() =~= Seq::<crate::time_series::TimeSeries>::empty());
    assert(merged_views(views, Seq::<crate::time_series::TimeSeries>::empty()) == views);
    assert(merged_views(views.push(ts@.1), Seq::<crate::time_series::TimeSeries>::empty())
        == views.push(ts@.1));
}

/// One series' point contribution.
proof fn lemma_points_for_single(
    ts: crate::time_series::TimeSeries,
    lv: Seq<(Seq<char>, Seq<char>)>,
)
    ensures
        ts@.1 == lv ==> points_for(seq![ts], lv) == ts@.2,
        ts@.1 != lv ==> points_for(seq![ts], lv) == Seq::<TimePoint>::empty(),
{
    assert(seq![ts].first() == ts);
    assert(seq![ts].drop_first() =~= Seq::<crate::time_series::TimeSeries>::empty());
    assert(points_for(Seq::<crate::time_series::TimeSeries>::empty(), lv)
        == Seq::<TimePoint>::empty());
    if ts@.1 == lv {
        assert(points_for(seq![ts], lv) =~= ts@.2);
    } else {
        assert(points_for(seq![ts], lv) =~= Seq::<TimePoint>::empty());
    }
}

/// Append each found series' points onto the accumulator entry with the
/// same label set, creating the entry if the label set is new.
#[verifier::rlimit(100)]
fn merge_series(
    acc: &mut Vec<(Labels, Vec<TimePoint>)>,
    found: &Vec<crate::time_series::TimeSeries>,
)
    requires
        distinct_views(entry_views(old(acc)@)),
    ensures
        merge_rel(old(acc)@, found@, final(acc)@),
        distinct_views(entry_views(final(acc)@)),
{
    let ghost acc0 = acc@;
    let n = found.len();
    proof {
        assert(found@.take(0int) =~= Seq::<crate::time_series::TimeSeries>::empty());
        assert forall|j: int| 0 <= j < acc@.len() implies (#[trigger] acc@[j]).1@ == (if j
            < acc0.len() {
            acc0[j].1@
        } else {
            Seq::<TimePoint>::empty()
        }) + points_for(found@.take(0int), acc@[j].0@) by {
            assert(acc@[j].1@ + Seq::<TimePoint>::empty() =~= acc@[j].1@);
        }
    }
    let mut i: usize = 0;
    while i < n
        invariant
            i <= n,
            n == found@.len(),
            acc0.len() <= acc@.len(),
            distinct_views(entry_views(acc@)),
            entry_views(acc@) == merged_views(entry_views(acc0), found@.take(i as int)),
            forall|j: int| 0 <= j < acc0.len() ==> (#[trigger] acc@[j]).0 == acc0[j].0,
            forall|j: int|
                0 <= j < acc@.len() ==> (#[trigger] acc@[j]).1@ == (if j < acc0.len() {
                    acc0[j].1@
                } else {
                    Seq::<TimePoint>::empty()
                }) + points_for(found@.take(i as int), acc@[j].0@),
            forall|t: int|
                0 <= t < i ==> entry_views(acc@).contains((#[trigger] found@[t])@.1),
        decreases n - i,
    {
        let ts = &found[i];
        let ghost pre = acc@;
        let ghost fi = found@[i as int];
        let ghost single = seq![fi];
        proof {
            assert(found@.take(i + 1) =~= found@.take(i as int) + single);
            lemma_merged_views_concat(entry_views(acc0), found@.take(i as int), single);
            lemma_merged_views_single(entry_views(pre), fi);
        }
        let meta = ts.meta_data();
        let points = ts.time_points();
        match find_entry_index(acc, meta) {
            Some(j) => {
                let entry = &mut acc[j];
                append_points(&mut entry.1, points);
                proof {
                    assert(acc@[j as int].0 == pre[j as int].0);
                    assert(acc@[j as int].1@ == pre[j as int].1@ + fi@.2);
                    assert(forall|t: int|
                        0 <= t < acc@.len() && t != j ==> acc@[t] == #[trigger] pre[t]);
                    assert(entry_views(pre)[j as int] == fi@.1);
                    assert(entry_views(pre).contains(fi@.1));
                    assert(entry_views(acc@) =~= entry_views(pre));
                    assert forall|j2: int| 0 <= j2 < acc@.len() implies (#[trigger] acc@[j2]).1@
                        == (if j2 < acc0.len() {
                        acc0[j2].1@
                    } else {
                        Seq::<TimePoint>::empty()
                    }) + points_for(found@.take(i + 1), acc@[j2].0@) by {
                        lemma_points_for_concat(found@.take(i as int), single, acc@[j2].0@);
                        lemma_points_for_single(fi, acc@[j2].0@);
                        let base: Seq<TimePoint> = if j2 < acc0.len() {
                            acc0[j2].1@
                        } else {
                            Seq::<TimePoint>::empty()
                        };
                        if j2 == j {
                            assert(acc@[j2].1@ =~= base + (points_for(
                                found@.take(i as int),
                                acc@[j2].0@,
                            ) + fi@.2));
                        } else {
                            assert(acc@[j2].0@ != fi@.1) by {
                                assert(entry_views(pre)[j2] == pre[j2].0@);
                            }
                            assert(acc@[j2].1@ =~= base + (points_for(
                                found@.take(i as int),
                                acc@[j2].0@,
                            ) + Seq::<TimePoint>::empty()));
                        }
                    }
                    assert forall|t: int| 0 <= t < i + 1 implies entry_views(acc@).contains(
                        (#[trigger] found@[t])@.1,
                    ) by {
                        if t < i {
                            let a = choose|a: int|
                                0 <= a < entry_views(pre).len()
                                    && entry_views(pre)[a] == found@[t]@.1;
                            assert(entry_views(acc@)[a] == found@[t]@.1);
                        } else {
                            assert(entry_views(acc@)[j as int] == fi@.1);
                        }
                    }
                }
            },
            None => {
                let mut copied: Vec<TimePoint> = Vec::new();
                append_points(&mut copied, points);
                let fresh = meta.duplicate();
                acc.push((fresh, copied));
                proof {
                    assert(acc@.last().0@ == fi@.1);
                    assert(acc@.last().1@ =~= fi@.2);
                    assert(forall|t: int| 0 <= t < pre.len() ==> acc@[t] == #[trigger] pre[t]);
                    assert(!entry_views(pre).contains(fi@.1)) by {
                        if entry_views(pre).contains(fi@.1) {
                            let t = choose|t: int|
                                0 <= t < entry_views(pre).len() && entry_views(pre)[t] == fi@.1;
                            assert(pre[t].0@ == fi@.1);
                        }
                    }
                    assert(entry_views(acc@) =~= entry_views(pre).push(fi@.1));
                    assert(distinct_views(entry_views(acc@))) by {
                        assert(forall|a: int|
                            0 <= a < entry_views(pre).len() ==> #[trigger] entry_views(acc@)[a]
                                == entry_views(pre)[a]);
                    }
                    assert forall|j2: int| 0 <= j2 < acc@.len() implies (#[trigger] acc@[j2]).1@
                        == (if j2 < acc0.len() {
                        acc0[j2].1@
                    } else {
                        Seq::<TimePoint>::empty()
                    }) + points_for(found@.take(i + 1), acc@[j2].0@) by {
                        lemma_points_for_concat(found@.take(i as int), single, acc@[j2].0@);
                        lemma_points_for_single(fi, acc@[j2].0@);
                        let base: Seq<TimePoint> = if j2 < acc0.len() {
                            acc0[j2].1@
                        } else {
                            Seq::<TimePoint>::empty()
                        };
                        if j2 < pre.len() {
                            assert(acc@[j2].0@ != fi@.1) by {
                                assert(entry_views(pre)[j2] == pre[j2].0@);
                            }
                            assert(acc@[j2].1@ =~= base + (points_for(
                                found@.take(i as int),
                                acc@[j2].0@,
                            ) + Seq::<TimePoint>::empty()));
                        } else {
                            assert(j2 == pre.len());
                            assert(acc@[j2].0@ == fi@.1);
                            assert(points_for(found@.take(i as int), fi@.1)
                                =~= Seq::<TimePoint>::empty()) by {
                                assert forall|t: int| 0 <= t < i implies (#[trigger] found@.take(
                                    i as int,
                                )[t])@.1 != fi@.1 by {
                                    if found@[t]@.1 == fi@.1 {
                                        assert(entry_views(pre).contains(found@[t]@.1));
                                    }
                                }
                                lemma_points_for_absent(found@.take(i as int), fi@.1);
                            }
                            assert(acc@[j2].1@ =~= Seq::<TimePoint>::empty() + (points_for(
                                found@.take(i as int),
                                fi@.1,
                            ) + fi@.2));
                        }
                    }
                    assert forall|t: int| 0 <= t < i + 1 implies entry_views(acc@).contains(
                        (#[trigger] found@[t])@.1,
                    ) by {
                        if t < i {
                            let a = choose|a: int|
                                0 <= a < entry_views(pre).len()
                                    && entry_views(pre)[a] == found@[t]@.1;
                            assert(entry_views(acc@)[a] == found@[t]@.1);
                        } else {
                            assert(entry_views(acc@)[acc@.len() - 1] == fi@.1);
                        }
                    }
                }
            },
        }
        i = i + 1;
    }
    proof {
        assert(found@.take(n as int) =~= found@);
    }
}

/// Append a copy of every point of `src` to `dst`.
fn append_points(dst: &mut Vec<TimePoint>, src: &Vec<TimePoint>)
    ensures
        final(dst)@ == old(dst)@ + src@,
{
    let n = src.len();
    let mut i: usize = 0;
    while i < n
        invariant
            i <= n,
            n == src@.len(),
            dst@ == old(dst)@ + src@.take(i as int),
        decreases n - i,
    {
        let p = src[i];
        dst.push(p);
        proof {
            assert(old(dst)@ + src@.take(i + 1) =~= (old(dst)@ + src@.take(i as int)).push(
                src@[i as int],
            ));
        }
        i = i + 1;
    }
    proof {
        assert(src@.take(n as int) =~= src@);
    }
}

} // verus!
