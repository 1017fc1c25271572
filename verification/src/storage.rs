//! The sample store: per-series append-only byte records of
//! (timestamp, value) pairs, their codec, and range reads with trimming.

use crate::compaction::{be_bytes_of, be_u64, be_val, u64_to_be_bytes};
use crate::error::MonolithErr;
use crate::time_point::{strictly_increasing_ts, TimePoint};
use crate::time_series::TimeSeriesId;
use crate::{Timestamp, Value};
use vstd::prelude::*;

verus! {

/// The 16-byte record of one sample: big-endian timestamp, then value bits.
pub open spec fn encoded_point(timestamp: u64, value: u64) -> Seq<u8> {
    be_bytes_of(timestamp) + be_bytes_of(value)
}

/// The point a 16-byte record denotes.
pub open spec fn decoded_point(bytes: Seq<u8>) -> TimePoint {
    TimePoint {
        timestamp: be_u64(bytes.subrange(0, 8)),
        value: be_u64(bytes.subrange(8, 16)),
    }
}

/// A stored series is a whole number of 16-byte records.
pub open spec fn well_formed_series(bytes: Seq<u8>) -> bool {
    bytes.len() % 16 == 0
}

/// The points a stored series denotes, in storage order.
pub open spec fn decoded_series(bytes: Seq<u8>) -> Seq<TimePoint> {
    Seq::new((bytes.len() / 16) as nat, |i: int| decoded_point(bytes.subrange(16 * i, 16 * i + 16)))
}

/// Encodes one time point into its 16-byte record.
pub trait Encoder {
    fn encode_time_point(time_stamp: Timestamp, value: Value) -> (r: Result<Vec<u8>, MonolithErr>)
        ensures
            r matches Ok(v) && v@ == encoded_point(time_stamp, value),
    ;
}

/// Decodes one 16-byte record back into a time point.
pub trait Decoder {
    fn decode_time_point(raw: &[u8]) -> (r: Result<TimePoint, MonolithErr>)
        ensures
            raw@.len() == 16 ==> (r matches Ok(tp) && tp == decoded_point(raw@)),
            raw@.len() != 16 ==> r is Err,
    ;
}

/// The points of a series whose timestamps lie within `[start, end]`, in
/// their stored order.
pub open spec fn trimmed(series: Seq<TimePoint>, start: Timestamp, end: Timestamp) -> Seq<
    TimePoint,
> {
    series.filter(|tp: TimePoint| start <= tp.timestamp <= end)
}

/// Select the stored points whose timestamps lie within
/// `[start_time, end_time]`, keeping their order.
pub fn trim_time_series(
    series: Vec<TimePoint>,
    start_time: Timestamp,
    end_time: Timestamp,
) -> (r: Result<Vec<TimePoint>, MonolithErr>)
    ensures
        r matches Ok(v) && v@ == trimmed(series@, start_time, end_time),
{
    let n = series.len();
    let mut res: Vec<TimePoint> = Vec::new();
    proof {
        reveal(Seq::filter);
        assert(series@.take(0int) =~= Seq::<TimePoint>::empty());
        assert(trimmed(series@.take(0int), start_time, end_time) =~= Seq::<TimePoint>::empty());
    }
    let mut i: usize = 0;
    while i < n
        invariant
            i <= n,
            n == series@.len(),
            res@ == trimmed(series@.take(i as int), start_time, end_time),
        decreases n - i,
    {
        let tp = series[i];
        proof {
            reveal(Seq::filter);
            assert(series@.take(i + 1) =~= series@.take(i as int).push(tp));
            assert(series@.take(i as int).push(tp).drop_last() =~= series@.take(i as int));
            assert(series@.take(i as int).push(tp).last() == tp);
            assert(series@.take(i as int).push(tp).len() == i + 1);
            assert(trimmed(series@.take(i + 1), start_time, end_time) == if start_time
                <= tp.timestamp <= end_time {
                trimmed(series@.take(i as int), start_time, end_time).push(tp)
            } else {
                trimmed(series@.take(i as int), start_time, end_time)
            });
        }
        if start_time <= tp.timestamp && tp.timestamp <= end_time {
            res.push(tp);
        }
        i = i + 1;
    }
    proof {
        assert(series@.take(n as int) =~= series@);
    }
    Ok(res)
}

/// Storage keeps each series' samples and answers trimmed range reads. The
/// abstract view maps each known series id to its stored record bytes.
pub trait Storage: Sized {
    /// The stored bytes per series id.
    spec fn sview(&self) -> Map<TimeSeriesId, Seq<u8>>;

    /// Append one sample to a series, creating the series when new. Fails
    /// with `InternalErr` when the timestamp does not exceed the last stored
    /// one, or when the stored bytes are corrupt; backend failures surface
    /// as they are.
    fn write_time_point(&mut self, time_series_id: TimeSeriesId, timestamp: Timestamp, value: Value)
        -> (r: Result<(), MonolithErr>)
        ensures
            r is Ok ==> final(self).sview() == old(self).sview().insert(
                time_series_id,
                stored_or_empty(old(self).sview(), time_series_id) + encoded_point(
                    timestamp,
                    value,
                ),
            ),
            r is Ok ==> series_accepts(
                stored_or_empty(old(self).sview(), time_series_id),
                timestamp,
            ),
            !series_accepts(stored_or_empty(old(self).sview(), time_series_id), timestamp)
                ==> r is Err,
            r matches Err(e) && !(e is IoError) ==> final(self).sview() == old(self).sview(),
    ;

    /// Read a series and keep the points within `[start_time, end_time]`.
    /// Each failure names its cause: `NotFoundErr` for an id that is
    /// unknown or stores no points, `InternalErr` for corrupt stored
    /// bytes, `OutOfRangeErr(first, last)` with the stored bounds when the
    /// series does not overlap the window, and the backend's own `IoError`.
    fn read_time_series(
        &self,
        time_series_id: TimeSeriesId,
        start_time: Timestamp,
        end_time: Timestamp,
    ) -> (r: Result<Vec<TimePoint>, MonolithErr>)
        ensures
            r matches Ok(v) ==> {
                &&& self.sview().contains_key(time_series_id)
                &&& v@ == trimmed(
                    decoded_series(self.sview()[time_series_id]),
                    start_time,
                    end_time,
                )
            },
            r matches Err(e) ==> {
                ||| e is IoError
                ||| (e is NotFoundErr && (!self.sview().contains_key(time_series_id)
                    || decoded_series(self.sview()[time_series_id]).len() == 0))
                ||| (e is InternalErr && self.sview().contains_key(time_series_id)
                    && !well_formed_series(self.sview()[time_series_id]))
                ||| (e matches MonolithErr::OutOfRangeErr(f, l)
                    && self.sview().contains_key(time_series_id) && decoded_series(
                    self.sview()[time_series_id],
                ).len() > 0 && f == decoded_series(self.sview()[time_series_id]).first().timestamp
                    && l == decoded_series(self.sview()[time_series_id]).last().timestamp && (f
                    > end_time || l < start_time))
            },
            (self.sview().contains_key(time_series_id) && well_formed_series(
                self.sview()[time_series_id],
            ) && decoded_series(self.sview()[time_series_id]).len() > 0 && (decoded_series(
                self.sview()[time_series_id],
            ).first().timestamp > end_time || decoded_series(
                self.sview()[time_series_id],
            ).last().timestamp < start_time)) ==> r is Err,
    ;
}

/// The stored bytes of a series, or none for an unknown id.
pub open spec fn stored_or_empty(view: Map<TimeSeriesId, Seq<u8>>, id: TimeSeriesId) -> Seq<u8> {
    if view.contains_key(id) {
        view[id]
    } else {
        Seq::<u8>::empty()
    }
}

/// A series accepts a new timestamp: its stored bytes are whole records and
/// the new timestamp strictly exceeds the last stored one.
pub open spec fn series_accepts(stored: Seq<u8>, timestamp: Timestamp) -> bool {
    &&& well_formed_series(stored)
    &&& (decoded_series(stored).len() > 0 ==> decoded_series(stored).last().timestamp < timestamp)
}

/// Read a big-endian 64-bit value out of stored bytes.
pub fn be_u64_at(bytes: &Vec<u8>, start: usize) -> (r: u64)
    requires
        start + 8 <= bytes@.len(),
    ensures
        r == be_u64(bytes@.subrange(start as int, start + 8)),
        r == be_val(bytes@.subrange(start as int, start + 8)),
{
    let ghost s = bytes@.subrange(start as int, start + 8);
    let blen = bytes.len();
    let mut v: u64 = 0;
    let mut k: usize = 0;
    while k < 8
        invariant
            k <= 8,
            start + 8 <= blen,
            blen == bytes@.len(),
            s == bytes@.subrange(start as int, start + 8),
            v == be_val(s.take(k as int)),
            v < crate::compaction::pow256(k as nat),
        decreases 8 - k,
    {
        proof {
            assert(s.take(k + 1).drop_last() =~= s.take(k as int));
            assert(s.take(k + 1).last() == s[k as int]);
            assert(s[k as int] == bytes@[start + k]);
            lemma_pow256_small(k as nat);
            lemma_pow256_small((k + 1) as nat);
            assert(v * 256 + bytes@[start + k] < crate::compaction::pow256(
                (k + 1) as nat,
            )) by (nonlinear_arith)
                requires
                    v < crate::compaction::pow256(k as nat),
                    bytes@[start + k] < 256,
                    crate::compaction::pow256((k + 1) as nat) == 256 * crate::compaction::pow256(
                        k as nat,
                    ),
            ;
        }
        v = v * 256 + (bytes[start + k] as u64);
        k = k + 1;
    }
    proof {
        assert(s.take(8int) =~= s);
        lemma_pow256_small(8nat);
    }
    v
}

proof fn lemma_pow256_small(k: nat)
    requires
        k <= 8,
    ensures
        crate::compaction::pow256(k) >= 1,
        crate::compaction::pow256(k) <= 0x10000000000000000,
    decreases 8 - k,
{
    reveal_with_fuel(crate::compaction::pow256, 10);
    if k < 8 {
        lemma_pow256_small(k + 1);
    }
}

/// Decode a whole stored series. Fails with `InternalErr` exactly when the
/// bytes are not whole 16-byte records.
pub fn decode_series_bytes(bytes: &Vec<u8>) -> (r: Result<Vec<TimePoint>, MonolithErr>)
    ensures
        r matches Ok(v) ==> well_formed_series(bytes@) && v@ == decoded_series(bytes@),
        r is Err <==> !well_formed_series(bytes@),
        r matches Err(e) ==> e is InternalErr,
{
    if bytes.len() % 16 != 0 {
        return Err(MonolithErr::InternalErr(String::from_str("Wrong number of bytes in input")));
    }
    let blen = bytes.len();
    let n = blen / 16;
    let mut v: Vec<TimePoint> = Vec::new();
    let mut i: usize = 0;
    while i < n
        invariant
            i <= n,
            blen == bytes@.len(),
            n == bytes@.len() / 16,
            bytes@.len() % 16 == 0,
            v@.len() == i,
            forall|k: int| 0 <= k < i ==> #[trigger] v@[k] == decoded_series(bytes@)[k],
        decreases n - i,
    {
        proof {
            assert(16 * (i as int) + 16 <= bytes@.len()) by (nonlinear_arith)
                requires
                    i < n,
                    n == bytes@.len() / 16,
                    bytes@.len() % 16 == 0,
            ;
        }
        let ts = be_u64_at(bytes, 16 * i);
        let value = be_u64_at(bytes, 16 * i + 8);
        v.push(TimePoint { timestamp: ts, value });
        proof {
            let rec = bytes@.subrange(16 * (i as int), 16 * (i as int) + 16);
            assert(rec.subrange(0, 8) =~= bytes@.subrange(16 * (i as int), 16 * (i as int) + 8));
            assert(rec.subrange(8, 16) =~= bytes@.subrange(
                16 * (i as int) + 8,
                16 * (i as int) + 16,
            ));
            assert(v@[i as int] == decoded_series(bytes@)[i as int]);
        }
        i = i + 1;
    }
    proof {
        assert(v@ =~= decoded_series(bytes@));
    }
    Ok(v)
}

/// Check that a series accepts a new timestamp. Fails with `InternalErr`
/// exactly when the stored bytes are not whole records or the timestamp
/// does not exceed the last stored one.
pub fn check_series_accepts(stored: &Vec<u8>, timestamp: Timestamp) -> (r: Result<
    (),
    MonolithErr,
>)
    ensures
        r is Ok <==> series_accepts(stored@, timestamp),
{
    if stored.len() % 16 != 0 {
        return Err(MonolithErr::InternalErr(String::from_str("corrupt stored series")));
    }
    if stored.len() >= 16 {
        let start = stored.len() - 16;
        let last_ts = be_u64_at(stored, start);
        proof {
            let n = stored@.len() / 16;
            assert(stored@.len() == 16 * n && n >= 1) by (nonlinear_arith)
                requires
                    stored@.len() % 16 == 0,
                    n == stored@.len() / 16,
                    stored@.len() >= 16,
            ;
            assert(decoded_series(stored@).len() == n);
            let rec = stored@.subrange(16 * (n - 1), 16 * (n - 1) + 16);
            assert(rec.subrange(0, 8) =~= stored@.subrange(16 * (n - 1), 16 * (n - 1) + 8));
            assert(stored@.subrange(start as int, start + 8) =~= stored@.subrange(
                16 * (n - 1),
                16 * (n - 1) + 8,
            ));
            assert(decoded_series(stored@).last() == decoded_series(stored@)[n - 1]);
        }
        if last_ts >= timestamp {
            return Err(
                MonolithErr::InternalErr(String::from_str("Try to store a earlier time stamp")),
            );
        }
    } else {
        proof {
            assert(decoded_series(stored@).len() == 0) by {
                assert(stored@.len() / 16 == 0);
            }
        }
    }
    Ok(())
}

/// Big-endian encoding and decoding invert each other.
pub proof fn lemma_be_roundtrip(v: u64)
    ensures
        be_u64(be_bytes_of(v)) == v,
        be_val(be_bytes_of(v)) == v,
{
    let s = be_bytes_of(v);
    assert((v >> 56u64) & 0xff == (v / 0x100000000000000u64) % 256 && (v >> 48u64) & 0xff == (v
        / 0x1000000000000u64) % 256 && (v >> 40u64) & 0xff == (v / 0x10000000000u64) % 256 && (v
        >> 32u64) & 0xff == (v / 0x100000000u64) % 256 && (v >> 24u64) & 0xff == (v
        / 0x1000000u64) % 256 && (v >> 16u64) & 0xff == (v / 0x10000u64) % 256 && (v >> 8u64)
        & 0xff == (v / 0x100u64) % 256 && (v >> 0u64) & 0xff == v % 256) by (bit_vector);
    assert forall|j: int| 0 <= j <= 8 implies be_val(s.take(j)) == v as int / pow256i(
        (8 - j) as nat,
    ) by {
        lemma_be_take(v, j);
    }
    assert(s.take(8) =~= s);
    assert(pow256i(0) == 1);
    assert(be_val(s) == v);
    assert(be_u64(s) == v);
}

/// 256 to the power `k`, for the digit-recomposition argument.
pub open spec fn pow256i(k: nat) -> int
    decreases k,
{
    if k == 0 {
        1
    } else {
        256 * pow256i((k - 1) as nat)
    }
}

proof fn lemma_be_take(v: u64, j: int)
    requires
        0 <= j <= 8,
    ensures
        be_val(be_bytes_of(v).take(j)) == v as int / pow256i((8 - j) as nat),
    decreases j,
{
    let s = be_bytes_of(v);
    lemma_pow256i_pos((8 - j) as nat);
    if j == 0 {
        assert(s.take(0) =~= Seq::<u8>::empty());
        assert(v as int / pow256i(8) == 0) by {
            lemma_pow256i_value();
            vstd::arithmetic::div_mod::lemma_basic_div(v as int, pow256i(8));
        }
    } else {
        lemma_be_take(v, j - 1);
        assert(s.take(j).drop_last() =~= s.take(j - 1));
        assert(s.take(j).last() == s[j - 1]);
        let a = v as int / pow256i((8 - j) as nat);
        lemma_pow256i_pos((8 - j) as nat);
        // The next digit is a % 256, and the previous partial value is a / 256.
        assert(v as int / pow256i((8 - j + 1) as nat) == a / 256) by {
            vstd::arithmetic::div_mod::lemma_div_denominator(v as int, pow256i((8 - j) as nat), 256);
            assert(pow256i((8 - j + 1) as nat) == pow256i((8 - j) as nat) * 256) by {
                lemma_pow256i_comm((8 - j) as nat);
            }
        }
        assert(s[j - 1] == a % 256) by {
            lemma_be_digit(v, j - 1);
        }
        vstd::arithmetic::div_mod::lemma_fundamental_div_mod_converse(a, 256, a / 256, a % 256);
        assert(be_val(s.take(j)) == (a / 256) * 256 + a % 256);
        assert((a / 256) * 256 + a % 256 == a) by {
            vstd::arithmetic::div_mod::lemma_fundamental_div_mod(a, 256);
        }
    }
}

pub proof fn lemma_pow256i_pos(k: nat)
    ensures
        pow256i(k) >= 1,
    decreases k,
{
    if k > 0 {
        lemma_pow256i_pos((k - 1) as nat);
    }
}

proof fn lemma_pow256i_comm(k: nat)
    ensures
        pow256i((k + 1) as nat) == pow256i(k) * 256,
    decreases k,
{
    if k > 0 {
        lemma_pow256i_comm((k - 1) as nat);
        assert(pow256i((k + 1) as nat) == 256 * pow256i(k));
        assert(256 * pow256i(k) == pow256i(k) * 256) by (nonlinear_arith);
    }
}

pub proof fn lemma_pow256i_value()
    ensures
        pow256i(8) == 0x10000000000000000int,
        pow256i(8) > u64::MAX,
        pow256i(7) == 0x100000000000000,
        pow256i(6) == 0x1000000000000,
        pow256i(5) == 0x10000000000,
        pow256i(4) == 0x100000000,
        pow256i(3) == 0x1000000,
        pow256i(2) == 0x10000,
        pow256i(1) == 0x100,
        pow256i(0) == 1,
{
    reveal_with_fuel(pow256i, 10);
}

proof fn lemma_be_digit(v: u64, k: int)
    requires
        0 <= k < 8,
    ensures
        be_bytes_of(v)[k] == (v as int / pow256i((7 - k) as nat)) % 256,
{
    lemma_pow256i_value();
    assert((v >> 56u64) & 0xff == (v / 0x100000000000000u64) % 256 && (v >> 48u64) & 0xff == (v
        / 0x1000000000000u64) % 256 && (v >> 40u64) & 0xff == (v / 0x10000000000u64) % 256 && (v
        >> 32u64) & 0xff == (v / 0x100000000u64) % 256 && (v >> 24u64) & 0xff == (v
        / 0x1000000u64) % 256 && (v >> 16u64) & 0xff == (v / 0x10000u64) % 256 && (v >> 8u64)
        & 0xff == (v / 0x100u64) % 256 && (v >> 0u64) & 0xff == v % 256) by (bit_vector);
}

/// Appending one record to a well-formed series decodes to the old points
/// plus the new one.
pub proof fn lemma_series_append(stored: Seq<u8>, timestamp: u64, value: u64)
    requires
        well_formed_series(stored),
    ensures
        well_formed_series(stored + encoded_point(timestamp, value)),
        decoded_series(stored + encoded_point(timestamp, value)) == decoded_series(stored).push(
            TimePoint { timestamp, value },
        ),
{
    let rec = encoded_point(timestamp, value);
    let all = stored + rec;
    assert(all.len() == stored.len() + 16);
    assert(all.len() % 16 == 0) by (nonlinear_arith)
        requires
            stored.len() % 16 == 0,
            all.len() == stored.len() + 16,
    ;
    let n = stored.len() / 16;
    assert(stored.len() == 16 * n) by (nonlinear_arith)
        requires
            stored.len() % 16 == 0,
            n == stored.len() / 16,
    ;
    assert(all.len() / 16 == n + 1) by (nonlinear_arith)
        requires
            all.len() == 16 * n + 16,
    ;
    assert forall|i: int| 0 <= i < n + 1 implies decoded_series(all)[i] == decoded_series(
        stored,
    ).push(TimePoint { timestamp, value })[i] by {
        if i < n {
            assert(all.subrange(16 * i, 16 * i + 16) =~= stored.subrange(16 * i, 16 * i + 16));
        } else {
            assert(all.subrange(16 * i, 16 * i + 16) =~= rec);
            assert(rec.subrange(0, 8) =~= be_bytes_of(timestamp));
            assert(rec.subrange(8, 16) =~= be_bytes_of(value));
            lemma_be_roundtrip(timestamp);
            lemma_be_roundtrip(value);
        }
    }
    assert(decoded_series(all) =~= decoded_series(stored).push(TimePoint { timestamp, value }));
}

} // verus!
