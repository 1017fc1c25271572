//! Gorilla-style compaction: delta-of-delta timestamps and XOR-coded values
//! over a bit stream, and the mirroring decompactor.

use crate::compaction::{low_bits_seq, Bstream, BstreamSeeker};
use crate::time_point::TimePoint;
use crate::{Timestamp, Value};
use vstd::arithmetic::power2::pow2;
use vstd::prelude::*;

verus! {

/// The signed value a 64-bit pattern denotes in two's complement.
pub open spec fn as_signed64(u: u64) -> int {
    (u as i64) as int
}

/// 64-bit wrapping difference.
pub open spec fn sub_wrap64(a: u64, b: u64) -> u64 {
    if a >= b {
        (a - b) as u64
    } else {
        (a - b + 0x10000000000000000) as u64
    }
}

/// Wrap an integer into the signed 64-bit range.
pub open spec fn wrap_signed64(x: int) -> int {
    if x < -0x8000000000000000 {
        x + 0x10000000000000000
    } else if x >= 0x8000000000000000 {
        x - 0x10000000000000000
    } else {
        x
    }
}

/// Number of significant bits of `v`.
/// The signed window that a delta-of-delta payload of `n` bits covers.
pub open spec fn dod_fits(dod: int, n: int) -> bool {
    if n == 64 {
        -0x8000000000000000 <= dod < 0x8000000000000000
    } else {
        dod_in_range(dod, n)
    }
}

/// The value of a 64-bit counter after a signed wrapping step.
pub open spec fn add_delta64(t: u64, d: int) -> int {
    if t + d < 0 {
        t + d + 0x10000000000000000
    } else if t + d >= 0x10000000000000000 {
        t + d - 0x10000000000000000
    } else {
        t + d
    }
}

pub open spec fn bitlen64(v: u64) -> int
    decreases v,
{
    if v == 0 {
        0
    } else {
        1 + bitlen64(v / 2)
    }
}

/// Number of leading zero bits of `v`.
pub open spec fn lz64(v: u64) -> int {
    64 - bitlen64(v)
}

/// Number of trailing zero bits of `v`; 64 for zero.
pub open spec fn tz64(v: u64) -> int
    decreases v,
{
    if v == 0 {
        64
    } else if v % 2 == 1 {
        0
    } else {
        1 + tz64(v / 2)
    }
}

proof fn lemma_bitlen_bound(v: u64, k: nat)
    requires
        v < pow2(k),
    ensures
        bitlen64(v) <= k,
    decreases v,
{
    if v > 0 {
        assert(k > 0) by {
            if k == 0 {
                assert(pow2(0) == 1) by {
                    vstd::arithmetic::power2::lemma2_to64();
                }
            }
        }
        assert(pow2(k) == 2 * pow2((k - 1) as nat)) by {
            vstd::arithmetic::power2::lemma_pow2_unfold(k);
        }
        lemma_bitlen_bound(v / 2, (k - 1) as nat);
    }
}

proof fn lemma_bitlen64_le64(v: u64)
    ensures
        0 <= bitlen64(v) <= 64,
    decreases v,
{
    vstd::arithmetic::power2::lemma2_to64_rest();
    assert(v < pow2(64));
    lemma_bitlen_bound(v, 64);
    if v > 0 {
        lemma_bitlen64_le64(v / 2);
    }
}

/// For a nonzero value the leading and trailing zero runs leave at least one
/// significant bit between them.
proof fn lemma_lz_tz(v: u64)
    requires
        v != 0,
    ensures
        0 <= lz64(v) <= 63,
        0 <= tz64(v) <= 63,
        lz64(v) + tz64(v) <= 63,
{
    lemma_bitlen64_le64(v);
    lemma_bitlen64_le64(v / 2);
    assert(bitlen64(v) == 1 + bitlen64(v / 2));
    lemma_bitlen_gt_tz(v);
    lemma_tz_nonneg(v);
}

proof fn lemma_tz_nonneg(v: u64)
    ensures
        tz64(v) >= 0,
    decreases v,
{
    if v != 0 && v % 2 == 0 {
        lemma_tz_nonneg(v / 2);
    }
}

/// A nonzero value's bit length exceeds its trailing-zero count.
proof fn lemma_bitlen_gt_tz(v: u64)
    requires
        v != 0,
    ensures
        bitlen64(v) > tz64(v),
    decreases v,
{
    lemma_bitlen64_le64(v / 2);
    assert(bitlen64(v) == 1 + bitlen64(v / 2));
    if v % 2 == 0 {
        lemma_bitlen_gt_tz(v / 2);
    }
}

/// Count the leading zero bits of `v`.
pub fn leading_zeros64(v: u64) -> (r: u8)
    ensures
        r == lz64(v),
{
    if v == 0 {
        return 64;
    }
    let mut x: u64 = v;
    let mut bl: u8 = 1;
    proof {
        lemma_bitlen64_le64(v);
    }
    while x >= 2
        invariant
            x >= 1,
            bitlen64(v) == bl + bitlen64(x) - 1,
            bl <= 64,
        decreases x,
    {
        proof {
            lemma_bitlen64_le64(x);
            lemma_bitlen64_le64(v);
            assert(bitlen64(x) >= 2) by {
                assert(x / 2 >= 1);
                assert(bitlen64(x) == 1 + bitlen64(x / 2));
                assert(bitlen64(x / 2) == 1 + bitlen64(x / 4));
                lemma_bitlen64_le64(x / 4);
            }
        }
        x = x / 2;
        bl = bl + 1;
    }
    proof {
        assert(bitlen64(0) == 0);
        assert(bitlen64(1) == 1);
    }
    64 - bl
}

/// Count the trailing zero bits of `v`.
pub fn trailing_zeros64(v: u64) -> (r: u8)
    ensures
        r == tz64(v),
{
    if v == 0 {
        return 64;
    }
    let mut x: u64 = v;
    let mut r: u8 = 0;
    proof {
        lemma_lz_tz(v);
    }
    while x % 2 == 0
        invariant
            x >= 1,
            tz64(v) == r + tz64(x),
            0 <= tz64(x) <= 63,
            tz64(v) <= 63,
            r <= 63,
        decreases x,
    {
        proof {
            lemma_lz_tz(x);
            assert(x / 2 >= 1);
            lemma_lz_tz(x / 2);
        }
        x = x / 2;
        r = r + 1;
    }
    r
}

/// Make a byte vector of `len` zero bytes.
pub fn vec_with_len(len: usize) -> (r: Vec<u8>)
    ensures
        r@.len() == len,
        forall|i: int| 0 <= i < len ==> r@[i] == 0u8,
{
    let mut v: Vec<u8> = Vec::new();
    let mut i: usize = 0;
    while i < len
        invariant
            i <= len,
            v@.len() == i,
            forall|j: int| 0 <= j < i ==> v@[j] == 0u8,
        decreases len - i,
    {
        v.push(0x00u8);
        i = i + 1;
    }
    v
}

/// `t` can be written as a delta-of-delta over `nbits` bits: it lies in
/// `[-(2^(nbits-1) - 1), 2^(nbits-1)]`.
pub open spec fn dod_in_range(t: int, nbits: int) -> bool {
    -(pow2((nbits - 1) as nat) - 1) <= t <= pow2((nbits - 1) as nat)
}

/// Whether the delta-of-delta fits the two's-complement window of `nbits`
/// bits; the widths used by the codec are 8, 16 and 32.
pub fn in_bit_range(t: i64, nbits: u8) -> (r: bool)
    requires
        nbits == 8 || nbits == 16 || nbits == 32,
    ensures
        r == dod_in_range(t as int, nbits as int),
{
    proof {
        vstd::arithmetic::power2::lemma2_to64();
    }
    if nbits == 8 {
        -127 <= t && t <= 128
    } else if nbits == 16 {
        -32767 <= t && t <= 32768
    } else {
        -2147483647 <= t && t <= 2147483648
    }
}

/// The prefix-plus-payload encoding of one delta-of-delta.
pub open spec fn dod_bits(dod: int) -> Seq<bool> {
    if dod == 0 {
        low_bits_seq(0, 1)
    } else if dod_in_range(dod, 8) {
        low_bits_seq(2, 2) + low_bits_seq(dod as u64, 8)
    } else if dod_in_range(dod, 16) {
        low_bits_seq(6, 3) + low_bits_seq(dod as u64, 16)
    } else if dod_in_range(dod, 32) {
        low_bits_seq(14, 4) + low_bits_seq(dod as u64, 32)
    } else {
        low_bits_seq(15, 4) + low_bits_seq(dod as u64, 64)
    }
}

/// The variable-length prefix is minimal: a zero delta-of-delta takes one
/// bit, one within 127 takes 10 bits, one beyond the 8-bit window but within
/// 32767 takes 19 bits. (The value 128 still fits the 8-bit two's-complement
/// window `[-127, 128]` and therefore takes 10 bits, not 19.)
pub proof fn lemma_dod_prefix_minimality(dod: int)
    ensures
        dod == 0 ==> dod_bits(dod).len() == 1,
        dod != 0 && -127 <= dod <= 127 ==> dod_bits(dod).len() == 10,
        (dod < -127 || dod > 128) && -32767 <= dod <= 32767 ==> dod_bits(dod).len() == 19,
{
    vstd::arithmetic::power2::lemma2_to64();
}

/// The XOR value coding for one value against the compactor state.
pub open spec fn value_step_bits(
    st_len: int,
    st_v: u64,
    st_lead: u8,
    st_tail: u8,
    value: u64,
) -> Seq<bool> {
    let xor = st_v ^ value;
    if xor == 0 {
        low_bits_seq(0, 1)
    } else {
        let lead = if lz64(xor) > 31 {
            31
        } else {
            lz64(xor)
        };
        let trail = tz64(xor);
        if st_len > 1 && lead >= st_lead && trail >= st_tail {
            low_bits_seq(2, 2) + low_bits_seq(xor >> (st_tail as u64), 64 - st_lead - st_tail)
        } else {
            let sig = 64 - lead - trail;
            low_bits_seq(3, 2) + low_bits_seq(lead as u64, 5) + low_bits_seq(sig as u64, 6)
                + low_bits_seq(xor >> (trail as u64), sig)
        }
    }
}

/// The leading/trailing window after coding one value.
pub open spec fn value_step_windows(
    st_len: int,
    st_v: u64,
    st_lead: u8,
    st_tail: u8,
    value: u64,
) -> (u8, u8) {
    let xor = st_v ^ value;
    if xor == 0 {
        (st_lead, st_tail)
    } else {
        let lead = if lz64(xor) > 31 {
            31
        } else {
            lz64(xor)
        };
        let trail = tz64(xor);
        if st_len > 1 && lead >= st_lead && trail >= st_tail {
            (st_lead, st_tail)
        } else {
            (lead as u8, trail as u8)
        }
    }
}

/// Compacts a sequence of time points with delta-of-delta timestamps and
/// XOR-coded values.
pub struct GorillaCompactor {
    pub bstream: Bstream,
    /// Last timestamp.
    pub t: Timestamp,
    /// Last value pattern.
    pub v: Value,
    /// Leading-zero window.
    pub leading: u8,
    /// Trailing-zero window.
    pub tailing: u8,
    /// Last timestamp delta.
    pub d: i64,
    /// Number of points compacted.
    pub len: usize,
}

/// The bits one point appends to the compactor's stream.
pub open spec fn point_step_bits(c: GorillaCompactor, tp: TimePoint) -> Seq<bool> {
    if c.len == 0 {
        low_bits_seq(tp.timestamp, 64) + low_bits_seq(tp.value, 64)
    } else if c.len == 1 {
        low_bits_seq(sub_wrap64(tp.timestamp, c.t), 64) + value_step_bits(
            c.len as int,
            c.v,
            c.leading,
            c.tailing,
            tp.value,
        )
    } else {
        dod_bits(point_dod(c, tp)) + value_step_bits(
            c.len as int,
            c.v,
            c.leading,
            c.tailing,
            tp.value,
        )
    }
}

/// The timestamp delta a point produces against the compactor state.
pub open spec fn point_delta(c: GorillaCompactor, tp: TimePoint) -> int {
    as_signed64(sub_wrap64(tp.timestamp, c.t))
}

/// The delta-of-delta a point produces against the compactor state.
pub open spec fn point_dod(c: GorillaCompactor, tp: TimePoint) -> int {
    wrap_signed64(point_delta(c, tp) - c.d)
}

/// The compactor's scalar state after one point; the stream field is
/// carried along unchanged and is not meaningful here.
pub open spec fn point_step_state(c: GorillaCompactor, tp: TimePoint) -> GorillaCompactor {
    GorillaCompactor {
        bstream: c.bstream,
        t: tp.timestamp,
        v: tp.value,
        len: (c.len + 1) as usize,
        d: if c.len == 0 {
            c.d
        } else {
            wrap_signed64(point_delta(c, tp)) as i64
        },
        leading: if c.len == 0 {
            c.leading
        } else {
            value_step_windows(c.len as int, c.v, c.leading, c.tailing, tp.value).0
        },
        tailing: if c.len == 0 {
            c.tailing
        } else {
            value_step_windows(c.len as int, c.v, c.leading, c.tailing, tp.value).1
        },
    }
}

/// Two compactors agree on every field but the stream.
pub open spec fn same_scalars(a: GorillaCompactor, b: GorillaCompactor) -> bool {
    &&& a.t == b.t
    &&& a.v == b.v
    &&& a.leading == b.leading
    &&& a.tailing == b.tailing
    &&& a.d == b.d
    &&& a.len == b.len
}

/// The compactor's scalar state after a whole run of points.
pub open spec fn fold_step_state(c: GorillaCompactor, pts: Seq<TimePoint>) -> GorillaCompactor
    decreases pts.len(),
{
    if pts.len() == 0 {
        c
    } else {
        fold_step_state(point_step_state(c, pts[0]), pts.drop_first())
    }
}

/// The bits a whole run of points appends to the compactor's stream: the
/// Gorilla encoding of the run against the starting state.
pub open spec fn fold_step_bits(c: GorillaCompactor, pts: Seq<TimePoint>) -> Seq<bool>
    decreases pts.len(),
{
    if pts.len() == 0 {
        Seq::<bool>::empty()
    } else {
        point_step_bits(c, pts[0]) + fold_step_bits(point_step_state(c, pts[0]), pts.drop_first())
    }
}

/// Unrolling a fold from its far end: the encoding of a run is the encoding
/// of all but the last point, followed by the last point's code.
pub proof fn lemma_fold_step_last(c: GorillaCompactor, pts: Seq<TimePoint>)
    requires
        pts.len() > 0,
    ensures
        fold_step_state(c, pts) == point_step_state(
            fold_step_state(c, pts.drop_last()),
            pts.last(),
        ),
        fold_step_bits(c, pts) == fold_step_bits(c, pts.drop_last()) + point_step_bits(
            fold_step_state(c, pts.drop_last()),
            pts.last(),
        ),
    decreases pts.len(),
{
    if pts.len() == 1 {
        assert(pts.drop_last() =~= Seq::<TimePoint>::empty());
        assert(pts.drop_first() =~= Seq::<TimePoint>::empty());
        assert(pts.last() == pts[0]);
        assert(fold_step_state(point_step_state(c, pts[0]), Seq::<TimePoint>::empty())
            == point_step_state(c, pts[0]));
        assert(fold_step_bits(point_step_state(c, pts[0]), Seq::<TimePoint>::empty())
            == Seq::<bool>::empty());
        assert(fold_step_state(c, pts) == point_step_state(c, pts[0]));
        assert(fold_step_bits(c, pts) == point_step_bits(c, pts[0]) + Seq::<bool>::empty());
        assert(point_step_bits(c, pts[0]) + Seq::<bool>::empty() =~= point_step_bits(c, pts[0]));
        assert(Seq::<bool>::empty() + point_step_bits(c, pts[0]) =~= point_step_bits(c, pts[0]));
    } else {
        let c1 = point_step_state(c, pts[0]);
        let rest = pts.drop_first();
        lemma_fold_step_last(c1, rest);
        assert(rest.drop_last() =~= pts.drop_last().drop_first());
        assert(pts.drop_last()[0] == pts[0]);
        assert(rest.last() == pts.last());
        assert(fold_step_state(c, pts.drop_last()) == fold_step_state(c1, rest.drop_last()));
        assert(fold_step_bits(c, pts) =~= (point_step_bits(c, pts[0]) + fold_step_bits(
            c1,
            rest.drop_last(),
        )) + point_step_bits(fold_step_state(c1, rest.drop_last()), pts.last()));
        assert(fold_step_bits(c, pts.drop_last()) == point_step_bits(c, pts[0]) + fold_step_bits(
            c1,
            rest.drop_last(),
        ));
    }
}

impl GorillaCompactor {
    pub fn new() -> (r: GorillaCompactor)
        ensures
            r.bstream.wf(),
            r.bstream.bits() == Seq::<bool>::empty(),
            r.t == 0 && r.v == 0 && r.leading == 0 && r.tailing == 0 && r.d == 0 && r.len == 0,
    {
        GorillaCompactor {
            bstream: Bstream::new(),
            d: 0,
            v: 0,
            leading: 0,
            tailing: 0,
            t: 0,
            len: 0,
        }
    }

    /// XOR-code one value against the held previous value, updating the
    /// leading/trailing window. The previous value itself is updated by
    /// `compact`, except for the very first value, which is stored raw.
    pub fn compact_value(&mut self, value: &Value)
        requires
            old(self).bstream.wf(),
            old(self).bstream.has_room(40),
        ensures
            final(self).bstream.wf(),
            final(self).bstream.data@.len() <= old(self).bstream.data@.len() + 40,
            old(self).len == 0 ==> {
                &&& final(self).bstream.bits() == old(self).bstream.bits() + low_bits_seq(
                    *value,
                    64,
                )
                &&& final(self).v == value
                &&& final(self).leading == (if lz64(*value) > 31 {
                    31int
                } else {
                    lz64(*value)
                })
                &&& final(self).tailing == tz64(*value)
            },
            old(self).len > 0 ==> {
                &&& final(self).bstream.bits() == old(self).bstream.bits() + value_step_bits(
                    old(self).len as int,
                    old(self).v,
                    old(self).leading,
                    old(self).tailing,
                    *value,
                )
                &&& final(self).v == old(self).v
                &&& (final(self).leading, final(self).tailing) == value_step_windows(
                    old(self).len as int,
                    old(self).v,
                    old(self).leading,
                    old(self).tailing,
                    *value,
                )
            },
            final(self).t == old(self).t,
            final(self).d == old(self).d,
            final(self).len == old(self).len,
    {
        if self.len == 0 {
            self.bstream.write_bits_u64(*value, 64);
            self.v = *value;
            let lead0 = leading_zeros64(self.v);
            let lead = if lead0 > 31 {
                31
            } else {
                lead0
            };
            self.leading = lead;
            self.tailing = trailing_zeros64(self.v);
        } else {
            let xor: u64 = self.v ^ *value;
            if xor == 0 {
                self.bstream.write_bits_u64(0, 1);
            } else {
                let lead0 = leading_zeros64(xor);
                let lead = if lead0 > 31 {
                    31
                } else {
                    lead0
                };
                let trail = trailing_zeros64(xor);
                proof {
                    lemma_lz_tz(xor);
                }
                if self.len > 1 && lead >= self.leading && trail >= self.tailing {
                    let sig: u8 = 64 - self.leading - self.tailing;
                    self.bstream.write_bits_u64(2, 2);
                    self.bstream.write_bits_u64(xor >> (self.tailing as u64), sig);
                    proof {
                        assert(self.bstream.bits() =~= old(self).bstream.bits() + value_step_bits(
                            old(self).len as int,
                            old(self).v,
                            old(self).leading,
                            old(self).tailing,
                            *value,
                        ));
                    }
                } else {
                    self.tailing = trail;
                    self.leading = lead;
                    let sig: u8 = 64 - lead - trail;
                    self.bstream.write_bits_u64(3, 2);
                    self.bstream.write_bits_u64(lead as u64, 5);
                    self.bstream.write_bits_u64(sig as u64, 6);
                    self.bstream.write_bits_u64(xor >> (trail as u64), sig);
                    proof {
                        assert(self.bstream.bits() =~= old(self).bstream.bits() + value_step_bits(
                            old(self).len as int,
                            old(self).v,
                            old(self).leading,
                            old(self).tailing,
                            *value,
                        ));
                    }
                }
            }
        }
    }

    /// Compact a single time point onto the stream: the raw 128 bits for the
    /// first point, the raw delta for the second, and the delta-of-delta
    /// prefix code afterwards, each followed by the XOR value code.
    pub fn compact(&mut self, tp: &TimePoint)
        requires
            old(self).bstream.wf(),
            old(self).bstream.has_room(60),
            old(self).len < usize::MAX,
        ensures
            final(self).bstream.wf(),
            final(self).bstream.bits() == old(self).bstream.bits() + point_step_bits(
                *old(self),
                *tp,
            ),
            final(self).bstream.data@.len() <= old(self).bstream.data@.len() + 60,
            final(self).t == tp.timestamp,
            final(self).v == tp.value,
            final(self).len == old(self).len + 1,
            old(self).len == 0 ==> final(self).d == old(self).d && final(self).leading == old(
                self,
            ).leading && final(self).tailing == old(self).tailing,
            old(self).len > 0 ==> final(self).d == wrap_signed64(point_delta(*old(self), *tp))
                && (final(self).leading, final(self).tailing) == value_step_windows(
                old(self).len as int,
                old(self).v,
                old(self).leading,
                old(self).tailing,
                tp.value,
            ),
            same_scalars(*final(self), point_step_state(*old(self), *tp)),
    {
        if self.len == 0 {
            self.bstream.write_bits_u64(tp.timestamp, 64);
            self.bstream.write_bits_u64(tp.value, 64);
            proof {
                assert(self.bstream.bits() =~= old(self).bstream.bits() + point_step_bits(
                    *old(self),
                    *tp,
                ));
            }
        } else if self.len == 1 {
            let t_delta_u: u64 = tp.timestamp.wrapping_sub(self.t);
            self.bstream.write_bits_u64(t_delta_u, 64);
            self.compact_value(&tp.value);
            self.d = #[verifier::truncate] (t_delta_u as i64);
            proof {
                assert(t_delta_u == sub_wrap64(tp.timestamp, old(self).t));
                assert(self.d == as_signed64(t_delta_u));
                assert(self.d == wrap_signed64(point_delta(*old(self), *tp)));
                assert(self.bstream.bits() =~= old(self).bstream.bits() + point_step_bits(
                    *old(self),
                    *tp,
                ));
            }
        } else {
            let t_delta_u: u64 = tp.timestamp.wrapping_sub(self.t);
            let t_delta: i64 = #[verifier::truncate] (t_delta_u as i64);
            let dod: i64 = t_delta.wrapping_sub(self.d);
            proof {
                assert(t_delta_u == sub_wrap64(tp.timestamp, old(self).t));
                assert(t_delta == as_signed64(t_delta_u));
                assert(dod == point_dod(*old(self), *tp));
            }
            self.d = t_delta;
            let ghost bits0 = self.bstream.bits();
            let dod_u: u64 = #[verifier::truncate] (dod as u64);
            if dod == 0 {
                self.bstream.write_bits_u64(0, 1);
            } else if in_bit_range(dod, 8) {
                self.bstream.write_bits_u64(2, 2);
                self.bstream.write_bits_u64(dod_u, 8);
            } else if in_bit_range(dod, 16) {
                self.bstream.write_bits_u64(6, 3);
                self.bstream.write_bits_u64(dod_u, 16);
            } else if in_bit_range(dod, 32) {
                self.bstream.write_bits_u64(14, 4);
                self.bstream.write_bits_u64(dod_u, 32);
            } else {
                self.bstream.write_bits_u64(15, 4);
                self.bstream.write_bits_u64(dod_u, 64);
            }
            proof {
                assert(dod_u == (point_dod(*old(self), *tp) as u64));
                assert(self.bstream.bits() =~= bits0 + dod_bits(point_dod(*old(self), *tp)));
            }
            self.compact_value(&tp.value);
            proof {
                assert(self.bstream.bits() =~= old(self).bstream.bits() + point_step_bits(
                    *old(self),
                    *tp,
                ));
            }
        }
        self.len = self.len + 1;
        self.t = tp.timestamp;
        self.v = tp.value;
    }

    /// The stream as bytes, with the tail counter as the final byte.
    pub fn as_bytes_vec(&self) -> (r: Vec<u8>)
        ensures
            r@ == self.bstream.data@.push(self.bstream.remaining),
    {
        self.bstream.as_bytes_vec()
    }
}

/// The unsigned value a bit run denotes, most significant bit first.
pub open spec fn bits_val(s: Seq<bool>) -> int
    decreases s.len(),
{
    if s.len() == 0 {
        0
    } else {
        bits_val(s.drop_last()) * 2 + if s.last() {
            1int
        } else {
            0int
        }
    }
}

pub proof fn lemma_bits_val_bound(s: Seq<bool>)
    ensures
        0 <= bits_val(s) < pow2(s.len()),
    decreases s.len(),
{
    if s.len() == 0 {
        assert(pow2(0) == 1) by {
            vstd::arithmetic::power2::lemma2_to64();
        }
    } else {
        vstd::arithmetic::power2::lemma_pow2_unfold(s.len());
        lemma_bits_val_bound(s.drop_last());
    }
}

/// Read the next `n` bits as one unsigned value, most significant bit
/// first. Fails, leaving the cursor alone, when fewer than `n` bits remain.
fn read_bits_val(seeker: &mut BstreamSeeker, n: u8) -> (r: Option<u64>)
    requires
        old(seeker).wf(),
        n <= 64,
    ensures
        final(seeker).wf(),
        final(seeker).data == old(seeker).data,
        old(seeker).cursor + n <= old(seeker).data.bits().len() ==> (r matches Some(v) && {
            &&& v == bits_val(
                old(seeker).data.bits().subrange(
                    old(seeker).cursor as int,
                    old(seeker).cursor + n,
                ),
            )
            &&& v < pow2(n as nat)
            &&& final(seeker).cursor == old(seeker).cursor + n
        }),
        old(seeker).cursor + n > old(seeker).data.bits().len() ==> (r is None
            && final(seeker).cursor == old(seeker).cursor),
{
    let bl = seeker.data.bitlen();
    if seeker.cursor > bl || (n as usize) > bl - seeker.cursor {
        return None;
    }
    let ghost c0 = seeker.cursor as int;
    let ghost s = seeker.data.bits();
    let mut v: u64 = 0;
    let mut k: u8 = 0;
    proof {
        assert(s.subrange(c0, c0) =~= Seq::<bool>::empty());
        vstd::arithmetic::power2::lemma2_to64();
    }
    while k < n
        invariant
            k <= n,
            n <= 64,
            seeker.wf(),
            s == seeker.data.bits(),
            c0 == seeker.cursor,
            c0 + n <= s.len(),
            v == bits_val(s.subrange(c0, c0 + k)),
            v < pow2(k as nat),
        decreases n - k,
    {
        let bit = seeker.data.get_bit(seeker.cursor + (k as usize));
        proof {
            assert(s.subrange(c0, c0 + k + 1).drop_last() =~= s.subrange(c0, c0 + k));
            assert(s.subrange(c0, c0 + k + 1).last() == s[c0 + k]);
            vstd::arithmetic::power2::lemma_pow2_unfold((k + 1) as nat);
            vstd::arithmetic::power2::lemma2_to64_rest();
            if k + 1 < 64 {
                vstd::arithmetic::power2::lemma_pow2_strictly_increases((k + 1) as nat, 64);
            }
        }
        v = v * 2 + (if bit {
            1u64
        } else {
            0u64
        });
        k = k + 1;
    }
    proof {
        lemma_bits_val_bound(s.subrange(c0, c0 + n));
    }
    seeker.cursor = seeker.cursor + (n as usize);
    Some(v)
}

/// A one-bit run denotes its bit.
proof fn lemma_bits_val_single(s: Seq<bool>)
    requires
        s.len() == 1,
    ensures
        bits_val(s) == if s[0] {
            1int
        } else {
            0int
        },
{
    assert(s.drop_last() =~= Seq::<bool>::empty());
    assert(s.last() == s[0]);
    assert(bits_val(Seq::<bool>::empty()) == 0);
    assert(bits_val(s) == bits_val(s.drop_last()) * 2 + if s.last() {
        1int
    } else {
        0int
    });
}

/// XOR against a fixed pattern is its own inverse, and is zero exactly on
/// equal patterns.
proof fn lemma_xor_zero(a: u64, b: u64)
    ensures
        (a ^ b == 0) <==> a == b,
        a ^ (a ^ b) == b,
{
    assert((((a ^ b == 0) <==> a == b) && a ^ (a ^ b) == b)) by (bit_vector);
}

/// A window of a matched run matches the window of its image.
proof fn lemma_sub_sub(bits: Seq<bool>, c: int, code: Seq<bool>, a: int, b: int)
    requires
        0 <= c,
        c + code.len() <= bits.len(),
        bits.subrange(c, c + code.len()) == code,
        0 <= a <= b <= code.len(),
    ensures
        bits.subrange(c + a, c + b) == code.subrange(a, b),
{
    assert(bits.subrange(c + a, c + b) =~= code.subrange(a, b)) by {
        assert forall|i: int| 0 <= i < b - a implies bits.subrange(c + a, c + b)[i]
            == code.subrange(a, b)[i] by {
            assert(bits[c + a + i] == bits.subrange(c, c + code.len())[a + i]);
        }
    }
}

/// The shape of the XOR value code: which branch applies, its first bits,
/// its length, and its decomposition.
proof fn lemma_value_code_shape(sl: int, v0: u64, l0: u8, t0: u8, value: u64)
    requires
        l0 + t0 <= 64,
    ensures
        ({
            let code = value_step_bits(sl, v0, l0, t0, value);
            let xor = v0 ^ value;
            let leadw = if lz64(xor) > 31 {
                31int
            } else {
                lz64(xor)
            };
            let trailw = tz64(xor);
            let sigw = 64 - leadw - trailw;
            &&& (v0 == value ==> code.len() == 1 && code[0] == false)
            &&& (v0 != value ==> code[0] == true && 0 <= leadw <= 31 && 0 <= trailw <= 63 && 1
                <= sigw && leadw + trailw <= 63 && code.len() >= 2)
            &&& (v0 != value && (sl > 1 && leadw >= l0 && trailw >= t0) ==> code.len() == 2 + (64
                - l0 - t0) && code[1] == false && l0 + t0 <= 63 && code == low_bits_seq(2, 2)
                + low_bits_seq(xor >> (t0 as u64), 64 - l0 - t0))
            &&& (v0 != value && !(sl > 1 && leadw >= l0 && trailw >= t0) ==> code.len() == 13
                + sigw && code[1] == true && code == low_bits_seq(3, 2) + low_bits_seq(
                leadw as u64,
                5,
            ) + low_bits_seq(sigw as u64, 6) + low_bits_seq(xor >> (trailw as u64), sigw))
        }),
{
    lemma_xor_zero(v0, value);
    lemma_code_prefix_bits();
    if v0 != value {
        lemma_lz_tz(v0 ^ value);
    }
}

/// The XOR value code of `value` against the held state lies complete at
/// the reader's cursor.
pub open spec fn value_code_at(
    src: BstreamSeeker,
    sl: int,
    v: u64,
    lead: u8,
    tail: u8,
    value: u64,
) -> bool {
    let code = value_step_bits(sl, v, lead, tail, value);
    &&& src.cursor + code.len() <= src.data.bits().len()
    &&& src.data.bits().subrange(src.cursor as int, src.cursor + code.len()) == code
}

/// The shape of a delta-of-delta code: its class, length, first bits and
/// decomposition.
proof fn lemma_dod_code_shape(dodv: int)
    requires
        -0x8000000000000000 <= dodv < 0x8000000000000000,
    ensures
        ({
            let code = dod_bits(dodv);
            &&& (dodv == 0 ==> code.len() == 1 && code[0] == false)
            &&& (dodv != 0 ==> code[0] == true)
            &&& (dodv != 0 && dod_in_range(dodv, 8) ==> code.len() == 10 && code[1] == false
                && code == low_bits_seq(2, 2) + low_bits_seq(dodv as u64, 8))
            &&& (!dod_in_range(dodv, 8) && dod_in_range(dodv, 16) ==> code.len() == 19 && code[1]
                == true && code[2] == false && code == low_bits_seq(6, 3) + low_bits_seq(
                dodv as u64,
                16,
            ))
            &&& (!dod_in_range(dodv, 16) && dod_in_range(dodv, 32) ==> code.len() == 36 && code[1]
                == true && code[2] == true && code[3] == false && code == low_bits_seq(14, 4)
                + low_bits_seq(dodv as u64, 32))
            &&& (!dod_in_range(dodv, 32) ==> code.len() == 68 && code[1] == true && code[2]
                == true && code[3] == true && code == low_bits_seq(15, 4) + low_bits_seq(
                dodv as u64,
                64,
            ))
        }),
{
    lemma_code_prefix_bits();
    vstd::arithmetic::power2::lemma2_to64();
}

/// Reading the raw delta field back: its bit run denotes it exactly.
proof fn lemma_delta_field(u: u64)
    ensures
        bits_val(low_bits_seq(u, 64)) == u,
{
    lemma_written_bits_read_back(u, 64);
    vstd::arithmetic::power2::lemma2_to64_rest();
    vstd::arithmetic::div_mod::lemma_small_mod(u as nat, pow2(64));
}

/// A signed 64-bit delta lands where the wrapping difference pointed: the
/// counter after the step is the minuend.
proof fn lemma_delta_recover(t: u64, tpt: u64)
    ensures
        add_delta64(t, as_signed64(sub_wrap64(tpt, t))) == tpt,
        -0x8000000000000000 <= as_signed64(sub_wrap64(tpt, t)) < 0x8000000000000000,
{
    lemma_cast64_of_unsigned(sub_wrap64(tpt, t));
}

/// Adding back a wrapped signed difference recovers the minuend.
proof fn lemma_wrap_round(delta: int, dd: int)
    requires
        -0x8000000000000000 <= delta < 0x8000000000000000,
        -0x8000000000000000 <= dd < 0x8000000000000000,
    ensures
        -0x8000000000000000 <= wrap_signed64(delta - dd) < 0x8000000000000000,
        wrap_signed64(dd + wrap_signed64(delta - dd)) == delta,
{
}

/// Decompacts a Gorilla-coded bit stream back into time points, mirroring
/// the compactor's variable-length codes.
pub struct GorillaDecompactor {
    pub source: BstreamSeeker,
    /// Current timestamp.
    pub t: Timestamp,
    /// Current value pattern.
    pub v: Value,
    /// Leading-zero window.
    pub leading: u8,
    /// Trailing-zero window.
    pub tailing: u8,
    /// Current delta.
    pub d: i64,
    /// Index of the next time point.
    pub idx: usize,
}

/// The compactor state a reader mirrors: its own scalars, with the
/// reader's stream standing in for the writer's.
pub open spec fn enc_view(d: GorillaDecompactor) -> GorillaCompactor {
    GorillaCompactor {
        bstream: d.source.data,
        t: d.t,
        v: d.v,
        leading: d.leading,
        tailing: d.tailing,
        d: d.d,
        len: d.idx,
    }
}

/// The full code of one point against the mirrored state lies complete at
/// the reader's cursor.
pub open spec fn point_code_at(d: GorillaDecompactor, tp: TimePoint) -> bool {
    let code = point_step_bits(enc_view(d), tp);
    &&& d.source.cursor + code.len() <= d.source.data.bits().len()
    &&& d.source.data.bits().subrange(d.source.cursor as int, d.source.cursor + code.len())
        == code
}

impl GorillaDecompactor {
    /// The reader is well formed and the windows never overrun 64 bits.
    pub open spec fn wf(&self) -> bool {
        &&& self.source.wf()
        &&& self.leading <= 63
        &&& self.tailing <= 63
        &&& self.leading + self.tailing <= 64
    }

    pub fn new(bstream: Bstream) -> (r: GorillaDecompactor)
        requires
            bstream.wf(),
        ensures
            r.wf(),
            r.source.data == bstream,
            r.source.cursor == 0,
            r.t == 0 && r.v == 0 && r.leading == 0 && r.tailing == 0 && r.d == 0 && r.idx == 0,
    {
        GorillaDecompactor {
            source: BstreamSeeker::new(bstream),
            t: 0,
            v: 0,
            leading: 0,
            tailing: 0,
            d: 0,
            idx: 0,
        }
    }

    /// Decode one XOR-coded value: a repeat bit, a reuse of the stored
    /// window, or a fresh window with its leading and significant counts.
    /// When the bits at the cursor are the code a compactor wrote for some
    /// value against the held state, exactly that value comes back and the
    /// window follows the writer's.
    #[verifier::rlimit(100)]
    fn decompact_values(&mut self) -> (r: Option<Value>)
        requires
            old(self).wf(),
        ensures
            final(self).wf(),
            final(self).source.data == old(self).source.data,
            final(self).t == old(self).t,
            final(self).d == old(self).d,
            final(self).idx == old(self).idx,
            r matches Some(v) ==> final(self).v == v,
            forall|sl: int, value: u64|
                #[trigger] value_code_at(
                    old(self).source,
                    sl,
                    old(self).v,
                    old(self).leading,
                    old(self).tailing,
                    value,
                ) ==> {
                    &&& r == Some(value)
                    &&& final(self).v == value
                    &&& final(self).source.cursor == old(self).source.cursor + value_step_bits(
                        sl,
                        old(self).v,
                        old(self).leading,
                        old(self).tailing,
                        value,
                    ).len()
                    &&& (final(self).leading, final(self).tailing) == value_step_windows(
                        sl,
                        old(self).v,
                        old(self).leading,
                        old(self).tailing,
                        value,
                    )
                },
    {
        let ghost src0 = old(self).source;
        let ghost v0 = old(self).v;
        let ghost l0 = old(self).leading;
        let ghost t0 = old(self).tailing;
        let ghost bits = old(self).source.data.bits();
        let ghost c0 = old(self).source.cursor as int;
        let flag = match read_bits_val(&mut self.source, 1) {
            Some(b) => b,
            None => {
                proof {
                    assert forall|sl: int, value: u64|
                        !#[trigger] value_code_at(src0, sl, v0, l0, t0, value) by {
                        if value_code_at(src0, sl, v0, l0, t0, value) {
                            assert(value_step_bits(sl, v0, l0, t0, value).len() >= 1);
                        }
                    }
                }
                return None;
            },
        };
        proof {
            lemma_bits_val_single(bits.subrange(c0, c0 + 1));
            lemma_code_prefix_bits();
        }
        if flag == 0 {
            proof {
                assert forall|sl: int, value: u64|
                    #[trigger] value_code_at(src0, sl, v0, l0, t0, value) implies (value == v0
                    && value_step_bits(sl, v0, l0, t0, value).len() == 1 && value_step_windows(
                    sl,
                    v0,
                    l0,
                    t0,
                    value,
                ) == (l0, t0)) by {
                    let code = value_step_bits(sl, v0, l0, t0, value);
                    lemma_value_code_shape(sl, v0, l0, t0, value);
                    lemma_xor_zero(v0, value);
                    if v0 != value {
                        assert(code[0] == bits[c0]);
                        assert(bits.subrange(c0, c0 + 1)[0] == bits[c0]);
                        assert(code[0] == true);
                        assert(flag == 1);
                    }
                }
            }
            return Some(self.v);
        }
        let kind = match read_bits_val(&mut self.source, 1) {
            Some(b) => b,
            None => {
                proof {
                    assert forall|sl: int, value: u64|
                        !#[trigger] value_code_at(src0, sl, v0, l0, t0, value) by {
                        if value_code_at(src0, sl, v0, l0, t0, value) {
                            let code = value_step_bits(sl, v0, l0, t0, value);
                            lemma_xor_zero(v0, value);
                            if v0 == value {
                                assert(code[0] == bits[c0]);
                                assert(bits.subrange(c0, c0 + 1)[0] == bits[c0]);
                            } else {
                                assert(code.len() >= 2);
                            }
                        }
                    }
                }
                return None;
            },
        };
        proof {
            lemma_bits_val_single(bits.subrange(c0 + 1, c0 + 2));
        }
        if kind == 0 {
            // Reuse the stored leading/trailing window.
            let sig: u8 = 64 - self.leading - self.tailing;
            let ghost sigw = 64 - l0 - t0;
            proof {
                assert forall|sl: int, value: u64|
                    #[trigger] value_code_at(src0, sl, v0, l0, t0, value) implies ({
                    let xor = v0 ^ value;
                    &&& v0 != value
                    &&& sl > 1
                    &&& (if lz64(xor) > 31 {
                        31int
                    } else {
                        lz64(xor)
                    }) >= l0
                    &&& tz64(xor) >= t0
                    &&& value_step_bits(sl, v0, l0, t0, value) == low_bits_seq(2, 2)
                        + low_bits_seq(xor >> (t0 as u64), sigw)
                    &&& l0 + t0 <= 63
                }) by {
                    let code = value_step_bits(sl, v0, l0, t0, value);
                    let xor = v0 ^ value;
                    lemma_xor_zero(v0, value);
                    assert(code[0] == bits[c0] && bits.subrange(c0, c0 + 1)[0] == bits[c0]);
                    assert(code[1] == bits[c0 + 1] && bits.subrange(c0 + 1, c0 + 2)[0] == bits[c0
                        + 1]);
                    if v0 == value {
                        assert(code[0] == false);
                        assert(flag == 0);
                    }
                    assert(xor != 0);
                    lemma_lz_tz(xor);
                    let lead = if lz64(xor) > 31 {
                        31int
                    } else {
                        lz64(xor)
                    };
                    let trail = tz64(xor);
                    if !(sl > 1 && lead >= l0 && trail >= t0) {
                        assert(code[1] == true);
                        assert(kind == 1);
                    }
                    assert(l0 + t0 <= lead + trail <= 63);
                }
            }
            let sigv = match read_bits_val(&mut self.source, sig) {
                Some(b) => b,
                None => {
                    proof {
                        assert forall|sl: int, value: u64|
                            !#[trigger] value_code_at(src0, sl, v0, l0, t0, value) by {
                            if value_code_at(src0, sl, v0, l0, t0, value) {
                                assert(value_step_bits(sl, v0, l0, t0, value).len() == 2 + sigw);
                            }
                        }
                    }
                    return None;
                },
            };
            let value = self.v ^ (sigv << (self.tailing as u64));
            self.v = value;
            proof {
                assert forall|sl: int, valw: u64|
                    #[trigger] value_code_at(src0, sl, v0, l0, t0, valw) implies (value == valw
                    && value_step_bits(sl, v0, l0, t0, valw).len() == 2 + sigw
                    && value_step_windows(sl, v0, l0, t0, valw) == (l0, t0)) by {
                    let code = value_step_bits(sl, v0, l0, t0, valw);
                    let xor = v0 ^ valw;
                    lemma_value_window_roundtrip(v0, valw, l0 as int, t0 as int);
                    lemma_sub_sub(bits, c0, code, 2, 2 + sigw);
                    assert(code.subrange(2, 2 + sigw) =~= low_bits_seq(xor >> (t0 as u64), sigw));
                    assert(sigv == bits_val(bits.subrange(c0 + 2, c0 + 2 + sigw)));
                }
            }
            Some(value)
        } else {
            // A fresh window: 5 bits of leading count, 6 bits of significant
            // count (0 denotes 64), then the significant bits.
            let ghost case_facts = |sl: int, value: u64|
                {
                    let xor = v0 ^ value;
                    let leadw = if lz64(xor) > 31 {
                        31int
                    } else {
                        lz64(xor)
                    };
                    let trailw = tz64(xor);
                    let sigw = 64 - leadw - trailw;
                    &&& v0 != value
                    &&& 0 <= leadw <= 31
                    &&& 0 <= trailw <= 63
                    &&& 1 <= sigw
                    &&& leadw + trailw <= 63
                    &&& value_step_bits(sl, v0, l0, t0, value) == low_bits_seq(3, 2)
                        + low_bits_seq(leadw as u64, 5) + low_bits_seq(sigw as u64, 6)
                        + low_bits_seq(xor >> (trailw as u64), sigw)
                };
            proof {
                assert forall|sl: int, value: u64|
                    #[trigger] value_code_at(src0, sl, v0, l0, t0, value) implies case_facts(
                    sl,
                    value,
                ) by {
                    let code = value_step_bits(sl, v0, l0, t0, value);
                    let xor = v0 ^ value;
                    lemma_xor_zero(v0, value);
                    assert(code[0] == bits[c0] && bits.subrange(c0, c0 + 1)[0] == bits[c0]);
                    assert(code[1] == bits[c0 + 1] && bits.subrange(c0 + 1, c0 + 2)[0] == bits[c0
                        + 1]);
                    if v0 == value {
                        assert(code[0] == false);
                        assert(flag == 0);
                    }
                    assert(xor != 0);
                    lemma_lz_tz(xor);
                    let leadw = if lz64(xor) > 31 {
                        31int
                    } else {
                        lz64(xor)
                    };
                    let trailw = tz64(xor);
                    if sl > 1 && leadw >= l0 && trailw >= t0 {
                        assert(code[1] == false);
                        assert(kind == 0);
                    }
                }
            }
            let lead = match read_bits_val(&mut self.source, 5) {
                Some(b) => b,
                None => {
                    proof {
                        assert forall|sl: int, value: u64|
                            !#[trigger] value_code_at(src0, sl, v0, l0, t0, value) by {
                            if value_code_at(src0, sl, v0, l0, t0, value) {
                                assert(case_facts(sl, value));
                                assert(value_step_bits(sl, v0, l0, t0, value).len() >= 13);
                            }
                        }
                    }
                    return None;
                },
            };
            let sig_raw = match read_bits_val(&mut self.source, 6) {
                Some(b) => b,
                None => {
                    proof {
                        assert forall|sl: int, value: u64|
                            !#[trigger] value_code_at(src0, sl, v0, l0, t0, value) by {
                            if value_code_at(src0, sl, v0, l0, t0, value) {
                                assert(case_facts(sl, value));
                                assert(value_step_bits(sl, v0, l0, t0, value).len() >= 13);
                            }
                        }
                    }
                    return None;
                },
            };
            proof {
                vstd::arithmetic::power2::lemma2_to64();
                assert forall|sl: int, value: u64|
                    #[trigger] value_code_at(src0, sl, v0, l0, t0, value) implies ({
                    let xor = v0 ^ value;
                    let leadw = if lz64(xor) > 31 {
                        31int
                    } else {
                        lz64(xor)
                    };
                    let trailw = tz64(xor);
                    let sigw = 64 - leadw - trailw;
                    lead == leadw && sig_raw == sigw % 64
                }) by {
                    assert(case_facts(sl, value));
                    let code = value_step_bits(sl, v0, l0, t0, value);
                    let xor = v0 ^ value;
                    let leadw = if lz64(xor) > 31 {
                        31int
                    } else {
                        lz64(xor)
                    };
                    let trailw = tz64(xor);
                    let sigw = 64 - leadw - trailw;
                    lemma_sub_sub(bits, c0, code, 2, 7);
                    lemma_sub_sub(bits, c0, code, 7, 13);
                    assert(code.subrange(2, 7) =~= low_bits_seq(leadw as u64, 5));
                    assert(code.subrange(7, 13) =~= low_bits_seq(sigw as u64, 6));
                    lemma_written_bits_read_back(leadw as u64, 5);
                    lemma_written_bits_read_back(sigw as u64, 6);
                    vstd::arithmetic::div_mod::lemma_small_mod(leadw as nat, 32);
                    assert(lead == bits_val(bits.subrange(c0 + 2, c0 + 7)));
                    assert(sig_raw == bits_val(bits.subrange(c0 + 7, c0 + 13)));
                    assert((sigw as u64) as int % 64 == sigw % 64);
                }
            }
            let sig: u64 = if sig_raw == 0 {
                64
            } else {
                sig_raw
            };
            if lead + sig > 64 {
                // No valid window brackets these counts; the stream is
                // corrupt.
                proof {
                    assert forall|sl: int, value: u64|
                        !#[trigger] value_code_at(src0, sl, v0, l0, t0, value) by {
                        if value_code_at(src0, sl, v0, l0, t0, value) {
                            assert(case_facts(sl, value));
                            let xor = v0 ^ value;
                            let leadw = if lz64(xor) > 31 {
                                31int
                            } else {
                                lz64(xor)
                            };
                            let trailw = tz64(xor);
                            let sigw = 64 - leadw - trailw;
                            if sigw == 64 {
                                assert(sig_raw == 0);
                            } else {
                                assert(sigw % 64 == sigw);
                            }
                            assert(lead + sig == leadw + sigw);
                            assert(leadw + sigw == 64 - trailw <= 64);
                        }
                    }
                }
                return None;
            }
            let tailing: u8 = (64 - lead - sig) as u8;
            let sigv = match read_bits_val(&mut self.source, sig as u8) {
                Some(b) => b,
                None => {
                    proof {
                        assert forall|sl: int, value: u64|
                            !#[trigger] value_code_at(src0, sl, v0, l0, t0, value) by {
                            if value_code_at(src0, sl, v0, l0, t0, value) {
                                assert(case_facts(sl, value));
                                let xor = v0 ^ value;
                                let leadw = if lz64(xor) > 31 {
                                    31int
                                } else {
                                    lz64(xor)
                                };
                                let trailw = tz64(xor);
                                let sigw = 64 - leadw - trailw;
                                if sigw == 64 {
                                    assert(sig_raw == 0);
                                } else {
                                    assert(sigw % 64 == sigw);
                                }
                                assert(sig == sigw);
                                assert(value_step_bits(sl, v0, l0, t0, value).len() == 13 + sigw);
                            }
                        }
                    }
                    return None;
                },
            };
            let value = self.v ^ (sigv << (tailing as u64));
            self.leading = lead as u8;
            self.tailing = tailing;
            self.v = value;
            proof {
                assert forall|sl: int, valw: u64|
                    #[trigger] value_code_at(src0, sl, v0, l0, t0, valw) implies (value == valw
                    && value_step_bits(sl, v0, l0, t0, valw).len() == 13 + (sig as int)
                    && value_step_windows(sl, v0, l0, t0, valw) == (
                        self.leading,
                        self.tailing,
                    )) by {
                    assert(case_facts(sl, valw));
                    let code = value_step_bits(sl, v0, l0, t0, valw);
                    let xor = v0 ^ valw;
                    let leadw = if lz64(xor) > 31 {
                        31int
                    } else {
                        lz64(xor)
                    };
                    let trailw = tz64(xor);
                    let sigw = 64 - leadw - trailw;
                    lemma_value_code_shape(sl, v0, l0, t0, valw);
                    assert(code[1] == bits[c0 + 1] && bits.subrange(c0 + 1, c0 + 2)[0] == bits[c0
                        + 1]);
                    if sl > 1 && leadw >= l0 && trailw >= t0 {
                        assert(code[1] == false);
                        assert(kind == 0);
                    }
                    if sigw == 64 {
                        assert(sig_raw == 0);
                    } else {
                        assert(sigw % 64 == sigw);
                    }
                    assert(sig == sigw);
                    assert(tailing as int == trailw);
                    lemma_value_window_roundtrip(v0, valw, leadw, trailw);
                    lemma_sub_sub(bits, c0, code, 13, 13 + sigw);
                    assert(code.subrange(13, 13 + sigw) =~= low_bits_seq(
                        xor >> (trailw as u64),
                        sigw,
                    ));
                    assert(sigv == bits_val(bits.subrange(c0 + 13, c0 + 13 + sigw)));
                    assert(self.leading as int == leadw && self.tailing as int == trailw);
                }
            }
            Some(value)
        }
    }

    /// Decode a delta-of-delta of `range` bits, where values above
    /// `2^(range-1)` wrap to the negative side, and return the timestamp it
    /// yields against the current delta. When the bits at the cursor are the
    /// payload a compactor wrote for a delta-of-delta in the window, the
    /// returned timestamp is exactly the counter after that signed step.
    fn decompact_timestamp(&mut self, range: usize) -> (r: Option<Timestamp>)
        requires
            old(self).wf(),
            range == 8 || range == 16 || range == 32 || range == 64,
        ensures
            final(self).wf(),
            final(self).source.data == old(self).source.data,
            final(self).t == old(self).t,
            final(self).v == old(self).v,
            final(self).leading == old(self).leading,
            final(self).tailing == old(self).tailing,
            final(self).idx == old(self).idx,
            old(self).source.cursor + range <= old(self).source.data.bits().len() <==> r is Some,
            r is Some ==> final(self).source.cursor == old(self).source.cursor + range,
            r is None ==> final(self).source.cursor == old(self).source.cursor && final(self).d
                == old(self).d,
            forall|dodv: int|
                (#[trigger] dod_fits(dodv, range as int)) && old(self).source.cursor + range <= old(
                    self,
                ).source.data.bits().len() && old(self).source.data.bits().subrange(
                    old(self).source.cursor as int,
                    old(self).source.cursor + range,
                ) == low_bits_seq(dodv as u64, range as int) ==> {
                    &&& final(self).d as int == wrap_signed64(old(self).d + dodv)
                    &&& r matches Some(ts) && ts as int == add_delta64(
                        old(self).t,
                        wrap_signed64(old(self).d + dodv),
                    )
                },
    {
        let raw = match read_bits_val(&mut self.source, range as u8) {
            Some(b) => b,
            None => {
                return None;
            },
        };
        proof {
            vstd::arithmetic::power2::lemma2_to64();
            vstd::arithmetic::power2::lemma2_to64_rest();
        }
        let dod: i64 = if range == 64 {
            #[verifier::truncate] (raw as i64)
        } else {
            let half: u64 = 1u64 << ((range - 1) as u64);
            proof {
                assert(1u64 << 7u64 == 128 && 1u64 << 15u64 == 32768 && 1u64 << 31u64
                    == 0x80000000) by (bit_vector);
                assert(1u64 << 8u64 == 256 && 1u64 << 16u64 == 65536 && 1u64 << 32u64
                    == 0x100000000) by (bit_vector);
            }
            if raw > half {
                let full: u64 = 1u64 << (range as u64);
                (raw as i64) - (full as i64)
            } else {
                raw as i64
            }
        };
        let ghost pre = *old(self);
        proof {
            assert forall|dodv: int|
                (#[trigger] dod_fits(dodv, range as int)) && pre.source.cursor + range
                    <= pre.source.data.bits().len() && pre.source.data.bits().subrange(
                    pre.source.cursor as int,
                    pre.source.cursor + range,
                ) == low_bits_seq(dodv as u64, range as int) implies dod as int == dodv by {
                assert(raw == bits_val(low_bits_seq(dodv as u64, range as int)));
                if range == 64 {
                    let di: i64 = dodv as i64;
                    assert(di as int == dodv);
                    lemma_cast64_of_signed(di);
                    assert(dodv as u64 == di as u64);
                    lemma_written_bits_read_back(dodv as u64, 64);
                    vstd::arithmetic::div_mod::lemma_small_mod(
                        (dodv as u64) as nat,
                        pow2(64) as nat,
                    );
                    assert(raw == (dodv as u64) as int);
                    lemma_cast64_of_unsigned(raw);
                } else {
                    lemma_dod_payload_roundtrip(dodv, range as int);
                }
            }
        }
        self.d = self.d.wrapping_add(dod);
        let timestamp = self.t.wrapping_add(#[verifier::truncate] (self.d as u64));
        proof {
            lemma_cast64_of_signed(self.d);
        }
        Some(timestamp)
    }

    /// Decode the next time point, or `None` at the end of the stream or
    /// on a corrupt code. The first point is the two raw 64-bit fields at
    /// the cursor, with an iff; for every later point, whenever the bits at
    /// the cursor are the code a compactor would write for some point
    /// against the mirrored state, exactly that point comes back and the
    /// reader steps as the writer did.
    #[verifier::rlimit(100)]
    pub fn next(&mut self) -> (r: Option<TimePoint>)
        requires
            old(self).wf(),
            old(self).idx < usize::MAX,
        ensures
            final(self).wf(),
            final(self).source.data == old(self).source.data,
            r matches Some(tp) ==> {
                &&& final(self).idx == old(self).idx + 1
                &&& final(self).t == tp.timestamp
                &&& final(self).v == tp.value
            },
            old(self).idx == 0 ==> {
                &&& (r is Some <==> old(self).source.cursor + 128 <= old(
                    self,
                ).source.data.bits().len())
                &&& (r matches Some(tp) ==> {
                    &&& tp.timestamp == bits_val(
                        old(self).source.data.bits().subrange(
                            old(self).source.cursor as int,
                            old(self).source.cursor + 64,
                        ),
                    )
                    &&& tp.value == bits_val(
                        old(self).source.data.bits().subrange(
                            old(self).source.cursor + 64,
                            old(self).source.cursor + 128,
                        ),
                    )
                    &&& final(self).source.cursor == old(self).source.cursor + 128
                })
            },
            old(self).idx >= 1 ==> forall|tp: TimePoint|
                #[trigger] point_code_at(*old(self), tp) ==> {
                    &&& r matches Some(got) && got.timestamp == tp.timestamp && got.value
                        == tp.value
                    &&& final(self).source.cursor == old(self).source.cursor + point_step_bits(
                        enc_view(*old(self)),
                        tp,
                    ).len()
                    &&& same_scalars(enc_view(*final(self)), point_step_state(
                        enc_view(*old(self)),
                        tp,
                    ))
                },
            old(self).idx >= 1 && old(self).source.cursor >= old(
                self,
            ).source.data.bits().len() ==> r is None,
    {
        let ghost pre = *old(self);
        let ghost cc = enc_view(pre);
        let ghost bits = pre.source.data.bits();
        let ghost c0 = pre.source.cursor as int;
        if self.idx == 0 {
            let timestamp = match read_bits_val(&mut self.source, 64) {
                Some(b) => b,
                None => {
                    return None;
                },
            };
            let value = match read_bits_val(&mut self.source, 64) {
                Some(b) => b,
                None => {
                    return None;
                },
            };
            self.t = timestamp;
            self.v = value;
            self.idx = self.idx + 1;
            Some(TimePoint::new(timestamp, value))
        } else if self.idx == 1 {
            let delta_u = match read_bits_val(&mut self.source, 64) {
                Some(b) => b,
                None => {
                    proof {
                        assert forall|tp: TimePoint| !#[trigger] point_code_at(pre, tp) by {
                            if point_code_at(pre, tp) {
                                assert(point_step_bits(cc, tp).len() >= 64);
                            }
                        }
                    }
                    return None;
                },
            };
            self.d = #[verifier::truncate] (delta_u as i64);
            self.t = self.t.wrapping_add(delta_u);
            proof {
                lemma_cast64_of_unsigned(delta_u);
                assert forall|tp: TimePoint| #[trigger] point_code_at(pre, tp) implies (delta_u
                    == sub_wrap64(tp.timestamp, pre.t) && self.t == tp.timestamp && self.d as int
                    == wrap_signed64(point_delta(cc, tp))) by {
                    let code = point_step_bits(cc, tp);
                    lemma_sub_sub(bits, c0, code, 0, 64);
                    assert(code.subrange(0, 64) =~= low_bits_seq(
                        sub_wrap64(tp.timestamp, pre.t),
                        64,
                    ));
                    lemma_delta_field(sub_wrap64(tp.timestamp, pre.t));
                    assert(delta_u == bits_val(bits.subrange(c0, c0 + 64)));
                    lemma_delta_recover(pre.t, tp.timestamp);
                }
            }
            let ghost mid = *self;
            match self.decompact_values() {
                Some(value) => {
                    self.idx = self.idx + 1;
                    proof {
                        assert forall|tp: TimePoint| #[trigger] point_code_at(pre, tp) implies (
                        value == tp.value && value_code_at(
                            mid.source,
                            1,
                            pre.v,
                            pre.leading,
                            pre.tailing,
                            tp.value,
                        ) && point_step_bits(cc, tp).len() == 64 + value_step_bits(
                            1,
                            pre.v,
                            pre.leading,
                            pre.tailing,
                            tp.value,
                        ).len()) by {
                            let code = point_step_bits(cc, tp);
                            let vcode = value_step_bits(1, pre.v, pre.leading, pre.tailing, tp.value);
                            assert(mid.v == pre.v && mid.leading == pre.leading && mid.tailing
                                == pre.tailing);
                            lemma_sub_sub(bits, c0, code, 64, code.len() as int);
                            assert(code.subrange(64, code.len() as int) =~= vcode);
                            assert(value_code_at(
                                mid.source,
                                1,
                                mid.v,
                                mid.leading,
                                mid.tailing,
                                tp.value,
                            ));
                        }
                        assert forall|tp: TimePoint| #[trigger] point_code_at(pre, tp) implies ({
                            &&& self.t == tp.timestamp
                            &&& self.v == tp.value
                            &&& self.source.cursor as int == pre.source.cursor + point_step_bits(
                                cc,
                                tp,
                            ).len()
                            &&& same_scalars(enc_view(*self), point_step_state(cc, tp))
                        }) by {
                            assert(self.t == tp.timestamp);
                            assert(self.v == tp.value);
                            assert(self.source.cursor as int == pre.source.cursor
                                + point_step_bits(cc, tp).len());
                            assert(same_scalars(enc_view(*self), point_step_state(cc, tp)));
                        }
                    }
                    Some(TimePoint::new(self.t, value))
                },
                None => {
                    proof {
                        assert forall|tp: TimePoint| !#[trigger] point_code_at(pre, tp) by {
                            if point_code_at(pre, tp) {
                                let code = point_step_bits(cc, tp);
                                let vcode = value_step_bits(
                                    1,
                                    pre.v,
                                    pre.leading,
                                    pre.tailing,
                                    tp.value,
                                );
                                assert(mid.v == pre.v && mid.leading == pre.leading
                                    && mid.tailing == pre.tailing);
                                lemma_sub_sub(bits, c0, code, 64, code.len() as int);
                                assert(code.subrange(64, code.len() as int) =~= vcode);
                                assert(value_code_at(
                                    mid.source,
                                    1,
                                    mid.v,
                                    mid.leading,
                                    mid.tailing,
                                    tp.value,
                                ));
                            }
                        }
                    }
                    None
                },
            }
        } else {
            proof {
                assert forall|tp: TimePoint| #[trigger] point_code_at(pre, tp) implies (
                -0x8000000000000000 <= point_dod(cc, tp) < 0x8000000000000000
                    && -0x8000000000000000 <= point_delta(cc, tp) < 0x8000000000000000) by {
                    lemma_cast64_of_unsigned(sub_wrap64(tp.timestamp, pre.t));
                }
            }
            let flag = match read_bits_val(&mut self.source, 1) {
                Some(b) => b,
                None => {
                    proof {
                        assert forall|tp: TimePoint| !#[trigger] point_code_at(pre, tp) by {
                            if point_code_at(pre, tp) {
                                lemma_dod_code_shape(point_dod(cc, tp));
                                assert(point_step_bits(cc, tp).len() >= 1);
                            }
                        }
                    }
                    return None;
                },
            };
            proof {
                lemma_bits_val_single(bits.subrange(c0, c0 + 1));
            }
            if flag == 0 {
                // The delta repeats.
                self.t = self.t.wrapping_add(#[verifier::truncate] (self.d as u64));
                proof {
                    lemma_cast64_of_signed(pre.d);
                    assert forall|tp: TimePoint| #[trigger] point_code_at(pre, tp) implies (
                    point_dod(cc, tp) == 0 && self.t == tp.timestamp && pre.d as int
                        == point_delta(cc, tp)) by {
                        let code = point_step_bits(cc, tp);
                        let dodv = point_dod(cc, tp);
                        lemma_dod_code_shape(dodv);
                        assert(code[0] == bits[c0] && bits.subrange(c0, c0 + 1)[0] == bits[c0]);
                        if dodv != 0 {
                            assert(code[0] == true);
                            assert(flag == 1);
                        }
                        lemma_wrap_round(point_delta(cc, tp), pre.d as int);
                        assert(point_delta(cc, tp) == pre.d as int);
                        lemma_delta_recover(pre.t, tp.timestamp);
                        assert(add_delta64(pre.t, pre.d as int) == tp.timestamp);
                    }
                }
            } else {
                let b2 = match read_bits_val(&mut self.source, 1) {
                    Some(b) => b,
                    None => {
                        proof {
                            assert forall|tp: TimePoint| !#[trigger] point_code_at(pre, tp) by {
                                if point_code_at(pre, tp) {
                                    let code = point_step_bits(cc, tp);
                                    let dodv = point_dod(cc, tp);
                                    lemma_dod_code_shape(dodv);
                                    assert(code[0] == bits[c0] && bits.subrange(c0, c0 + 1)[0]
                                        == bits[c0]);
                                    if dodv == 0 {
                                        assert(flag == 0);
                                    }
                                    assert(code.len() >= 10);
                                }
                            }
                        }
                        return None;
                    },
                };
                proof {
                    lemma_bits_val_single(bits.subrange(c0 + 1, c0 + 2));
                }
                let range: usize = if b2 == 0 {
                    8
                } else {
                    let b3 = match read_bits_val(&mut self.source, 1) {
                        Some(b) => b,
                        None => {
                            proof {
                                assert forall|tp: TimePoint| !#[trigger] point_code_at(
                                    pre,
                                    tp,
                                ) by {
                                    if point_code_at(pre, tp) {
                                        let code = point_step_bits(cc, tp);
                                        let dodv = point_dod(cc, tp);
                                        lemma_dod_code_shape(dodv);
                                        assert(code[0] == bits[c0] && bits.subrange(c0, c0 + 1)[0]
                                            == bits[c0]);
                                        assert(code[1] == bits[c0 + 1] && bits.subrange(
                                            c0 + 1,
                                            c0 + 2,
                                        )[0] == bits[c0 + 1]);
                                        if dodv == 0 {
                                            assert(flag == 0);
                                        }
                                        if dodv != 0 && dod_in_range(dodv, 8) {
                                            assert(b2 == 0);
                                        }
                                        assert(code.len() >= 19);
                                    }
                                }
                            }
                            return None;
                        },
                    };
                    proof {
                        lemma_bits_val_single(bits.subrange(c0 + 2, c0 + 3));
                    }
                    if b3 == 0 {
                        16
                    } else {
                        let b4 = match read_bits_val(&mut self.source, 1) {
                            Some(b) => b,
                            None => {
                                proof {
                                    assert forall|tp: TimePoint| !#[trigger] point_code_at(
                                        pre,
                                        tp,
                                    ) by {
                                        if point_code_at(pre, tp) {
                                            let code = point_step_bits(cc, tp);
                                            let dodv = point_dod(cc, tp);
                                            lemma_dod_code_shape(dodv);
                                            assert(code[0] == bits[c0] && bits.subrange(
                                                c0,
                                                c0 + 1,
                                            )[0] == bits[c0]);
                                            assert(code[1] == bits[c0 + 1] && bits.subrange(
                                                c0 + 1,
                                                c0 + 2,
                                            )[0] == bits[c0 + 1]);
                                            assert(code[2] == bits[c0 + 2] && bits.subrange(
                                                c0 + 2,
                                                c0 + 3,
                                            )[0] == bits[c0 + 2]);
                                            if dodv == 0 {
                                                assert(flag == 0);
                                            }
                                            if dodv != 0 && dod_in_range(dodv, 8) {
                                                assert(b2 == 0);
                                            }
                                            if !dod_in_range(dodv, 8) && dod_in_range(dodv, 16) {
                                                assert(b3 == 0);
                                            }
                                            assert(code.len() >= 36);
                                        }
                                    }
                                }
                                return None;
                            },
                        };
                        proof {
                            lemma_bits_val_single(bits.subrange(c0 + 3, c0 + 4));
                        }
                        if b4 == 0 {
                            32
                        } else {
                            64
                        }
                    }
                };
                let ghost plen: int = if range == 8 {
                    2
                } else if range == 16 {
                    3
                } else {
                    4
                };
                proof {
                    assert forall|tp: TimePoint| #[trigger] point_code_at(pre, tp) implies ({
                        let code = point_step_bits(cc, tp);
                        let dodv = point_dod(cc, tp);
                        &&& dod_fits(dodv, range as int)
                        &&& dod_bits(dodv).len() == plen + range
                        &&& bits.subrange(c0 + plen, c0 + plen + range) == low_bits_seq(
                            dodv as u64,
                            range as int,
                        )
                        &&& c0 + plen + range <= bits.len()
                    }) by {
                        let code = point_step_bits(cc, tp);
                        let dodv = point_dod(cc, tp);
                        let dcode = dod_bits(dodv);
                        lemma_dod_code_shape(dodv);
                        assert(code[0] == bits[c0] && bits.subrange(c0, c0 + 1)[0] == bits[c0]);
                        assert(code[1] == bits[c0 + 1] && bits.subrange(c0 + 1, c0 + 2)[0]
                            == bits[c0 + 1]);
                        if dodv == 0 {
                            assert(flag == 0);
                        }
                        if code.len() > 2 {
                            assert(code[2] == bits[c0 + 2] && bits.subrange(c0 + 2, c0 + 3)[0]
                                == bits[c0 + 2]);
                        }
                        if code.len() > 3 {
                            assert(code[3] == bits[c0 + 3] && bits.subrange(c0 + 3, c0 + 4)[0]
                                == bits[c0 + 3]);
                        }
                        if dodv != 0 && dod_in_range(dodv, 8) {
                            assert(range == 8);
                        } else if !dod_in_range(dodv, 8) && dod_in_range(dodv, 16) {
                            assert(range == 16);
                        } else if !dod_in_range(dodv, 16) && dod_in_range(dodv, 32) {
                            assert(range == 32);
                        } else {
                            assert(!dod_in_range(dodv, 32));
                            assert(range == 64);
                        }
                        assert(code.subrange(0, dcode.len() as int) =~= dcode);
                        lemma_sub_sub(bits, c0, code, 0, dcode.len() as int);
                        lemma_sub_sub(bits, c0, dcode, plen, plen + range);
                        assert(dcode.subrange(plen, plen + range) =~= low_bits_seq(
                            dodv as u64,
                            range as int,
                        ));
                    }
                }
                let ghost mid2 = *self;
                match self.decompact_timestamp(range) {
                    Some(ts) => {
                        self.t = ts;
                        proof {
                            assert forall|tp: TimePoint| #[trigger] point_code_at(
                                pre,
                                tp,
                            ) implies (self.t == tp.timestamp && self.d as int == point_delta(
                                cc,
                                tp,
                            )) by {
                                let dodv = point_dod(cc, tp);
                                assert(dod_fits(dodv, range as int));
                                lemma_wrap_round(point_delta(cc, tp), pre.d as int);
                                lemma_delta_recover(pre.t, tp.timestamp);
                                assert(ts as int == add_delta64(
                                    pre.t,
                                    wrap_signed64(pre.d + dodv),
                                ));
                                assert(wrap_signed64(pre.d + dodv) == point_delta(cc, tp));
                            }
                        }
                    },
                    None => {
                        proof {
                            assert forall|tp: TimePoint| !#[trigger] point_code_at(pre, tp) by {
                                if point_code_at(pre, tp) {
                                    assert(dod_fits(point_dod(cc, tp), range as int));
                                }
                            }
                        }
                        return None;
                    },
                }
            }
            let ghost mid3 = *self;
            match self.decompact_values() {
                Some(value) => {
                    self.idx = self.idx + 1;
                    proof {
                        assert forall|tp: TimePoint| #[trigger] point_code_at(pre, tp) implies (
                        value == tp.value && value_code_at(
                            mid3.source,
                            pre.idx as int,
                            pre.v,
                            pre.leading,
                            pre.tailing,
                            tp.value,
                        ) && point_step_bits(cc, tp).len() == dod_bits(point_dod(cc, tp)).len()
                            + value_step_bits(
                            pre.idx as int,
                            pre.v,
                            pre.leading,
                            pre.tailing,
                            tp.value,
                        ).len() && mid3.source.cursor == c0 + dod_bits(
                            point_dod(cc, tp),
                        ).len()) by {
                            let code = point_step_bits(cc, tp);
                            let dodv = point_dod(cc, tp);
                            let dlen = dod_bits(dodv).len() as int;
                            let vcode = value_step_bits(
                                pre.idx as int,
                                pre.v,
                                pre.leading,
                                pre.tailing,
                                tp.value,
                            );
                            lemma_dod_code_shape(dodv);
                            assert(code[0] == bits[c0] && bits.subrange(c0, c0 + 1)[0]
                                == bits[c0]);
                            if flag == 0 {
                                assert(dodv == 0);
                                assert(dlen == 1);
                            } else {
                                assert(dodv != 0);
                            }
                            assert(mid3.source.cursor == c0 + dlen);
                            assert(mid3.v == pre.v && mid3.leading == pre.leading && mid3.tailing
                                == pre.tailing && mid3.idx == pre.idx);
                            lemma_sub_sub(bits, c0, code, dlen, code.len() as int);
                            assert(code.subrange(dlen, code.len() as int) =~= vcode);
                            assert(value_code_at(
                                mid3.source,
                                mid3.idx as int,
                                mid3.v,
                                mid3.leading,
                                mid3.tailing,
                                tp.value,
                            ));
                        }
                        assert forall|tp: TimePoint| #[trigger] point_code_at(pre, tp) implies ({
                            &&& self.t == tp.timestamp
                            &&& self.v == tp.value
                            &&& self.source.cursor as int == pre.source.cursor + point_step_bits(
                                cc,
                                tp,
                            ).len()
                            &&& same_scalars(enc_view(*self), point_step_state(cc, tp))
                        }) by {
                            let code = point_step_bits(cc, tp);
                            let dodv = point_dod(cc, tp);
                            let dlen = dod_bits(dodv).len() as int;
                            let vcode = value_step_bits(
                                mid3.idx as int,
                                mid3.v,
                                mid3.leading,
                                mid3.tailing,
                                tp.value,
                            );
                            assert(self.t == tp.timestamp);
                            assert(self.v == tp.value);
                            assert(mid3.source.cursor == c0 + dlen);
                            assert(self.source.cursor as int == mid3.source.cursor
                                + vcode.len());
                            assert(code.len() == dlen + vcode.len());
                            assert(self.source.cursor as int == pre.source.cursor
                                + point_step_bits(cc, tp).len());
                            assert(enc_view(*self).t == point_step_state(cc, tp).t);
                            assert(enc_view(*self).v == point_step_state(cc, tp).v);
                            assert(enc_view(*self).leading == point_step_state(cc, tp).leading);
                            assert(enc_view(*self).tailing == point_step_state(cc, tp).tailing);
                            assert(enc_view(*self).d == point_step_state(cc, tp).d);
                            assert(enc_view(*self).len == point_step_state(cc, tp).len);
                            assert(same_scalars(enc_view(*self), point_step_state(cc, tp)));
                        }
                    }
                    Some(TimePoint::new(self.t, value))
                },
                None => {
                    proof {
                        assert forall|tp: TimePoint| !#[trigger] point_code_at(pre, tp) by {
                            if point_code_at(pre, tp) {
                                let code = point_step_bits(cc, tp);
                                let dodv = point_dod(cc, tp);
                                let dlen = dod_bits(dodv).len() as int;
                                let vcode = value_step_bits(
                                    pre.idx as int,
                                    pre.v,
                                    pre.leading,
                                    pre.tailing,
                                    tp.value,
                                );
                                lemma_dod_code_shape(dodv);
                                assert(code[0] == bits[c0] && bits.subrange(c0, c0 + 1)[0]
                                    == bits[c0]);
                                if flag == 0 {
                                    assert(dodv == 0);
                                } else {
                                    assert(dodv != 0);
                                }
                                assert(mid3.source.cursor == c0 + dlen);
                                assert(mid3.v == pre.v && mid3.leading == pre.leading
                                    && mid3.tailing == pre.tailing && mid3.idx == pre.idx);
                                lemma_sub_sub(bits, c0, code, dlen, code.len() as int);
                                assert(code.subrange(dlen, code.len() as int) =~= vcode);
                                assert(value_code_at(
                                    mid3.source,
                                    mid3.idx as int,
                                    mid3.v,
                                    mid3.leading,
                                    mid3.tailing,
                                    tp.value,
                                ));
                            }
                        }
                    }
                    None
                },
            }
        }
    }
}

/// Bit `k` of a value is its binary digit at place `k`.
proof fn lemma_bit_is_digit(v: u64, k: u64)
    requires
        k < 64,
    ensures
        crate::compaction::u64_bit(v, k as int) == ((v as int / pow2(k as nat) as int) % 2 == 1),
{
    vstd::bits::lemma_u64_shr_is_div(v, k);
    assert((v >> k) & 1 == (v >> k) % 2) by (bit_vector);
}

/// Reading back the low `n` bits written for `v`, most significant first,
/// yields `v` modulo `2^n`: the bit-run writer and reader invert each
/// other. This is the bridge on which the codec's round-trips rest.
pub proof fn lemma_written_bits_read_back(v: u64, n: int)
    requires
        0 <= n <= 64,
    ensures
        bits_val(low_bits_seq(v, n)) == (v as int) % (pow2(n as nat) as int),
    decreases n,
{
    vstd::arithmetic::power2::lemma_pow2_pos(n as nat);
    let s = low_bits_seq(v, n);
    if n == 0 {
        assert(pow2(0) == 1) by {
            vstd::arithmetic::power2::lemma2_to64();
        }
        assert((v as int) % 1int == 0) by {
            vstd::arithmetic::div_mod::lemma_mod_self_0(1int);
        }
    } else {
        let w: u64 = v >> 1u64;
        assert(s.drop_last() =~= low_bits_seq(w, n - 1)) by {
            assert forall|i: int| 0 <= i < n - 1 implies s.drop_last()[i] == low_bits_seq(
                w,
                n - 1,
            )[i] by {
                let j: u64 = (n - 1 - i - 1) as u64;
                assert(((v >> 1u64) >> j) & 1 == (v >> (j + 1) as u64) & 1) by (bit_vector)
                    requires
                        j < 63u64,
                ;
                assert(crate::compaction::u64_bit(w, j as int) == crate::compaction::u64_bit(
                    v,
                    j + 1,
                ));
            }
        }
        assert(s.last() == crate::compaction::u64_bit(v, 0));
        assert((v >> 0u64) & 1 == v % 2) by (bit_vector);
        assert(crate::compaction::u64_bit(v, 0) == (v % 2 == 1));
        lemma_written_bits_read_back(w, n - 1);
        vstd::bits::lemma_u64_shr_is_div(v, 1u64);
        assert(pow2(1) == 2) by {
            vstd::arithmetic::power2::lemma2_to64();
        }
        let q = v as int / 2;
        let r = v as int % 2;
        let h = pow2((n - 1) as nat) as int;
        vstd::arithmetic::power2::lemma_pow2_unfold(n as nat);
        assert(pow2(n as nat) == 2 * h);
        assert(bits_val(s) == (q % h) * 2 + r) by {
            assert(bits_val(s) == bits_val(s.drop_last()) * 2 + if s.last() {
                1int
            } else {
                0int
            });
            vstd::arithmetic::div_mod::lemma_fundamental_div_mod(v as int, 2);
        }
        vstd::arithmetic::div_mod::lemma_fundamental_div_mod(q, h);
        vstd::arithmetic::power2::lemma_pow2_pos((n - 1) as nat);
        assert(v as int == (q / h) * (2 * h) + ((q % h) * 2 + r)) by (nonlinear_arith)
            requires
                v as int == 2 * q + r,
                q == (q / h) * h + (q % h),
        ;
        vstd::arithmetic::div_mod::lemma_mod_bound(q, h);
        vstd::arithmetic::div_mod::lemma_mod_bound(v as int, 2);
        assert(0 <= (q % h) * 2 + r < 2 * h) by (nonlinear_arith)
            requires
                0 <= q % h < h,
                0 <= r < 2,
                h >= 1,
        ;
        vstd::arithmetic::div_mod::lemma_fundamental_div_mod_converse(
            v as int,
            2 * h,
            q / h,
            (q % h) * 2 + r,
        );
    }
}

/// The first point's header inverts: the 64 timestamp bits and the 64
/// value bits a fresh compactor writes read back as the point itself.
pub proof fn lemma_first_point_roundtrip(c: GorillaCompactor, tp: TimePoint)
    requires
        c.len == 0,
    ensures
        point_step_bits(c, tp).len() == 128,
        bits_val(point_step_bits(c, tp).subrange(0, 64)) == tp.timestamp,
        bits_val(point_step_bits(c, tp).subrange(64, 128)) == tp.value,
{
    let s = point_step_bits(c, tp);
    assert(s.subrange(0, 64) =~= low_bits_seq(tp.timestamp, 64));
    assert(s.subrange(64, 128) =~= low_bits_seq(tp.value, 64));
    lemma_written_bits_read_back(tp.timestamp, 64);
    lemma_written_bits_read_back(tp.value, 64);
    vstd::arithmetic::power2::lemma2_to64_rest();
    vstd::arithmetic::div_mod::lemma_small_mod(tp.timestamp as nat, pow2(64));
    vstd::arithmetic::div_mod::lemma_small_mod(tp.value as nat, pow2(64));
}

/// A signed 64-bit value and its unsigned cast are the same two's
/// complement pattern, pinned arithmetically.
pub proof fn lemma_cast64_of_signed(x: i64)
    ensures
        x >= 0 ==> (x as u64) as int == x as int,
        x < 0 ==> (x as u64) as int == x as int + 0x10000000000000000,
        (x as u64) as i64 == x,
{
    assert((x >= 0 ==> (x as u64) as int == x as int) && (x < 0 ==> (x as u64) as int == x as int
        + 0x10000000000000000) && (x as u64) as i64 == x) by (bit_vector);
}

/// An unsigned 64-bit value and its signed cast are the same two's
/// complement pattern, pinned arithmetically.
pub proof fn lemma_cast64_of_unsigned(u: u64)
    ensures
        u < 0x8000000000000000 ==> (u as i64) as int == u as int,
        u >= 0x8000000000000000 ==> (u as i64) as int == u as int - 0x10000000000000000,
        (u as i64) as u64 == u,
{
    assert((u < 0x8000000000000000 ==> (u as i64) as int == u as int) && (u
        >= 0x8000000000000000 ==> (u as i64) as int == u as int - 0x10000000000000000) && (u
        as i64) as u64 == u) by (bit_vector);
}

/// The bits of the small constants used as code prefixes.
proof fn lemma_code_prefix_bits()
    ensures
        crate::compaction::u64_bit(0, 0) == false,
        crate::compaction::u64_bit(2, 1) == true && crate::compaction::u64_bit(2, 0) == false,
        crate::compaction::u64_bit(3, 1) == true && crate::compaction::u64_bit(3, 0) == true,
        crate::compaction::u64_bit(6, 2) == true && crate::compaction::u64_bit(6, 1) == true
            && crate::compaction::u64_bit(6, 0) == false,
        crate::compaction::u64_bit(14, 3) == true && crate::compaction::u64_bit(14, 2) == true
            && crate::compaction::u64_bit(14, 1) == true && crate::compaction::u64_bit(14, 0)
            == false,
        crate::compaction::u64_bit(15, 3) == true && crate::compaction::u64_bit(15, 2) == true
            && crate::compaction::u64_bit(15, 1) == true && crate::compaction::u64_bit(15, 0)
            == true,
{
    assert((0u64 >> 0u64) & 1 == 0 && (2u64 >> 1u64) & 1 == 1 && (2u64 >> 0u64) & 1 == 0 && (3u64
        >> 1u64) & 1 == 1 && (3u64 >> 0u64) & 1 == 1 && (6u64 >> 2u64) & 1 == 1 && (6u64 >> 1u64)
        & 1 == 1 && (6u64 >> 0u64) & 1 == 0 && (14u64 >> 3u64) & 1 == 1 && (14u64 >> 2u64) & 1
        == 1 && (14u64 >> 1u64) & 1 == 1 && (14u64 >> 0u64) & 1 == 0 && (15u64 >> 3u64) & 1 == 1
        && (15u64 >> 2u64) & 1 == 1 && (15u64 >> 1u64) & 1 == 1 && (15u64 >> 0u64) & 1
        == 1) by (bit_vector);
}

/// A delta-of-delta payload inverts: the low `n` bits written for a value
/// within the n-bit window read back as its two's complement, below the
/// half point for a non-negative value and above it for a negative one.
pub proof fn lemma_dod_payload_roundtrip(dod: int, n: int)
    requires
        n == 8 || n == 16 || n == 32,
        dod_in_range(dod, n),
    ensures
        0 <= dod ==> bits_val(low_bits_seq(dod as u64, n)) == dod,
        dod < 0 ==> bits_val(low_bits_seq(dod as u64, n)) == dod + pow2(n as nat),
        0 <= dod ==> bits_val(low_bits_seq(dod as u64, n)) <= pow2((n - 1) as nat),
        dod < 0 ==> bits_val(low_bits_seq(dod as u64, n)) > pow2((n - 1) as nat),
{
    vstd::arithmetic::power2::lemma2_to64();
    lemma_written_bits_read_back(dod as u64, n);
    let di: i64 = dod as i64;
    assert(di as int == dod);
    lemma_cast64_of_signed(di);
    assert(dod as u64 == di as u64);
    if 0 <= dod {
        assert((dod as u64) as int == dod);
        vstd::arithmetic::div_mod::lemma_small_mod(dod as nat, pow2(n as nat));
    } else {
        assert((dod as u64) as int == dod + 0x10000000000000000);
        let m = pow2(n as nat) as int;
        let k = pow2((64 - n) as nat) as int - 1;
        assert(m * (k + 1) == 0x10000000000000000) by {
            vstd::arithmetic::power2::lemma_pow2_adds(n as nat, (64 - n) as nat);
        }
        assert(m * k == 0x10000000000000000 - m) by (nonlinear_arith)
            requires
                m * (k + 1) == 0x10000000000000000,
        ;
        vstd::arithmetic::div_mod::lemma_mod_multiples_vanish(k, dod + m, m);
        assert(dod + 0x10000000000000000 == m * k + (dod + m));
        vstd::arithmetic::div_mod::lemma_small_mod((dod + m) as nat, m as nat);
    }
}

/// A nonzero value sits between its top bit and the next power of two.
proof fn lemma_bitlen_range(v: u64)
    requires
        v > 0,
    ensures
        pow2((bitlen64(v) - 1) as nat) <= v < pow2(bitlen64(v) as nat),
    decreases v,
{
    lemma_bitlen64_le64(v);
    lemma_bitlen64_le64(v / 2);
    let b = bitlen64(v);
    assert(b == 1 + bitlen64(v / 2));
    vstd::arithmetic::power2::lemma_pow2_unfold(b as nat);
    if v == 1 {
        vstd::arithmetic::power2::lemma2_to64();
    } else {
        lemma_bitlen_range(v / 2);
        lemma_bitlen64_le64(v / 4);
        assert(bitlen64(v / 2) == 1 + bitlen64(v / 4));
        assert(b >= 2);
        vstd::arithmetic::power2::lemma_pow2_unfold((b - 1) as nat);
        vstd::arithmetic::div_mod::lemma_fundamental_div_mod(v as int, 2);
        assert(v >= 2 * pow2((b - 2) as nat) && v < 2 * pow2((b - 1) as nat)) by (nonlinear_arith)
            requires
                pow2((b - 2) as nat) <= v / 2,
                v / 2 < pow2((b - 1) as nat),
                v as int == 2 * (v as int / 2) + (v as int % 2),
                0 <= v as int % 2 < 2,
        ;
        assert(pow2((b - 1) as nat) == 2 * pow2((b - 2) as nat));
    }
}

/// A value is divisible by two to its trailing-zero count.
proof fn lemma_tz_divides(v: u64)
    requires
        v != 0,
    ensures
        (v as int) % (pow2(tz64(v) as nat) as int) == 0,
    decreases v,
{
    lemma_lz_tz(v);
    if v % 2 == 1 {
        vstd::arithmetic::power2::lemma2_to64();
        assert((v as int) % 1int == 0) by (nonlinear_arith);
    } else {
        lemma_tz_divides(v / 2);
        lemma_lz_tz(v / 2);
        let t = tz64(v / 2);
        let m = pow2(t as nat) as int;
        vstd::arithmetic::power2::lemma_pow2_pos(t as nat);
        vstd::arithmetic::div_mod::lemma_fundamental_div_mod(v as int / 2, m);
        vstd::arithmetic::div_mod::lemma_fundamental_div_mod(v as int, 2);
        vstd::arithmetic::power2::lemma_pow2_unfold((t + 1) as nat);
        let k = (v as int / 2) / m;
        assert(v as int == k * (2 * m)) by (nonlinear_arith)
            requires
                v as int == 2 * (v as int / 2),
                v as int / 2 == m * k + ((v as int / 2) % m),
                (v as int / 2) % m == 0,
        ;
        vstd::arithmetic::power2::lemma_pow2_pos((t + 1) as nat);
        vstd::arithmetic::div_mod::lemma_fundamental_div_mod_converse(v as int, 2 * m, k, 0);
    }
}

/// An XOR residue shifted out of its trailing-zero window fits the
/// significant-bit window, reads back as itself, and shifts back exactly.
/// `window_lead` and `window_tail` may be any window at least as wide as
/// the residue's own zero runs, which covers both a fresh window and a
/// reused stored one.
pub proof fn lemma_xor_window_fits(xor: u64, window_lead: int, window_tail: int)
    requires
        xor != 0,
        0 <= window_lead <= lz64(xor),
        0 <= window_tail <= tz64(xor),
        window_lead + window_tail <= 63,
    ensures
        ({
            let sig = 64 - window_lead - window_tail;
            let residue = xor >> (window_tail as u64);
            &&& (residue as int) < pow2(sig as nat) as int
            &&& bits_val(low_bits_seq(residue, sig)) == residue
            &&& (residue << (window_tail as u64)) == xor
        }),
{
    lemma_lz_tz(xor);
    lemma_bitlen_range(xor);
    lemma_tz_divides(xor);
    let sig = 64 - window_lead - window_tail;
    let t: u64 = window_tail as u64;
    let residue = xor >> t;
    let b = bitlen64(xor);
    vstd::bits::lemma_u64_shr_is_div(xor, t);
    vstd::arithmetic::power2::lemma_pow2_pos(window_tail as nat);
    vstd::arithmetic::power2::lemma_pow2_pos((b - window_tail) as nat);
    // The residue is below 2^(bitlen - tail), which is at most 2^sig.
    assert(xor < pow2((b - window_tail) as nat) * pow2(window_tail as nat)) by {
        vstd::arithmetic::power2::lemma_pow2_adds((b - window_tail) as nat, window_tail as nat);
    }
    vstd::arithmetic::div_mod::lemma_multiply_divide_lt(
        xor as int,
        pow2(window_tail as nat) as int,
        pow2((b - window_tail) as nat) as int,
    );
    assert(b - window_tail <= sig) by {
        assert(b == 64 - lz64(xor));
    }
    assert(pow2((b - window_tail) as nat) <= pow2(sig as nat)) by {
        if b - window_tail < sig {
            vstd::arithmetic::power2::lemma_pow2_strictly_increases(
                (b - window_tail) as nat,
                sig as nat,
            );
        }
    }
    // Reading the written run back yields the residue.
    lemma_written_bits_read_back(residue, sig);
    vstd::arithmetic::div_mod::lemma_small_mod(residue as nat, pow2(sig as nat));
    // Shifting back recovers the value, because the tail bits are zero.
    let m = pow2(window_tail as nat) as int;
    vstd::arithmetic::div_mod::lemma_fundamental_div_mod(xor as int, m);
    assert((xor as int) % (pow2(tz64(xor) as nat) as int) == 0);
    assert((xor as int) % m == 0) by {
        let tz = tz64(xor);
        let big = pow2(tz as nat) as int;
        vstd::arithmetic::power2::lemma_pow2_pos(tz as nat);
        vstd::arithmetic::power2::lemma_pow2_pos((tz - window_tail) as nat);
        vstd::arithmetic::div_mod::lemma_fundamental_div_mod(xor as int, big);
        let q = xor as int / big;
        assert(big == m * (pow2((tz - window_tail) as nat) as int)) by {
            vstd::arithmetic::power2::lemma_pow2_adds(
                window_tail as nat,
                (tz - window_tail) as nat,
            );
        }
        assert(xor as int == (q * (pow2((tz - window_tail) as nat) as int)) * m + 0) by (nonlinear_arith)
            requires
                xor as int == big * q,
                big == m * (pow2((tz - window_tail) as nat) as int),
        ;
        vstd::arithmetic::div_mod::lemma_fundamental_div_mod_converse(
            xor as int,
            m,
            q * (pow2((tz - window_tail) as nat) as int),
            0,
        );
    }
    assert(residue as int * m == xor as int) by (nonlinear_arith)
        requires
            xor as int == m * (residue as int) + (xor as int) % m,
            (xor as int) % m == 0,
    ;
    vstd::bits::lemma_u64_shl_is_mul(residue, t);
}

/// The XOR value code inverts: for a changed value, the residue written
/// under any window that brackets the change shifts back to the exact XOR,
/// and applying it to the previous value recovers the new one.
pub proof fn lemma_value_window_roundtrip(prev: u64, value: u64, window_lead: int, window_tail: int)
    requires
        prev != value,
        0 <= window_lead <= lz64(prev ^ value),
        0 <= window_tail <= tz64(prev ^ value),
        window_lead + window_tail <= 63,
    ensures
        ({
            let xor = prev ^ value;
            let residue = xor >> (window_tail as u64);
            &&& xor != 0
            &&& bits_val(low_bits_seq(residue, 64 - window_lead - window_tail)) == residue
            &&& prev ^ (residue << (window_tail as u64)) == value
        }),
{
    let xor = prev ^ value;
    assert(xor != 0) by (bit_vector)
        requires
            xor == prev ^ value,
            prev != value,
    ;
    lemma_xor_window_fits(xor, window_lead, window_tail);
    assert(prev ^ xor == value) by (bit_vector)
        requires
            xor == prev ^ value,
    ;
}

} // verus!
