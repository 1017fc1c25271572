//! Bit stream: an append-only bit buffer with a byte-aligned tail counter,
//! a cursor-based reader over it, and the framing of compacted streams.

use crate::error::{CompactionErr, MonolithErr};
use crate::gorilla::{point_step_bits, point_step_state, GorillaCompactor, GorillaDecompactor};
use crate::time_point::TimePoint;
use vstd::prelude::*;

verus! {

/// Bit `k` of byte `b`, counted from the most significant bit.
pub open spec fn bit_of_byte(b: u8, k: int) -> bool
    recommends
        0 <= k < 8,
{
    ((b >> ((7 - k) as u8)) & 1) == 1
}

/// Bit `k` of a 64-bit value, counted from the least significant bit.
pub open spec fn u64_bit(v: u64, k: int) -> bool
    recommends
        0 <= k < 64,
{
    ((v >> (k as u64)) & 1) == 1
}

/// The low `n` bits of `v`, most significant of them first.
pub open spec fn low_bits_seq(v: u64, n: int) -> Seq<bool> {
    Seq::new(n as nat, |i: int| u64_bit(v, n - 1 - i))
}

/// The bit sequence denoted by `data` with `remaining` free bits in the last
/// byte: all bits in order, most significant first within each byte, except
/// the trailing `remaining` bits.
pub open spec fn stream_bits(data: Seq<u8>, remaining: u8) -> Seq<bool> {
    Seq::new(
        (data.len() * 8 - remaining) as nat,
        |i: int| bit_of_byte(data[i / 8], i % 8),
    )
}

/// Stream of bit data, used to read and write bit runs.
///
/// `remaining` counts the free (still unwritten) bits in the last byte; those
/// bits are always zero.
pub struct Bstream {
    pub data: Vec<u8>,
    pub remaining: u8,
}

impl Bstream {
    /// Representation invariant: the tail counter is in range, an empty
    /// buffer has no free bits, the free bits of the last byte are zero, and
    /// the buffer is small enough that its bit length fits a `usize`.
    pub open spec fn wf(&self) -> bool {
        &&& self.remaining <= 7
        &&& self.data@.len() == 0 ==> self.remaining == 0
        &&& self.data@.len() > 0 ==> (forall|k: int|
            8 - self.remaining <= k < 8 ==> !bit_of_byte(self.data@.last(), k))
        &&& self.data@.len() <= usize::MAX / 8
    }

    /// The bits written so far.
    pub open spec fn bits(&self) -> Seq<bool> {
        stream_bits(self.data@, self.remaining)
    }

    /// There is room to push `extra` more bytes without the bit length
    /// outgrowing `usize`.
    pub open spec fn has_room(&self, extra: int) -> bool {
        self.data@.len() + extra <= usize::MAX / 8
    }

    pub fn new() -> (r: Bstream)
        ensures
            r.wf(),
            r.bits() == Seq::<bool>::empty(),
    {
        let r = Bstream { data: Vec::new(), remaining: 0 };
        proof {
            assert(r.bits() =~= Seq::<bool>::empty());
        }
        r
    }

    /// Create a stream from raw parts. The parts must satisfy the stream's
    /// representation invariant.
    pub fn from(data: Vec<u8>, remaining: u8) -> (r: Bstream)
        requires
            remaining <= 7,
            data@.len() == 0 ==> remaining == 0,
            data@.len() > 0 ==> (forall|k: int|
                8 - remaining <= k < 8 ==> !bit_of_byte(data@.last(), k)),
            data@.len() <= usize::MAX / 8,
        ensures
            r.wf(),
            r.data@ == data@,
            r.remaining == remaining,
    {
        Bstream { data, remaining }
    }

    /// How many bits this stream holds.
    pub fn bitlen(&self) -> (r: usize)
        requires
            self.wf(),
        ensures
            r == self.bits().len(),
    {
        self.data.len() * 8 - (self.remaining as usize)
    }

    /// Bit `i` of the stream.
    pub fn get_bit(&self, i: usize) -> (r: bool)
        requires
            self.wf(),
            i < self.bits().len(),
        ensures
            r == self.bits()[i as int],
    {
        let byte = self.data[i / 8];
        let k: u8 = (i % 8) as u8;
        ((byte >> (7 - k)) & 1) == 1
    }

    /// Append a single bit at the end of the stream.
    pub fn write(&mut self, bit: bool)
        requires
            old(self).wf(),
            old(self).has_room(1),
        ensures
            final(self).wf(),
            final(self).bits() == old(self).bits().push(bit),
            final(self).data@.len() <= old(self).data@.len() + 1,
    {
        let ghost pre = *self;
        if self.remaining == 0 {
            if bit {
                self.data.push(0b10000000u8);
            } else {
                self.data.push(0b00000000u8);
            }
            self.remaining = 7;
            proof {
                let ghost nb: u8 = if bit {
                    0b10000000u8
                } else {
                    0b00000000u8
                };
                assert(forall|j: u8| j < 7 ==> (0b10000000u8 >> j) & 1 == 0) by (bit_vector);
                assert(forall|j: u8| j < 7 ==> (0b00000000u8 >> j) & 1 == 0) by (bit_vector);
                assert((0b10000000u8 >> 7u8) & 1 == 1) by (bit_vector);
                assert((0b00000000u8 >> 7u8) & 1 == 0) by (bit_vector);
                assert forall|k: int| 1 <= k < 8 implies !bit_of_byte(nb, k) by {
                    let j: u8 = (7 - k) as u8;
                    assert(j < 7);
                    assert((nb >> j) & 1 == 0);
                }
                assert(bit_of_byte(nb, 0) == bit);
                assert(self.bits() =~= pre.bits().push(bit)) by {
                    assert(self.bits().len() == pre.bits().len() + 1);
                    assert forall|i: int| 0 <= i < self.bits().len() implies self.bits()[i] == pre
                        .bits().push(bit)[i] by {
                        if i < pre.bits().len() {
                            lemma_div_bound(i, pre.data@.len() as int);
                            assert(self.data@[i / 8] == pre.data@[i / 8]);
                        } else {
                            assert(i == pre.data@.len() * 8);
                            assert(i / 8 == pre.data@.len());
                            assert(i % 8 == 0);
                        }
                    }
                }
            }
        } else {
            let r = self.remaining;
            if bit {
                let last_idx = self.data.len() - 1;
                let b = self.data[last_idx];
                self.data.set(last_idx, b | (1u8 << (r - 1)));
            }
            self.remaining = r - 1;
            proof {
                let last = pre.data@.len() - 1;
                let sb: u8 = (r - 1) as u8;
                let nb = self.data@.last();
                let ob = pre.data@.last();
                if bit {
                    assert(forall|k: u8|
                        k < 8 && k != sb ==> ((ob | (1u8 << sb)) >> k) & 1 == (ob >> k)
                            & 1) by (bit_vector);
                    assert(((ob | (1u8 << sb)) >> sb) & 1 == 1) by (bit_vector)
                        requires
                            sb < 8,
                    ;
                    assert forall|k: int| 0 <= k < 8 && k != 7 - sb implies bit_of_byte(nb, k)
                        == bit_of_byte(ob, k) by {
                        assert(((ob | (1u8 << sb)) >> ((7 - k) as u8)) & 1 == (ob >> ((7 - k) as u8))
                            & 1);
                    }
                    assert(bit_of_byte(nb, 7 - sb));
                } else {
                    assert(!bit_of_byte(ob, 7 - sb));
                }
                assert(final(self).wf());
                assert(self.bits() =~= pre.bits().push(bit)) by {
                    assert(self.bits().len() == pre.bits().len() + 1);
                    assert forall|i: int| 0 <= i < self.bits().len() implies self.bits()[i] == pre
                        .bits().push(bit)[i] by {
                        if i < pre.bits().len() {
                            lemma_div_bound(i, pre.data@.len() as int);
                            if i / 8 < last {
                                assert(self.data@[i / 8] == pre.data@[i / 8]);
                            } else {
                                assert(i / 8 == last);
                                lemma_last_byte_pos(pre.data@.len() as int, r as int, i);
                                assert(i % 8 < 8 - r);
                                assert(bit_of_byte(nb, i % 8) == bit_of_byte(ob, i % 8));
                            }
                        } else {
                            assert(i == pre.data@.len() * 8 - r);
                            lemma_tail_pos(pre.data@.len() as int, r as int);
                            assert(i / 8 == last && i % 8 == 7 - sb);
                        }
                    }
                }
            }
        }
    }

    pub fn write_one(&mut self)
        requires
            old(self).wf(),
            old(self).has_room(1),
        ensures
            final(self).wf(),
            final(self).bits() == old(self).bits().push(true),
            final(self).data@.len() <= old(self).data@.len() + 1,
    {
        self.write(true);
    }

    pub fn write_zero(&mut self)
        requires
            old(self).wf(),
            old(self).has_room(1),
        ensures
            final(self).wf(),
            final(self).bits() == old(self).bits().push(false),
            final(self).data@.len() <= old(self).data@.len() + 1,
    {
        self.write(false);
    }

    /// Append every bit of `bstream` to this stream.
    pub fn append(&mut self, bstream: &Bstream)
        requires
            old(self).wf(),
            bstream.wf(),
            old(self).has_room(bstream.data@.len() as int + 1),
        ensures
            final(self).wf(),
            final(self).bits() == old(self).bits() + bstream.bits(),
            final(self).data@.len() <= old(self).data@.len() + bstream.data@.len() + 1,
    {
        let ghost pre = *self;
        let total = bstream.bitlen();
        let mut i: usize = 0;
        while i < total
            invariant
                i <= total,
                total == bstream.bits().len(),
                bstream.wf(),
                self.wf(),
                self.bits() == pre.bits() + bstream.bits().take(i as int),
                pre.wf(),
                pre.data@.len() + bstream.data@.len() + 1 <= usize::MAX / 8,
            decreases total - i,
        {
            let b = bstream.get_bit(i);
            proof {
                lemma_stream_size(*self);
                lemma_stream_size(pre);
                lemma_stream_size(*bstream);
                assert(self.data@.len() < usize::MAX / 8);
                assert(bstream.bits().take(i + 1) =~= bstream.bits().take(i as int).push(
                    bstream.bits()[i as int],
                ));
            }
            self.write(b);
            i = i + 1;
        }
        proof {
            assert(bstream.bits().take(total as int) =~= bstream.bits());
            lemma_stream_size(*self);
            lemma_stream_size(pre);
            lemma_stream_size(*bstream);
        }
    }

    /// Append the bit run that `bytes` with tail counter `remaining` denotes.
    pub fn append_bytes(&mut self, bytes: &[u8], remaining: u8)
        requires
            old(self).wf(),
            remaining <= 7,
            bytes@.len() == 0 ==> remaining == 0,
            bytes@.len() > 0 ==> (forall|k: int|
                8 - remaining <= k < 8 ==> !bit_of_byte(bytes@.last(), k)),
            bytes@.len() <= usize::MAX / 8,
            old(self).has_room(bytes@.len() as int + 1),
        ensures
            final(self).wf(),
            final(self).bits() == old(self).bits() + stream_bits(bytes@, remaining),
            final(self).data@.len() <= old(self).data@.len() + bytes@.len() + 1,
    {
        let v = vstd::slice::slice_to_vec(bytes);
        let other = Bstream::from(v, remaining);
        self.append(&other);
    }

    /// Append the low `nbits` bits of `v`, most significant of them first.
    pub fn write_bits_u64(&mut self, v: u64, nbits: u8)
        requires
            old(self).wf(),
            nbits <= 64,
            old(self).has_room(9),
        ensures
            final(self).wf(),
            final(self).bits() == old(self).bits() + low_bits_seq(v, nbits as int),
            final(self).data@.len() <= old(self).data@.len() + 9,
    {
        let ghost pre = *self;
        let mut k: u8 = 0;
        while k < nbits
            invariant
                k <= nbits,
                nbits <= 64,
                self.wf(),
                pre.wf(),
                self.bits() == pre.bits() + low_bits_seq(v, nbits as int).take(k as int),
                pre.data@.len() + 9 <= usize::MAX / 8,
            decreases nbits - k,
        {
            let sh: u64 = (nbits - 1 - k) as u64;
            let bit = ((v >> sh) & 1) == 1;
            proof {
                lemma_stream_size(*self);
                lemma_stream_size(pre);
                assert(self.data@.len() < usize::MAX / 8);
                assert(low_bits_seq(v, nbits as int).take(k + 1) =~= low_bits_seq(
                    v,
                    nbits as int,
                ).take(k as int).push(low_bits_seq(v, nbits as int)[k as int]));
                assert(low_bits_seq(v, nbits as int)[k as int] == u64_bit(v, nbits - 1 - k));
            }
            self.write(bit);
            k = k + 1;
        }
        proof {
            lemma_stream_size(*self);
            lemma_stream_size(pre);
        }
        proof {
            assert(low_bits_seq(v, nbits as int).take(nbits as int) =~= low_bits_seq(
                v,
                nbits as int,
            ));
        }
    }

    /// Append the low `nbits` bits of the big-endian value of `bytes`.
    pub fn write_bits(&mut self, bytes: [u8; 8], nbits: u8)
        requires
            old(self).wf(),
            nbits <= 64,
            old(self).has_room(9),
        ensures
            final(self).wf(),
            final(self).bits() == old(self).bits() + low_bits_seq(
                be_u64(bytes@),
                nbits as int,
            ),
            final(self).data@.len() <= old(self).data@.len() + 9,
    {
        let v = be_u64_exec(&bytes);
        self.write_bits_u64(v, nbits);
    }

    /// Append a timestamp delta in two's complement over `bits` bits, which
    /// must be 8, 16, 32 or 64; any other width appends nothing.
    pub fn append_timestamp_delta(&mut self, delta: i64, bits: u8)
        requires
            old(self).wf(),
            old(self).has_room(9),
        ensures
            final(self).wf(),
            (bits == 8 || bits == 16 || bits == 32 || bits == 64) ==> final(self).bits() == old(
                self,
            ).bits() + low_bits_seq(delta as u64, bits as int),
            !(bits == 8 || bits == 16 || bits == 32 || bits == 64) ==> *final(self) == *old(self),
            final(self).data@.len() <= old(self).data@.len() + 9,
    {
        if bits == 8 || bits == 16 || bits == 32 || bits == 64 {
            self.write_bits_u64(delta as u64, bits);
        }
    }

    /// Read the byte at index `idx`. The second value is the tail counter
    /// when the byte is the last one, and 0 otherwise; `None` past the end.
    pub fn read_bytes(&self, idx: usize) -> (r: Option<(u8, usize)>)
        ensures
            idx >= self.data@.len() ==> r is None,
            self.data@.len() > 0 && idx == self.data@.len() - 1 ==> r == Some(
                (self.data@.last(), self.remaining as usize),
            ),
            idx < self.data@.len() && idx != self.data@.len() - 1 ==> r == Some(
                (self.data@[idx as int], 0usize),
            ),
    {
        if idx >= self.data.len() {
            None
        } else if idx == self.data.len() - 1 {
            Some((self.data[idx], self.remaining as usize))
        } else {
            Some((self.data[idx], 0))
        }
    }

    /// The stream as bytes, with the tail counter appended as a final byte,
    /// so that a stream round-trips through byte storage.
    pub fn as_bytes_vec(&self) -> (r: Vec<u8>)
        ensures
            r@ == self.data@.push(self.remaining),
    {
        let mut res = self.data.clone();
        res.push(self.remaining);
        res
    }

    /// Rebuild a stream from bytes produced by `as_bytes_vec`: the last byte
    /// is the tail counter. Fails with `InternalErr` exactly when the bytes
    /// are corrupt: a counter above 7, a counter on an empty body, or a
    /// nonzero bit among the free bits.
    pub fn from_bytes(data: Vec<u8>) -> (r: Result<Bstream, crate::error::MonolithErr>)
        requires
            data@.len() <= usize::MAX / 8,
        ensures
            r matches Ok(b) ==> {
                &&& data@.len() > 0
                &&& b.wf()
                &&& b.data@ == data@.drop_last()
                &&& b.remaining == data@.last()
            },
            r is Ok <==> valid_stream_bytes(data@),
    {
        let mut body = data;
        let rem = match body.pop() {
            Some(b) => b,
            None => {
                return Err(
                    crate::error::MonolithErr::InternalErr(
                        String::from_str("empty bit stream serialization"),
                    ),
                );
            },
        };
        if rem > 7 {
            return Err(
                crate::error::MonolithErr::InternalErr(
                    String::from_str("bit stream tail counter out of range"),
                ),
            );
        }
        if body.len() == 0 {
            if rem != 0 {
                return Err(
                    crate::error::MonolithErr::InternalErr(
                        String::from_str("bit stream tail counter without data"),
                    ),
                );
            }
            return Ok(Bstream { data: body, remaining: rem });
        }
        if rem > 0 {
            let last = body[body.len() - 1];
            let m = low_mask(rem);
            proof {
                lemma_mask_tail_bits(last, rem, m);
                assert(data@[data@.len() - 2] == last);
            }
            if (last & m) != 0 {
                return Err(
                    crate::error::MonolithErr::InternalErr(
                        String::from_str("bit stream free bits not zero"),
                    ),
                );
            }
        }
        Ok(Bstream { data: body, remaining: rem })
    }
}

/// The compaction codecs a closed chunk's data may be stored with.
pub enum CompactType {
    /// Delta-of-delta timestamps and XOR values, bit-packed.
    Gorilla,
    /// Byte-aligned variant; not yet wired.
    Simple,
    /// Raw 16-byte records, no compaction.
    Plain,
}

impl CompactType {
    /// The one-byte tag that marks a stream of this compaction type.
    pub fn tag(&self) -> (r: u8)
        ensures
            r == compact_type_tag(*self),
    {
        match self {
            CompactType::Gorilla => 1,
            CompactType::Simple => 2,
            CompactType::Plain => 3,
        }
    }
}

/// The one-byte tag of a compaction type.
pub open spec fn compact_type_tag(t: CompactType) -> u8 {
    match t {
        CompactType::Gorilla => 1,
        CompactType::Simple => 2,
        CompactType::Plain => 3,
    }
}

/// Compacts time points when a chunk is closed.
pub enum Compactor {
    /// Delta-of-delta plus XOR bit packing.
    Gorilla(GorillaCompactor),
    /// Byte-aligned variant; compacts to nothing yet.
    Simple,
    /// Raw 16-byte big-endian records.
    Plain(Vec<u8>),
}

/// The compactor's inner stream, if any, is well formed.
pub open spec fn compactor_wf(c: Compactor) -> bool {
    match c {
        Compactor::Gorilla(g) => g.bstream.wf(),
        _ => true,
    }
}

/// The raw 16-byte records of a run of points.
pub open spec fn raw_records(pts: Seq<TimePoint>) -> Seq<u8>
    decreases pts.len(),
{
    if pts.len() == 0 {
        Seq::<u8>::empty()
    } else {
        raw_records(pts.drop_last()) + be_bytes_of(pts.last().timestamp) + be_bytes_of(
            pts.last().value,
        )
    }
}

impl Compactor {
    pub fn new(name: CompactType) -> (r: Compactor)
        ensures
            compactor_wf(r),
            name is Gorilla ==> (r matches Compactor::Gorilla(g) && g.bstream.bits()
                == Seq::<bool>::empty() && g.len == 0),
            name is Plain ==> (r matches Compactor::Plain(v) && v@ == Seq::<u8>::empty()),
            name is Simple ==> r is Simple,
    {
        match name {
            CompactType::Gorilla => Compactor::Gorilla(GorillaCompactor::new()),
            CompactType::Plain => Compactor::Plain(Vec::new()),
            CompactType::Simple => Compactor::Simple,
        }
    }

    /// Compact a single time point.
    pub fn compact(&mut self, timepoint: &TimePoint)
        requires
            compactor_wf(*old(self)),
            (*old(self) matches Compactor::Gorilla(g) ==> g.bstream.has_room(60) && g.len
                < usize::MAX),
            (*old(self) matches Compactor::Plain(v) ==> v@.len() + 16 <= usize::MAX),
        ensures
            compactor_wf(*final(self)),
            *old(self) matches Compactor::Gorilla(g) ==> (*final(self) matches Compactor::Gorilla(g2)
                && g2.bstream.bits() == g.bstream.bits() + crate::gorilla::point_step_bits(
                g,
                *timepoint,
            ) && crate::gorilla::same_scalars(g2, point_step_state(g, *timepoint))
                && g2.bstream.data@.len() <= g.bstream.data@.len() + 60),
            *old(self) matches Compactor::Plain(v) ==> (*final(self) matches Compactor::Plain(v2) && v2@
                == v@ + be_bytes_of(timepoint.timestamp) + be_bytes_of(timepoint.value)),
            *old(self) is Simple ==> *final(self) == *old(self),
    {
        match self {
            Compactor::Gorilla(compactor) => {
                compactor.compact(timepoint);
            },
            Compactor::Plain(v) => {
                let mut ts_bytes = u64_to_be_bytes(timepoint.timestamp);
                let mut val_bytes = u64_to_be_bytes(timepoint.value);
                v.append(&mut ts_bytes);
                v.append(&mut val_bytes);
            },
            Compactor::Simple => {},
        }
    }

    /// Compact a run of points and return the stream as bytes, tagged with
    /// the compaction type as its last byte. The raw variant returns only
    /// what was already compacted point by point.
    pub fn compact_vec(&mut self, data: Vec<TimePoint>) -> (r: Vec<u8>)
        requires
            compactor_wf(*old(self)),
            (*old(self) matches Compactor::Gorilla(g) ==> g.bstream.data@.len() + 60 * data@.len()
                + 2 <= usize::MAX / 8 && g.len + data@.len() <= usize::MAX),
            (*old(self) matches Compactor::Plain(v) ==> v@.len() + 1 <= usize::MAX),
        ensures
            compactor_wf(*final(self)),
            *old(self) is Simple ==> (r@ == Seq::<u8>::empty() && *final(self) == *old(self)),
            *old(self) matches Compactor::Gorilla(g) ==> (*final(self) matches Compactor::Gorilla(g2)
                && g2.bstream.bits() == g.bstream.bits() + crate::gorilla::fold_step_bits(g, data@)
                && crate::gorilla::same_scalars(g2, crate::gorilla::fold_step_state(g, data@)) && r@
                == g2.bstream.data@.push(g2.bstream.remaining).push(1)),
            *old(self) matches Compactor::Plain(v) ==> (*final(self) matches Compactor::Plain(v2)
                && v2 == v && r@ == v@.push(3)),
    {
        match self {
            Compactor::Simple => Vec::new(),
            Compactor::Gorilla(compactor) => {
                let ghost pre = *compactor;
                let n = data.len();
                let mut i: usize = 0;
                while i < n
                    invariant
                        i <= n,
                        n == data@.len(),
                        compactor.bstream.wf(),
                        compactor.bstream.bits() == pre.bstream.bits()
                            + crate::gorilla::fold_step_bits(pre, data@.take(i as int)),
                        crate::gorilla::same_scalars(
                            *compactor,
                            crate::gorilla::fold_step_state(pre, data@.take(i as int)),
                        ),
                        compactor.bstream.data@.len() + 60 * (n - i) + 2 <= usize::MAX / 8,
                        compactor.len + (n - i) <= usize::MAX,
                    decreases n - i,
                {
                    let ghost folded = crate::gorilla::fold_step_state(pre, data@.take(i as int));
                    let tp = data[i];
                    compactor.compact(&tp);
                    proof {
                        assert(data@.take(i + 1).drop_last() =~= data@.take(i as int));
                        assert(data@.take(i + 1).last() == data@[i as int]);
                        crate::gorilla::lemma_fold_step_last(pre, data@.take(i + 1));
                        assert(compactor.bstream.bits() =~= pre.bstream.bits()
                            + crate::gorilla::fold_step_bits(pre, data@.take(i + 1)));
                    }
                    i = i + 1;
                }
                proof {
                    assert(data@.take(n as int) =~= data@);
                }
                let mut vec = compactor.as_bytes_vec();
                vec.push(1u8);
                vec
            },
            Compactor::Plain(v) => {
                let mut vec = v.clone();
                vec.push(3u8);
                vec
            },
        }
    }
}

/// De-compacts a tagged byte stream back into time points.
pub enum DeCompactor {
    /// Gorilla bit-stream decoder.
    Gorilla(GorillaDecompactor),
    /// Raw 16-byte records.
    Plain(Vec<u8>),
}

impl DeCompactor {
    /// Open a tagged stream of compaction type `t`. Fails with
    /// `CompactionTypeDontMatch` when the trailing tag is not the expected
    /// one, with `InternalErr` for the unwired byte-aligned codec or a
    /// corrupt bit stream.
    pub fn from(t: CompactType, data: Vec<u8>) -> (r: Result<DeCompactor, MonolithErr>)
        requires
            data@.len() <= usize::MAX / 8,
        ensures
            t is Gorilla ==> (r matches Ok(d) ==> {
                &&& data@.len() > 0
                &&& data@.last() == 1
                &&& valid_stream_bytes(data@.drop_last())
                &&& (d matches DeCompactor::Gorilla(g) && g.wf() && g.source.cursor == 0 && g.idx
                    == 0 && g.source.data.bits() == stream_bits(
                    data@.drop_last().drop_last(),
                    data@.drop_last().last(),
                ))
            }),
            t is Gorilla && (data@.len() == 0 || data@.last() != 1) ==> (r matches Err(e)
                && e matches MonolithErr::CompactionErr(CompactionErr::CompactionTypeDontMatch(
                a,
                b,
            )) && a == 1),
            t is Plain ==> (r matches Ok(d) <==> (data@.len() > 0 && data@.last() == 3)),
            t is Plain ==> (r matches Ok(d) ==> (d matches DeCompactor::Plain(v) && v@
                == data@.drop_last())),
            t is Simple ==> r is Err,
    {
        match t {
            CompactType::Gorilla => {
                let mut body = data;
                let tag = match body.pop() {
                    Some(b) => b,
                    None => 0,
                };
                if tag != 1 {
                    return Err(
                        MonolithErr::CompactionErr(
                            CompactionErr::CompactionTypeDontMatch(1, tag),
                        ),
                    );
                }
                let bstream = match Bstream::from_bytes(body) {
                    Ok(b) => b,
                    Err(e) => {
                        return Err(e);
                    },
                };
                Ok(DeCompactor::Gorilla(GorillaDecompactor::new(bstream)))
            },
            CompactType::Plain => {
                let mut body = data;
                let tag = match body.pop() {
                    Some(b) => b,
                    None => 0,
                };
                if tag != 3 {
                    return Err(
                        MonolithErr::CompactionErr(
                            CompactionErr::CompactionTypeDontMatch(3, tag),
                        ),
                    );
                }
                Ok(DeCompactor::Plain(body))
            },
            CompactType::Simple => Err(
                MonolithErr::InternalErr(String::from_str("byte-aligned codec is not wired")),
            ),
        }
    }
}

/// The big-endian bytes of a 64-bit value.
pub open spec fn be_bytes_of(v: u64) -> Seq<u8> {
    Seq::new(8, |k: int| ((v >> ((8 * (7 - k)) as u64)) & 0xff) as u8)
}

/// Emit the big-endian bytes of `v`.
pub fn u64_to_be_bytes(v: u64) -> (r: Vec<u8>)
    ensures
        r@ == be_bytes_of(v),
{
    let mut r: Vec<u8> = Vec::new();
    let mut k: usize = 0;
    while k < 8
        invariant
            k <= 8,
            r@.len() == k,
            forall|i: int| 0 <= i < k ==> r@[i] == be_bytes_of(v)[i],
        decreases 8 - k,
    {
        let sh: u64 = (8 * (7 - k)) as u64;
        proof {
            assert((v >> sh) & 0xff < 256) by (bit_vector);
        }
        r.push(((v >> sh) & 0xff) as u8);
        k = k + 1;
    }
    proof {
        assert(r@ =~= be_bytes_of(v));
    }
    r
}

/// Reader over a bit stream with a 0-indexed bit cursor.
pub struct BstreamSeeker {
    pub data: Bstream,
    pub cursor: usize,
}

impl BstreamSeeker {
    pub open spec fn wf(&self) -> bool {
        self.data.wf()
    }

    pub fn new(data: Bstream) -> (r: BstreamSeeker)
        ensures
            r.data == data,
            r.cursor == 0,
    {
        BstreamSeeker { data, cursor: 0 }
    }

    pub fn new_with_cursor(data: Bstream, cursor: usize) -> (r: BstreamSeeker)
        ensures
            r.data == data,
            r.cursor == cursor,
    {
        BstreamSeeker { data, cursor }
    }

    /// Read the next `n` bits into `data`, most significant bit of each byte
    /// first, starting at the cursor and advancing it by what was read.
    ///
    /// Returns how many bits were read: `n`, or fewer when the stream ends
    /// first, or 0 when the cursor is past the end. Written bytes are filled
    /// from the stream and zero-padded in their unused tail; bytes beyond
    /// the written ones keep their old content.
    pub fn read_next_n_bit(&mut self, data: &mut Vec<u8>, n: usize) -> (r: usize)
        requires
            old(self).wf(),
            n <= old(data)@.len() * 8,
        ensures
            final(self).data == old(self).data,
            final(self).wf(),
            final(data)@.len() == old(data)@.len(),
            old(self).cursor > old(self).data.bits().len() ==> (r == 0 && final(self).cursor == old(
                self,
            ).cursor && final(data)@ == old(data)@),
            old(self).cursor <= old(self).data.bits().len() ==> {
                &&& r == if n <= old(self).data.bits().len() - old(self).cursor {
                    n as int
                } else {
                    old(self).data.bits().len() - old(self).cursor
                }
                &&& final(self).cursor == old(self).cursor + r
                &&& forall|t: int|
                    0 <= t < r ==> bit_of_byte(#[trigger] final(data)@[t / 8], t % 8) == old(
                        self,
                    ).data.bits()[old(self).cursor + t]
                &&& forall|t: int|
                    r <= t < ((r + 7) / 8) * 8 ==> !bit_of_byte(
                        #[trigger] final(data)@[t / 8],
                        t % 8,
                    )
                &&& forall|bi: int|
                    (r + 7) / 8 <= bi < old(data)@.len() ==> final(data)@[bi] == old(data)@[bi]
            },
    {
        let bl = self.data.bitlen();
        if self.cursor > bl {
            return 0;
        }
        let avail = bl - self.cursor;
        let r = if n <= avail {
            n
        } else {
            avail
        };
        let ghost orig = data@;
        let ghost cur0 = self.cursor as int;
        let mut i: usize = 0;
        while i < r
            invariant
                i <= r,
                r <= n,
                self.wf(),
                n <= orig.len() * 8,
                cur0 == self.cursor,
                cur0 + r <= self.data.bits().len(),
                data@.len() == orig.len(),
                forall|t: int|
                    0 <= t < i ==> bit_of_byte(#[trigger] data@[t / 8], t % 8)
                        == self.data.bits()[cur0 + t],
                forall|t: int|
                    i <= t < ((i + 7) / 8) * 8 ==> !bit_of_byte(#[trigger] data@[t / 8], t % 8),
                forall|bi: int| (i + 7) / 8 <= bi < orig.len() ==> data@[bi] == orig[bi],
            decreases r - i,
        {
            let bit = self.data.get_bit(self.cursor + i);
            let byte_idx = i / 8;
            let k: u8 = (i % 8) as u8;
            proof {
                assert(byte_idx < orig.len()) by (nonlinear_arith)
                    requires
                        byte_idx == i / 8,
                        i < r,
                        r <= n,
                        n <= orig.len() * 8,
                ;
                assert(i == 8 * byte_idx + k);
            }
            let ghost before = data@;
            if k == 0 {
                data.set(byte_idx, 0);
                proof {
                    lemma_zero_byte();
                    assert forall|t: int|
                        i + 1 <= t < ((i + 1 + 7) / 8) * 8 implies !bit_of_byte(
                        #[trigger] data@[t / 8],
                        t % 8,
                    ) by {
                        lemma_byte_pos(t, byte_idx as int);
                    }
                }
            }
            if bit {
                let cur = data[byte_idx];
                data.set(byte_idx, cur | (1u8 << (7 - k)));
            }
            proof {
                let nb = data@[byte_idx as int];
                if bit {
                    lemma_set_bit(if k == 0 {
                        0u8
                    } else {
                        before[byte_idx as int]
                    }, (7 - k) as u8);
                }
                if k == 0 {
                    lemma_zero_byte();
                }
                assert(bit_of_byte(nb, k as int) == bit);
                assert forall|t: int|
                    0 <= t < i + 1 implies bit_of_byte(#[trigger] data@[t / 8], t % 8)
                    == self.data.bits()[cur0 + t] by {
                    if t < i {
                        if t / 8 == byte_idx {
                            assert(t % 8 != k as int);
                            if k == 0 {
                                assert(t / 8 < byte_idx) by (nonlinear_arith)
                                    requires
                                        t < i,
                                        i == 8 * byte_idx,
                                        t / 8 * 8 + t % 8 == t,
                                        0 <= t % 8 < 8,
                                ;
                            }
                        }
                    } else {
                        assert(t / 8 == byte_idx && t % 8 == k as int);
                    }
                }
                assert forall|t: int|
                    i + 1 <= t < ((i + 1 + 7) / 8) * 8 implies !bit_of_byte(
                    #[trigger] data@[t / 8],
                    t % 8,
                ) by {
                    lemma_byte_pos(t, byte_idx as int);
                    assert(t % 8 > k as int);
                }
                assert forall|bi: int| (i + 1 + 7) / 8 <= bi < orig.len() implies data@[bi]
                    == orig[bi] by {
                    assert(bi != byte_idx);
                }
            }
            i = i + 1;
        }
        self.cursor = self.cursor + r;
        r
    }

    /// Set the cursor. A position past the end of the stream is corrupt
    /// input and fails with `InternalErr`, leaving the reader alone.
    pub fn reset_cursor(&mut self, pos: usize) -> (r: Result<(), crate::error::MonolithErr>)
        requires
            old(self).wf(),
        ensures
            r is Ok <==> pos <= old(self).data.bits().len(),
            r is Ok ==> final(self).data == old(self).data && final(self).cursor == pos,
            r matches Err(e) ==> *final(self) == *old(self) && e is InternalErr,
    {
        if pos > self.data.bitlen() {
            return Err(
                crate::error::MonolithErr::InternalErr(
                    String::from_str("cursor reset past the end of the stream"),
                ),
            );
        }
        self.cursor = pos;
        Ok(())
    }

    /// Get the current cursor.
    pub fn get_cursor(&self) -> (r: usize)
        ensures
            r == self.cursor,
    {
        self.cursor
    }
}

/// Every bit of the zero byte is clear.
proof fn lemma_zero_byte()
    ensures
        forall|k: int| 0 <= k < 8 ==> !bit_of_byte(0u8, k),
{
    assert(forall|j: u8| j < 8 ==> (0u8 >> j) & 1 == 0) by (bit_vector);
    assert forall|k: int| 0 <= k < 8 implies !bit_of_byte(0u8, k) by {
        let j: u8 = (7 - k) as u8;
        assert((0u8 >> j) & 1 == 0);
    }
}

/// Setting one bit leaves every other bit of the byte unchanged.
proof fn lemma_set_bit(b: u8, s: u8)
    requires
        s < 8,
    ensures
        forall|k: int|
            0 <= k < 8 && k != 7 - s ==> bit_of_byte(b | (1u8 << s), k) == bit_of_byte(b, k),
        bit_of_byte(b | (1u8 << s), 7 - s),
{
    assert(forall|j: u8|
        j < 8 && j != s ==> ((b | (1u8 << s)) >> j) & 1 == (b >> j) & 1) by (bit_vector);
    assert(((b | (1u8 << s)) >> s) & 1 == 1) by (bit_vector)
        requires
            s < 8,
    ;
    assert forall|k: int|
        0 <= k < 8 && k != 7 - s implies bit_of_byte(b | (1u8 << s), k) == bit_of_byte(b, k) by {
        let j: u8 = (7 - k) as u8;
        assert(j != s);
        assert(((b | (1u8 << s)) >> j) & 1 == (b >> j) & 1);
    }
}

/// A bit index addresses a byte below it only through its own byte index.
proof fn lemma_byte_pos(t: int, byte_idx: int)
    requires
        8 * byte_idx <= t < 8 * byte_idx + 8,
    ensures
        t / 8 == byte_idx,
        t % 8 == t - 8 * byte_idx,
{
    assert(t / 8 == byte_idx && t % 8 == t - 8 * byte_idx) by (nonlinear_arith)
        requires
            8 * byte_idx <= t < 8 * byte_idx + 8,
    ;
}

/// `data` is a valid `as_bytes_vec` serialization: a body followed by a tail
/// counter byte that is in range and whose free bits are zero in the body.
pub open spec fn valid_stream_bytes(data: Seq<u8>) -> bool {
    &&& data.len() > 0
    &&& data.last() <= 7
    &&& data.len() == 1 ==> data.last() == 0
    &&& data.len() > 1 ==> (forall|k: int|
        8 - data.last() <= k < 8 ==> !(#[trigger] bit_of_byte(data[data.len() - 2], k)))
}

/// The mask of the low `r` bits.
fn low_mask(r: u8) -> (m: u8)
    requires
        r <= 7,
    ensures
        m == (1u8 << r) - 1,
{
    proof {
        assert(1u8 << r >= 1) by (bit_vector)
            requires
                r <= 7,
        ;
    }
    (1u8 << r) - 1
}

/// A byte's low `r` bits are zero under the mask exactly when its trailing
/// `r` bit positions, seen from the most significant side, are all clear.
proof fn lemma_mask_tail_bits(b: u8, r: u8, m: u8)
    requires
        0 < r <= 7,
        m == (1u8 << r) - 1,
    ensures
        (b & m) == 0 <==> (forall|k: int| 8 - r <= k < 8 ==> !bit_of_byte(b, k)),
{
    assert(1u8 << r >= 1) by (bit_vector)
        requires
            r <= 7,
    ;
    assert((b & m) == 0 <==> ((r >= 1 ==> (b >> 0u8) & 1 == 0) && (r >= 2 ==> (b >> 1u8) & 1 == 0)
        && (r >= 3 ==> (b >> 2u8) & 1 == 0) && (r >= 4 ==> (b >> 3u8) & 1 == 0) && (r >= 5 ==> (b
        >> 4u8) & 1 == 0) && (r >= 6 ==> (b >> 5u8) & 1 == 0) && (r >= 7 ==> (b >> 6u8) & 1
        == 0))) by (bit_vector)
        requires
            0 < r <= 7,
            m == (1u8 << r) - 1,
    ;
    if (b & m) == 0 {
        assert forall|k: int| 8 - r <= k < 8 implies !bit_of_byte(b, k) by {
            let j: u8 = (7 - k) as u8;
            assert(j < r);
            if j == 0 {
                assert((b >> 0u8) & 1 == 0);
            } else if j == 1 {
                assert((b >> 1u8) & 1 == 0);
            } else if j == 2 {
                assert((b >> 2u8) & 1 == 0);
            } else if j == 3 {
                assert((b >> 3u8) & 1 == 0);
            } else if j == 4 {
                assert((b >> 4u8) & 1 == 0);
            } else if j == 5 {
                assert((b >> 5u8) & 1 == 0);
            } else {
                assert(j == 6);
                assert((b >> 6u8) & 1 == 0);
            }
        }
    } else {
        assert(exists|k: int| 8 - r <= k < 8 && #[trigger] bit_of_byte(b, k)) by {
            if r >= 1 && (b >> 0u8) & 1 != 0 {
                assert((b >> 0u8) & 1 == 1) by (bit_vector)
                    requires
                        (b >> 0u8) & 1 != 0,
                ;
                assert(bit_of_byte(b, 7));
            } else if r >= 2 && (b >> 1u8) & 1 != 0 {
                assert((b >> 1u8) & 1 == 1) by (bit_vector)
                    requires
                        (b >> 1u8) & 1 != 0,
                ;
                assert(bit_of_byte(b, 6));
            } else if r >= 3 && (b >> 2u8) & 1 != 0 {
                assert((b >> 2u8) & 1 == 1) by (bit_vector)
                    requires
                        (b >> 2u8) & 1 != 0,
                ;
                assert(bit_of_byte(b, 5));
            } else if r >= 4 && (b >> 3u8) & 1 != 0 {
                assert((b >> 3u8) & 1 == 1) by (bit_vector)
                    requires
                        (b >> 3u8) & 1 != 0,
                ;
                assert(bit_of_byte(b, 4));
            } else if r >= 5 && (b >> 4u8) & 1 != 0 {
                assert((b >> 4u8) & 1 == 1) by (bit_vector)
                    requires
                        (b >> 4u8) & 1 != 0,
                ;
                assert(bit_of_byte(b, 3));
            } else if r >= 6 && (b >> 5u8) & 1 != 0 {
                assert((b >> 5u8) & 1 == 1) by (bit_vector)
                    requires
                        (b >> 5u8) & 1 != 0,
                ;
                assert(bit_of_byte(b, 2));
            } else {
                assert(r == 7 && (b >> 6u8) & 1 != 0);
                assert((b >> 6u8) & 1 == 1) by (bit_vector)
                    requires
                        (b >> 6u8) & 1 != 0,
                ;
                assert(bit_of_byte(b, 1));
            }
        }
    }
}

/// The big-endian 64-bit value of 8 bytes.
pub open spec fn be_u64(s: Seq<u8>) -> u64
    recommends
        s.len() == 8,
{
    (be_val(s) % 0x10000000000000000) as u64
}

/// Big-endian fold of a byte sequence into an integer.
pub open spec fn be_val(s: Seq<u8>) -> int
    decreases s.len(),
{
    if s.len() == 0 {
        0
    } else {
        be_val(s.drop_last()) * 256 + s.last()
    }
}

/// Assemble the big-endian value of 8 bytes.
fn be_u64_exec(bytes: &[u8; 8]) -> (v: u64)
    ensures
        v == be_u64(bytes@),
        v == be_val(bytes@),
{
    let mut v: u64 = 0;
    let mut k: usize = 0;
    while k < 8
        invariant
            k <= 8,
            v == be_val(bytes@.take(k as int)),
            v < pow256(k as nat),
        decreases 8 - k,
    {
        proof {
            assert(bytes@.take(k + 1).drop_last() =~= bytes@.take(k as int));
            assert(bytes@.take(k + 1).last() == bytes@[k as int]);
            lemma_pow256_bounds(k as nat);
            lemma_pow256_bounds((k + 1) as nat);
            assert(v * 256 + bytes@[k as int] < pow256((k + 1) as nat)) by (nonlinear_arith)
                requires
                    v < pow256(k as nat),
                    bytes@[k as int] < 256,
                    pow256((k + 1) as nat) == 256 * pow256(k as nat),
            ;
        }
        v = v * 256 + (bytes[k] as u64);
        k = k + 1;
    }
    proof {
        assert(bytes@.take(8int) =~= bytes@);
        lemma_pow256_bounds(8nat);
    }
    v
}

/// 256 to the power `k`.
pub open spec fn pow256(k: nat) -> int
    decreases k,
{
    if k == 0 {
        1
    } else {
        256 * pow256((k - 1) as nat)
    }
}

proof fn lemma_pow256_pos(k: nat)
    ensures
        pow256(k) >= 1,
    decreases k,
{
    if k > 0 {
        lemma_pow256_pos((k - 1) as nat);
    }
}

proof fn lemma_pow256_bounds(k: nat)
    requires
        k <= 8,
    ensures
        pow256(k) >= 1,
        pow256(k) <= 0x10000000000000000,
        pow256(8) == 0x10000000000000000,
    decreases 8 - k,
{
    reveal_with_fuel(pow256, 10);
    assert(pow256(8) == 0x10000000000000000);
    lemma_pow256_pos(k);
    if k < 8 {
        lemma_pow256_bounds(k + 1);
        assert(pow256(k + 1) == 256 * pow256(k));
    }
}

/// A well-formed stream's byte count is its bit count plus the free bits,
/// divided by eight.
proof fn lemma_stream_size(s: Bstream)
    requires
        s.wf(),
    ensures
        s.data@.len() * 8 == s.bits().len() + s.remaining,
{
}

/// Division bound: a bit index below the stream length lands on a byte of
/// the buffer.
proof fn lemma_div_bound(i: int, len: int)
    requires
        0 <= i,
        i < len * 8,
    ensures
        0 <= i / 8 < len,
{
    assert(i / 8 < len) by (nonlinear_arith)
        requires
            0 <= i,
            i < len * 8,
    ;
}

/// A bit index in the last byte, below the written part, has a small offset.
proof fn lemma_last_byte_pos(len: int, r: int, i: int)
    requires
        len >= 1,
        1 <= r <= 7,
        (len - 1) * 8 <= i < len * 8 - r,
        i / 8 == len - 1,
    ensures
        i % 8 < 8 - r,
{
    assert(i == 8 * (i / 8) + i % 8);
}

/// The first free bit of a stream sits in its last byte, `8 - r` bits in.
proof fn lemma_tail_pos(len: int, r: int)
    requires
        len >= 1,
        1 <= r <= 7,
    ensures
        (len * 8 - r) / 8 == len - 1,
        (len * 8 - r) % 8 == 8 - r,
{
    let i = len * 8 - r;
    assert(i == 8 * (len - 1) + (8 - r));
    assert(i / 8 == len - 1 && i % 8 == 8 - r) by (nonlinear_arith)
        requires
            i == 8 * (len - 1) + (8 - r),
            1 <= r <= 7,
    ;
}

} // verus!
