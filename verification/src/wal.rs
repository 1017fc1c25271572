//! Write-ahead log: CRC-protected entries, segment files as byte buffers
//! with a sync-policy cache, and the manager that assigns sequence ids and
//! rotates segments. The edge persists the bytes and fsyncs; every byte
//! written to disk is computed and checked here.

use crate::compaction::{be_bytes_of, u64_to_be_bytes};
use crate::error::{MonolithErr, WalErr};
use crate::storage::be_u64_at;
use vstd::prelude::*;

verus! {

/// Segment file magic; the top three bytes spell the format's name, the
/// rest are reserved.
pub const WAL_MAGIC_NUMBER: u64 = 0x57414C0000000000u64;

/// The CRC-32 (IEEE) of a byte run, a function of the bytes alone.
pub uninterp spec fn crc32_of(bytes: Seq<u8>) -> u32;

/// The CRC-64 (ECMA) of a byte run, a function of the bytes alone.
pub uninterp spec fn crc64_of(bytes: Seq<u8>) -> u64;

/// Relies on crc::crc32::checksum_ieee: the IEEE CRC-32 of the bytes,
/// depending on the bytes alone.
#[verifier::external_body]
fn crc32(bytes: &[u8]) -> (r: u32)
    ensures
        r == crc32_of(bytes@),
{
    crc::crc32::checksum_ieee(bytes)
}

/// Relies on crc::crc64::checksum_ecma: the ECMA CRC-64 of the bytes,
/// depending on the bytes alone.
#[verifier::external_body]
fn crc64(bytes: &[u8]) -> (r: u64)
    ensures
        r == crc64_of(bytes@),
{
    crc::crc64::checksum_ecma(bytes)
}

/// The big-endian bytes of a 32-bit value.
pub open spec fn be4_bytes_of(v: u32) -> Seq<u8> {
    Seq::new(4, |k: int| ((v >> ((8 * (3 - k)) as u32)) & 0xff) as u8)
}

/// The big-endian bytes of a 16-bit value.
pub open spec fn be2_bytes_of(v: u16) -> Seq<u8> {
    Seq::new(2, |k: int| ((v >> ((8 * (1 - k)) as u16)) & 0xff) as u8)
}

fn u32_to_be_bytes(v: u32) -> (r: Vec<u8>)
    ensures
        r@ == be4_bytes_of(v),
{
    let mut r: Vec<u8> = Vec::new();
    proof {
        assert((v >> 24u32) & 0xff < 256 && (v >> 16u32) & 0xff < 256 && (v >> 8u32) & 0xff < 256
            && (v >> 0u32) & 0xff < 256) by (bit_vector);
    }
    r.push(((v >> 24) & 0xff) as u8);
    r.push(((v >> 16) & 0xff) as u8);
    r.push(((v >> 8) & 0xff) as u8);
    r.push((v & 0xff) as u8);
    proof {
        assert((v >> 0u32) & 0xff == v & 0xff) by (bit_vector);
        assert(r@ =~= be4_bytes_of(v));
    }
    r
}

fn u16_to_be_bytes(v: u16) -> (r: Vec<u8>)
    ensures
        r@ == be2_bytes_of(v),
{
    let mut r: Vec<u8> = Vec::new();
    proof {
        assert((v >> 8u16) & 0xff < 256 && (v >> 0u16) & 0xff < 256) by (bit_vector);
    }
    r.push(((v >> 8) & 0xff) as u8);
    r.push((v & 0xff) as u8);
    proof {
        assert((v >> 0u16) & 0xff == v & 0xff) by (bit_vector);
        assert(r@ =~= be2_bytes_of(v));
    }
    r
}

/// The kinds of log entries.
pub enum EntryType {
    Default,
}

/// One log entry: sequence id, kind, payload and its CRC-32.
#[derive(Clone)]
pub struct Entry {
    pub seq_id: u64,
    pub entry_type: u8,
    pub content: Vec<u8>,
}

/// The on-disk form of one entry:
/// `seq_id(8) | kind(1) | len(2, BE) | payload | CRC32(4)`.
pub open spec fn entry_bytes(e: Entry) -> Seq<u8> {
    be_bytes_of(e.seq_id) + seq![e.entry_type] + be2_bytes_of(e.content@.len() as u16)
        + e.content@ + be4_bytes_of(crc32_of(e.content@))
}

impl Default for Entry {
    fn default() -> (r: Entry)
        ensures
            r.seq_id == 0,
            r.entry_type == 0,
            r.content@ == Seq::<u8>::empty(),
    {
        Entry { seq_id: 0, entry_type: 0, content: Vec::new() }
    }
}

impl Entry {
    pub fn new(seq_id: u64, entry_type: EntryType) -> (r: Entry)
        ensures
            r.seq_id == seq_id,
            r.entry_type == 0,
            r.content@ == Seq::<u8>::empty(),
    {
        Entry { seq_id, entry_type: 0, content: Vec::new() }
    }

    /// The entry's size on disk.
    pub fn len(&self) -> (r: usize)
        requires
            self.content@.len() <= usize::MAX - 15,
        ensures
            r == self.content@.len() + 15,
    {
        8 + 1 + 2 + self.content.len() + 4
    }

    /// Append payload bytes.
    pub fn push(&mut self, content: Vec<u8>)
        ensures
            final(self).seq_id == old(self).seq_id,
            final(self).entry_type == old(self).entry_type,
            final(self).content@ == old(self).content@ + content@,
    {
        let mut c = content;
        self.content.append(&mut c);
    }

    /// The entry's on-disk bytes. The payload length must fit the 16-bit
    /// length field.
    pub fn get_bytes(&self) -> (r: Vec<u8>)
        requires
            self.content@.len() <= 0xFFFF,
        ensures
            r@ == entry_bytes(*self),
    {
        let sum = crc32(self.content.as_slice());
        let mut res = u64_to_be_bytes(self.seq_id);
        res.push(self.entry_type);
        let mut len_bytes = u16_to_be_bytes(self.content.len() as u16);
        res.append(&mut len_bytes);
        let mut payload = self.content.clone();
        res.append(&mut payload);
        let mut crc_bytes = u32_to_be_bytes(sum);
        res.append(&mut crc_bytes);
        proof {
            assert(res@ =~= entry_bytes(*self));
        }
        res
    }
}

/// When a segment flushes its cached entries to the file.
pub enum FlushPolicy {
    /// The edge flushes on its own timer, every this many milliseconds.
    TimeBased(u64),
    /// Flush after this many cached entries.
    NumBased(usize),
    /// Flush when the cached bytes reach this size.
    SizeBased(usize),
    /// Write through on every entry.
    Immediate,
}

/// The cached, not yet written entries under a flush policy.
pub enum FlushCache {
    TimeBased { cache: Vec<Entry> },
    NumBased { limit: usize, cache: Vec<Entry> },
    SizeBased { limit: usize, size: usize, cache: Vec<Entry> },
    Direct,
}

/// The entries a cache holds, oldest first.
pub open spec fn cached_entries(c: FlushCache) -> Seq<Entry> {
    match c {
        FlushCache::TimeBased { cache } => cache@,
        FlushCache::NumBased { cache, .. } => cache@,
        FlushCache::SizeBased { cache, .. } => cache@,
        FlushCache::Direct => Seq::<Entry>::empty(),
    }
}

/// The on-disk bytes of a run of entries.
pub open spec fn entries_bytes(es: Seq<Entry>) -> Seq<u8>
    decreases es.len(),
{
    if es.len() == 0 {
        Seq::<u8>::empty()
    } else {
        entries_bytes(es.drop_last()) + entry_bytes(es.last())
    }
}

/// Every cached entry's payload fits the length field.
pub open spec fn cache_payloads_fit(c: FlushCache) -> bool {
    forall|k: int|
        0 <= k < cached_entries(c).len() ==> (#[trigger] cached_entries(c)[k]).content@.len()
            <= 0xFFFF
}

/// Writer for one segment file. `synced` holds every byte handed to the
/// file so far; the cache holds entries waiting for a flush under the
/// chosen policy. The edge appends `synced`'s growth to the real file and
/// fsyncs after `sync`.
pub struct SegmentWriter {
    pub first_idx: u64,
    pub last_idx: u64,
    pub synced: Vec<u8>,
    pub cache: FlushCache,
}

/// The trailer-carrying form of a cleanly closed segment: the body, the
/// first and last sequence ids, and the CRC-64 over everything between the
/// magic and the checksum itself.
pub open spec fn closed_segment_bytes(body: Seq<u8>, first: u64, last: u64) -> Seq<u8> {
    body + be_bytes_of(first) + be_bytes_of(last) + be_bytes_of(
        crc64_of(body.skip(8) + be_bytes_of(first) + be_bytes_of(last)),
    )
}

impl SegmentWriter {
    /// A fresh segment: the magic number followed by nothing, under the
    /// given flush policy.
    pub fn new(sync_policy: FlushPolicy) -> (r: SegmentWriter)
        ensures
            r.first_idx == 0 && r.last_idx == 0,
            r.synced@ == be_bytes_of(WAL_MAGIC_NUMBER),
            cached_entries(r.cache) == Seq::<Entry>::empty(),
            cache_payloads_fit(r.cache),
    {
        let synced = u64_to_be_bytes(WAL_MAGIC_NUMBER);
        let cache = match sync_policy {
            FlushPolicy::Immediate => FlushCache::Direct,
            FlushPolicy::TimeBased(_) => FlushCache::TimeBased { cache: Vec::new() },
            FlushPolicy::NumBased(limit) => FlushCache::NumBased { limit, cache: Vec::new() },
            FlushPolicy::SizeBased(limit) => FlushCache::SizeBased {
                limit,
                size: 0,
                cache: Vec::new(),
            },
        };
        let r = SegmentWriter { first_idx: 0, last_idx: 0, synced, cache };
        proof {
            assert(cached_entries(r.cache) =~= Seq::<Entry>::empty());
        }
        r
    }

    /// Reopen an existing segment from its file bytes: check the magic and
    /// the trailing CRC-64, recover the first and last sequence ids, and
    /// drop the trailer so new entries overwrite it. Fails with `FileIoErr`
    /// exactly when the bytes are no cleanly closed segment.
    pub fn open_existing(bytes: Vec<u8>, sync_policy: FlushPolicy) -> (r: Result<
        SegmentWriter,
        MonolithErr,
    >)
        ensures
            r matches Ok(w) ==> {
                &&& bytes@.len() >= 32
                &&& bytes@ == closed_segment_bytes(
                    bytes@.take(bytes@.len() - 24),
                    w.first_idx,
                    w.last_idx,
                )
                &&& w.first_idx <= w.last_idx
                &&& w.synced@ == bytes@.take(bytes@.len() - 24)
                &&& cached_entries(w.cache) == Seq::<Entry>::empty()
                &&& cache_payloads_fit(w.cache)
            },
            r matches Err(e) ==> (e matches MonolithErr::WalErr(w) && w is FileIoErr),
            (forall|body: Seq<u8>, first: u64, last: u64|
                bytes@ == closed_segment_bytes(body, first, last) && body.len() >= 8
                    && body.subrange(0, 8) == be_bytes_of(WAL_MAGIC_NUMBER) && first <= last
                    ==> r is Ok),
    {
        let n = bytes.len();
        if n < 32 {
            proof {
                assert forall|body: Seq<u8>, first: u64, last: u64|
                    !(bytes@ == closed_segment_bytes(body, first, last) && body.len() >= 8
                        && body.subrange(0, 8) == be_bytes_of(WAL_MAGIC_NUMBER) && first
                        <= last) by {
                    if bytes@ == closed_segment_bytes(body, first, last) {
                    }
                }
            }
            return Err(
                MonolithErr::WalErr(WalErr::FileIoErr(String::from_str("segment too short"))),
            );
        }
        let magic = be_u64_at(&bytes, 0);
        if magic != WAL_MAGIC_NUMBER {
            proof {
                assert forall|body: Seq<u8>, first: u64, last: u64|
                    !(bytes@ == closed_segment_bytes(body, first, last) && body.len() >= 8
                        && body.subrange(0, 8) == be_bytes_of(WAL_MAGIC_NUMBER) && first
                        <= last) by {
                    if bytes@ == closed_segment_bytes(body, first, last) && body.len() >= 8
                        && body.subrange(0, 8) == be_bytes_of(WAL_MAGIC_NUMBER) {
                        assert(bytes@.subrange(0, 8) =~= body.subrange(0, 8));
                        crate::storage::lemma_be_roundtrip(WAL_MAGIC_NUMBER);
                    }
                }
            }
            return Err(
                MonolithErr::WalErr(WalErr::FileIoErr(String::from_str("bad segment magic"))),
            );
        }
        let stored_crc = be_u64_at(&bytes, n - 8);
        let content = vstd::slice::slice_subrange(bytes.as_slice(), 8, n - 8);
        let computed = crc64(content);
        if computed != stored_crc {
            proof {
                assert forall|body: Seq<u8>, first: u64, last: u64|
                    !(bytes@ == closed_segment_bytes(body, first, last) && body.len() >= 8
                        && body.subrange(0, 8) == be_bytes_of(WAL_MAGIC_NUMBER) && first
                        <= last) by {
                    if bytes@ == closed_segment_bytes(body, first, last) && body.len() >= 8 {
                        lemma_trailer_parts(bytes@, body, first, last);
                        crate::storage::lemma_be_roundtrip(
                            crc64_of(body.skip(8) + be_bytes_of(first) + be_bytes_of(last)),
                        );
                    }
                }
            }
            return Err(
                MonolithErr::WalErr(WalErr::FileIoErr(String::from_str("crc fail to match"))),
            );
        }
        let first_idx = be_u64_at(&bytes, n - 24);
        let last_idx = be_u64_at(&bytes, n - 16);
        if first_idx > last_idx {
            proof {
                assert forall|body: Seq<u8>, first: u64, last: u64|
                    !(bytes@ == closed_segment_bytes(body, first, last) && body.len() >= 8
                        && body.subrange(0, 8) == be_bytes_of(WAL_MAGIC_NUMBER) && first
                        <= last) by {
                    if bytes@ == closed_segment_bytes(body, first, last) && body.len() >= 8
                        && first <= last {
                        lemma_trailer_parts(bytes@, body, first, last);
                        crate::storage::lemma_be_roundtrip(first);
                        crate::storage::lemma_be_roundtrip(last);
                    }
                }
            }
            return Err(
                MonolithErr::WalErr(
                    WalErr::FileIoErr(String::from_str("segment sequence ids out of order")),
                ),
            );
        }
        let body = vstd::slice::slice_to_vec(vstd::slice::slice_subrange(
            bytes.as_slice(),
            0,
            n - 24,
        ));
        let cache = match sync_policy {
            FlushPolicy::Immediate => FlushCache::Direct,
            FlushPolicy::TimeBased(_) => FlushCache::TimeBased { cache: Vec::new() },
            FlushPolicy::NumBased(limit) => FlushCache::NumBased { limit, cache: Vec::new() },
            FlushPolicy::SizeBased(limit) => FlushCache::SizeBased {
                limit,
                size: 0,
                cache: Vec::new(),
            },
        };
        let w = SegmentWriter { first_idx, last_idx, synced: body, cache };
        proof {
            assert(cached_entries(w.cache) =~= Seq::<Entry>::empty());
            lemma_reassemble(bytes@, first_idx, last_idx, stored_crc);
        }
        Ok(w)
    }

    /// Move every cached entry's bytes onto the file.
    pub fn flush(&mut self) -> (r: Result<(), MonolithErr>)
        requires
            cache_payloads_fit(old(self).cache),
            old(self).synced@.len() + 0x20000 * (cached_entries(old(self).cache).len() + 1)
                <= usize::MAX,
        ensures
            r is Ok,
            final(self).first_idx == old(self).first_idx,
            final(self).last_idx == old(self).last_idx,
            final(self).synced@ == old(self).synced@ + entries_bytes(
                cached_entries(old(self).cache),
            ),
            final(self).synced@.len() <= old(self).synced@.len() + 0x20000 * cached_entries(
                old(self).cache,
            ).len(),
            final(self).synced@.len() >= old(self).synced@.len(),
            cached_entries(final(self).cache) == Seq::<Entry>::empty(),
            cache_payloads_fit(final(self).cache),
    {
        let mut drained: Vec<Entry> = Vec::new();
        match &mut self.cache {
            FlushCache::Direct => {},
            FlushCache::TimeBased { cache } => {
                core::mem::swap(cache, &mut drained);
            },
            FlushCache::NumBased { cache, .. } => {
                core::mem::swap(cache, &mut drained);
            },
            FlushCache::SizeBased { cache, size, .. } => {
                core::mem::swap(cache, &mut drained);
                *size = 0;
            },
        }
        proof {
            assert(drained@ == cached_entries(old(self).cache));
            assert(cached_entries(self.cache) =~= Seq::<Entry>::empty());
        }
        let n = drained.len();
        let mut i: usize = 0;
        while i < n
            invariant
                i <= n,
                n == drained@.len(),
                forall|k: int|
                    0 <= k < n ==> (#[trigger] drained@[k]).content@.len() <= 0xFFFF,
                self.synced@ == old(self).synced@ + entries_bytes(drained@.take(i as int)),
                old(self).synced@.len() + 0x20000 * (n + 1) <= usize::MAX,
                self.synced@.len() <= old(self).synced@.len() + 0x20000 * i,
                self.first_idx == old(self).first_idx,
                self.last_idx == old(self).last_idx,
                cached_entries(self.cache) == Seq::<Entry>::empty(),
                cache_payloads_fit(self.cache),
            decreases n - i,
        {
            let mut eb = drained[i].get_bytes();
            proof {
                assert(drained@.take(i + 1).drop_last() =~= drained@.take(i as int));
                assert(drained@.take(i + 1).last() == drained@[i as int]);
                assert(eb@.len() <= 0x20000) by (nonlinear_arith)
                    requires
                        eb@.len() == drained@[i as int].content@.len() + 15,
                        drained@[i as int].content@.len() <= 0xFFFF,
                ;
            }
            self.synced.append(&mut eb);
            i = i + 1;
        }
        proof {
            assert(drained@.take(n as int) =~= drained@);
        }
        Ok(())
    }

    /// Flush the cache; the edge must then fsync the file.
    pub fn sync(&mut self) -> (r: Result<(), MonolithErr>)
        requires
            cache_payloads_fit(old(self).cache),
            old(self).synced@.len() + 0x20000 * (cached_entries(old(self).cache).len() + 1)
                <= usize::MAX,
        ensures
            r is Ok,
            final(self).first_idx == old(self).first_idx,
            final(self).last_idx == old(self).last_idx,
            final(self).synced@ == old(self).synced@ + entries_bytes(
                cached_entries(old(self).cache),
            ),
            final(self).synced@.len() >= old(self).synced@.len(),
            cached_entries(final(self).cache) == Seq::<Entry>::empty(),
            cache_payloads_fit(final(self).cache),
    {
        self.flush()
    }

    /// Accept one entry under the sync policy. Fails with `InternalError`
    /// exactly when the sequence id does not exceed the last accepted one.
    pub fn write_entry(&mut self, entry: Entry) -> (r: Result<(), MonolithErr>)
        requires
            cache_payloads_fit(old(self).cache),
            entry.content@.len() <= 0xFFFF,
            old(self).synced@.len() + 0x20000 * (cached_entries(old(self).cache).len() + 2)
                <= usize::MAX,
            cached_entries(old(self).cache).len() < usize::MAX,
        ensures
            r is Ok <==> entry.seq_id > old(self).last_idx,
            r is Err ==> *final(self) == *old(self),
            r is Ok ==> {
                &&& final(self).last_idx == entry.seq_id
                &&& final(self).first_idx == (if old(self).first_idx == 0 {
                    entry.seq_id
                } else {
                    old(self).first_idx
                })
                &&& final(self).synced@ + entries_bytes(cached_entries(final(self).cache)) == old(
                    self,
                ).synced@ + entries_bytes(cached_entries(old(self).cache).push(entry))
                &&& cache_payloads_fit(final(self).cache)
                &&& final(self).synced@.len() + 0x20000 * cached_entries(final(self).cache).len()
                    <= old(self).synced@.len() + 0x20000 * (cached_entries(
                    old(self).cache,
                ).len() + 1)
                &&& final(self).synced@.len() >= old(self).synced@.len()
            },
            r matches Err(e) ==> (e matches MonolithErr::WalErr(we) && we is InternalError),
            r is Ok ==> {
                &&& (old(self).cache is Direct ==> final(self).synced@ == old(self).synced@
                    + entry_bytes(entry) && cached_entries(final(self).cache)
                    == Seq::<Entry>::empty())
                &&& (old(self).cache matches FlushCache::TimeBased { cache }
                    ==> final(self).synced@ == old(self).synced@ && cached_entries(
                    final(self).cache,
                ) == cache@.push(entry))
                &&& (old(self).cache matches FlushCache::NumBased { limit, cache } ==> (if cache@.len()
                    + 1 >= limit {
                    final(self).synced@ == old(self).synced@ + entries_bytes(cache@.push(entry))
                        && cached_entries(final(self).cache) == Seq::<Entry>::empty()
                } else {
                    final(self).synced@ == old(self).synced@ && cached_entries(final(self).cache)
                        == cache@.push(entry)
                }))
                &&& (old(self).cache matches FlushCache::SizeBased { limit, size, cache } ==> (
                if size >= usize::MAX - (entry_bytes(entry).len() - 15 + 15) || size
                    + entry_bytes(entry).len() >= limit {
                    final(self).synced@ == old(self).synced@ + entries_bytes(cache@.push(entry))
                        && cached_entries(final(self).cache) == Seq::<Entry>::empty()
                } else {
                    final(self).synced@ == old(self).synced@ && cached_entries(final(self).cache)
                        == cache@.push(entry)
                }))
            },
    {
        if self.last_idx >= entry.seq_id {
            return Err(
                MonolithErr::WalErr(
                    WalErr::InternalError(
                        String::from_str(
                            "sequence id is smaller than the last sequence id in writer",
                        ),
                    ),
                ),
            );
        }
        if self.first_idx == 0 {
            self.first_idx = entry.seq_id;
        }
        self.last_idx = entry.seq_id;
        let ghost pre_cache = cached_entries(self.cache);
        let ghost pre_synced = self.synced@;
        let mut need_flush = false;
        match &mut self.cache {
            FlushCache::Direct => {
                let mut eb = entry.get_bytes();
                proof {
                    assert(pre_cache.push(entry).drop_last() =~= pre_cache);
                    assert(pre_cache =~= Seq::<Entry>::empty());
                }
                self.synced.append(&mut eb);
            },
            FlushCache::TimeBased { cache } => {
                cache.push(entry);
                proof {
                    lemma_entries_snoc(pre_cache, entry);
                }
            },
            FlushCache::NumBased { limit, cache } => {
                cache.push(entry);
                if cache.len() >= *limit {
                    need_flush = true;
                }
                proof {
                    lemma_entries_snoc(pre_cache, entry);
                }
            },
            FlushCache::SizeBased { limit, size, cache } => {
                let entry_len = entry.len();
                cache.push(entry);
                proof {
                    lemma_entries_snoc(pre_cache, entry);
                }
                let threshold = *limit;
                let cur = *size;
                if cur >= usize::MAX - entry_len || cur + entry_len >= threshold {
                    need_flush = true;
                } else {
                    *size = cur + entry_len;
                }
            },
        }
        proof {
            assert(self.synced@ + entries_bytes(cached_entries(self.cache)) =~= pre_synced
                + entries_bytes(pre_cache.push(entry)));
        }
        if need_flush {
            match self.flush() {
                Ok(_) => {},
                Err(e) => {
                    return Err(e);
                },
            }
            proof {
                assert(self.synced@ + entries_bytes(cached_entries(self.cache)) =~= pre_synced
                    + entries_bytes(pre_cache.push(entry)));
            }
        }
        Ok(())
    }

    /// Close the segment: flush the cache and append the first and last
    /// sequence ids and the CRC-64 trailer. The edge appends the new bytes
    /// and fsyncs.
    pub fn close(&mut self) -> (r: Result<(), MonolithErr>)
        requires
            cache_payloads_fit(old(self).cache),
            old(self).synced@.len() + 0x20000 * (cached_entries(old(self).cache).len() + 2)
                <= usize::MAX,
            old(self).synced@.len() >= 8,
        ensures
            r is Ok,
            final(self).synced@ == closed_segment_bytes(
                old(self).synced@ + entries_bytes(cached_entries(old(self).cache)),
                old(self).first_idx,
                old(self).last_idx,
            ),
            final(self).first_idx == old(self).first_idx,
            final(self).last_idx == old(self).last_idx,
    {
        match self.flush() {
            Ok(_) => {},
            Err(e) => {
                return Err(e);
            },
        }
        let ghost body = self.synced@;
        let mut first_bytes = u64_to_be_bytes(self.first_idx);
        let mut last_bytes = u64_to_be_bytes(self.last_idx);
        self.synced.append(&mut first_bytes);
        self.synced.append(&mut last_bytes);
        let content = vstd::slice::slice_subrange(self.synced.as_slice(), 8, self.synced.len());
        let sum = crc64(content);
        proof {
            assert(content@ =~= body.skip(8) + be_bytes_of(old(self).first_idx) + be_bytes_of(
                old(self).last_idx,
            ));
        }
        let mut crc_bytes = u64_to_be_bytes(sum);
        self.synced.append(&mut crc_bytes);
        proof {
            assert(self.synced@ =~= closed_segment_bytes(
                body,
                old(self).first_idx,
                old(self).last_idx,
            ));
        }
        Ok(())
    }
}

/// Unrolling entry runs from the far end.
proof fn lemma_entries_snoc(es: Seq<Entry>, e: Entry)
    ensures
        entries_bytes(es.push(e)) == entries_bytes(es) + entry_bytes(e),
{
    assert(es.push(e).drop_last() =~= es);
    assert(es.push(e).last() == e);
}

/// Unrolling entry runs from the front.
proof fn lemma_entries_cons(es: Seq<Entry>)
    requires
        es.len() > 0,
    ensures
        entries_bytes(es) == entry_bytes(es[0]) + entries_bytes(es.drop_first()),
    decreases es.len(),
{
    if es.len() == 1 {
        assert(es.drop_last() =~= Seq::<Entry>::empty());
        assert(es.drop_first() =~= Seq::<Entry>::empty());
        assert(es.last() == es[0]);
        assert(entries_bytes(es) =~= entry_bytes(es[0]) + entries_bytes(es.drop_first()));
    } else {
        lemma_entries_cons(es.drop_last());
        assert(es.drop_last()[0] == es[0]);
        assert(es.drop_last().drop_first() =~= es.drop_first().drop_last());
        assert(es.drop_first().last() == es.last());
        assert(es.drop_first().len() > 0);
        assert(entries_bytes(es) == entries_bytes(es.drop_last()) + entry_bytes(es.last()));
        assert(entries_bytes(es.drop_first()) == entries_bytes(es.drop_first().drop_last())
            + entry_bytes(es.last()));
        assert(entries_bytes(es) =~= entry_bytes(es[0]) + entries_bytes(es.drop_first()));
    }
}

/// Every payload of a run fits the 16-bit length field.
pub open spec fn entries_fit(es: Seq<Entry>) -> bool {
    forall|k: int| 0 <= k < es.len() ==> (#[trigger] es[k]).content@.len() <= 0xFFFF
}

/// Entry runs serialize piecewise.
proof fn lemma_entries_concat(a: Seq<Entry>, b: Seq<Entry>)
    ensures
        entries_bytes(a + b) == entries_bytes(a) + entries_bytes(b),
    decreases b.len(),
{
    if b.len() == 0 {
        assert(a + b =~= a);
        assert(entries_bytes(a) + entries_bytes(b) =~= entries_bytes(a));
    } else {
        lemma_entries_concat(a, b.drop_last());
        assert((a + b).drop_last() =~= a + b.drop_last());
        assert((a + b).last() == b.last());
        assert(entries_bytes(a + b) =~= entries_bytes(a) + entries_bytes(b));
    }
}

/// `bytes` is the cleanly closed segment over `body0` whose payload region
/// serializes the entry run `es`.
pub open spec fn segment_body_of(
    bytes: Seq<u8>,
    body0: Seq<u8>,
    first: u64,
    last: u64,
    es: Seq<Entry>,
) -> bool {
    &&& bytes == closed_segment_bytes(body0, first, last)
    &&& body0.len() >= 8
    &&& body0.subrange(0, 8) == be_bytes_of(WAL_MAGIC_NUMBER)
    &&& first <= last
    &&& body0.skip(8) == entries_bytes(es)
    &&& entries_fit(es)
}

/// The parsed entries carry the run's fields, one for one.
pub open spec fn entries_match(parsed: Seq<Entry>, es: Seq<Entry>) -> bool {
    &&& parsed.len() == es.len()
    &&& forall|t: int|
        0 <= t < es.len() ==> {
            &&& (#[trigger] parsed[t]).seq_id == es[t].seq_id
            &&& parsed[t].entry_type == es[t].entry_type
            &&& parsed[t].content@ == es[t].content@
        }
}

/// The trailer of a closed segment decomposes into its parts.
proof fn lemma_trailer_parts(bytes: Seq<u8>, body: Seq<u8>, first: u64, last: u64)
    requires
        bytes == closed_segment_bytes(body, first, last),
        body.len() >= 8,
    ensures
        bytes.len() == body.len() + 24,
        bytes.subrange(bytes.len() - 24, bytes.len() - 16) =~= be_bytes_of(first),
        bytes.subrange(bytes.len() - 16, bytes.len() - 8) =~= be_bytes_of(last),
        bytes.subrange(bytes.len() - 8, bytes.len() as int) =~= be_bytes_of(
            crc64_of(body.skip(8) + be_bytes_of(first) + be_bytes_of(last)),
        ),
        bytes.subrange(8, bytes.len() - 8) =~= body.skip(8) + be_bytes_of(first) + be_bytes_of(
            last,
        ),
        bytes.take(bytes.len() - 24) =~= body,
{
}

/// Reassembling what `open_existing` validated: the input is exactly the
/// closed form of its recovered body and ids.
proof fn lemma_reassemble(bytes: Seq<u8>, first: u64, last: u64, stored_crc: u64)
    requires
        bytes.len() >= 32,
        first == crate::compaction::be_u64(bytes.subrange(bytes.len() - 24, bytes.len() - 16)),
        last == crate::compaction::be_u64(bytes.subrange(bytes.len() - 16, bytes.len() - 8)),
        stored_crc == crate::compaction::be_u64(bytes.subrange(bytes.len() - 8, bytes.len() as int)),
        stored_crc == crc64_of(bytes.subrange(8, bytes.len() - 8)),
    ensures
        bytes == closed_segment_bytes(bytes.take(bytes.len() - 24), first, last),
{
    let body = bytes.take(bytes.len() - 24);
    lemma_be_bytes_complete(bytes.subrange(bytes.len() - 24, bytes.len() - 16));
    lemma_be_bytes_complete(bytes.subrange(bytes.len() - 16, bytes.len() - 8));
    lemma_be_bytes_complete(bytes.subrange(bytes.len() - 8, bytes.len() as int));
    assert(bytes.subrange(8, bytes.len() - 8) =~= body.skip(8) + be_bytes_of(first) + be_bytes_of(
        last,
    ));
    assert(bytes =~= closed_segment_bytes(body, first, last));
}

/// Eight bytes are the big-endian form of their own value.
proof fn lemma_be_bytes_complete(s: Seq<u8>)
    requires
        s.len() == 8,
    ensures
        be_bytes_of(crate::compaction::be_u64(s)) == s,
{
    let v = crate::compaction::be_u64(s);
    crate::storage::lemma_be_roundtrip(v);
    lemma_be_val_injective(s, be_bytes_of(v));
}

/// Two 8-byte runs with the same big-endian value are equal.
proof fn lemma_be_val_injective(a: Seq<u8>, b: Seq<u8>)
    requires
        a.len() == 8,
        b.len() == 8,
        crate::compaction::be_u64(a) == crate::compaction::be_u64(b),
    ensures
        b == a,
{
    lemma_be_digits(a);
    lemma_be_digits(b);
    crate::storage::lemma_pow256i_value();
    assert(crate::compaction::be_val(a) < 0x10000000000000000 && crate::compaction::be_val(a)
        >= 0);
    assert(crate::compaction::be_val(b) < 0x10000000000000000 && crate::compaction::be_val(b)
        >= 0);
    assert(crate::compaction::be_val(a) == crate::compaction::be_val(b));
    assert(be_bytes_of(crate::compaction::be_u64(a)) =~= a) by {
        lemma_be_digits_form(a);
    }
    assert(be_bytes_of(crate::compaction::be_u64(b)) =~= b) by {
        lemma_be_digits_form(b);
    }
}

/// The big-endian value of 8 bytes is bounded by 2^64.
proof fn lemma_be_digits(s: Seq<u8>)
    requires
        s.len() <= 8,
    ensures
        0 <= crate::compaction::be_val(s),
        crate::compaction::be_val(s) < crate::storage::pow256i(s.len()),
    decreases s.len(),
{
    crate::storage::lemma_pow256i_pos(s.len());
    if s.len() > 0 {
        lemma_be_digits(s.drop_last());
        crate::storage::lemma_pow256i_pos((s.len() - 1) as nat);
        assert(crate::storage::pow256i(s.len()) == 256 * crate::storage::pow256i(
            (s.len() - 1) as nat,
        ));
        assert(crate::compaction::be_val(s.drop_last()) * 256 + s.last()
            < crate::storage::pow256i(s.len())) by (nonlinear_arith)
            requires
                crate::compaction::be_val(s.drop_last()) < crate::storage::pow256i(
                    (s.len() - 1) as nat,
                ),
                crate::compaction::be_val(s.drop_last()) >= 0,
                s.last() < 256,
                crate::storage::pow256i(s.len()) == 256 * crate::storage::pow256i(
                    (s.len() - 1) as nat,
                ),
        ;
    }
}

/// Each byte of an 8-byte run is the corresponding base-256 digit of its
/// value, so the run is its value's big-endian form.
proof fn lemma_be_digits_form(s: Seq<u8>)
    requires
        s.len() == 8,
    ensures
        be_bytes_of(crate::compaction::be_u64(s)) =~= s,
{
    lemma_be_digits(s);
    crate::storage::lemma_pow256i_value();
    let v = crate::compaction::be_u64(s);
    assert(v == crate::compaction::be_val(s));
    crate::storage::lemma_be_roundtrip(v);
    lemma_bytes_of_same_value(s, be_bytes_of(v));
}

/// Two 8-byte runs with equal values are pointwise equal, by peeling the
/// last digit.
proof fn lemma_bytes_of_same_value(a: Seq<u8>, b: Seq<u8>)
    requires
        a.len() == b.len(),
        a.len() <= 8,
        crate::compaction::be_val(a) == crate::compaction::be_val(b),
    ensures
        a =~= b,
    decreases a.len(),
{
    if a.len() > 0 {
        lemma_be_digits(a.drop_last());
        lemma_be_digits(b.drop_last());
        assert(a.last() == b.last() && crate::compaction::be_val(a.drop_last())
            == crate::compaction::be_val(b.drop_last())) by (nonlinear_arith)
            requires
                crate::compaction::be_val(a) == crate::compaction::be_val(a.drop_last()) * 256
                    + a.last(),
                crate::compaction::be_val(b) == crate::compaction::be_val(b.drop_last()) * 256
                    + b.last(),
                crate::compaction::be_val(a) == crate::compaction::be_val(b),
                0 <= a.last() < 256,
                0 <= b.last() < 256,
                crate::compaction::be_val(a.drop_last()) >= 0,
                crate::compaction::be_val(b.drop_last()) >= 0,
        ;
        lemma_bytes_of_same_value(a.drop_last(), b.drop_last());
        assert forall|i: int| 0 <= i < a.len() implies a[i] == b[i] by {
            if i < a.len() - 1 {
                assert(a.drop_last()[i] == b.drop_last()[i]);
            }
        }
    }
}

/// A cleanly closed segment reopens with its first and last sequence ids
/// preserved.
pub proof fn lemma_segment_reopen(body: Seq<u8>, first: u64, last: u64)
    requires
        body.len() >= 8,
        first <= last,
    ensures
        ({
            let bytes = closed_segment_bytes(body, first, last);
            &&& bytes.len() >= 32
            &&& bytes.take(bytes.len() - 24) == body
            &&& crate::compaction::be_u64(bytes.subrange(bytes.len() - 24, bytes.len() - 16))
                == first
            &&& crate::compaction::be_u64(bytes.subrange(bytes.len() - 16, bytes.len() - 8))
                == last
            &&& crc64_of(bytes.subrange(8, bytes.len() - 8)) == crate::compaction::be_u64(
                bytes.subrange(bytes.len() - 8, bytes.len() as int),
            )
        }),
{
    let bytes = closed_segment_bytes(body, first, last);
    lemma_trailer_parts(bytes, body, first, last);
    crate::storage::lemma_be_roundtrip(first);
    crate::storage::lemma_be_roundtrip(last);
    crate::storage::lemma_be_roundtrip(
        crc64_of(body.skip(8) + be_bytes_of(first) + be_bytes_of(last)),
    );
}

/// Configuration of the log manager.
pub struct WalConfig {
    pub sync_policy: FlushPolicy,
    /// The first sequence id to assign; must be at least 1.
    pub initial_seq: u64,
}

/// The write-ahead log: an active segment taking entries, the sealed
/// segments' bytes in creation order, and the sequence-id counter. When the
/// active segment's file crosses the rotation size, it is closed and
/// sealed.
pub struct Wal {
    pub next_seq: u64,
    pub active_seg: SegmentWriter,
    pub segments: Vec<Vec<u8>>,
    pub rotate_size: usize,
    pub sync_policy: FlushPolicy,
}

/// Well-formedness of a log: the sequence counter stays ahead of the
/// active segment, cached payloads fit the length field, and the active
/// file holds at least its magic header. `Wal::open` establishes it and
/// `Wal::write` preserves it.
pub open spec fn wal_wf(w: Wal) -> bool {
    &&& w.next_seq >= 1
    &&& w.next_seq > w.active_seg.last_idx
    &&& cache_payloads_fit(w.active_seg.cache)
    &&& w.active_seg.synced@.len() >= 8
}

/// The machine-limit side conditions under which the log can take one
/// more record: room in the address space for the entry bytes and a
/// sequence id left to assign.
pub open spec fn wal_room_ok(w: Wal) -> bool {
    &&& w.active_seg.synced@.len() + 0x20000 * (cached_entries(w.active_seg.cache).len() + 4)
        <= usize::MAX
    &&& cached_entries(w.active_seg.cache).len() + 4 < usize::MAX
    &&& w.next_seq < u64::MAX
}

/// One append to the log: the sequence counter advances and an entry
/// carrying `data` under the assigned id either joins the active
/// segment's bytes-plus-cache or, on rotation, seals the active segment
/// onto the closed list and a fresh one starts.
pub open spec fn wal_append_step(pre: Wal, post: Wal, data: Seq<u8>) -> bool {
    &&& post.next_seq == pre.next_seq + 1
    &&& exists|e: Entry|
        {
            &&& e.seq_id == pre.next_seq
            &&& e.entry_type == 0
            &&& (#[trigger] e.content)@ == data
            &&& (post.segments@ == pre.segments@ ==> post.active_seg.synced@ + entries_bytes(
                cached_entries(post.active_seg.cache),
            ) == pre.active_seg.synced@ + entries_bytes(
                cached_entries(pre.active_seg.cache).push(e),
            ))
            &&& (post.segments@ != pre.segments@ ==> {
                &&& post.segments@.len() == pre.segments@.len() + 1
                &&& (forall|c: int|
                    0 <= c < pre.segments@.len() ==> #[trigger] post.segments@[c]
                        == pre.segments@[c])
                &&& post.segments@.last()@ == closed_segment_bytes(
                    pre.active_seg.synced@ + entries_bytes(
                        cached_entries(pre.active_seg.cache).push(e),
                    ),
                    if pre.active_seg.first_idx == 0 {
                        pre.next_seq
                    } else {
                        pre.active_seg.first_idx
                    },
                    pre.next_seq,
                )
                &&& post.active_seg.synced@ == be_bytes_of(WAL_MAGIC_NUMBER)
                &&& cached_entries(post.active_seg.cache) == Seq::<Entry>::empty()
                &&& post.active_seg.last_idx == 0
            })
        }
}

impl Wal {
    /// Open a fresh log under the configuration, rotating segments when
    /// their files reach `rotate_size`.
    pub fn open(config: WalConfig, rotate_size: usize) -> (r: Wal)
        requires
            config.initial_seq >= 1,
        ensures
            r.next_seq == config.initial_seq,
            r.active_seg.synced@ == be_bytes_of(WAL_MAGIC_NUMBER),
            r.segments@.len() == 0,
            cached_entries(r.active_seg.cache) == Seq::<Entry>::empty(),
            cache_payloads_fit(r.active_seg.cache),
            r.active_seg.last_idx == 0,
    {
        let sync_policy_copy = match config.sync_policy {
            FlushPolicy::Immediate => FlushPolicy::Immediate,
            FlushPolicy::TimeBased(d) => FlushPolicy::TimeBased(d),
            FlushPolicy::NumBased(k) => FlushPolicy::NumBased(k),
            FlushPolicy::SizeBased(k) => FlushPolicy::SizeBased(k),
        };
        Wal {
            next_seq: config.initial_seq,
            active_seg: SegmentWriter::new(config.sync_policy),
            segments: Vec::new(),
            rotate_size,
            sync_policy: sync_policy_copy,
        }
    }

    /// Whether the machine-limit side conditions for one more append hold.
    pub fn has_room(&self) -> (r: bool)
        ensures
            r == wal_room_ok(*self),
    {
        if self.next_seq == u64::MAX {
            return false;
        }
        let cl: usize = match &self.active_seg.cache {
            FlushCache::Direct => 0,
            FlushCache::TimeBased { cache } => cache.len(),
            FlushCache::NumBased { cache, .. } => cache.len(),
            FlushCache::SizeBased { cache, .. } => cache.len(),
        };
        if cl >= usize::MAX - 4 {
            return false;
        }
        let need: u128 = (cl as u128 + 4) * 0x20000;
        let have: u128 = self.active_seg.synced.len() as u128;
        have + need <= usize::MAX as u128
    }

    /// Append one record: assign it the next sequence id, write it to the
    /// active segment, and rotate the segment when its file has grown past
    /// the rotation size.
    pub fn write(&mut self, entry_type: EntryType, data: Vec<u8>) -> (r: Result<u64, MonolithErr>)
        requires
            data@.len() <= 0xFFFF,
            old(self).next_seq >= 1,
            old(self).next_seq > old(self).active_seg.last_idx,
            cache_payloads_fit(old(self).active_seg.cache),
            old(self).active_seg.synced@.len() + 0x20000 * (cached_entries(
                old(self).active_seg.cache,
            ).len() + 4) <= usize::MAX,
            cached_entries(old(self).active_seg.cache).len() + 4 < usize::MAX,
            old(self).active_seg.synced@.len() >= 8,
            old(self).next_seq < u64::MAX,
        ensures
            r matches Ok(seq) ==> {
                &&& seq == old(self).next_seq
                &&& final(self).next_seq == old(self).next_seq + 1
                &&& final(self).next_seq > final(self).active_seg.last_idx
                    || final(self).active_seg.last_idx == 0
                &&& exists|e: Entry|
                    {
                        &&& e.seq_id == seq
                        &&& e.entry_type == 0
                        &&& (#[trigger] e.content)@ == data@
                        &&& (final(self).segments@ == old(self).segments@
                            ==> final(self).active_seg.synced@ + entries_bytes(
                            cached_entries(final(self).active_seg.cache),
                        ) == old(self).active_seg.synced@ + entries_bytes(
                            cached_entries(old(self).active_seg.cache).push(e),
                        ))
                        &&& (final(self).segments@ != old(self).segments@ ==> {
                            &&& final(self).segments@.len() == old(self).segments@.len() + 1
                            &&& (forall|c: int|
                                0 <= c < old(self).segments@.len()
                                    ==> #[trigger] final(self).segments@[c]
                                    == old(self).segments@[c])
                            &&& final(self).segments@.last()@ == closed_segment_bytes(
                                old(self).active_seg.synced@ + entries_bytes(
                                    cached_entries(old(self).active_seg.cache).push(e),
                                ),
                                if old(self).active_seg.first_idx == 0 {
                                    seq
                                } else {
                                    old(self).active_seg.first_idx
                                },
                                seq,
                            )
                            &&& final(self).active_seg.synced@ == be_bytes_of(WAL_MAGIC_NUMBER)
                            &&& cached_entries(final(self).active_seg.cache)
                                == Seq::<Entry>::empty()
                            &&& final(self).active_seg.last_idx == 0
                        })
                    }
            },
            cache_payloads_fit(final(self).active_seg.cache),
            old(self).next_seq > old(self).active_seg.last_idx ==> r is Ok,
            r is Err ==> *final(self) == *old(self),
            r is Ok ==> final(self).active_seg.synced@.len() >= 8,
            r is Ok ==> wal_append_step(*old(self), *final(self), data@),
            wal_wf(*old(self)) ==> wal_wf(*final(self)),
    {
        let seq = self.next_seq;
        let mut entry = Entry::new(seq, entry_type);
        entry.push(data);
        let ghost w = entry;
        proof {
            assert(entry.content@.len() <= 0xFFFF);
            assert(w.content@ =~= data@);
        }
        let ghost pre_seg = self.active_seg;
        match self.active_seg.write_entry(entry) {
            Ok(_) => {},
            Err(e) => {
                return Err(e);
            },
        }
        self.next_seq = seq + 1;
        if self.active_seg.synced.len() >= self.rotate_size {
            let ghost post_write = self.active_seg;
            match self.active_seg.close() {
                Ok(_) => {},
                Err(e) => {
                    return Err(e);
                },
            }
            let mut fresh = SegmentWriter::new(match self.sync_policy {
                FlushPolicy::Immediate => FlushPolicy::Immediate,
                FlushPolicy::TimeBased(d) => FlushPolicy::TimeBased(d),
                FlushPolicy::NumBased(k) => FlushPolicy::NumBased(k),
                FlushPolicy::SizeBased(k) => FlushPolicy::SizeBased(k),
            });
            core::mem::swap(&mut self.active_seg, &mut fresh);
            self.segments.push(fresh.synced);
            proof {
                assert(post_write.synced@ + entries_bytes(cached_entries(post_write.cache))
                    == pre_seg.synced@ + entries_bytes(cached_entries(pre_seg.cache).push(w)));
                assert(fresh.synced@ == closed_segment_bytes(
                    post_write.synced@ + entries_bytes(cached_entries(post_write.cache)),
                    if pre_seg.first_idx == 0 {
                        seq
                    } else {
                        pre_seg.first_idx
                    },
                    seq,
                ));
                assert(self.segments@.last()@ == closed_segment_bytes(
                    pre_seg.synced@ + entries_bytes(cached_entries(pre_seg.cache).push(w)),
                    if pre_seg.first_idx == 0 {
                        seq
                    } else {
                        pre_seg.first_idx
                    },
                    seq,
                ));
                assert(self.segments@.len() == old(self).segments@.len() + 1);
                assert(self.segments@ != old(self).segments@);
            }
        } else {
            proof {
                assert(self.segments@ == old(self).segments@);
                assert(self.active_seg.synced@ + entries_bytes(cached_entries(self.active_seg.cache))
                    == pre_seg.synced@ + entries_bytes(cached_entries(pre_seg.cache).push(w)));
            }
        }
        Ok(seq)
    }
}

/// Reader for one segment's bytes: validates the magic and the trailing
/// CRC-64 on opening, then yields the entries in order, checking each
/// entry's CRC-32.
pub struct SegmentReader {
    pub first_idx: u64,
    pub last_idx: u64,
    pub entries: Vec<Entry>,
}

impl SegmentReader {
    /// Open a closed segment's bytes. The trailer is validated exactly as
    /// on reopening for append; every entry must parse with a matching
    /// CRC-32, else `CrcMismatch`. Completeness holds too: bytes that are
    /// the closed form over a serialized entry run open to exactly that
    /// run.
    #[verifier::rlimit(100)]
    pub fn new(bytes: Vec<u8>) -> (r: Result<SegmentReader, MonolithErr>)
        ensures
            r matches Ok(rd) ==> {
                &&& bytes@.len() >= 32
                &&& bytes@ == closed_segment_bytes(
                    bytes@.take(bytes@.len() - 24),
                    rd.first_idx,
                    rd.last_idx,
                )
                &&& rd.first_idx <= rd.last_idx
                &&& entries_bytes(rd.entries@) == bytes@.subrange(8, bytes@.len() - 24)
            },
            r matches Err(e) ==> e matches MonolithErr::WalErr(we),
            forall|body0: Seq<u8>, first: u64, last: u64, es: Seq<Entry>|
                #[trigger] segment_body_of(bytes@, body0, first, last, es) ==> (r matches Ok(rd)
                    && entries_match(rd.entries@, es) && rd.first_idx == first && rd.last_idx
                    == last),
    {
        let w = match SegmentWriter::open_existing(bytes, FlushPolicy::Immediate) {
            Ok(w) => w,
            Err(e) => {
                return Err(e);
            },
        };
        let body = w.synced;
        let ghost wfirst = w.first_idx;
        let ghost wlast = w.last_idx;
        let blen = body.len();
        let mut entries: Vec<Entry> = Vec::new();
        let mut pos: usize = 8;
        proof {
            assert(body@.subrange(8, 8) =~= Seq::<u8>::empty());
            assert forall|body0: Seq<u8>, first: u64, last: u64, es: Seq<Entry>|
                #[trigger] segment_body_of(bytes@, body0, first, last, es) implies body@ == body0
                && first == wfirst && last == wlast by {
                lemma_trailer_parts(bytes@, body0, first, last);
                assert(body@ == bytes@.take(bytes@.len() - 24));
                lemma_trailer_parts(bytes@, bytes@.take(bytes@.len() - 24), wfirst, wlast);
                assert(be_bytes_of(first) == be_bytes_of(wfirst));
                assert(be_bytes_of(last) == be_bytes_of(wlast));
                crate::storage::lemma_be_roundtrip(first);
                crate::storage::lemma_be_roundtrip(last);
                crate::storage::lemma_be_roundtrip(wfirst);
                crate::storage::lemma_be_roundtrip(wlast);
                assert(crate::compaction::be_u64(be_bytes_of(first)) == crate::compaction::be_u64(
                    be_bytes_of(wfirst),
                ));
            }
        }
        while pos < blen
            invariant
                8 <= pos <= blen,
                blen == body@.len(),
                entries_bytes(entries@) == body@.subrange(8, pos as int),
                forall|body0: Seq<u8>, first: u64, last: u64, es: Seq<Entry>|
                    #[trigger] segment_body_of(bytes@, body0, first, last, es) ==> {
                        &&& body@ == body0
                        &&& entries@.len() <= es.len()
                        &&& pos == 8 + entries_bytes(es.take(entries@.len() as int)).len()
                        &&& entries_match(entries@, es.take(entries@.len() as int))
                    },
            decreases blen - pos,
        {
            let ghost j = entries@.len() as int;
            proof {
                assert forall|body0: Seq<u8>, first: u64, last: u64, es: Seq<Entry>|
                    #[trigger] segment_body_of(bytes@, body0, first, last, es) implies j < es.len()
                    && body@.subrange(pos as int, blen as int) == entries_bytes(es.skip(j))
                    && body@.subrange(pos as int, pos + entry_bytes(es[j]).len()) == entry_bytes(
                    es[j],
                ) && entry_bytes(es[j]).len() == 15 + es[j].content@.len() as int && blen - pos
                    >= entry_bytes(es[j]).len() by {
                    assert(es =~= es.take(j) + es.skip(j));
                    lemma_entries_concat(es.take(j), es.skip(j));
                    let tb = entries_bytes(es.take(j));
                    let sb = entries_bytes(es.skip(j));
                    assert(entries_bytes(es) == tb + sb);
                    assert(body@.skip(8) == entries_bytes(es));
                    assert(blen == 8 + tb.len() + sb.len());
                    if j == es.len() {
                        assert(es.skip(j) =~= Seq::<Entry>::empty());
                        assert(sb.len() == 0);
                        assert(pos == blen);
                    }
                    assert(es.skip(j)[0] == es[j]);
                    lemma_entries_cons(es.skip(j));
                    assert(entry_bytes(es[j]).len() == 15 + es[j].content@.len() as int);
                    assert(body@.subrange(pos as int, blen as int) =~= sb) by {
                        assert forall|t: int| 0 <= t < sb.len() implies body@[pos + t]
                            == sb[t] by {
                            assert(body@[pos + t] == body@.skip(8)[pos - 8 + t]);
                            assert(entries_bytes(es)[pos - 8 + t] == (tb + sb)[tb.len() + t]);
                        }
                    }
                    assert(sb == entry_bytes(es[j]) + entries_bytes(es.skip(j).drop_first()));
                    assert(body@.subrange(pos as int, pos + entry_bytes(es[j]).len())
                        =~= entry_bytes(es[j])) by {
                        assert forall|t: int| 0 <= t < entry_bytes(es[j]).len() implies body@[pos
                            + t] == entry_bytes(es[j])[t] by {
                            assert(body@[pos + t] == body@.subrange(pos as int, blen as int)[t]);
                            assert(sb[t] == (entry_bytes(es[j]) + entries_bytes(
                                es.skip(j).drop_first(),
                            ))[t]);
                        }
                    }
                    assert(blen - pos == sb.len());
                    assert(sb.len() >= entry_bytes(es[j]).len());
                }
            }
            if blen - pos < 15 {
                proof {
                    assert forall|body0: Seq<u8>, first: u64, last: u64, es: Seq<Entry>|
                        !(#[trigger] segment_body_of(bytes@, body0, first, last, es)) by {
                        if segment_body_of(bytes@, body0, first, last, es) {
                            assert(entry_bytes(es[j]).len() >= 15);
                            assert(blen - pos >= entry_bytes(es[j]).len());
                        }
                    }
                }
                return Err(MonolithErr::WalErr(WalErr::CrcMismatch));
            }
            let seq_id = be_u64_at(&body, pos);
            let entry_type = body[pos + 8];
            let len_hi = body[pos + 9];
            let len_lo = body[pos + 10];
            let payload_len: usize = (len_hi as usize) * 256 + (len_lo as usize);
            proof {
                assert forall|body0: Seq<u8>, first: u64, last: u64, es: Seq<Entry>|
                    #[trigger] segment_body_of(bytes@, body0, first, last, es) implies seq_id
                    == es[j].seq_id && entry_type == es[j].entry_type
                    && payload_len == es[j].content@.len() by {
                    let eb = entry_bytes(es[j]);
                    let n = es[j].content@.len() as int;
                    assert(es[j].content@.len() <= 0xFFFF);
                    assert(eb == be_bytes_of(es[j].seq_id) + seq![es[j].entry_type]
                        + be2_bytes_of(es[j].content@.len() as u16) + es[j].content@
                        + be4_bytes_of(crc32_of(es[j].content@)));
                    assert(eb.len() == 15 + n);
                    assert(blen - pos >= eb.len());
                    assert(body@.subrange(pos as int, pos + eb.len()) == eb);
                    assert forall|t: int| 0 <= t < eb.len() implies body@[pos + t] == eb[t] by {
                        assert(body@.subrange(pos as int, pos + eb.len())[t] == body@[pos + t]);
                    }
                    assert(body@.subrange(pos as int, pos + 8) =~= be_bytes_of(es[j].seq_id)) by {
                        assert forall|t: int| 0 <= t < 8 implies body@.subrange(
                            pos as int,
                            pos + 8,
                        )[t] == be_bytes_of(es[j].seq_id)[t] by {
                            assert(body@[pos + t] == eb[t]);
                            assert(eb[t] == be_bytes_of(es[j].seq_id)[t]);
                        }
                    }
                    crate::storage::lemma_be_roundtrip(es[j].seq_id);
                    assert(body@[pos + 8] == eb[8]);
                    assert(eb[8] == es[j].entry_type);
                    let clen: u16 = es[j].content@.len() as u16;
                    assert(be2_bytes_of(clen)[0] == ((clen >> 8u16) & 0xff) as u8);
                    assert(be2_bytes_of(clen)[1] == ((clen >> 0u16) & 0xff) as u8);
                    assert(body@[pos + 9] == eb[9] && eb[9] == be2_bytes_of(clen)[0]);
                    assert(body@[pos + 10] == eb[10] && eb[10] == be2_bytes_of(clen)[1]);
                    assert(((clen >> 8u16) & 0xff) * 256 + ((clen >> 0u16) & 0xff) == clen
                        && ((clen >> 8u16) & 0xff) < 256 && ((clen >> 0u16) & 0xff)
                        < 256) by (bit_vector);
                    assert(seq_id == es[j].seq_id);
                    assert(entry_type == es[j].entry_type);
                    assert(len_hi == ((clen >> 8u16) & 0xff));
                    assert(len_lo == ((clen >> 0u16) & 0xff));
                    assert(payload_len == clen);
                    assert(clen == es[j].content@.len());
                }
            }
            if blen - pos - 15 < payload_len {
                proof {
                    assert forall|body0: Seq<u8>, first: u64, last: u64, es: Seq<Entry>|
                        !(#[trigger] segment_body_of(bytes@, body0, first, last, es)) by {
                        if segment_body_of(bytes@, body0, first, last, es) {
                            assert(blen - pos >= entry_bytes(es[j]).len());
                        }
                    }
                }
                return Err(MonolithErr::WalErr(WalErr::CrcMismatch));
            }
            let payload = vstd::slice::slice_to_vec(vstd::slice::slice_subrange(
                body.as_slice(),
                pos + 11,
                pos + 11 + payload_len,
            ));
            let stored_crc_bytes = vstd::slice::slice_subrange(
                body.as_slice(),
                pos + 11 + payload_len,
                pos + 15 + payload_len,
            );
            let computed = crc32(payload.as_slice());
            let expect = u32_to_be_bytes(computed);
            let crc_vec = vstd::slice::slice_to_vec(stored_crc_bytes);
            proof {
                assert forall|body0: Seq<u8>, first: u64, last: u64, es: Seq<Entry>|
                    #[trigger] segment_body_of(bytes@, body0, first, last, es) implies payload@
                    == es[j].content@ && crc_vec@ == be4_bytes_of(crc32_of(es[j].content@)) by {
                    let eb = entry_bytes(es[j]);
                    assert(payload@ =~= eb.subrange(11, 11 + es[j].content@.len() as int));
                    assert(eb.subrange(11, 11 + es[j].content@.len() as int) =~= es[j].content@);
                    assert(crc_vec@ =~= eb.subrange(
                        11 + es[j].content@.len() as int,
                        15 + es[j].content@.len() as int,
                    ));
                    assert(eb.subrange(11 + es[j].content@.len() as int, 15 + es[j].content@.len() as int)
                        =~= be4_bytes_of(crc32_of(es[j].content@)));
                }
            }
            if !vecs_equal(&expect, &crc_vec) {
                proof {
                    assert forall|body0: Seq<u8>, first: u64, last: u64, es: Seq<Entry>|
                        !(#[trigger] segment_body_of(bytes@, body0, first, last, es)) by {
                        if segment_body_of(bytes@, body0, first, last, es) {
                            assert(expect@ =~= crc_vec@);
                        }
                    }
                }
                return Err(MonolithErr::WalErr(WalErr::CrcMismatch));
            }
            let entry = Entry { seq_id, entry_type, content: payload };
            let ghost pre_entries = entries@;
            proof {
                let eb = entry_bytes(entry);
                assert(payload_len == entry.content@.len());
                assert(entry.content@.len() <= 0xFFFF) by {
                    assert(len_hi as int * 256 + len_lo <= 255 * 256 + 255);
                }
                lemma_be2_of_digits(len_hi, len_lo);
                assert(body@.subrange(pos as int, pos + 15 + payload_len) =~= eb) by {
                    crate::storage::lemma_be_roundtrip(seq_id);
                    assert(eb.len() == 15 + payload_len);
                    assert(body@.subrange(pos as int, pos + 8) =~= be_bytes_of(seq_id)) by {
                        lemma_be_bytes_complete(body@.subrange(pos as int, pos + 8));
                    }
                    assert(eb =~= be_bytes_of(seq_id) + seq![entry_type] + be2_bytes_of(
                        payload_len as u16,
                    ) + entry.content@ + be4_bytes_of(crc32_of(entry.content@)));
                }
                lemma_entries_snoc(entries@, entry);
                assert(body@.subrange(8, pos + 15 + payload_len) =~= body@.subrange(8, pos as int)
                    + body@.subrange(pos as int, pos + 15 + payload_len));
            }
            entries.push(entry);
            proof {
                assert forall|body0: Seq<u8>, first: u64, last: u64, es: Seq<Entry>|
                    #[trigger] segment_body_of(bytes@, body0, first, last, es) implies {
                    &&& entries@.len() <= es.len()
                    &&& pos + 15 + payload_len == 8 + entries_bytes(
                        es.take(entries@.len() as int),
                    ).len()
                    &&& entries_match(entries@, es.take(entries@.len() as int))
                } by {
                    assert(es.take(j + 1).drop_last() =~= es.take(j));
                    assert(es.take(j + 1).last() == es[j]);
                    assert(entries_bytes(es.take(j + 1)) == entries_bytes(es.take(j))
                        + entry_bytes(es[j]));
                    assert(entry_bytes(es[j]).len() == 15 + payload_len);
                    assert forall|t: int| 0 <= t < j + 1 implies {
                        &&& (#[trigger] entries@[t]).seq_id == es.take(j + 1)[t].seq_id
                        &&& entries@[t].entry_type == es.take(j + 1)[t].entry_type
                        &&& entries@[t].content@ == es.take(j + 1)[t].content@
                    } by {
                        if t < j {
                            assert(entries@[t] == pre_entries[t]);
                            assert(es.take(j)[t] == es[t]);
                        } else {
                            assert(entries@[t] == entry);
                        }
                    }
                }
            }
            pos = pos + 15 + payload_len;
        }
        proof {
            assert(body@.subrange(8, blen as int) =~= body@.skip(8));
            assert forall|body0: Seq<u8>, first: u64, last: u64, es: Seq<Entry>|
                #[trigger] segment_body_of(bytes@, body0, first, last, es) implies entries_match(
                entries@,
                es,
            ) && wfirst == first && wlast == last by {
                let j = entries@.len() as int;
                assert(es =~= es.take(j) + es.skip(j));
                lemma_entries_concat(es.take(j), es.skip(j));
                assert(entries_bytes(es.take(j)).len() + entries_bytes(es.skip(j)).len()
                    == entries_bytes(es).len());
                assert(entries_bytes(es.skip(j)).len() == 0);
                if es.skip(j).len() > 0 {
                    assert(entries_bytes(es.skip(j)) == entries_bytes(es.skip(j).drop_last())
                        + entry_bytes(es.skip(j).last()));
                    assert(entry_bytes(es.skip(j).last()).len() >= 15);
                }
                assert(es.skip(j).len() == 0);
                assert(j == es.len());
                assert(es.take(j) =~= es);
            }
        }
        Ok(SegmentReader { first_idx: w.first_idx, last_idx: w.last_idx, entries })
    }
}

/// Whether two byte vectors hold the same bytes.
fn vecs_equal(a: &Vec<u8>, b: &Vec<u8>) -> (r: bool)
    ensures
        r == (a@ == b@),
{
    if a.len() != b.len() {
        return false;
    }
    let n = a.len();
    let mut i: usize = 0;
    while i < n
        invariant
            i <= n,
            n == a@.len(),
            n == b@.len(),
            forall|j: int| 0 <= j < i ==> a@[j] == b@[j],
        decreases n - i,
    {
        if a[i] != b[i] {
            return false;
        }
        i = i + 1;
    }
    proof {
        assert(a@ =~= b@);
    }
    true
}

/// The two length bytes of an entry are the big-endian form of the
/// payload length they denote.
proof fn lemma_be2_of_digits(hi: u8, lo: u8)
    ensures
        be2_bytes_of((hi as int * 256 + lo) as u16) =~= seq![hi, lo],
{
    let v: u16 = (hi as int * 256 + lo) as u16;
    assert((v >> 8u16) & 0xff == hi && (v >> 0u16) & 0xff == lo) by (bit_vector)
        requires
            v == hi as u16 * 256 + lo as u16,
    ;
}

} // verus!
