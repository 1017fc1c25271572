//! Sled-backed sample store: one append-only byte record per series under
//! the key `TS{id}`.

use crate::error::MonolithErr;
use crate::indexer::utf8;
use crate::sled_kv::{sled_contents, sled_error_message, sled_get, sled_insert, sled_open};
use crate::storage::{
    check_series_accepts, decode_series_bytes, encoded_point, stored_or_empty, trim_time_series,
    Decoder, Encoder, Storage,
};
use crate::time_point::TimePoint;
use crate::time_series::TimeSeriesId;
use crate::utils::{dec_rep, u64_to_dec_string};
use crate::{Timestamp, Value};
use vstd::map::*;
use vstd::prelude::*;

verus! {

/// The storage key of one series: `TS{id}` in ASCII decimal.
pub open spec fn ts_key_chars(id: TimeSeriesId) -> Seq<char> {
    seq!['T', 'S'] + dec_rep(id as int)
}

/// The decimal form of a number parses back to it.
pub proof fn lemma_dec_roundtrip(n: int)
    requires
        n >= 0,
    ensures
        crate::utils::dec_value(dec_rep(n)) == n,
        dec_rep(n).len() >= 1,
        crate::utils::all_dec(dec_rep(n)),
    decreases n,
{
    assert(crate::utils::dec_val(crate::utils::dec_digit(n % 10)) == n % 10);
    if n < 10 {
        assert(crate::utils::dec_val(crate::utils::dec_digit(n)) == n);
        assert(dec_rep(n) =~= seq![crate::utils::dec_digit(n)]);
        assert(dec_rep(n).drop_last() =~= Seq::<char>::empty());
        assert(dec_rep(n).last() == crate::utils::dec_digit(n));
        assert(crate::utils::dec_value(Seq::<char>::empty()) == 0);
        assert(crate::utils::dec_value(dec_rep(n)) == crate::utils::dec_value(
            dec_rep(n).drop_last(),
        ) * 10 + crate::utils::dec_val(dec_rep(n).last()));
    } else {
        lemma_dec_roundtrip(n / 10);
        assert(dec_rep(n).drop_last() =~= dec_rep(n / 10));
        assert(dec_rep(n).last() == crate::utils::dec_digit(n % 10));
        assert(crate::utils::dec_value(dec_rep(n)) == (n / 10) * 10 + n % 10);
        assert((n / 10) * 10 + n % 10 == n) by {
            vstd::arithmetic::div_mod::lemma_fundamental_div_mod(n, 10);
        }
        assert(crate::utils::all_dec(dec_rep(n))) by {
            assert(forall|i: int|
                0 <= i < dec_rep(n).len() - 1 ==> dec_rep(n)[i] == #[trigger] dec_rep(n / 10)[i]);
        }
    }
}

/// Different series get different storage keys.
pub proof fn lemma_ts_key_injective(a: TimeSeriesId, b: TimeSeriesId)
    requires
        utf8(ts_key_chars(a)) == utf8(ts_key_chars(b)),
    ensures
        a == b,
{
    vstd::utf8::encode_utf8_decode_utf8(ts_key_chars(a));
    vstd::utf8::encode_utf8_decode_utf8(ts_key_chars(b));
    assert(ts_key_chars(a) == ts_key_chars(b));
    lemma_dec_roundtrip(a as int);
    lemma_dec_roundtrip(b as int);
    assert(dec_rep(a as int) =~= ts_key_chars(a).skip(2));
    assert(dec_rep(b as int) =~= ts_key_chars(b).skip(2));
}

/// On-disk sample store over an embedded sled database. It stores only the
/// data; id assignment and label search belong to the chunk and its
/// indexer.
pub struct SledStorage {
    pub storage: sled::Db,
}

impl SledStorage {
    pub fn new(p: &str) -> Result<SledStorage, MonolithErr> {
        match sled_open(p) {
            Ok(db) => Ok(SledStorage { storage: db }),
            Err(e) => Err(MonolithErr::IoError(sled_error_message(&e))),
        }
    }

    pub fn get_storage(self) -> sled::Db {
        self.storage
    }

    /// The storage key of a series, as a string.
    fn key_of(time_series_id: TimeSeriesId) -> (r: String)
        ensures
            r@ == ts_key_chars(time_series_id),
    {
        let mut s = String::new();
        s.append("TS");
        let dec = u64_to_dec_string(time_series_id);
        s.append(dec.as_str());
        proof {
            reveal_strlit("TS");
            assert(s@ =~= ts_key_chars(time_series_id));
        }
        s
    }

    /// The raw stored bytes of a series, if any.
    fn read_stored(&self, time_series_id: TimeSeriesId) -> (r: Result<
        Option<Vec<u8>>,
        MonolithErr,
    >)
        ensures
            r matches Ok(opt) ==> {
                &&& (opt matches Some(v) ==> self.sview().contains_key(time_series_id) && v@
                    == self.sview()[time_series_id])
                &&& (opt is None ==> !self.sview().contains_key(time_series_id))
            },
            r matches Err(e) ==> e is IoError,
    {
        let key = SledStorage::key_of(time_series_id);
        let kb = key.as_str().as_bytes_vec();
        proof {
            broadcast use vstd::string::is_ascii_spec_bytes;

            assert(kb@ == utf8(ts_key_chars(time_series_id)));
        }
        match sled_get(&self.storage, kb.as_slice()) {
            Ok(r) => Ok(r),
            Err(e) => Err(MonolithErr::IoError(sled_error_message(&e))),
        }
    }
}

impl Storage for SledStorage {
    open spec fn sview(&self) -> Map<TimeSeriesId, Seq<u8>> {
        Map::new(
            |id: TimeSeriesId| sled_contents(&self.storage).contains_key(utf8(ts_key_chars(id))),
            |id: TimeSeriesId| sled_contents(&self.storage)[utf8(ts_key_chars(id))],
        )
    }

    fn write_time_point(&mut self, time_series_id: TimeSeriesId, timestamp: Timestamp, value: Value)
        -> (r: Result<(), MonolithErr>) {
        let stored: Vec<u8> = match self.read_stored(time_series_id) {
            Ok(Some(v)) => v,
            Ok(None) => Vec::new(),
            Err(e) => {
                return Err(e);
            },
        };
        proof {
            assert(stored@ == stored_or_empty(old(self).sview(), time_series_id));
        }
        match check_series_accepts(&stored, timestamp) {
            Ok(_) => {},
            Err(e) => {
                return Err(e);
            },
        }
        let mut record = match KvStorageProcessor::encode_time_point(timestamp, value) {
            Ok(v) => v,
            Err(e) => {
                return Err(e);
            },
        };
        let mut new_bytes = stored;
        new_bytes.append(&mut record);
        let key = SledStorage::key_of(time_series_id);
        let kb = key.as_str().as_bytes_vec();
        proof {
            broadcast use vstd::string::is_ascii_spec_bytes;

            assert(kb@ == utf8(ts_key_chars(time_series_id)));
        }
        match sled_insert(&mut self.storage, kb.as_slice(), new_bytes) {
            Ok(_) => {
                proof {
                    let expected = old(self).sview().insert(
                        time_series_id,
                        stored_or_empty(old(self).sview(), time_series_id) + encoded_point(
                            timestamp,
                            value,
                        ),
                    );
                    assert_maps_equal!(self.sview(), expected, id => {
                        if utf8(ts_key_chars(id)) == utf8(ts_key_chars(time_series_id)) {
                            lemma_ts_key_injective(id, time_series_id);
                        }
                    });
                }
                Ok(())
            },
            Err(e) => Err(MonolithErr::IoError(sled_error_message(&e))),
        }
    }

    fn read_time_series(
        &self,
        time_series_id: TimeSeriesId,
        start_time: Timestamp,
        end_time: Timestamp,
    ) -> (r: Result<Vec<TimePoint>, MonolithErr>) {
        let stored = match self.read_stored(time_series_id) {
            Ok(Some(v)) => v,
            Ok(None) => {
                return Err(MonolithErr::NotFoundErr);
            },
            Err(e) => {
                return Err(e);
            },
        };
        let series = match decode_series_bytes(&stored) {
            Ok(v) => v,
            Err(e) => {
                return Err(e);
            },
        };
        if series.len() == 0 {
            return Err(MonolithErr::NotFoundErr);
        }
        let first_ts = series[0].timestamp;
        let last_ts = series[series.len() - 1].timestamp;
        if first_ts > end_time || last_ts < start_time {
            return Err(MonolithErr::OutOfRangeErr(first_ts, last_ts));
        }
        trim_time_series(series, start_time, end_time)
    }
}

/// Translates one time point to and from its stored 16-byte record.
pub struct KvStorageProcessor {}

impl Encoder for KvStorageProcessor {
    fn encode_time_point(time_stamp: Timestamp, value: Value) -> (r: Result<Vec<u8>, MonolithErr>) {
        let mut res = crate::compaction::u64_to_be_bytes(time_stamp);
        let mut vb = crate::compaction::u64_to_be_bytes(value);
        res.append(&mut vb);
        proof {
            assert(res@ =~= encoded_point(time_stamp, value));
        }
        Ok(res)
    }
}

impl Decoder for KvStorageProcessor {
    fn decode_time_point(raw: &[u8]) -> (r: Result<TimePoint, MonolithErr>) {
        if raw.len() != 16 {
            return Err(
                MonolithErr::InternalErr(String::from_str("Wrong number of bytes in input")),
            );
        }
        let v = vstd::slice::slice_to_vec(raw);
        let ts = crate::storage::be_u64_at(&v, 0);
        let value = crate::storage::be_u64_at(&v, 8);
        proof {
            assert(v@.subrange(0, 8) =~= raw@.subrange(0, 8));
            assert(v@.subrange(8, 16) =~= raw@.subrange(8, 16));
        }
        Ok(TimePoint { timestamp: ts, value })
    }
}

/// Builds sled-backed stores under a chunk directory.
pub struct SledStorageBuilder {}

impl SledStorageBuilder {
    pub fn new() -> SledStorageBuilder {
        SledStorageBuilder {}
    }

    /// Open the store under `{path}/storage`; the caller joins the path,
    /// since path handling lives at the edge.
    pub fn build(&self, path: &str) -> Result<SledStorage, MonolithErr> {
        SledStorage::new(path)
    }
}

} // verus!
