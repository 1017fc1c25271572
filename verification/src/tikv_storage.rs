//! Sample store over a shared raw byte backend: each series lives under the
//! chunk's 16-byte storage identifier followed by the big-endian series id.

use crate::backend::{lemma_prefix_cancel, TiKvRawBackend};
use crate::compaction::{be_bytes_of, u64_to_be_bytes};
use crate::error::MonolithErr;
use crate::storage::{
    check_series_accepts, decode_series_bytes, encoded_point, lemma_be_roundtrip, stored_or_empty,
    trim_time_series, Encoder, Storage,
};
use crate::time_point::TimePoint;
use crate::time_series::TimeSeriesId;
use crate::{Timestamp, Value};
use vstd::map::*;
use vstd::prelude::*;

verus! {

/// Storage that uses a shared raw backend, namespaced by a per-chunk
/// 16-byte storage identifier.
pub struct TiKvStorage<B: TiKvRawBackend> {
    pub client: B,
    pub chunk_identifier: Vec<u8>,
    pub storage_identifier: Vec<u8>,
}

/// Different series ids give different big-endian key tails.
proof fn lemma_be_key_injective(a: TimeSeriesId, b: TimeSeriesId)
    requires
        be_bytes_of(a) == be_bytes_of(b),
    ensures
        a == b,
{
    lemma_be_roundtrip(a);
    lemma_be_roundtrip(b);
}

impl<B: TiKvRawBackend> TiKvStorage<B> {
    /// The backend key of a series.
    fn key_of(&self, time_series_id: TimeSeriesId) -> (r: Vec<u8>)
        ensures
            r@ == self.storage_identifier@ + be_bytes_of(time_series_id),
    {
        let mut key = self.storage_identifier.clone();
        let mut id_bytes = u64_to_be_bytes(time_series_id);
        key.append(&mut id_bytes);
        key
    }

    /// The raw stored bytes of a series, if any.
    fn read_stored(&self, time_series_id: TimeSeriesId) -> (r: Result<
        Option<Vec<u8>>,
        MonolithErr,
    >)
        ensures
            r matches Ok(opt) ==> {
                &&& (opt matches Some(v) ==> self.sview().contains_key(time_series_id) && v@
                    == self.sview()[time_series_id])
                &&& (opt is None ==> !self.sview().contains_key(time_series_id))
            },
            r matches Err(e) ==> e is IoError,
    {
        let key = self.key_of(time_series_id);
        self.client.get(key)
    }
}

impl<B: TiKvRawBackend> Storage for TiKvStorage<B> {
    open spec fn sview(&self) -> Map<TimeSeriesId, Seq<u8>> {
        Map::new(
            |id: TimeSeriesId| self.client.view().contains_key(
                self.storage_identifier@ + be_bytes_of(id),
            ),
            |id: TimeSeriesId| self.client.view()[self.storage_identifier@ + be_bytes_of(id)],
        )
    }

    fn write_time_point(&mut self, time_series_id: TimeSeriesId, timestamp: Timestamp, value: Value)
        -> (r: Result<(), MonolithErr>) {
        let stored: Vec<u8> = match self.read_stored(time_series_id) {
            Ok(Some(v)) => v,
            Ok(None) => Vec::new(),
            Err(e) => {
                return Err(e);
            },
        };
        proof {
            assert(stored@ == stored_or_empty(old(self).sview(), time_series_id));
        }
        match check_series_accepts(&stored, timestamp) {
            Ok(_) => {},
            Err(e) => {
                return Err(e);
            },
        }
        let mut record = match crate::sled_storage::KvStorageProcessor::encode_time_point(
            timestamp,
            value,
        ) {
            Ok(v) => v,
            Err(e) => {
                return Err(e);
            },
        };
        let mut new_bytes = stored;
        new_bytes.append(&mut record);
        let key = self.key_of(time_series_id);
        match self.client.set(key, new_bytes) {
            Ok(_) => {
                proof {
                    let expected = old(self).sview().insert(
                        time_series_id,
                        stored_or_empty(old(self).sview(), time_series_id) + encoded_point(
                            timestamp,
                            value,
                        ),
                    );
                    assert_maps_equal!(self.sview(), expected, id => {
                        if old(self).storage_identifier@ + be_bytes_of(id)
                            == old(self).storage_identifier@ + be_bytes_of(time_series_id) {
                            lemma_prefix_cancel(
                                old(self).storage_identifier@,
                                be_bytes_of(id),
                                be_bytes_of(time_series_id),
                            );
                            lemma_be_key_injective(id, time_series_id);
                        }
                    });
                }
                Ok(())
            },
            Err(e) => Err(e),
        }
    }

    fn read_time_series(
        &self,
        time_series_id: TimeSeriesId,
        start_time: Timestamp,
        end_time: Timestamp,
    ) -> (r: Result<Vec<TimePoint>, MonolithErr>) {
        let stored = match self.read_stored(time_series_id) {
            Ok(Some(v)) => v,
            Ok(None) => {
                return Err(MonolithErr::NotFoundErr);
            },
            Err(e) => {
                return Err(e);
            },
        };
        let series = match decode_series_bytes(&stored) {
            Ok(v) => v,
            Err(e) => {
                return Err(e);
            },
        };
        if series.len() == 0 {
            return Err(MonolithErr::NotFoundErr);
        }
        let first_ts = series[0].timestamp;
        let last_ts = series[series.len() - 1].timestamp;
        if first_ts > end_time || last_ts < start_time {
            return Err(MonolithErr::OutOfRangeErr(first_ts, last_ts));
        }
        trim_time_series(series, start_time, end_time)
    }
}

/// Builds shared-backend stores for a chunk.
pub struct TiKvStorageBuilder<B: TiKvRawBackend> {
    pub backend: B,
}

impl<B: TiKvRawBackend> TiKvStorageBuilder<B> {
    pub fn new(backend: B) -> TiKvStorageBuilder<B> {
        TiKvStorageBuilder { backend }
    }

    /// Assign the chunk's storage identifier on the shared backend and hand
    /// the backend to the new store.
    pub fn build(self, chunk_identifier: Vec<u8>) -> Result<TiKvStorage<B>, MonolithErr> {
        let mut backend = self.backend;
        let id_copy = chunk_identifier.clone();
        let storage_identifier = match crate::backend::init_component(
            &mut backend,
            id_copy,
            false,
        ) {
            Ok(id) => id,
            Err(e) => {
                return Err(e);
            },
        };
        Ok(
            TiKvStorage {
                client: backend,
                chunk_identifier,
                storage_identifier,
            },
        )
    }
}

} // verus!
