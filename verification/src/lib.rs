//! A time-series storage engine: time-bounded chunks, a per-chunk label
//! indexer, a per-chunk sample store, a Gorilla-style bit-packed codec for
//! closed-chunk data, and a CRC-protected write-ahead log.

use vstd::prelude::*;

pub mod backend;
pub mod chunk;
pub mod compaction;
pub mod compression;
pub mod db;
pub mod error;
pub mod gorilla;
pub mod indexer;
pub mod label;
pub mod metadata;
pub mod ops;
pub mod option;
pub mod sled_indexer;
pub mod sled_kv;
pub mod sled_storage;
pub mod storage;
pub mod test_utils;
pub mod tikv_indexer;
pub mod tikv_storage;
pub mod time_point;
pub mod time_series;
pub mod utils;
pub mod wal;

pub use db::MonolithDb;

verus! {

/// Millisecond epoch timestamp.
pub type Timestamp = u64;

/// Sample value, held as the IEEE-754 bit pattern of a 64-bit float.
/// The engine never computes with the number itself: it stores, compares
/// and XOR-codes the 64 bits, so the bit pattern is the value's model here.
pub type Value = u64;

/// Default chunk window length in milliseconds.
pub const DEFAULT_CHUNK_SIZE: u64 = 12000;

/// Default HTTP port.
pub const DEFAULT_PORT: i32 = 9001;

/// Default number of request workers.
pub const DEFAULT_WORKER_NUM: usize = 8;

/// Default remote-read path.
pub const DEFAULT_READ_PATH: &'static str = "/read";

/// Default remote-write path.
pub const DEFAULT_WRITE_PATH: &'static str = "/write";

/// Name of the database-level metadata file.
pub const DB_METADATA_FILENAME: &'static str = "metadata.json";

/// Name of the per-chunk metadata file.
pub const CHUNK_METADATA_FILENAME: &'static str = "metadata.json";

/// Name of the embedded backend.
pub const SLED_BACKEND: &'static str = "sled";

/// Name of the remote backend.
pub const TIKV_BACKEND: &'static str = "tikv";

/// A component that names its own type, recorded in the database metadata
/// so that a base directory is reopened only with the backends it was
/// created with.
pub trait HasTypeName {
    fn get_type_name() -> &'static str;
}

impl HasTypeName for sled_storage::SledStorage {
    fn get_type_name() -> &'static str {
        "SledStorage"
    }
}

impl HasTypeName for sled_indexer::SledIndexer {
    fn get_type_name() -> &'static str {
        "SledIndexer"
    }
}

impl<B: backend::TiKvRawBackend> HasTypeName for tikv_storage::TiKvStorage<B> {
    fn get_type_name() -> &'static str {
        "TiKvStorage"
    }
}

impl<B: backend::TiKvRawBackend> HasTypeName for tikv_indexer::TiKvIndexer<B> {
    fn get_type_name() -> &'static str {
        "TiKvIndexer"
    }
}

impl HasTypeName for test_utils::StubStorage {
    fn get_type_name() -> &'static str {
        "StubStorage"
    }
}

impl HasTypeName for test_utils::StubIndexer {
    fn get_type_name() -> &'static str {
        "StubIndexer"
    }
}

} // verus!
