//! Database- and chunk-level metadata records and the startup
//! compatibility check.

use crate::error::MonolithErr;
use crate::Timestamp;
use vstd::prelude::*;

verus! {

/// The backend type names a database directory was created with.
pub struct DbMetadata {
    pub indexer_type: String,
    pub storage_type: String,
}

/// A chunk's stored window.
pub struct ChunkMetadata {
    pub start_time: Timestamp,
    pub end_time: Timestamp,
}

/// Opening a base directory is allowed only with the backend types its
/// metadata names: fails with `OptionErr` exactly on a mismatch.
pub fn check_metadata_compatible(existing: &DbMetadata, expected: &DbMetadata) -> (r: Result<
    (),
    MonolithErr,
>)
    ensures
        r is Ok <==> (existing.indexer_type@ == expected.indexer_type@
            && existing.storage_type@ == expected.storage_type@),
        r matches Err(e) ==> e is OptionErr,
{
    if existing.indexer_type == expected.indexer_type && existing.storage_type
        == expected.storage_type {
        Ok(())
    } else {
        Err(MonolithErr::OptionErr)
    }
}

/// A recovered chunk's end time is clamped to the recovery time: a chunk
/// can never end in the future.
pub fn clamp_end_time(stored_end: Timestamp, now: Timestamp) -> (r: Timestamp)
    ensures
        r == (if stored_end > now {
            now
        } else {
            stored_end
        }),
{
    if stored_end > now {
        now
    } else {
        stored_end
    }
}

} // verus!
