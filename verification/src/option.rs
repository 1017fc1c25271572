//! Configuration carried by the engine; flag parsing lives at the edge.

use crate::error::MonolithErr;
use vstd::prelude::*;

verus! {

/// Database options: backend type names, the base directory, the chunk
/// window length in milliseconds, and an optional remote-backend
/// configuration path.
pub struct DbOpts {
    pub storage: String,
    pub indexer: String,
    pub base_dir: String,
    pub chunk_size_millis: u64,
    pub tikv_config: Option<String>,
}

impl DbOpts {
    pub fn new(
        storage: String,
        indexer: String,
        base_dir: String,
        chunk_size_millis: u64,
        tikv_config: Option<String>,
    ) -> (r: DbOpts)
        ensures
            r.storage == storage,
            r.indexer == indexer,
            r.base_dir == base_dir,
            r.chunk_size_millis == chunk_size_millis,
            r.tikv_config == tikv_config,
    {
        DbOpts { storage, indexer, base_dir, chunk_size_millis, tikv_config }
    }
}

/// HTTP front-end options.
pub struct ServerOpts {
    pub port: i32,
    pub write_path: String,
    pub read_path: String,
    pub worker_num: usize,
}

impl ServerOpts {
    pub fn new(port: i32, write_path: String, read_path: String, worker_num: usize) -> (r:
        ServerOpts)
        ensures
            r.port == port,
            r.write_path == write_path,
            r.read_path == read_path,
            r.worker_num == worker_num,
    {
        ServerOpts { port, write_path, read_path, worker_num }
    }
}

/// A listen port must be outside the privileged range and fit 16 bits:
/// fails with `OptionErr` exactly when `port < 1024` or `port > 65535`.
pub fn check_port(port: i32) -> (r: Result<(), MonolithErr>)
    ensures
        r is Ok <==> (1024 <= port <= 65535),
        r matches Err(e) ==> e is OptionErr,
{
    if port > 65535 || port < 1024 {
        Err(MonolithErr::OptionErr)
    } else {
        Ok(())
    }
}

} // verus!
