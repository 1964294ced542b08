//! Server settings.
use vstd::prelude::*;

verus! {

/// The settings of a server: scheduler size, queue depths, listen address,
/// the log's base path, and whether to replay the log at startup.
#[derive(Debug, Clone)]
pub struct Config {
    pub worker_threads: usize,
    pub storage_queue_size: usize,
    pub address: String,
    pub storage_basepath: String,
    pub read_log: bool,
    pub transaction_queue_size: usize,
}

impl Default for Config {
    fn default() -> (r: Self)
        ensures
            r.worker_threads == 8,
            r.storage_queue_size == 10,
            r.transaction_queue_size == 100,
            r.address@ == "127.0.0.1:11311"@,
            r.storage_basepath@ == "./tmp/log"@,
            !r.read_log,
    {
        Config {
            worker_threads: 8,
            storage_queue_size: 10,
            transaction_queue_size: 100,
            address: "127.0.0.1:11311".to_string(),
            storage_basepath: "./tmp/log".to_string(),
            read_log: false,
        }
    }
}

} // verus!
