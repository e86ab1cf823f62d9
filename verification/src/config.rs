//! Run settings: where files are read and written, and the sizes the workers use.

use vstd::prelude::*;

verus! {

/// Run settings. Paths are kept as the text they were given in.
#[derive(Clone, Debug)]
pub struct Config {
    pub input_dir: String,
    pub dbc_file: String,
    pub output_dir: String,
    pub workers: usize,
    pub batch_size: usize,
    /// Memory pool size in MiB.
    pub memory_pool_size: usize,
    pub chunk_size: usize,
    pub max_file_size: usize,
    pub cache_max_entries: usize,
    pub cache_ttl_seconds: u64,
}

impl Config {
    /// Settings from the given paths and sizes, with 1 MiB chunks, files of at most 15 MiB
    /// and a cache of 1000 files kept for an hour.
    pub fn new(
        input_dir: String,
        dbc_file: String,
        output_dir: String,
        workers: usize,
        batch_size: usize,
        memory_pool_size: usize,
    ) -> (r: Self)
        ensures
            r.input_dir@ == input_dir@,
            r.dbc_file@ == dbc_file@,
            r.output_dir@ == output_dir@,
            r.workers == workers,
            r.batch_size == batch_size,
            r.memory_pool_size == memory_pool_size,
            r.chunk_size == 1024 * 1024,
            r.max_file_size == 15 * 1024 * 1024,
            r.cache_max_entries == 1000,
            r.cache_ttl_seconds == 3600,
    {
        Config {
            input_dir,
            dbc_file,
            output_dir,
            workers,
            batch_size,
            memory_pool_size,
            chunk_size: 1024 * 1024,
            max_file_size: 15 * 1024 * 1024,
            cache_max_entries: 1000,
            cache_ttl_seconds: 3600,
        }
    }

    /// The memory pool size in bytes.
    pub fn memory_pool_size_bytes(&self) -> (r: usize)
        requires
            self.memory_pool_size * 1024 * 1024 <= usize::MAX,
        ensures
            r == self.memory_pool_size * 1024 * 1024,
    {
        self.memory_pool_size * 1024 * 1024
    }
}

} // verus!
