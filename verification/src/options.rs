//! Engine configuration.

use vstd::prelude::*;

verus! {

/// Recognized options: whether commits fsync, the WAL rotation limit,
/// and where the platform layer keeps the meta and data files.
#[derive(Clone, Copy)]
pub struct Options {
    /// When true, every commit flushes data, meta and WAL.
    pub fsync: bool,
    /// Bytes one WAL file may hold before the roles rotate.
    pub limit_per_file: u64,
    /// Directory holding the meta file.
    pub meta_dir: &'static str,
    /// Directory holding the data file.
    pub kv_dir: &'static str,
}

impl Default for Options {
    /// Durable by default, with two-gigabyte WAL files.
    fn default() -> (r: Options)
        ensures
            r.fsync == true,
            r.limit_per_file == 2 * 1024 * 1024 * 1024,
    {
        Options {
            fsync: true,
            limit_per_file: 2 * 1024 * 1024 * 1024,
            meta_dir: "tigadb/meta",
            kv_dir: "tigadb/kv",
        }
    }
}

} // verus!
