//! tigadb: an embedded key-value storage engine.
//!
//! The crate is organised around three subsystems: a fixed-block data-file
//! allocator with free-hole coalescing (`storage`), a two-file write-ahead
//! log with checkpoint-driven truncation (`wal`), and an adaptive radix
//! trie index over full key bytes (`art`).  `db` composes them behind
//! `put` / `get` / `delete`.  All file contents are modelled as in-memory
//! byte images; the thin platform layer that moves the images to and from
//! disk lives outside the verified crate.

pub mod art;
pub mod db;
pub mod options;
pub mod storage;
pub mod succinct;
pub mod util;
pub mod wal;

use vstd::prelude::*;

verus! {

/// Error kinds surfaced by the engine.
#[derive(Clone, Copy, PartialEq, Eq, Structural, Debug)]
pub enum Error {
    /// An underlying read, write or fsync failed (raised only by the
    /// platform layer around the engine).
    IoError,
    /// The allocator cannot satisfy a request.
    OutOfSpace,
    /// Key plus value exceed the largest representable payload.
    ValueTooLarge,
    /// A file image is inconsistent: malformed meta record, truncated
    /// log record, or contradictory role bytes.
    Corruption,
    /// Lookup miss for `get` or `delete`.
    NotFound,
}

} // verus!
