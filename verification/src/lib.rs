//! Cross-process shared-memory object pool.
//!
//! Blobs of bytes are identified by caller-chosen integer handles and live in
//! one contiguous data region, described by a bounded slot table.  The slot
//! table allocator (`memory_info`) is the heart of the crate: first-fit
//! allocation with block splitting, free-block coalescing, per-blob reference
//! counting and a transfer-aware release protocol.  `shm` holds the segment
//! header layout and the pool configuration builder; `mutex` the in-segment
//! spin lock that serializes pool operations across processes.

pub mod decimal;
pub mod memory_info;
pub mod mutex;
pub mod shm;
