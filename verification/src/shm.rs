//! Shared-memory segment header and pool configuration.
//!
//! A segment starts with a [`ShmHeader`] (magic sentinel, layout version,
//! slot count and the in-segment spin lock), followed by the slot table and
//! the data region.  [`ShmObjectPoolBuilder`] holds the configuration a pool
//! is created with.

use vstd::prelude::*;
use vstd::string::*;

use crate::memory_info::ArrayPoolError;
use crate::mutex::SimpleSpinLock;
use crate::mutex::SimpleSpinLockGuard;

verus! {

/// Sentinel written at the start of every segment.
pub const SHM_HEADER_MAGIC: u64 = 0xFF45_9831_ABAB_0001;

/// Format version of the segment layout.
pub const SHM_VERSION: u8 = 1;

/// Possible errors of the segment layer.
#[derive(Debug, Clone)]
pub enum ShmError {
    /// Header does not contain the magic sentinel.
    InvalidShmMagicValue,

    /// Header does not contain a supported version number.
    InvalidShmVersion,

    /// Cannot create, open or map the backing file.
    FileSystemError(String),

    /// Error of the memory pool management.
    PoolError(ArrayPoolError),
}

impl PartialEq for ShmError {
    fn eq(&self, other: &Self) -> (r: bool) {
        match (self, other) {
            (ShmError::InvalidShmMagicValue, ShmError::InvalidShmMagicValue) => true,
            (ShmError::InvalidShmVersion, ShmError::InvalidShmVersion) => true,
            (ShmError::FileSystemError(a), ShmError::FileSystemError(b)) => *a == *b,
            (ShmError::PoolError(a), ShmError::PoolError(b)) => *a == *b,
            _ => false,
        }
    }
}

impl vstd::std_specs::cmp::PartialEqSpecImpl for ShmError {
    open spec fn obeys_eq_spec() -> bool {
        true
    }

    open spec fn eq_spec(&self, other: &Self) -> bool {
        match (self, other) {
            (ShmError::InvalidShmMagicValue, ShmError::InvalidShmMagicValue) => true,
            (ShmError::InvalidShmVersion, ShmError::InvalidShmVersion) => true,
            (ShmError::FileSystemError(a), ShmError::FileSystemError(b)) => a@ == b@,
            (ShmError::PoolError(a), ShmError::PoolError(b)) => a == b,
            _ => false,
        }
    }
}

impl From<ArrayPoolError> for ShmError {
    fn from(err: ArrayPoolError) -> (r: Self) {
        ShmError::PoolError(err)
    }
}

impl vstd::std_specs::convert::FromSpecImpl<ArrayPoolError> for ShmError {
    open spec fn obeys_from_spec() -> bool {
        true
    }

    open spec fn from_spec(err: ArrayPoolError) -> Self {
        ShmError::PoolError(err)
    }
}

/// Header of the shared segment.
///
/// Lets an opener check that a mapped region really is a segment of ours,
/// records how many slots the table holds, and embeds the spin lock that
/// serializes pool operations across processes.  It is written once on
/// create and read-only thereafter aside from the lock word.
#[derive(Debug)]
pub struct ShmHeader {
    /// Magic sentinel; must equal [`SHM_HEADER_MAGIC`].
    pub magic: u64,

    /// Layout version; must equal [`SHM_VERSION`].
    pub version: u8,

    /// Number of slots in the segment's table.
    pub slot_count: usize,

    /// In-segment mutual exclusion.
    pub spin_lock: SimpleSpinLock,
}

impl ShmHeader {
    /// Create a new header for a segment of `slot_count` slots.
    pub fn new(slot_count: usize) -> (r: Self)
        ensures
            r.magic == SHM_HEADER_MAGIC,
            r.version == SHM_VERSION,
            r.slot_count == slot_count,
    {
        ShmHeader {
            magic: SHM_HEADER_MAGIC,
            version: SHM_VERSION,
            slot_count,
            spin_lock: SimpleSpinLock::new(),
        }
    }

    /// Check that the header contains valid data: `Ok` exactly when the
    /// magic sentinel and the version are the expected ones.
    pub fn valid(&self) -> (r: Result<(), ShmError>)
        ensures
            r == (if self.magic != SHM_HEADER_MAGIC {
                Err::<(), ShmError>(ShmError::InvalidShmMagicValue)
            } else if self.version != SHM_VERSION {
                Err::<(), ShmError>(ShmError::InvalidShmVersion)
            } else {
                Ok::<(), ShmError>(())
            }),
    {
        if self.magic != SHM_HEADER_MAGIC {
            Err(ShmError::InvalidShmMagicValue)
        } else if self.version != SHM_VERSION {
            Err(ShmError::InvalidShmVersion)
        } else {
            Ok(())
        }
    }

    /// Acquire the segment lock.
    pub fn lock(&self) -> SimpleSpinLockGuard<'_> {
        self.spin_lock.lock()
    }
}

/// Configuration a shared-memory object pool is created with.
#[derive(Debug)]
pub struct ShmObjectPoolBuilder {
    /// Number of slots in the table.
    pub slot_count: usize,

    /// Size of the data region in bytes.
    pub data_size: usize,

    /// Path of the backing segment file.
    pub segment_path: String,
}

impl ShmObjectPoolBuilder {
    /// Create the default pool configuration: 10,000 slots, a 512 MiB data
    /// region and a segment file under `/dev/shm`.
    pub fn new() -> (r: Self)
        ensures
            r.slot_count == 10000,
            r.data_size == 536870912,
            r.segment_path@ == "/dev/shm/obj_pool.seg"@,
    {
        ShmObjectPoolBuilder {
            slot_count: 10_000,
            data_size: 512 * 1024 * 1024,
            segment_path: String::from_str("/dev/shm/obj_pool.seg"),
        }
    }

    /// Set the pool slot count.
    pub fn slot_count(self, value: usize) -> (r: Self)
        ensures
            r.slot_count == value,
            r.data_size == self.data_size,
            r.segment_path@ == self.segment_path@,
    {
        let mut this = self;
        this.slot_count = value;
        this
    }

    /// Set the pool data size.
    pub fn data_size(self, value: usize) -> (r: Self)
        ensures
            r.slot_count == self.slot_count,
            r.data_size == value,
            r.segment_path@ == self.segment_path@,
    {
        let mut this = self;
        this.data_size = value;
        this
    }

    /// Set the pool segment file path.
    pub fn segment_path(self, value: &str) -> (r: Self)
        ensures
            r.slot_count == self.slot_count,
            r.data_size == self.data_size,
            r.segment_path@ == value@,
    {
        let mut this = self;
        this.segment_path = String::from_str(value);
        this
    }
}

impl Default for ShmObjectPoolBuilder {
    fn default() -> (r: Self)
        ensures
            r.slot_count == 10000,
            r.data_size == 536870912,
            r.segment_path@ == "/dev/shm/obj_pool.seg"@,
    {
        ShmObjectPoolBuilder::new()
    }
}

} // verus!
