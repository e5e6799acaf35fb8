//! Simple spin lock used to serialize pool operations across processes.

use vstd::prelude::*;
use core::sync::atomic::AtomicBool;
use core::sync::atomic::Ordering;

verus! {

/// Simple spin lock based on an atomic boolean.
///
/// The lock word lives in place (inside the shared segment header), so all
/// contention state is shared by every process that maps the segment.  There
/// is no fairness and no reentrance; nothing is stated about the lock word's
/// runtime value, which other processes change concurrently.
#[derive(Debug)]
pub struct SimpleSpinLock {
    lock: AtomicBool,
}

/// Scoped guard returned by [`SimpleSpinLock::lock`]; releases the lock when
/// dropped, on every exit path.
pub struct SimpleSpinLockGuard<'a> {
    lock: &'a AtomicBool,
}

impl SimpleSpinLock {
    /// Initialize an unlocked spin lock.
    pub fn new() -> Self {
        SimpleSpinLock { lock: AtomicBool::new(false) }
    }

    /// Acquire the lock and return the scoped guard.
    ///
    /// Relies on `core::sync::atomic::AtomicBool::compare_exchange_weak`:
    /// busy-waits until the compare-and-set of false-to-true succeeds with
    /// acquire semantics.  The busy wait does not terminate while another
    /// holder keeps the lock, so the loop stands outside the proofs.
    #[verifier::external_body]
    pub fn lock(&self) -> SimpleSpinLockGuard<'_> {
        while self
            .lock
            .compare_exchange_weak(false, true, Ordering::Acquire, Ordering::Acquire)
            .is_err()
        {}
        SimpleSpinLockGuard { lock: &self.lock }
    }

    /// Advisory observer: read the lock word.
    pub fn is_locked(&self) -> bool {
        self.lock.load(Ordering::Relaxed)
    }
}

impl<'a> Drop for SimpleSpinLockGuard<'a> {
    /// Relies on `core::sync::atomic::AtomicBool::store`: releases the lock
    /// with a release-semantics store of `false`.
    #[verifier::external_body]
    fn drop(&mut self)
        opens_invariants none
        no_unwind
    {
        self.lock.store(false, Ordering::Release);
    }
}

} // verus!
