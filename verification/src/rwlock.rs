//! Reader-writer locks: many readers at once or one writer alone,
//! observable poisoning after a panicking writer and explicit recovery.
//!
//! The lock is `std::sync::RwLock`, shared between threads. What the
//! protected value holds and whether the lock is available depend on the
//! other threads, so the library states what holds of every outcome: which
//! closure runs, on what kind of reference, and that its result is handed
//! back.

use vstd::prelude::*;

use std::sync::atomic::{AtomicUsize, Ordering};
use std::sync::{LockResult, PoisonError, RwLock, RwLockReadGuard, RwLockWriteGuard, TryLockError};

verus! {

#[verifier::external_type_specification]
#[verifier::external_body]
#[verifier::reject_recursive_types(T)]
pub struct ExRwLock<T: ?Sized>(RwLock<T>);

#[verifier::external_type_specification]
#[verifier::external_body]
#[verifier::reject_recursive_types(T)]
pub struct ExRwLockReadGuard<'a, T: ?Sized>(RwLockReadGuard<'a, T>);

#[verifier::external_type_specification]
#[verifier::external_body]
#[verifier::reject_recursive_types(T)]
pub struct ExRwLockWriteGuard<'a, T: ?Sized + 'a>(RwLockWriteGuard<'a, T>);

/// Error of the closure-based operations, which never hand out a guard.
#[derive(Debug, Clone, Copy, PartialEq, Eq, Structural)]
pub enum RwLockAccessError {
    /// A thread panicked while holding the write lock.
    Poisoned,
}

/// Usage signals of an [`EducationalRwLock`].
#[derive(Debug, Clone, Copy, PartialEq, Eq, Structural)]
pub struct RwLockObservation {
    /// Blocking read acquisitions.
    pub read_attempts: usize,
    /// Blocking write acquisitions.
    pub write_attempts: usize,
    /// Non-blocking read attempts.
    pub try_read_attempts: usize,
    /// Non-blocking write attempts.
    pub try_write_attempts: usize,
    /// Non-blocking read attempts that found the lock unavailable.
    pub try_read_contentions: usize,
    /// Non-blocking write attempts that found the lock unavailable.
    pub try_write_contentions: usize,
    /// Explicit recoveries after poisoning.
    pub poison_recoveries: usize,
}

/// Outcome of a non-blocking acquisition (`RwLock::try_read` or
/// `RwLock::try_write`).
pub enum TryOutcome<G> {
    /// The access was available and is now held through the guard.
    Acquired(G),
    /// The lock is held in a way that excludes this access.
    WouldBlock,
    /// A writer panicked while holding the lock.
    Poisoned,
}

/// Creates a lock holding `value` (`RwLock::new`).
#[verifier::external_body]
fn rwlock_new<T>(value: T) -> (l: RwLock<T>) {
    RwLock::new(value)
}

/// Takes shared access if available now (`RwLock::try_read`).
#[verifier::external_body]
fn rwlock_try_read<T>(l: &RwLock<T>) -> (r: TryOutcome<RwLockReadGuard<'_, T>>) {
    match l.try_read() {
        Ok(guard) => TryOutcome::Acquired(guard),
        Err(TryLockError::WouldBlock) => TryOutcome::WouldBlock,
        Err(TryLockError::Poisoned(_)) => TryOutcome::Poisoned,
    }
}

/// Takes exclusive access if available now (`RwLock::try_write`).
#[verifier::external_body]
fn rwlock_try_write<T>(l: &RwLock<T>) -> (r: TryOutcome<RwLockWriteGuard<'_, T>>) {
    match l.try_write() {
        Ok(guard) => TryOutcome::Acquired(guard),
        Err(TryLockError::WouldBlock) => TryOutcome::WouldBlock,
        Err(TryLockError::Poisoned(_)) => TryOutcome::Poisoned,
    }
}

/// Whether a writer panicked while holding the lock
/// (`RwLock::is_poisoned`).
#[verifier::external_body]
fn rwlock_is_poisoned<T>(l: &RwLock<T>) -> (b: bool) {
    l.is_poisoned()
}

/// Clears the poisoned state (`RwLock::clear_poison`).
#[verifier::external_body]
fn rwlock_clear_poison<T>(l: &RwLock<T>) {
    l.clear_poison()
}

/// The guard carried by a poisoning error (`PoisonError::into_inner`).
#[verifier::external_body]
fn write_poison_into_inner<'a, T>(error: PoisonError<RwLockWriteGuard<'a, T>>) -> (g: RwLockWriteGuard<'a, T>) {
    error.into_inner()
}

/// Runs `f` on the value behind a read guard (`Deref` of
/// `RwLockReadGuard`); the result is one that `f` can return.
#[verifier::external_body]
fn read_apply<T, R>(guard: &RwLockReadGuard<'_, T>, f: impl FnOnce(&T) -> R) -> (r: R)
    requires
        forall|x: &T| f.requires((x,)),
    ensures
        exists|x: &T| f.ensures((x,), r),
{
    f(&*guard)
}

/// Runs `f` on the value behind a write guard (`DerefMut` of
/// `RwLockWriteGuard`); the result is one that `f` can return.
#[verifier::external_body]
fn write_apply<T, R>(guard: &mut RwLockWriteGuard<'_, T>, f: impl FnOnce(&mut T) -> R) -> (r: R)
    requires
        forall|x: &mut T| f.requires((x,)),
    ensures
        exists|x: &mut T| f.ensures((x,), r),
{
    f(&mut *guard)
}

/// Reader-writer lock for the study of shared and exclusive access, with
/// usage signals.
#[verifier::reject_recursive_types(T)]
pub struct EducationalRwLock<T> {
    inner: RwLock<T>,
    read_attempts: AtomicUsize,
    write_attempts: AtomicUsize,
    try_read_attempts: AtomicUsize,
    try_write_attempts: AtomicUsize,
    try_read_contentions: AtomicUsize,
    try_write_contentions: AtomicUsize,
    poison_recoveries: AtomicUsize,
}

impl<T> EducationalRwLock<T> {
    /// Creates a lock protecting `value`.
    pub fn new(value: T) -> (l: Self) {
        EducationalRwLock {
            inner: rwlock_new(value),
            read_attempts: AtomicUsize::new(0),
            write_attempts: AtomicUsize::new(0),
            try_read_attempts: AtomicUsize::new(0),
            try_write_attempts: AtomicUsize::new(0),
            try_read_contentions: AtomicUsize::new(0),
            try_write_contentions: AtomicUsize::new(0),
            poison_recoveries: AtomicUsize::new(0),
        }
    }

    /// The standard lock inside, on which blocking acquisitions are made.
    /// Waiting for a lock depends on other threads and never ends when the
    /// current thread already holds it, so blocking acquisitions are made
    /// by the caller, which hands the outcome to `finish_with_read`,
    /// `finish_with_write` or `finish_recover_write_with`.
    pub fn std_rwlock(&self) -> (l: &RwLock<T>)
        ensures
            *l == self.lock_cell(),
    {
        &self.inner
    }

    /// The standard lock inside.
    pub closed spec fn lock_cell(&self) -> RwLock<T> {
        self.inner
    }

    /// Counts a blocking read acquisition about to be made.
    pub fn count_read_attempt(&self) {
        self.read_attempts.fetch_add(1, Ordering::Relaxed);
    }

    /// Counts a blocking write acquisition about to be made.
    pub fn count_write_attempt(&self) {
        self.write_attempts.fetch_add(1, Ordering::Relaxed);
    }

    /// Finishes a shared critical section from the outcome of
    /// `RwLock::read`: runs `f` on the value, or reports the poisoning.
    pub fn finish_with_read<'a, R>(
        outcome: LockResult<RwLockReadGuard<'a, T>>,
        f: impl FnOnce(&T) -> R,
    ) -> (r: Result<R, RwLockAccessError>)
        requires
            forall|x: &T| f.requires((x,)),
        ensures
            r is Ok <==> outcome is Ok,
            r matches Ok(v) ==> exists|x: &T| f.ensures((x,), v),
            r matches Err(e) ==> e == RwLockAccessError::Poisoned,
    {
        match outcome {
            Ok(guard) => {
                let value = read_apply(&guard, f);
                let r = Ok(value);
                assert(r matches Ok(v) && v == value);
                r
            },
            Err(_) => Err(RwLockAccessError::Poisoned),
        }
    }

    /// Finishes an exclusive critical section from the outcome of
    /// `RwLock::write`: runs `f` on the value, or reports the poisoning.
    pub fn finish_with_write<'a, R>(
        outcome: LockResult<RwLockWriteGuard<'a, T>>,
        f: impl FnOnce(&mut T) -> R,
    ) -> (r: Result<R, RwLockAccessError>)
        requires
            forall|x: &mut T| f.requires((x,)),
        ensures
            r is Ok <==> outcome is Ok,
            r matches Ok(v) ==> exists|x: &mut T| f.ensures((x,), v),
            r matches Err(e) ==> e == RwLockAccessError::Poisoned,
    {
        match outcome {
            Ok(guard) => {
                let mut guard = guard;
                let value = write_apply(&mut guard, f);
                let r = Ok(value);
                assert(r matches Ok(v) && v == value);
                r
            },
            Err(_) => Err(RwLockAccessError::Poisoned),
        }
    }

    /// Runs `f` as a reader if that is possible right now; `None` when a
    /// writer holds the lock or the lock is poisoned.
    pub fn try_with_read<R>(&self, f: impl FnOnce(&T) -> R) -> (r: Option<R>)
        requires
            forall|x: &T| f.requires((x,)),
        ensures
            r matches Some(v) ==> exists|x: &T| f.ensures((x,), v),
    {
        self.try_read_attempts.fetch_add(1, Ordering::Relaxed);
        let outcome = rwlock_try_read(&self.inner);
        self.finish_try_with_read(outcome, f)
    }

    /// Finishes a non-blocking shared section from the outcome of
    /// `RwLock::try_read`: `f` runs exactly when the access was acquired; a
    /// lock held elsewhere is counted as contention.
    pub fn finish_try_with_read<'a, R>(
        &'a self,
        outcome: TryOutcome<RwLockReadGuard<'a, T>>,
        f: impl FnOnce(&T) -> R,
    ) -> (r: Option<R>)
        requires
            forall|x: &T| f.requires((x,)),
        ensures
            r is Some <==> outcome is Acquired,
            r matches Some(v) ==> exists|x: &T| f.ensures((x,), v),
    {
        match outcome {
            TryOutcome::Acquired(guard) => {
                let value = read_apply(&guard, f);
                let r = Some(value);
                assert(r matches Some(v) && v == value);
                r
            },
            TryOutcome::WouldBlock => {
                self.try_read_contentions.fetch_add(1, Ordering::Relaxed);
                None
            },
            TryOutcome::Poisoned => None,
        }
    }

    /// Runs `f` as the writer if that is possible right now; `None` when any
    /// reader or writer holds the lock or the lock is poisoned.
    pub fn try_with_write<R>(&self, f: impl FnOnce(&mut T) -> R) -> (r: Option<R>)
        requires
            forall|x: &mut T| f.requires((x,)),
        ensures
            r matches Some(v) ==> exists|x: &mut T| f.ensures((x,), v),
    {
        self.try_write_attempts.fetch_add(1, Ordering::Relaxed);
        let outcome = rwlock_try_write(&self.inner);
        self.finish_try_with_write(outcome, f)
    }

    /// Finishes a non-blocking exclusive section from the outcome of
    /// `RwLock::try_write`: `f` runs exactly when the access was acquired; a
    /// lock held elsewhere is counted as contention.
    pub fn finish_try_with_write<'a, R>(
        &'a self,
        outcome: TryOutcome<RwLockWriteGuard<'a, T>>,
        f: impl FnOnce(&mut T) -> R,
    ) -> (r: Option<R>)
        requires
            forall|x: &mut T| f.requires((x,)),
        ensures
            r is Some <==> outcome is Acquired,
            r matches Some(v) ==> exists|x: &mut T| f.ensures((x,), v),
    {
        match outcome {
            TryOutcome::Acquired(guard) => {
                let mut guard = guard;
                let value = write_apply(&mut guard, f);
                let r = Some(value);
                assert(r matches Some(v) && v == value);
                r
            },
            TryOutcome::WouldBlock => {
                self.try_write_contentions.fetch_add(1, Ordering::Relaxed);
                None
            },
            TryOutcome::Poisoned => None,
        }
    }

    /// Whether a writer panicked while holding the lock.
    pub fn is_poisoned(&self) -> (b: bool) {
        rwlock_is_poisoned(&self.inner)
    }

    /// Finishes an explicit recovery from the outcome of `RwLock::write` on
    /// this lock: a poisoned outcome is counted and its guard taken back,
    /// `f` runs with exclusive access, then the poisoning is cleared.
    pub fn finish_recover_write_with<'a, R>(
        &'a self,
        outcome: LockResult<RwLockWriteGuard<'a, T>>,
        f: impl FnOnce(&mut T) -> R,
    ) -> (r: R)
        requires
            forall|x: &mut T| f.requires((x,)),
        ensures
            exists|x: &mut T| f.ensures((x,), r),
    {
        let mut guard = match outcome {
            Ok(guard) => guard,
            Err(poisoned) => {
                self.poison_recoveries.fetch_add(1, Ordering::Relaxed);
                write_poison_into_inner(poisoned)
            },
        };
        let result = write_apply(&mut guard, f);
        rwlock_clear_poison(&self.inner);
        result
    }

    /// Returns the accumulated usage signals.
    pub fn observations(&self) -> (o: RwLockObservation) {
        RwLockObservation {
            read_attempts: self.read_attempts.load(Ordering::Relaxed),
            write_attempts: self.write_attempts.load(Ordering::Relaxed),
            try_read_attempts: self.try_read_attempts.load(Ordering::Relaxed),
            try_write_attempts: self.try_write_attempts.load(Ordering::Relaxed),
            try_read_contentions: self.try_read_contentions.load(Ordering::Relaxed),
            try_write_contentions: self.try_write_contentions.load(Ordering::Relaxed),
            poison_recoveries: self.poison_recoveries.load(Ordering::Relaxed),
        }
    }
}

} // verus!
