//! Mutual exclusion: one critical section at a time, guards that release
//! the lock when they go out of scope, observable poisoning and explicit
//! recovery from it.
//!
//! The lock is `std::sync::Mutex`, shared between threads. What the
//! protected value holds and whether the lock is free depend on the other
//! threads, so the library states what holds of every outcome: which
//! closure runs, on what kind of reference, and that its result is handed
//! back.

use vstd::prelude::*;

use std::sync::atomic::{AtomicUsize, Ordering};
use std::sync::{LockResult, Mutex, MutexGuard, PoisonError, TryLockError};

verus! {

#[verifier::external_type_specification]
#[verifier::external_body]
#[verifier::reject_recursive_types(T)]
pub struct ExMutex<T: ?Sized>(Mutex<T>);

#[verifier::external_type_specification]
#[verifier::external_body]
#[verifier::reject_recursive_types(T)]
pub struct ExMutexGuard<'a, T: ?Sized + 'a>(MutexGuard<'a, T>);

#[verifier::external_type_specification]
#[verifier::external_body]
#[verifier::reject_recursive_types(T)]
pub struct ExPoisonError<T>(PoisonError<T>);

/// Error of the closure-based operations, which never hand out the guard.
#[derive(Debug, Clone, Copy, PartialEq, Eq, Structural)]
pub enum MutexAccessError {
    /// A thread panicked while holding the lock.
    Poisoned,
}

/// Usage signals of an [`EducationalMutex`].
#[derive(Debug, Clone, Copy, PartialEq, Eq, Structural)]
pub struct MutexObservation {
    /// Blocking acquisitions through `lock` or `with_lock`, counted by
    /// `count_lock_attempt`.
    pub lock_attempts: usize,
    /// Non-blocking attempts through `try_with_lock`.
    pub try_lock_attempts: usize,
    /// Non-blocking attempts that found the lock taken.
    pub try_lock_contentions: usize,
    /// Explicit recoveries after poisoning.
    pub poison_recoveries: usize,
}

/// Outcome of a non-blocking acquisition (`Mutex::try_lock`).
pub enum TryLockOutcome<G> {
    /// The lock was free and is now held through the guard.
    Acquired(G),
    /// Another holder has the lock.
    WouldBlock,
    /// A thread panicked while holding the lock.
    Poisoned,
}

/// Creates a mutex holding `value` (`Mutex::new`).
#[verifier::external_body]
fn mutex_new<T>(value: T) -> (m: Mutex<T>) {
    Mutex::new(value)
}

/// Takes the lock if it is free (`Mutex::try_lock`).
#[verifier::external_body]
fn mutex_try_lock<T>(m: &Mutex<T>) -> (r: TryLockOutcome<MutexGuard<'_, T>>) {
    match m.try_lock() {
        Ok(guard) => TryLockOutcome::Acquired(guard),
        Err(TryLockError::WouldBlock) => TryLockOutcome::WouldBlock,
        Err(TryLockError::Poisoned(_)) => TryLockOutcome::Poisoned,
    }
}

/// Whether a thread panicked while holding the lock (`Mutex::is_poisoned`).
#[verifier::external_body]
fn mutex_is_poisoned<T>(m: &Mutex<T>) -> (b: bool) {
    m.is_poisoned()
}

/// Clears the poisoned state (`Mutex::clear_poison`).
#[verifier::external_body]
fn mutex_clear_poison<T>(m: &Mutex<T>) {
    m.clear_poison()
}

/// The guard carried by a poisoning error (`PoisonError::into_inner`).
#[verifier::external_body]
fn poison_into_inner<G>(error: PoisonError<G>) -> (g: G) {
    error.into_inner()
}

/// Runs `f` on the value behind the guard (`DerefMut` of `MutexGuard`);
/// the result is one that `f` can return.
#[verifier::external_body]
fn guard_apply<T, R>(guard: &mut MutexGuard<'_, T>, f: impl FnOnce(&mut T) -> R) -> (r: R)
    requires
        forall|x: &mut T| f.requires((x,)),
    ensures
        exists|x: &mut T| f.ensures((x,), r),
{
    f(&mut *guard)
}

/// Mutex for the study of mutual exclusion, with usage signals.
#[verifier::reject_recursive_types(T)]
pub struct EducationalMutex<T> {
    inner: Mutex<T>,
    lock_attempts: AtomicUsize,
    try_lock_attempts: AtomicUsize,
    try_lock_contentions: AtomicUsize,
    poison_recoveries: AtomicUsize,
}

impl<T> EducationalMutex<T> {
    /// Creates a mutex protecting `value`.
    pub fn new(value: T) -> (m: Self) {
        EducationalMutex {
            inner: mutex_new(value),
            lock_attempts: AtomicUsize::new(0),
            try_lock_attempts: AtomicUsize::new(0),
            try_lock_contentions: AtomicUsize::new(0),
            poison_recoveries: AtomicUsize::new(0),
        }
    }

    /// The standard mutex inside, on which a blocking acquisition is made.
    /// Waiting for a lock depends on other threads and never ends when the
    /// current thread already holds it, so blocking acquisitions are made
    /// by the caller, which hands the outcome to `finish_with_lock` or
    /// `finish_recover_with`.
    pub fn std_mutex(&self) -> (m: &Mutex<T>)
        ensures
            *m == self.lock_cell(),
    {
        &self.inner
    }

    /// The standard mutex inside.
    pub closed spec fn lock_cell(&self) -> Mutex<T> {
        self.inner
    }

    /// Counts a blocking acquisition about to be made through `lock` or
    /// `with_lock`.
    pub fn count_lock_attempt(&self) {
        self.lock_attempts.fetch_add(1, Ordering::Relaxed);
    }

    /// Finishes a blocking critical section from the outcome of
    /// `Mutex::lock`: runs `f` on the value behind the guard, or reports the
    /// poisoning. The guard does not escape.
    pub fn finish_with_lock<'a, R>(
        outcome: LockResult<MutexGuard<'a, T>>,
        f: impl FnOnce(&mut T) -> R,
    ) -> (r: Result<R, MutexAccessError>)
        requires
            forall|x: &mut T| f.requires((x,)),
        ensures
            r is Ok <==> outcome is Ok,
            r matches Ok(v) ==> exists|x: &mut T| f.ensures((x,), v),
            r matches Err(e) ==> e == MutexAccessError::Poisoned,
    {
        match outcome {
            Ok(guard) => {
                let mut guard = guard;
                let value = guard_apply(&mut guard, f);
                let r = Ok(value);
                assert(r matches Ok(v) && v == value);
                r
            },
            Err(_) => Err(MutexAccessError::Poisoned),
        }
    }

    /// Runs `f` if the lock is free right now; `None` when it is taken or
    /// poisoned.
    pub fn try_with_lock<R>(&self, f: impl FnOnce(&mut T) -> R) -> (r: Option<R>)
        requires
            forall|x: &mut T| f.requires((x,)),
        ensures
            r matches Some(v) ==> exists|x: &mut T| f.ensures((x,), v),
    {
        self.try_lock_attempts.fetch_add(1, Ordering::Relaxed);
        let outcome = mutex_try_lock(&self.inner);
        self.finish_try_with_lock(outcome, f)
    }

    /// Finishes a non-blocking critical section from the outcome of
    /// `Mutex::try_lock`: `f` runs on the value exactly when the lock was
    /// acquired; a lock held elsewhere is counted as contention.
    pub fn finish_try_with_lock<'a, R>(
        &'a self,
        outcome: TryLockOutcome<MutexGuard<'a, T>>,
        f: impl FnOnce(&mut T) -> R,
    ) -> (r: Option<R>)
        requires
            forall|x: &mut T| f.requires((x,)),
        ensures
            r is Some <==> outcome is Acquired,
            r matches Some(v) ==> exists|x: &mut T| f.ensures((x,), v),
    {
        match outcome {
            TryLockOutcome::Acquired(guard) => {
                let mut guard = guard;
                let value = guard_apply(&mut guard, f);
                let r = Some(value);
                assert(r matches Some(v) && v == value);
                r
            },
            TryLockOutcome::WouldBlock => {
                self.try_lock_contentions.fetch_add(1, Ordering::Relaxed);
                None
            },
            TryLockOutcome::Poisoned => None,
        }
    }

    /// Whether a thread panicked while holding the lock.
    pub fn is_poisoned(&self) -> (b: bool) {
        mutex_is_poisoned(&self.inner)
    }

    /// Finishes an explicit recovery from the outcome of `Mutex::lock` on
    /// this mutex: a poisoned outcome is counted and its guard taken back,
    /// `f` runs on the protected value, then the poisoning is cleared.
    pub fn finish_recover_with<'a, R>(
        &'a self,
        outcome: LockResult<MutexGuard<'a, T>>,
        f: impl FnOnce(&mut T) -> R,
    ) -> (r: R)
        requires
            forall|x: &mut T| f.requires((x,)),
        ensures
            exists|x: &mut T| f.ensures((x,), r),
    {
        let mut guard = match outcome {
            Ok(guard) => guard,
            Err(poisoned) => {
                self.poison_recoveries.fetch_add(1, Ordering::Relaxed);
                poison_into_inner(poisoned)
            },
        };
        let result = guard_apply(&mut guard, f);
        mutex_clear_poison(&self.inner);
        result
    }

    /// Returns the accumulated usage signals.
    pub fn observations(&self) -> (o: MutexObservation) {
        MutexObservation {
            lock_attempts: self.lock_attempts.load(Ordering::Relaxed),
            try_lock_attempts: self.try_lock_attempts.load(Ordering::Relaxed),
            try_lock_contentions: self.try_lock_contentions.load(Ordering::Relaxed),
            poison_recoveries: self.poison_recoveries.load(Ordering::Relaxed),
        }
    }
}

} // verus!
