use std::sync::{LockResult, MutexGuard};

use rust_concurrency::mutex::{EducationalMutex, MutexAccessError, MutexObservation, TryLockOutcome};

/// Blocking acquisition, counted, as an application makes it.
fn acquire<T>(shared: &EducationalMutex<T>) -> LockResult<MutexGuard<'_, T>> {
    shared.count_lock_attempt();
    shared.std_mutex().lock()
}

/// Blocking critical section, finished by the library.
fn locked<T, R>(shared: &EducationalMutex<T>, f: impl FnOnce(&mut T) -> R) -> Result<R, MutexAccessError> {
    EducationalMutex::finish_with_lock(acquire(shared), f)
}

/// Explicit recovery, finished by the library.
fn recovered<T, R>(shared: &EducationalMutex<T>, f: impl FnOnce(&mut T) -> R) -> R {
    shared.finish_recover_with(shared.std_mutex().lock(), f)
}

#[test]
fn with_lock_keeps_mutation_inside_critical_section() {
    let shared = EducationalMutex::new(1);

    locked(&shared, |value| *value += 1).unwrap();

    assert_eq!(locked(&shared, |value| *value).unwrap(), 2);
}

#[test]
fn try_with_lock_reports_contention_without_blocking() {
    let shared = EducationalMutex::new(1);
    let _guard = acquire(&shared).unwrap();

    assert_eq!(shared.try_with_lock(|value| *value), None);
    assert_eq!(shared.observations().try_lock_contentions, 1);
}

#[test]
fn lock_is_released_when_guard_scope_ends() {
    let shared = EducationalMutex::new(Vec::new());

    locked(&shared, |items| items.push("first")).unwrap();
    locked(&shared, |items| items.push("second")).unwrap();

    let snapshot = locked(&shared, |items| items.clone()).unwrap();
    assert_eq!(snapshot, vec!["first", "second"]);
}

#[test]
fn observations_track_contention_signals() {
    let shared = EducationalMutex::new(7usize);

    let first = acquire(&shared).unwrap();
    let try_result = shared.try_with_lock(|value| *value);
    assert_eq!(try_result, None);
    drop(first);

    assert_eq!(shared.try_with_lock(|value| *value), Some(7));
    assert_eq!(
        shared.observations(),
        MutexObservation {
            lock_attempts: 1,
            try_lock_attempts: 2,
            try_lock_contentions: 1,
            poison_recoveries: 0,
        },
    );
}

#[test]
fn fresh_mutex_has_no_signals_and_is_not_poisoned() {
    let shared = EducationalMutex::new(1);
    assert!(!shared.is_poisoned());
    assert_eq!(
        shared.observations(),
        MutexObservation {
            lock_attempts: 0,
            try_lock_attempts: 0,
            try_lock_contentions: 0,
            poison_recoveries: 0,
        },
    );
}

#[test]
fn guard_mutation_is_visible_after_release() {
    let shared = EducationalMutex::new(10);
    let mut guard = acquire(&shared).unwrap();
    *guard += 5;
    drop(guard);
    assert_eq!(locked(&shared, |value| *value).unwrap(), 15);
    assert_eq!(shared.observations().lock_attempts, 2);
}

#[test]
fn recover_without_poison_runs_the_closure() {
    let shared = EducationalMutex::new(5);
    assert_eq!(recovered(&shared, |value| *value), 5);
    assert_eq!(shared.observations().poison_recoveries, 0);
    assert_eq!(shared.observations().lock_attempts, 0);
}

#[test]
fn try_with_lock_runs_when_free() {
    let shared = EducationalMutex::new(3);
    assert_eq!(shared.try_with_lock(|value| *value + 1), Some(4));
}

#[test]
fn finishing_a_try_lock_runs_the_closure_only_when_acquired() {
    let shared = EducationalMutex::new(4);
    let acquired = TryLockOutcome::Acquired(shared.std_mutex().try_lock().unwrap());
    assert_eq!(shared.finish_try_with_lock(acquired, |value| *value * 2), Some(8));
    assert_eq!(shared.finish_try_with_lock(TryLockOutcome::WouldBlock, |value| *value), None);
    assert_eq!(shared.finish_try_with_lock(TryLockOutcome::Poisoned, |value| *value), None);
    assert_eq!(shared.observations().try_lock_contentions, 1);
}
