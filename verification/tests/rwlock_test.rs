use std::sync::{LockResult, RwLockReadGuard, RwLockWriteGuard};

use rust_concurrency::rwlock::{EducationalRwLock, RwLockAccessError, RwLockObservation, TryOutcome};

/// Blocking shared acquisition, counted, as an application makes it.
fn acquire_read<T>(shared: &EducationalRwLock<T>) -> LockResult<RwLockReadGuard<'_, T>> {
    shared.count_read_attempt();
    shared.std_rwlock().read()
}

/// Blocking exclusive acquisition, counted, as an application makes it.
fn acquire_write<T>(shared: &EducationalRwLock<T>) -> LockResult<RwLockWriteGuard<'_, T>> {
    shared.count_write_attempt();
    shared.std_rwlock().write()
}

/// Shared critical section, finished by the library.
fn reading<T, R>(shared: &EducationalRwLock<T>, f: impl FnOnce(&T) -> R) -> Result<R, RwLockAccessError> {
    EducationalRwLock::finish_with_read(acquire_read(shared), f)
}

/// Exclusive critical section, finished by the library.
fn writing<T, R>(shared: &EducationalRwLock<T>, f: impl FnOnce(&mut T) -> R) -> Result<R, RwLockAccessError> {
    EducationalRwLock::finish_with_write(acquire_write(shared), f)
}

/// Explicit recovery of the writer, finished by the library.
fn recovered_write<T, R>(shared: &EducationalRwLock<T>, f: impl FnOnce(&mut T) -> R) -> R {
    shared.finish_recover_write_with(acquire_write(shared), f)
}

#[test]
fn with_read_allows_repeated_shared_access() {
    let shared = EducationalRwLock::new(vec![1, 2, 3]);

    assert_eq!(reading(&shared, |items| items.len()).unwrap(), 3);
    assert_eq!(
        reading(&shared, |items| items.iter().sum::<i32>()).unwrap(),
        6
    );
}

#[test]
fn try_with_write_reports_reader_contention() {
    let shared = EducationalRwLock::new(1);
    let _reader = acquire_read(&shared).unwrap();

    assert_eq!(shared.try_with_write(|value| *value), None);
    assert_eq!(shared.observations().try_write_contentions, 1);
}

#[test]
fn writer_waits_until_read_guard_is_released() {
    let shared = EducationalRwLock::new(10usize);
    let read_guard = acquire_read(&shared).unwrap();

    assert_eq!(shared.try_with_write(|value| *value += 1), None);
    drop(read_guard);

    assert_eq!(
        shared.try_with_write(|value| {
            *value += 1;
            *value
        }),
        Some(11)
    );
}

#[test]
fn writes_are_visible_to_later_readers() {
    let shared = EducationalRwLock::new(String::from("draft"));

    writing(
        &shared,
        |value| value.push_str("-reviewed"))
        .unwrap();

    assert_eq!(
        reading(&shared, |value| value.clone()).unwrap(),
        "draft-reviewed"
    );
}

#[test]
fn observations_track_read_write_and_contention_signals() {
    let shared = EducationalRwLock::new(7usize);
    let read_guard = acquire_read(&shared).unwrap();

    assert_eq!(shared.try_with_write(|value| *value), None);
    drop(read_guard);
    assert_eq!(shared.try_with_read(|value| *value), Some(7));

    assert_eq!(
        shared.observations(),
        RwLockObservation {
            read_attempts: 1,
            write_attempts: 0,
            try_read_attempts: 1,
            try_write_attempts: 1,
            try_read_contentions: 0,
            try_write_contentions: 1,
            poison_recoveries: 0,
        },
    );
}

#[test]
fn readers_share_while_a_writer_is_refused() {
    let shared = EducationalRwLock::new(3);
    let first = acquire_read(&shared).unwrap();
    assert_eq!(shared.try_with_read(|value| *value), Some(3));
    assert_eq!(*first, 3);
    drop(first);
    let writer = acquire_write(&shared).unwrap();
    assert_eq!(shared.try_with_read(|value| *value), None);
    assert_eq!(shared.observations().try_read_contentions, 1);
    drop(writer);
}

#[test]
fn write_guard_updates_the_value() {
    let shared = EducationalRwLock::new(3);
    *acquire_write(&shared).unwrap() += 1;
    assert_eq!(reading(&shared, |value| *value).unwrap(), 4);
    assert!(!shared.is_poisoned());
}

#[test]
fn recover_write_without_poison_runs_the_closure() {
    let shared = EducationalRwLock::new(5);
    assert_eq!(recovered_write(&shared, |value| *value), 5);
    assert_eq!(shared.observations().write_attempts, 1);
    assert_eq!(shared.observations().poison_recoveries, 0);
}

#[test]
fn finishing_a_try_access_runs_the_closure_only_when_acquired() {
    let shared = EducationalRwLock::new(6);
    let read = TryOutcome::Acquired(shared.std_rwlock().try_read().unwrap());
    assert_eq!(shared.finish_try_with_read(read, |value| *value + 1), Some(7));
    let write = TryOutcome::Acquired(shared.std_rwlock().try_write().unwrap());
    assert_eq!(shared.finish_try_with_write(write, |value| { *value += 1; *value }), Some(7));
    assert_eq!(shared.finish_try_with_read(TryOutcome::WouldBlock, |value| *value), None);
    assert_eq!(shared.finish_try_with_write(TryOutcome::WouldBlock, |value| *value), None);
    assert_eq!(shared.finish_try_with_write(TryOutcome::Poisoned, |value| *value), None);
    let seen = shared.observations();
    assert_eq!(seen.try_read_contentions, 1);
    assert_eq!(seen.try_write_contentions, 1);
}
