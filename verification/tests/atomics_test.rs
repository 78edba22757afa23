use rust_concurrency::atomics::{
    AtomicCounter, AtomicFlag, AtomicMax, AtomicObservation, CompareExchange,
};

#[test]
fn counter_store_replaces_value() {
    let mut counter = AtomicCounter::new(1);

    counter.store(9);

    assert_eq!(counter.load(), 9);
}

#[test]
fn flag_observations_track_loads_and_stores() {
    let mut flag = AtomicFlag::new(false);

    flag.set(true);
    assert!(flag.is_set());

    let observations = flag.observations();
    assert_eq!(observations.loads, 1);
    assert_eq!(observations.stores, 1);
}

#[test]
fn compare_exchange_store_replaces_value() {
    let mut slot = CompareExchange::new(1);

    slot.store(3);

    assert_eq!(slot.load(), 3);
}

#[test]
fn counter_fetch_add_returns_previous_value_and_tracks_updates() {
    let mut counter = AtomicCounter::new(10);

    assert_eq!(counter.fetch_add(5), 10);
    assert_eq!(counter.load(), 15);
    assert_eq!(
        counter.observations(),
        AtomicObservation {
            loads: 1,
            stores: 0,
            fetch_adds: 1,
            compare_exchange_attempts: 0,
            compare_exchange_successes: 0,
        },
    );
}

#[test]
fn counter_saturates_on_overflow() {
    let mut counter = AtomicCounter::new(usize::MAX - 1);

    assert_eq!(counter.fetch_add(10), usize::MAX - 1);
    assert_eq!(counter.load(), usize::MAX);
}

#[test]
fn flag_can_be_published_and_observed() {
    let mut flag = AtomicFlag::new(false);

    assert!(!flag.is_set());
    flag.set(true);
    assert!(flag.is_set());
}

#[test]
fn compare_exchange_reports_success_and_failure() {
    let mut slot = CompareExchange::new(7);

    assert_eq!(slot.compare_exchange(7, 11), Ok(7));
    assert_eq!(slot.load(), 11);
    assert_eq!(slot.compare_exchange(7, 13), Err(11));
    assert_eq!(slot.load(), 11);

    let observations = slot.observations();
    assert_eq!(observations.compare_exchange_attempts, 2);
    assert_eq!(observations.compare_exchange_successes, 1);
}

#[test]
fn counter_starts_without_signals() {
    let counter = AtomicCounter::new(0);
    assert_eq!(
        counter.observations(),
        AtomicObservation {
            loads: 0,
            stores: 0,
            fetch_adds: 0,
            compare_exchange_attempts: 0,
            compare_exchange_successes: 0,
        },
    );
}

#[test]
fn counter_fetch_add_sums_exactly_below_the_limit() {
    let mut counter = AtomicCounter::new(1);
    assert_eq!(counter.fetch_add(2), 1);
    assert_eq!(counter.load(), 3);
    assert_eq!(counter.observations().fetch_adds, 1);
}

#[test]
fn counter_store_counts_stores() {
    let mut counter = AtomicCounter::new(4);
    counter.store(5);
    counter.store(6);
    assert_eq!(counter.observations().stores, 2);
    assert_eq!(counter.observations().loads, 0);
}

#[test]
fn compare_exchange_slot_documented_example() {
    let mut slot = CompareExchange::new(1);
    assert_eq!(slot.compare_exchange(1, 2), Ok(1));
    assert_eq!(slot.compare_exchange(1, 3), Err(2));
    let observations = slot.observations();
    assert_eq!(observations.loads, 0);
    assert_eq!(observations.fetch_adds, 0);
}

#[test]
fn max_keeps_the_largest_recorded_value() {
    let mut max = AtomicMax::new(10);
    max.record(12);
    max.record(11);
    assert_eq!(max.load(), 12);
    let observations = max.observations();
    assert_eq!(observations.compare_exchange_attempts, 1);
    assert_eq!(observations.compare_exchange_successes, 1);
    assert_eq!(observations.loads, 1);
}

#[test]
fn max_records_candidates_in_any_order() {
    let mut max = AtomicMax::new(10);
    for candidate in [8, 12, 11, 15, 14] {
        max.record(candidate);
    }
    assert_eq!(max.load(), 15);
    assert_eq!(max.observations().compare_exchange_attempts, 2);
}

#[test]
fn max_ignores_equal_candidate() {
    let mut max = AtomicMax::new(7);
    max.record(7);
    assert_eq!(max.load(), 7);
    assert_eq!(max.observations().compare_exchange_attempts, 0);
}
