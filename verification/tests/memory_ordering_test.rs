use std::sync::atomic::Ordering;

use rust_concurrency::memory_ordering::{
    describe_ordering, MemoryOrder, OrderingCasCell, OrderingGuarantee, PublishedValue,
    RelaxedCounter,
};

#[test]
fn seqcst_is_global_ordering_in_description() {
    let guarantee = describe_ordering(Ordering::SeqCst);

    assert!(guarantee.synchronizes_with_other_threads);
    assert!(guarantee.participates_in_global_order);
}

#[test]
fn unpublished_value_is_not_read() {
    let mut value = PublishedValue::new(5);

    assert_eq!(value.try_read(), None);
}

#[test]
fn compare_exchange_uses_explicit_success_and_failure_orderings() {
    let mut cell = OrderingCasCell::new(10);

    assert_eq!(
        cell.compare_exchange(10, 11, Ordering::AcqRel, Ordering::Acquire),
        Ok(10)
    );
    assert_eq!(
        cell.compare_exchange(10, 12, Ordering::AcqRel, Ordering::Acquire),
        Err(11)
    );

    let observation = cell.observation();
    assert_eq!(observation.value, 11);
    assert_eq!(observation.attempts, 2);
    assert_eq!(observation.successes, 1);
    assert_eq!(
        observation.last_success_ordering.map(MemoryOrder::to_ordering),
        Some(Ordering::AcqRel)
    );
    assert_eq!(
        observation.last_failure_ordering.map(MemoryOrder::to_ordering),
        Some(Ordering::Acquire)
    );
}

#[test]
fn ordering_descriptions_name_their_guarantees() {
    assert_eq!(
        describe_ordering(Ordering::Relaxed),
        OrderingGuarantee {
            ordering: MemoryOrder::from_ordering(Ordering::Relaxed),
            synchronizes_with_other_threads: false,
            preserves_single_variable_atomicity: true,
            participates_in_global_order: false,
        },
    );
    assert!(describe_ordering(Ordering::Acquire).synchronizes_with_other_threads);
    assert!(describe_ordering(Ordering::Release).synchronizes_with_other_threads);
    assert!(describe_ordering(Ordering::SeqCst).participates_in_global_order);
}

#[test]
fn acquire_read_before_release_publication_returns_none() {
    let mut published = PublishedValue::new(7);

    assert_eq!(published.try_read(), None);
    published.publish(9);
    assert_eq!(published.try_read(), Some(9));
}

#[test]
fn publication_counts_read_attempts() {
    let mut published = PublishedValue::new(0);
    assert_eq!(published.try_read(), None);
    published.publish(42);
    assert_eq!(published.try_read(), Some(42));
    assert_eq!(published.observed_reads(), 2);
}

#[test]
fn relaxed_counter_counts_increments() {
    let mut counter = RelaxedCounter::new(0);
    assert_eq!(counter.increment(), 0);
    assert_eq!(counter.increment(), 1);
    assert_eq!(counter.load(), 2);
    assert_eq!(counter.ordering(), Ordering::Relaxed);
}

#[test]
fn relaxed_counter_wraps_like_fetch_add() {
    let mut counter = RelaxedCounter::new(usize::MAX);
    assert_eq!(counter.increment(), usize::MAX);
    assert_eq!(counter.load(), 0);
}

#[test]
fn fresh_cell_reports_no_orderings() {
    let cell = OrderingCasCell::new(1);
    let observation = cell.observation();
    assert_eq!(observation.value, 1);
    assert_eq!(observation.attempts, 0);
    assert_eq!(observation.last_success_ordering, None);
    assert_eq!(observation.last_failure_ordering, None);
}

#[test]
fn failed_exchange_still_records_orderings() {
    let mut cell = OrderingCasCell::new(3);
    assert_eq!(
        cell.compare_exchange(4, 5, Ordering::SeqCst, Ordering::Relaxed),
        Err(3)
    );
    let observation = cell.observation();
    assert_eq!(observation.value, 3);
    assert_eq!(observation.successes, 0);
    assert_eq!(observation.last_success_ordering, Some(MemoryOrder::SeqCst));
    assert_eq!(observation.last_failure_ordering, Some(MemoryOrder::Relaxed));
}

#[test]
fn every_ordering_keeps_atomicity_but_only_relaxed_fails_to_synchronize() {
    for ordering in [
        Ordering::Relaxed,
        Ordering::Release,
        Ordering::Acquire,
        Ordering::AcqRel,
        Ordering::SeqCst,
    ] {
        let guarantee = describe_ordering(ordering);
        assert!(guarantee.preserves_single_variable_atomicity);
        assert_eq!(
            guarantee.synchronizes_with_other_threads,
            ordering != Ordering::Relaxed
        );
        assert_eq!(
            guarantee.participates_in_global_order,
            ordering == Ordering::SeqCst
        );
        assert_eq!(guarantee.ordering.to_ordering(), ordering);
    }
}
