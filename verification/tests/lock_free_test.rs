use rust_concurrency::lock_free::{
    AbaScenario, BoundedLockFreeStack, CasObservation, ProgressGuarantee, StackError,
};

#[test]
fn progress_ordering_compares_guarantees() {
    assert!(ProgressGuarantee::LockFree.stronger_than(ProgressGuarantee::Blocking));
    assert!(ProgressGuarantee::WaitFree.stronger_than(ProgressGuarantee::LockFree));
}

#[test]
fn non_aba_sequence_is_not_reported_as_risk() {
    let scenario = AbaScenario::new(1, 2, 3);

    assert!(!scenario.is_aba_risk());
}

#[test]
fn capacity_is_fixed() {
    let stack = BoundedLockFreeStack::new(3);

    assert_eq!(stack.capacity(), 3);
}

#[test]
fn stack_push_pop_is_lifo() {
    let mut stack = BoundedLockFreeStack::new(4);

    stack.push(10).unwrap();
    stack.push(20).unwrap();
    stack.push(30).unwrap();

    assert_eq!(stack.pop(), Some(30));
    assert_eq!(stack.pop(), Some(20));
    assert_eq!(stack.pop(), Some(10));
    assert_eq!(stack.pop(), None);
}

#[test]
fn stack_reports_full_capacity() {
    let mut stack = BoundedLockFreeStack::new(1);

    stack.push(7).unwrap();

    assert_eq!(stack.push(8), Err(StackError::Full(8)));
}

#[test]
fn stack_tracks_progress_guarantee_and_observations() {
    let mut stack = BoundedLockFreeStack::new(2);

    assert_eq!(stack.progress_guarantee(), ProgressGuarantee::LockFree);
    stack.push(1).unwrap();
    stack.push(2).unwrap();
    assert_eq!(stack.pop(), Some(2));

    let observations = stack.observations();
    assert!(observations.cas_attempts >= 3);
    assert!(observations.cas_successes >= 3);
}

#[test]
fn aba_scenario_describes_reused_head_index() {
    let scenario = AbaScenario::new(3, 1, 3);

    assert!(scenario.is_aba_risk());
    assert_eq!(
        scenario.description(),
        "head cambió de 3 a 1 y regresó a 3; el índice observado parece igual, pero la historia cambió"
    );
}

#[test]
fn stack_documented_example() {
    let mut stack = BoundedLockFreeStack::new(2);
    stack.push(10).unwrap();
    stack.push(20).unwrap();
    assert_eq!(stack.pop(), Some(20));
    assert_eq!(stack.pop(), Some(10));
    assert_eq!(stack.pop(), None);
}

#[test]
fn stack_counts_two_swaps_per_operation() {
    let mut stack = BoundedLockFreeStack::new(2);
    stack.push(1).unwrap();
    stack.push(2).unwrap();
    assert_eq!(stack.pop(), Some(2));
    assert_eq!(
        stack.observations(),
        CasObservation {
            cas_attempts: 6,
            cas_successes: 6,
            retries: 0,
        }
    );
}

#[test]
fn failed_operations_leave_no_signals() {
    let mut stack = BoundedLockFreeStack::new(1);
    assert_eq!(stack.pop(), None);
    stack.push(5).unwrap();
    assert_eq!(stack.push(6), Err(StackError::Full(6)));
    assert_eq!(stack.observations().cas_attempts, 2);
}

#[test]
fn freed_nodes_are_reused() {
    let mut stack = BoundedLockFreeStack::new(2);
    for round in 0..5 {
        stack.push(round).unwrap();
        stack.push(round + 100).unwrap();
        assert_eq!(stack.push(999), Err(StackError::Full(999)));
        assert_eq!(stack.pop(), Some(round + 100));
        assert_eq!(stack.pop(), Some(round));
    }
    assert_eq!(stack.pop(), None);
}

#[test]
fn push_then_pop_restores_the_stack() {
    let mut stack = BoundedLockFreeStack::new(3);
    stack.push(4).unwrap();
    stack.push(9).unwrap();
    assert_eq!(stack.pop(), Some(9));
    stack.push(9).unwrap();
    assert_eq!(stack.pop(), Some(9));
    assert_eq!(stack.pop(), Some(4));
}

#[test]
fn aba_scenario_with_large_indices() {
    let scenario = AbaScenario::new(1024, 0, 1024);
    assert!(scenario.is_aba_risk());
    assert_eq!(
        scenario.description(),
        "head cambió de 1024 a 0 y regresó a 1024; el índice observado parece igual, pero la historia cambió"
    );
}

#[test]
fn unchanged_value_is_not_aba() {
    let scenario = AbaScenario::new(5, 5, 5);
    assert!(!scenario.is_aba_risk());
}

#[test]
fn weaker_guarantee_is_not_stronger() {
    assert!(!ProgressGuarantee::Blocking.stronger_than(ProgressGuarantee::LockFree));
    assert!(!ProgressGuarantee::LockFree.stronger_than(ProgressGuarantee::LockFree));
}
