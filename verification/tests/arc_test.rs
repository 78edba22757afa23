use rust_concurrency::arc::{ArcObservation, Shared, SharedWeak};

#[test]
fn clone_shared_increments_strong_count() {
    let shared = Shared::new(1);
    let cloned = shared.clone_shared();

    assert_eq!(shared.strong_count(), 2);
    assert_eq!(cloned.strong_count(), 2);
}

#[test]
fn downgrade_increments_weak_count() {
    let shared = Shared::new(1);
    let _weak = shared.downgrade();

    assert_eq!(shared.weak_count(), 1);
}

#[test]
fn clone_counts_track_shared_ownership() {
    let shared = Shared::new(String::from("academy"));

    assert_eq!(
        shared.observations(),
        ArcObservation {
            strong_count: 1,
            weak_count: 0,
        },
    );

    let cloned = shared.clone_shared();

    assert_eq!(shared.strong_count(), 2);
    assert_eq!(cloned.strong_count(), 2);
    drop(cloned);
    assert_eq!(shared.strong_count(), 1);
}

#[test]
fn weak_upgrade_fails_after_last_strong_drop() {
    let weak: SharedWeak<String>;

    {
        let shared = Shared::new(String::from("temporal"));
        weak = shared.downgrade();
        assert!(weak.upgrade().is_some());
        assert_eq!(shared.weak_count(), 1);
    }

    assert!(weak.upgrade().is_none());
}

#[test]
fn strong_and_weak_observations_are_available_from_weak_handle() {
    let shared = Shared::new(42usize);
    let weak = shared.downgrade();

    assert_eq!(
        weak.observations(),
        ArcObservation {
            strong_count: 1,
            weak_count: 1,
        },
    );

    drop(shared);

    assert_eq!(
        weak.observations(),
        ArcObservation {
            strong_count: 0,
            weak_count: 0,
        },
    );
}

#[test]
fn with_ref_reads_the_shared_value() {
    let shared = Shared::new(vec![1, 2, 3]);
    let cloned = shared.clone_shared();
    assert_eq!(shared.strong_count(), 2);
    assert_eq!(cloned.with_ref(|items| items.len()), 3);
    assert_eq!(*shared, vec![1, 2, 3]);
    assert_eq!(**shared.as_arc(), vec![1, 2, 3]);
}

#[test]
fn clones_and_upgrades_share_the_value() {
    let shared = Shared::new(7);
    let weak = shared.downgrade();
    let weak_copy = weak.clone();
    let upgraded = weak_copy.upgrade().expect("a strong owner is alive");
    assert_eq!(*upgraded, 7);
    assert_eq!(shared.clone().strong_count(), 3);
    assert_eq!(weak.weak_count(), 2);
    assert_eq!(weak.strong_count(), 2);
}

#[test]
fn weak_handle_expires_with_the_last_owner() {
    let weak = {
        let shared = Shared::new(7);
        let weak = shared.downgrade();
        assert!(weak.upgrade().is_some());
        weak
    };
    assert!(weak.upgrade().is_none());
}
