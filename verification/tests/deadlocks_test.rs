use rust_concurrency::deadlocks::{
    BankAccounts, LockOrderTracker, LockOrderViolation, LockRank, TransferError, WaitForGraph,
};

#[test]
fn empty_wait_for_graph_has_no_cycle() {
    assert!(!WaitForGraph::new().has_cycle());
}

#[test]
fn equal_rank_is_allowed_for_reentrant_modeling() {
    let mut tracker = LockOrderTracker::new();
    let rank = LockRank::new(10, "resource");

    tracker.enter(rank).unwrap();
    tracker.enter(rank).unwrap();

    assert_eq!(tracker.held_ranks(), vec![rank, rank]);
}

#[test]
fn lock_order_tracker_accepts_increasing_ranks() {
    let mut tracker = LockOrderTracker::new();
    let account = LockRank::new(10, "account");
    let ledger = LockRank::new(20, "ledger");

    assert_eq!(tracker.enter(account), Ok(()));
    assert_eq!(tracker.enter(ledger), Ok(()));
    assert_eq!(tracker.held_ranks(), vec![account, ledger]);
}

#[test]
fn lock_order_tracker_rejects_rank_inversion() {
    let mut tracker = LockOrderTracker::new();
    let account = LockRank::new(10, "account");
    let ledger = LockRank::new(20, "ledger");

    tracker.enter(ledger).unwrap();

    assert_eq!(
        tracker.enter(account),
        Err(LockOrderViolation {
            held: ledger,
            requested: account,
        }),
    );
}

#[test]
fn lock_order_tracker_allows_release_and_reenter() {
    let mut tracker = LockOrderTracker::new();
    let account = LockRank::new(10, "account");
    let ledger = LockRank::new(20, "ledger");

    tracker.enter(ledger).unwrap();
    assert_eq!(tracker.exit(ledger), Some(ledger));
    assert_eq!(tracker.enter(account), Ok(()));
    assert_eq!(tracker.held_ranks(), vec![account]);
}

#[test]
fn wait_for_graph_detects_cycle() {
    let mut graph = WaitForGraph::new();

    graph.add_wait("thread-a", "thread-b");
    graph.add_wait("thread-b", "thread-c");
    graph.add_wait("thread-c", "thread-a");

    assert!(graph.has_cycle());
    assert_eq!(
        graph.cycle_path().unwrap(),
        vec!["thread-a", "thread-b", "thread-c", "thread-a"],
    );
}

#[test]
fn wait_for_graph_reports_acyclic_graph() {
    let mut graph = WaitForGraph::new();

    graph.add_wait("thread-a", "thread-b");
    graph.add_wait("thread-b", "thread-c");

    assert!(!graph.has_cycle());
    assert_eq!(graph.cycle_path(), None);
}

#[test]
fn ordered_transfer_moves_money_without_lock_inversion() {
    let mut accounts = BankAccounts::new([100, 25, 0]);

    accounts.transfer_ordered(0, 2, 40).unwrap();
    accounts.transfer_ordered(1, 0, 10).unwrap();

    assert_eq!(accounts.balance(0), 70);
    assert_eq!(accounts.balance(1), 15);
    assert_eq!(accounts.balance(2), 40);
    assert_eq!(accounts.last_lock_order(), vec![0, 1]);
}

#[test]
fn ordered_transfer_rejects_insufficient_funds() {
    let mut accounts = BankAccounts::new([10, 0]);

    assert!(accounts.transfer_ordered(0, 1, 11).is_err());
    assert_eq!(accounts.balance(0), 10);
    assert_eq!(accounts.balance(1), 0);
}

#[test]
fn rank_accessors_return_the_parts() {
    let account = LockRank::new(10, "account");
    assert_eq!(account.rank(), 10);
    assert_eq!(account.name(), "account");
}

#[test]
fn same_number_is_ordered_by_name() {
    let mut tracker = LockOrderTracker::new();
    let beta = LockRank::new(5, "beta");
    let alpha = LockRank::new(5, "alpha");
    tracker.enter(beta).unwrap();
    assert_eq!(
        tracker.enter(alpha),
        Err(LockOrderViolation {
            held: beta,
            requested: alpha,
        })
    );
    tracker.enter(LockRank::new(5, "gamma")).unwrap();
    assert_eq!(tracker.held_ranks().len(), 2);
}

#[test]
fn violation_reports_the_highest_held_rank() {
    let mut tracker = LockOrderTracker::new();
    tracker.enter(LockRank::new(1, "a")).unwrap();
    tracker.enter(LockRank::new(7, "b")).unwrap();
    tracker.enter(LockRank::new(9, "c")).unwrap();
    assert_eq!(tracker.exit(LockRank::new(9, "c")), Some(LockRank::new(9, "c")));
    let requested = LockRank::new(3, "d");
    assert_eq!(
        tracker.enter(requested),
        Err(LockOrderViolation {
            held: LockRank::new(7, "b"),
            requested,
        })
    );
}

#[test]
fn exit_of_unknown_rank_changes_nothing() {
    let mut tracker = LockOrderTracker::new();
    tracker.enter(LockRank::new(1, "a")).unwrap();
    assert_eq!(tracker.exit(LockRank::new(1, "b")), None);
    assert_eq!(tracker.held_ranks(), vec![LockRank::new(1, "a")]);
}

#[test]
fn exit_releases_the_last_occurrence() {
    let mut tracker = LockOrderTracker::new();
    let rank = LockRank::new(2, "r");
    tracker.enter(rank).unwrap();
    tracker.enter(rank).unwrap();
    assert_eq!(tracker.exit(rank), Some(rank));
    assert_eq!(tracker.held_ranks(), vec![rank]);
}

#[test]
fn two_party_cycle_is_found() {
    let mut graph = WaitForGraph::new();
    graph.add_wait("a", "b");
    graph.add_wait("b", "a");
    assert!(graph.has_cycle());
    assert_eq!(graph.cycle_path().unwrap(), vec!["a", "b", "a"]);
}

#[test]
fn self_wait_is_a_cycle() {
    let mut graph = WaitForGraph::new();
    graph.add_wait("x", "x");
    assert_eq!(graph.cycle_path().unwrap(), vec!["x", "x"]);
}

#[test]
fn cycle_is_reported_from_its_smallest_reachable_start() {
    let mut graph = WaitForGraph::new();
    graph.add_wait("d", "e");
    graph.add_wait("e", "d");
    graph.add_wait("a", "d");
    assert_eq!(graph.cycle_path().unwrap(), vec!["d", "e", "d"]);
}

#[test]
fn diamond_without_cycle_is_acyclic() {
    let mut graph = WaitForGraph::new();
    graph.add_wait("a", "b");
    graph.add_wait("a", "c");
    graph.add_wait("b", "d");
    graph.add_wait("c", "d");
    assert!(!graph.has_cycle());
}

#[test]
fn transfer_errors_are_distinguished() {
    let mut accounts = BankAccounts::new([10, 0]);
    assert_eq!(accounts.transfer_ordered(1, 1, 5), Err(TransferError::SameAccount));
    assert_eq!(accounts.transfer_ordered(0, 2, 5), Err(TransferError::UnknownAccount));
    assert_eq!(accounts.last_lock_order(), Vec::<usize>::new());
    assert_eq!(accounts.transfer_ordered(1, 0, 5), Err(TransferError::InsufficientFunds));
    assert_eq!(accounts.last_lock_order(), vec![0, 1]);
}

#[test]
fn transfers_keep_the_total() {
    let mut accounts = BankAccounts::new([10, 0]);
    accounts.transfer_ordered(0, 1, 5).unwrap();
    assert_eq!(accounts.balance(0), 5);
    assert_eq!(accounts.balance(1), 5);
    accounts.transfer_ordered(1, 0, 5).unwrap();
    assert_eq!(accounts.balance(0) + accounts.balance(1), 10);
    assert_eq!(accounts.last_lock_order(), vec![0, 1]);
}
