use rust_concurrency::hazard_pointers::{HazardDomain, NodeId, ParticipantId, RetiredNode};

#[test]
fn participant_can_replace_protected_node() {
    let mut domain = HazardDomain::new(8);
    let participant = ParticipantId::new(1);

    domain.protect(participant, NodeId::new(1));
    domain.protect(participant, NodeId::new(2));

    assert_eq!(domain.protected_nodes(), vec![NodeId::new(2)]);
}

#[test]
fn reclaimed_history_accumulates() {
    let mut domain = HazardDomain::new(8);

    domain.retire(RetiredNode::new(NodeId::new(1), "a"));
    domain.retire(RetiredNode::new(NodeId::new(2), "b"));
    domain.scan();

    assert_eq!(
        domain.reclaimed_nodes(),
        vec![NodeId::new(1), NodeId::new(2)]
    );
}

#[test]
fn protecting_a_node_makes_it_visible_to_scans() {
    let mut domain = HazardDomain::new(4);
    let participant = ParticipantId::new(1);
    let node = NodeId::new(42);

    domain.protect(participant, node);

    assert!(domain.is_protected(node));
    assert_eq!(domain.protected_nodes(), vec![node]);
}

#[test]
fn retired_unprotected_node_is_reclaimed_on_scan() {
    let mut domain = HazardDomain::new(4);
    let node = NodeId::new(7);

    domain.retire(RetiredNode::new(node, "payload"));
    let report = domain.scan();

    assert_eq!(report.scanned_hazards, 0);
    assert_eq!(report.reclaimed, vec![node]);
    assert!(domain.retired_nodes().is_empty());
    assert_eq!(domain.reclaimed_nodes(), vec![node]);
}

#[test]
fn protected_retired_node_is_delayed_until_unprotected() {
    let mut domain = HazardDomain::new(4);
    let participant = ParticipantId::new(2);
    let node = NodeId::new(9);

    domain.protect(participant, node);
    domain.retire(RetiredNode::new(node, "still read"));

    let first = domain.scan();
    assert_eq!(first.delayed, vec![node]);
    assert_eq!(domain.retired_nodes(), vec![node]);

    domain.clear(participant);

    let second = domain.scan();
    assert_eq!(second.reclaimed, vec![node]);
    assert!(domain.retired_nodes().is_empty());
}

#[test]
fn retire_threshold_triggers_scan() {
    let mut domain = HazardDomain::new(2);

    let first = domain.retire(RetiredNode::new(NodeId::new(1), "a"));
    let second = domain.retire(RetiredNode::new(NodeId::new(2), "b"));

    assert!(first.is_none());
    assert_eq!(
        second.expect("threshold should scan").reclaimed,
        vec![NodeId::new(1), NodeId::new(2)]
    );
}

#[test]
fn per_thread_records_are_independent() {
    let mut domain = HazardDomain::new(8);
    let a = ParticipantId::new(1);
    let b = ParticipantId::new(2);
    let node_a = NodeId::new(10);
    let node_b = NodeId::new(20);

    domain.protect(a, node_a);
    domain.protect(b, node_b);
    domain.clear(a);

    assert!(!domain.is_protected(node_a));
    assert!(domain.is_protected(node_b));
    assert_eq!(domain.protected_nodes(), vec![node_b]);
}

#[test]
fn hazard_identifiers_return_their_numbers() {
    assert_eq!(ParticipantId::new(7).get(), 7);
    assert_eq!(NodeId::new(42).get(), 42);
}

#[test]
fn retired_node_keeps_its_parts() {
    let retired = RetiredNode::new(NodeId::new(1), "payload");
    assert_eq!(retired.id(), NodeId::new(1));
    assert_eq!(retired.payload(), "payload");
}

#[test]
fn hazard_documented_walkthrough() {
    let mut domain = HazardDomain::new(4);
    let participant = ParticipantId::new(1);
    let node = NodeId::new(10);
    domain.protect(participant, node);
    domain.retire(RetiredNode::new(node, "payload"));
    assert_eq!(domain.scan().delayed, vec![node]);
    domain.clear(participant);
    assert_eq!(domain.scan().reclaimed, vec![node]);
}

#[test]
fn shared_hazards_are_counted_once_and_sorted() {
    let mut domain = HazardDomain::new(8);
    domain.protect(ParticipantId::new(3), NodeId::new(30));
    domain.protect(ParticipantId::new(1), NodeId::new(30));
    domain.protect(ParticipantId::new(2), NodeId::new(5));
    assert_eq!(domain.protected_nodes(), vec![NodeId::new(5), NodeId::new(30)]);
    domain.retire(RetiredNode::new(NodeId::new(30), "x"));
    domain.retire(RetiredNode::new(NodeId::new(6), "y"));
    let report = domain.scan();
    assert_eq!(report.scanned_hazards, 2);
    assert_eq!(report.delayed, vec![NodeId::new(30)]);
    assert_eq!(report.reclaimed, vec![NodeId::new(6)]);
}

#[test]
fn clearing_an_unknown_participant_changes_nothing() {
    let mut domain = HazardDomain::new(8);
    domain.protect(ParticipantId::new(1), NodeId::new(1));
    domain.clear(ParticipantId::new(2));
    assert_eq!(domain.protected_nodes(), vec![NodeId::new(1)]);
}

#[test]
fn below_threshold_retire_does_not_scan() {
    let mut domain = HazardDomain::new(3);
    assert!(domain.retire(RetiredNode::new(NodeId::new(1), "a")).is_none());
    assert!(domain.retire(RetiredNode::new(NodeId::new(2), "b")).is_none());
    assert_eq!(domain.retired_nodes(), vec![NodeId::new(1), NodeId::new(2)]);
    assert!(domain.reclaimed_nodes().is_empty());
}
