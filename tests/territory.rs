use liminal::config::TerritoryConfig;
use liminal::consensus::ConsensusBroker;
use liminal::heat::HeatMap;
use liminal::priority::Priority;
use liminal::territory::{
    ledger_event_from_territory, queue_record_from, EscalationReason, LeaseDecision, LeaseRequest,
    NegotiationHandle, RequestId, TerritoryEvent, TerritoryManager, TerritoryPolicy,
    TransferDecision, TransferRequest,
};

fn sample_config() -> TerritoryConfig {
    TerritoryConfig {
        default_lease_duration: Some("120s".to_string()),
        max_lease_duration: Some("2h".to_string()),
        auto_extend_threshold: Some("45s".to_string()),
        negotiation_timeout: Some("15s".to_string()),
        negotiation_max_rounds: Some(5),
        escalation_queue_threshold: Some(4),
        escalation_deadlock_timeout: Some("180s".to_string()),
        fairness_starvation_threshold: Some("420s".to_string()),
        fairness_priority_boost_after: Some("120s".to_string()),
        consensus_threshold: Some(750),
        heat_retention_per_ms: Some(999_712_359),
        heat_increment: Some(2_000_000),
        heat_max: Some(9_000_000),
    }
}

#[test]
fn territory_policy_applies_config_overrides() {
    let config = sample_config();
    let policy = TerritoryPolicy::from_config(Some(&config));
    assert_eq!(policy.default_lease_duration, 120_000);
    assert_eq!(policy.max_lease_duration, 2 * 3_600_000);
    assert_eq!(policy.auto_extend_threshold, 45_000);
    assert_eq!(policy.negotiation_timeout, 15_000);
    assert_eq!(policy.negotiation_max_rounds, 5);
    assert_eq!(policy.escalation_queue_threshold, 4);
    assert_eq!(policy.escalation_deadlock_timeout, 180_000);
    assert_eq!(policy.fairness_starvation_threshold, 420_000);
    assert_eq!(policy.fairness_priority_boost_after, 120_000);
    assert_eq!(policy.consensus_threshold, 750);
    assert_eq!(policy.heat_retention_per_ms, 999_712_359);
    assert_eq!(policy.heat_increment, 2_000_000);
    assert_eq!(policy.heat_max, 9_000_000);
}

fn request(agent: &str, resource: &str, priority: Priority) -> LeaseRequest {
    LeaseRequest::new(agent.to_string(), resource.to_string(), priority)
}

fn manager_with(f: impl FnOnce(&mut TerritoryPolicy)) -> TerritoryManager {
    let mut policy = TerritoryPolicy::baseline();
    f(&mut policy);
    TerritoryManager::with_policy(policy)
}

#[test]
fn territory_promotes_waiting_request_on_release() {
    let mut manager = manager_with(|p| p.auto_extend_threshold = 1);
    let resource = "shared_file.txt".to_string();
    let first = manager.acquire_lease(request("Agent_A", &resource, Priority::Coordinate), 0);
    assert!(matches!(first.decision, LeaseDecision::Granted(_)));
    let second = manager.acquire_lease(request("Agent_B", &resource, Priority::Coordinate), 1);
    assert!(matches!(second.decision, LeaseDecision::Queued(_)));
    assert_eq!(manager.queue_depth(&resource), 1);

    let released = manager.release_lease(&"Agent_A".to_string(), &resource, 2);
    let outcome = released.unwrap();
    assert_eq!(outcome.released.holder_id, "Agent_A");
    assert_eq!(outcome.granted.unwrap().holder_id, "Agent_B");
    let active = manager.current_lease(&resource).unwrap();
    assert_eq!(active.holder_id, "Agent_B".to_string());
    assert_eq!(manager.queue_depth(&resource), 0);
}

#[test]
fn release_by_a_non_holder_changes_nothing() {
    let mut manager = manager_with(|_| {});
    let resource = "r".to_string();
    manager.acquire_lease(request("A", &resource, Priority::Info), 0);
    assert!(manager.release_lease(&"B".to_string(), &resource, 1).is_none());
    assert!(manager.release_lease(&"A".to_string(), &"other".to_string(), 1).is_none());
    assert_eq!(manager.current_lease(&resource).unwrap().holder_id, "A");
}

#[test]
fn territory_defers_when_holder_near_expiry() {
    let mut manager = manager_with(|p| {
        p.default_lease_duration = 100;
        p.max_lease_duration = 100;
        p.auto_extend_threshold = 5_000;
    });
    let resource = "doc.md".to_string();
    let first = manager.acquire_lease(request("Holder", &resource, Priority::Coordinate), 0);
    assert!(matches!(first.decision, LeaseDecision::Granted(_)));
    let second = manager.acquire_lease(request("Contender", &resource, Priority::Coordinate), 10);
    match second.decision {
        LeaseDecision::Deferred { handle, grace_deadline } => {
            assert_eq!(grace_deadline, 5_010);
            assert_eq!(handle.queue_position, 1);
        }
        other => panic!("expected a deferral, got {:?}", other),
    }
    let quorum = second.quorum.unwrap();
    assert_eq!(quorum.reason, "defer");
    // a deferred request is not eligible before its deadline
    let released = manager.release_lease(&"Holder".to_string(), &resource, 20).unwrap();
    assert!(released.granted.is_none());
    assert_eq!(manager.queue_depth(&resource), 1);
}

#[test]
fn territory_overrides_on_priority_delta() {
    let mut manager = manager_with(|p| {
        p.override_priority_delta = 1;
        p.auto_extend_threshold = 1;
    });
    let resource = "plan.json".to_string();
    let base = manager.acquire_lease(request("Agent_Low", &resource, Priority::Coordinate), 0);
    assert!(matches!(base.decision, LeaseDecision::Granted(_)));
    let over = manager.acquire_lease(request("Agent_High", &resource, Priority::Critical), 5);
    match &over.decision {
        LeaseDecision::Overridden { previous, lease } => {
            assert_eq!(previous.holder_id, "Agent_Low");
            assert_eq!(lease.holder_id, "Agent_High");
            assert_eq!(lease.override_count, 1);
            assert_eq!(lease.lease_id, previous.lease_id);
        }
        other => panic!("expected an override, got {:?}", other),
    }
    let holder = manager.current_lease(&resource).unwrap();
    assert_eq!(holder.holder_id, "Agent_High");
    assert_eq!(holder.priority, Priority::Critical);
}

#[test]
fn quorum_override_records_success() {
    let mut manager = manager_with(|_| {});
    let resource = "shared-resource".to_string();
    manager.acquire_lease(request("holder", &resource, Priority::Coordinate), 0);
    let outcome = manager.acquire_lease(request("contender", &resource, Priority::Critical), 1);
    assert!(matches!(outcome.decision, LeaseDecision::Overridden { .. }));
    let quorum = outcome.quorum.unwrap();
    assert_eq!(quorum.reason, "override");
    let weights: Vec<(String, u64, bool)> =
        quorum.votes.iter().map(|v| (v.agent_id.clone(), v.weight, v.vote)).collect();
    assert_eq!(weights, vec![("holder".to_string(), 2000, false), ("contender".to_string(), 4000, true)]);

    let broker = ConsensusBroker::new(manager.policy().consensus_threshold);
    let vector = broker.record_quorum(&resource, quorum.votes, &quorum.reason).unwrap();
    assert!(vector.achieved, "quorum should succeed on override");
    assert_eq!(vector.reason, "override");
    assert_eq!(vector.resource_id, "shared-resource");
    assert_eq!(vector.total_weight, 6000);
    assert_eq!(vector.agree_weight, 4000);
}

#[test]
fn territory_escalates_on_queue_pressure() {
    let mut manager = manager_with(|p| {
        p.auto_extend_threshold = 1;
        p.escalation_queue_threshold = 2;
    });
    let resource = "shared_resource.txt".to_string();
    let grant = manager.acquire_lease(request("Primary", &resource, Priority::Coordinate), 0);
    assert!(matches!(grant.decision, LeaseDecision::Granted(_)));
    let one = manager.acquire_lease(request("Waiter_1", &resource, Priority::Coordinate), 1);
    assert!(matches!(one.decision, LeaseDecision::Queued(_)));
    assert_eq!(one.escalation, None);
    let two = manager.acquire_lease(request("Waiter_2", &resource, Priority::Coordinate), 2);
    assert!(matches!(two.decision, LeaseDecision::Queued(_)));
    assert_eq!(two.escalation, Some(EscalationReason::QueueDepth));
    let quorum = two.quorum.unwrap();
    assert_eq!(quorum.reason, "escalate");
    // holder, requester, and the other waiter
    assert_eq!(quorum.votes.len(), 3);
}

#[test]
fn starvation_escalates_a_short_queue() {
    let mut manager = manager_with(|p| {
        p.auto_extend_threshold = 1;
        p.escalation_queue_threshold = 10;
        p.fairness_starvation_threshold = 100;
    });
    let resource = "r".to_string();
    manager.acquire_lease(request("P", &resource, Priority::Info), 0);
    let one = manager.acquire_lease(request("W1", &resource, Priority::Info), 0);
    assert_eq!(one.escalation, None);
    let two = manager.acquire_lease(request("W2", &resource, Priority::Info), 150);
    assert_eq!(two.escalation, Some(EscalationReason::Starvation));
}

#[test]
fn queue_orders_by_tier_then_arrival() {
    let mut manager = manager_with(|p| {
        p.auto_extend_threshold = 1;
        p.escalation_queue_threshold = 100;
        p.override_priority_delta = 4;
    });
    let resource = "r".to_string();
    manager.acquire_lease(request("P", &resource, Priority::Critical), 0);
    let a = manager.acquire_lease(request("A", &resource, Priority::Info), 1);
    let b = manager.acquire_lease(request("B", &resource, Priority::Blocking), 2);
    let c = manager.acquire_lease(request("C", &resource, Priority::Info), 3);
    let pos = |d: &LeaseDecision| match d {
        LeaseDecision::Queued(h) => h.queue_position,
        _ => 0,
    };
    assert_eq!(pos(&a.decision), 1);
    assert_eq!(pos(&b.decision), 1);
    assert_eq!(pos(&c.decision), 3);
    let out = manager.release_lease(&"P".to_string(), &resource, 4).unwrap();
    assert_eq!(out.granted.unwrap().holder_id, "B");
}

#[test]
fn transfer_requires_the_current_holder() {
    let mut manager = manager_with(|_| {});
    let resource = "r".to_string();
    manager.acquire_lease(request("A", &resource, Priority::Info), 0);
    let wrong = TransferRequest {
        from_agent: "X".to_string(),
        to_agent: "B".to_string(),
        resource_id: resource.clone(),
        new_priority: None,
    };
    assert!(matches!(manager.transfer_lease(wrong, 1), TransferDecision::Rejected));
    let right = TransferRequest {
        from_agent: "A".to_string(),
        to_agent: "B".to_string(),
        resource_id: resource.clone(),
        new_priority: Some(Priority::Blocking),
    };
    match manager.transfer_lease(right, 2) {
        TransferDecision::Transferred { previous, lease } => {
            assert_eq!(previous.holder_id, "A");
            assert_eq!(lease.holder_id, "B");
            assert_eq!(lease.priority, Priority::Blocking);
            assert_eq!(lease.granted_at, 2);
        }
        TransferDecision::Rejected => panic!("transfer rejected"),
    }
}

#[test]
fn progress_is_capped_and_only_for_the_holder() {
    let mut manager = manager_with(|_| {});
    let resource = "r".to_string();
    manager.acquire_lease(request("A", &resource, Priority::Info), 0);
    assert!(manager.update_progress(&resource, &"B".to_string(), 500, 1).is_none());
    let snap = manager.update_progress(&resource, &"A".to_string(), 1500, 2).unwrap();
    assert_eq!(snap.holder_progress, 1000);
    assert_eq!(snap.last_heartbeat_at, 2);
}

#[test]
fn granted_lease_lasts_the_shorter_duration() {
    let mut manager = manager_with(|p| {
        p.default_lease_duration = 900;
        p.max_lease_duration = 300;
    });
    match manager.acquire_lease(request("A", "r", Priority::Info), 1_000).decision {
        LeaseDecision::Granted(s) => {
            assert_eq!(s.expires_at, 1_300);
            assert_eq!(s.lease_id.as_u64(), 1);
        }
        other => panic!("expected a grant, got {:?}", other),
    }
}

#[test]
fn heat_map_decays_under_load() {
    let mut manager = manager_with(|p| {
        p.heat_retention_per_ms = 998_392_000;
        p.heat_increment = 4_000_000;
        p.heat_max = 10_000_000;
    });
    let resource = "heat-resource".to_string();
    manager.acquire_lease(request("heat-holder", &resource, Priority::Coordinate), 0);
    manager.acquire_lease(request("heat-contender", &resource, Priority::Critical), 0);
    let hot = manager.heat_snapshot(40);
    assert_eq!(hot.hottest_resource.as_deref(), Some(resource.as_str()));
    assert!(hot.hottest_score > 0);
    let cooled = manager.heat_snapshot(260);
    assert!(cooled.hottest_score < hot.hottest_score);
}

#[test]
fn heat_stays_within_its_maximum() {
    let mut heat = HeatMap::new(1_000_000_000, 4_000_000, 10_000_000);
    let r = "r".to_string();
    for t in 0..5 {
        let s = heat.bump(&r, t);
        assert!(s.hottest_score <= 10_000_000);
    }
    assert_eq!(heat.cells[0].value, 10_000_000);
}

#[test]
fn heat_summary_twice_at_one_instant_is_identical() {
    let mut heat = HeatMap::new(999_837_494, 1_500_000, 10_000_000);
    heat.bump(&"a".to_string(), 0);
    heat.bump(&"b".to_string(), 10);
    heat.bump(&"b".to_string(), 20);
    let first = heat.summary(500);
    let second = heat.summary(500);
    assert_eq!(first, second);
    assert_eq!(first.hottest_resource.as_deref(), Some("b"));
    assert_eq!(first.cell_count, 2);
}

#[test]
fn territory_events_become_ledger_records() {
    let handle = NegotiationHandle {
        request_id: RequestId::new(3),
        resource_id: "r".to_string(),
        agent_id: "w".to_string(),
        queue_position: 2,
    };
    let rec = queue_record_from(&handle, Some(99));
    assert_eq!(rec.request_id, "w:2");
    assert_eq!(rec.grace_deadline_ms, Some(99));
    let ev = ledger_event_from_territory(&TerritoryEvent::Escalated {
        handle,
        reason: EscalationReason::QueueDepth,
    });
    match ev {
        liminal::ledger::LeaseEvent::Escalated(e) => assert_eq!(e.reason, "queueDepth"),
        other => panic!("unexpected {:?}", other),
    }
}

#[test]
fn config_defaults_apply_without_overrides() {
    let policy = TerritoryPolicy::from_config(None);
    assert_eq!(policy.default_lease_duration, 900_000);
    let manager = TerritoryManager::new(None);
    assert_eq!(manager.policy().escalation_queue_threshold, 2);
}

#[test]
fn territory_metrics_reflect_escalation() {
    let mut manager = manager_with(|p| {
        p.auto_extend_threshold = 1;
        p.escalation_queue_threshold = 2;
    });
    let resource = "metrics_resource.txt".to_string();
    manager.acquire_lease(request("Primary", &resource, Priority::Coordinate), 0);
    let mut escalations = 0;
    for idx in 0..2 {
        let out = manager.acquire_lease(request(&format!("Waiter_{idx}"), &resource, Priority::Coordinate), 1);
        if out.escalation.is_some() {
            escalations += 1;
        }
    }
    assert!(escalations > 0);
    let (active, pending, outstanding) = manager.inventory().into_parts();
    assert_eq!(active, 1);
    let total: usize = pending.iter().map(|(_, n)| *n).sum();
    assert!(total >= 2);
    assert_eq!(pending, vec![(resource.clone(), 2)]);
    assert_eq!(outstanding, vec![1]);
}

#[test]
fn ledger_records_territory_lease_lifecycle() {
    let mut manager = manager_with(|_| {});
    let resource = "test-resource".to_string();
    let holder = "lease-holder".to_string();
    let granted = manager.acquire_lease(request(&holder, &resource, Priority::Coordinate), 0);
    let snapshot = match granted.decision {
        LeaseDecision::Granted(s) => s,
        other => panic!("expected a grant, got {:?}", other),
    };
    let released = manager.release_lease(&holder, &resource, 5).expect("release lease");
    let events = vec![
        ledger_event_from_territory(&TerritoryEvent::Granted(snapshot)),
        ledger_event_from_territory(&TerritoryEvent::Released(released.released)),
    ];
    let mut granted_count = 0;
    let mut released_count = 0;
    for event in &events {
        match event {
            liminal::ledger::LeaseEvent::Granted(record) => {
                assert_eq!(record.holder_id, holder);
                assert_eq!(record.resource_id, resource);
                assert_eq!(record.priority, "coordinate");
                granted_count += 1;
            }
            liminal::ledger::LeaseEvent::Released(record) => {
                assert_eq!(record.resource_id, resource);
                released_count += 1;
            }
            _ => {}
        }
        assert_eq!(event.metadata().territory_id.as_deref(), Some(resource.as_str()));
    }
    assert_eq!(granted_count, 1);
    assert_eq!(released_count, 1);
}

#[test]
fn override_ballot_counts_the_waiters() {
    let mut manager = manager_with(|p| p.auto_extend_threshold = 1);
    let resource = "r".to_string();
    manager.acquire_lease(request("holder", &resource, Priority::Info), 0);
    manager.acquire_lease(request("waiter", &resource, Priority::Info), 1);
    let out = manager.acquire_lease(request("boss", &resource, Priority::Critical), 2);
    assert!(matches!(out.decision, LeaseDecision::Overridden { .. }));
    let votes: Vec<(String, u64, bool)> =
        out.quorum.unwrap().votes.iter().map(|v| (v.agent_id.clone(), v.weight, v.vote)).collect();
    assert_eq!(
        votes,
        vec![
            ("holder".to_string(), 1000, false),
            ("boss".to_string(), 4000, true),
            ("waiter".to_string(), 1000, false),
        ]
    );
}

#[test]
fn release_grants_a_fresh_lease_id() {
    let mut manager = manager_with(|p| p.auto_extend_threshold = 1);
    let resource = "r".to_string();
    manager.acquire_lease(request("A", &resource, Priority::Info), 0);
    manager.acquire_lease(request("B", &resource, Priority::Info), 1);
    let out = manager.release_lease(&"A".to_string(), &resource, 2).unwrap();
    assert_ne!(out.granted.unwrap().lease_id, out.released.lease_id);
}
