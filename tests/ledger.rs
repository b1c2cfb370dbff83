use liminal::agent::{split_frame, EventParseError, PtyEventParser};
use liminal::consensus::{quorum_vote, ConsensusBroker, ConsensusEvent};
use liminal::metrics::{MetricsRegistry, MetricsView};
use liminal::ledger::{
    current_epoch_id, segment_file_name, verify_chain, ChainLink, ChainState, EventEnvelope,
    EventMetadata, HybridLogicalClock, LeaseEvent, LeaseRecord, LedgerEvent, LogicalClock,
    PtyEvent, ReplayCoordinator, RouterDispatchRecord, RouterEvent, RouterReplayState,
    StateCheckpoint, LeaseReplayState,
};

fn hex(data: &[u8]) -> Vec<u8> {
    blake3::hash(data).to_hex().as_bytes().to_vec()
}

#[test]
fn chain_links_follow_from_zero() {
    let mut chain = ChainState::new();
    let first = chain.commit(10, &b"{\"a\":1}".to_vec());
    let second = chain.commit(10, &b"{\"b\":2}".to_vec());
    assert_eq!(chain.sequence, 2);
    let mut input = b"0".to_vec();
    input.extend_from_slice(b"{\"a\":1}");
    assert_eq!(first, hex(&input));
    let mut input = first.clone();
    input.extend_from_slice(b"{\"b\":2}");
    assert_eq!(second, hex(&input));
    assert_eq!(first.len(), 64);
    assert_ne!(first, b"0".to_vec());

    let links = vec![
        ChainLink { body: b"{\"a\":1}".to_vec(), hash: first.clone() },
        ChainLink { body: b"{\"b\":2}".to_vec(), hash: second.clone() },
    ];
    assert!(verify_chain(&links));
    let tampered = vec![
        ChainLink { body: b"{\"a\":1}".to_vec(), hash: first },
        ChainLink { body: b"{\"b\":3}".to_vec(), hash: second },
    ];
    assert!(!verify_chain(&tampered));
    assert!(verify_chain(&vec![]));
}

#[test]
fn sequences_are_gap_free() {
    let mut chain = ChainState::new();
    let (s1, _) = chain.stamp(5);
    chain.commit(5, &vec![1]);
    let (s2, _) = chain.stamp(5);
    chain.commit(5, &vec![2]);
    assert_eq!((s1, s2), (1, 2));
    assert_eq!(chain.sequence, 2);
}

#[test]
fn hybrid_clock_never_goes_back() {
    let mut clock = HybridLogicalClock::new();
    assert_eq!(clock.tick(100), LogicalClock { wall_millis: 100, counter: 0 });
    assert_eq!(clock.tick(100), LogicalClock { wall_millis: 100, counter: 1 });
    assert_eq!(clock.tick(90), LogicalClock { wall_millis: 100, counter: 2 });
    assert_eq!(LogicalClock::now(&mut clock, 120), LogicalClock { wall_millis: 120, counter: 0 });
    let mut full = HybridLogicalClock { last_wall: 5, counter: u32::MAX };
    assert_eq!(full.tick(5).counter, u32::MAX);
}

#[test]
fn segments_and_epochs_are_named() {
    assert_eq!(segment_file_name(0), "segment_0000.log");
    assert_eq!(segment_file_name(42), "segment_0042.log");
    assert_eq!(segment_file_name(12345), "segment_12345.log");
    assert_eq!(current_epoch_id(1700000000), "epoch-1700000000");
}

fn envelope(sequence: u64, event: LedgerEvent) -> EventEnvelope {
    EventEnvelope {
        epoch_id: "replay-deterministic-test".to_string(),
        sequence,
        logical_clock: LogicalClock { wall_millis: sequence, counter: 0 },
        metadata: EventMetadata { trace_id: None, agent_id: None, territory_id: None, priority: None },
        payload_digest: vec![],
        hash_chain: format!("h{sequence}").into_bytes(),
        event,
    }
}

fn dispatch(content: &str, sender: &str) -> LedgerEvent {
    LedgerEvent::Router(RouterEvent::Dispatched(RouterDispatchRecord {
        message_id: Some(content.to_string()),
        content_digest: None,
        sender: sender.to_string(),
        recipient: "target".to_string(),
        priority: "info".to_string(),
        effective_priority: "info".to_string(),
        wait_time_ms: 1,
        queue_depths: vec![0, 0, 0, 0, 0],
        aging_boosts: 0,
        retry_count: 0,
    }))
}

fn lease(id: u64, resource: &str, holder: &str) -> LeaseRecord {
    LeaseRecord {
        lease_id: id,
        resource_id: resource.to_string(),
        holder_id: holder.to_string(),
        priority: "coordinate".to_string(),
    }
}

#[test]
fn ledger_replay_rebuilds_state_deterministically() {
    let events = vec![
        envelope(1, dispatch("msg1", "agent1")),
        envelope(2, dispatch("msg2", "agent2")),
        envelope(3, dispatch("msg3", "agent1")),
        envelope(4, LedgerEvent::Lease(LeaseEvent::Granted(lease(1, "r1", "a")))),
        envelope(5, LedgerEvent::Lease(LeaseEvent::Granted(lease(2, "r2", "b")))),
        envelope(6, LedgerEvent::Lease(LeaseEvent::Released(lease(1, "r1", "a")))),
        envelope(7, LedgerEvent::Lease(LeaseEvent::Overridden {
            previous: lease(2, "r2", "b"),
            lease: lease(2, "r2", "c"),
        })),
    ];
    let first = ReplayCoordinator::replay(&events);
    let second = ReplayCoordinator::replay(&events);
    assert_eq!(first.router.total_dispatched, 3);
    assert_eq!(first.router.last_priority.as_deref(), Some("info"));
    assert_eq!(first.leases.active, vec![lease(2, "r2", "c")]);
    assert_eq!(first.leases.overrides, 1);
    assert_eq!(first.last_sequence, Some(7));
    assert_eq!(first.tail_hash, Some(b"h7".to_vec()));
    assert_eq!(first.router, second.router);
    assert_eq!(first.leases, second.leases);

    // applying the events one by one agrees with replaying the log
    let mut live = RouterReplayState::new();
    let mut leases = LeaseReplayState::new();
    for e in &events {
        match &e.event {
            LedgerEvent::Router(RouterEvent::Dispatched(r)) => live.apply_dispatch(r),
            LedgerEvent::Lease(l) => leases.apply(l),
            _ => {}
        }
    }
    assert_eq!(live, first.router);
    assert_eq!(leases, first.leases);
    let summary = first.leases.to_summary();
    assert_eq!(summary.active_leases, 1);
    assert_eq!(summary.outstanding_lease_ids, vec![2]);
    let snapshot = first.router.to_snapshot();
    assert_eq!(snapshot.queue_depths[0], ("info".to_string(), 0));
    assert_eq!(snapshot.queue_depths[4].0, "directorOverride");
    // with no checkpoint, the metrics are rebuilt from the replayed state
    let metrics = first.metrics.unwrap();
    assert_eq!(metrics.leases.outstanding_lease_ids, vec![2]);
    assert_eq!(metrics.router.last_dispatched_priority.as_deref(), Some("info"));
    assert_eq!(metrics.consensus_success_ratio, 1000);
}

#[test]
fn checkpoints_replace_replay_state() {
    let checkpoint = StateCheckpoint {
        checkpoint_id: "checkpoint-1".to_string(),
        captured_at_ms: 9,
        router: RouterReplayState { total_dispatched: 40, last_priority: None, queue_depths: vec![1] },
        leases: LeaseReplayState {
            active: vec![lease(5, "x", "p"), lease(6, "x", "q")],
            deferrals: 2,
            overrides: 0,
            escalations: 1,
        },
        metrics: live_metrics(),
    };
    let events = vec![
        envelope(1, dispatch("m", "s")),
        envelope(2, LedgerEvent::Checkpoint(checkpoint)),
        envelope(3, dispatch("n", "s")),
    ];
    let out = ReplayCoordinator::replay(&events);
    assert_eq!(out.router.total_dispatched, 41);
    assert_eq!(out.checkpoints.len(), 1);
    assert_eq!(out.leases.active, vec![lease(6, "x", "q")]);
    assert_eq!(out.leases.deferrals, 2);
    let m = out.metrics.unwrap();
    assert_eq!(m.total_messages_routed, 7);
    assert_eq!(m.rate_limits.len(), 2);
}

fn live_metrics() -> MetricsView {
    let mut registry = MetricsRegistry::empty();
    for _ in 0..7 {
        registry.record_router_delivery(liminal::priority::Priority::Info, 4, [1, 0, 0, 0, 0], 9);
    }
    registry.increment_rate_limited(&"b".to_string());
    registry.increment_rate_limited(&"a".to_string());
    registry.snapshot()
}

#[test]
fn ledger_records_consensus_quorum_events() {
    let broker = ConsensusBroker::new(660);
    let votes = vec![
        quorum_vote("agent_a", 2000, true),
        quorum_vote("agent_b", 1500, true),
        quorum_vote("agent_c", 1000, false),
    ];
    let vector = broker.record_quorum("shared-resource", votes, "priority-override").unwrap();
    assert_eq!(vector.threshold, 660);
    assert_eq!(vector.total_weight, 4500);
    assert_eq!(vector.agree_weight, 3500);
    assert!(vector.achieved);
    let zero = broker.record_quorum("r", vec![quorum_vote("z", 0, true)], "x").unwrap();
    assert_eq!(zero.votes[0].weight, 1000);
    let bytes = b"{\"resourceId\":\"shared-resource\"}".to_vec();
    let events = ConsensusBroker::consensus_events(&vector, &Some(bytes.clone()));
    assert_eq!(events.len(), 3);
    let phases: Vec<String> = events
        .iter()
        .map(|e| match e {
            ConsensusEvent::Proposal(s) | ConsensusEvent::Vote(s) | ConsensusEvent::Commit(s) => {
                assert_eq!(s.payload_digest.as_deref(), Some(hex(&bytes).as_slice()));
                assert_eq!(s.topic, "consensus:shared-resource");
                s.phase.clone()
            }
            ConsensusEvent::Idle => String::new(),
        })
        .collect();
    assert_eq!(phases, vec!["proposal", "vote", "commit"]);
    assert!(broker.record_quorum("shared-resource", vec![], "none").is_none());
}

#[test]
fn quorum_below_threshold_is_not_achieved() {
    let broker = ConsensusBroker::new(2000);
    let v = broker.record_quorum("r", vec![quorum_vote("a", 1, true), quorum_vote("b", 1, false)], "x").unwrap();
    assert_eq!(v.threshold, 1000);
    assert!(!v.achieved);
}

#[test]
fn metadata_names_the_event() {
    let granted = LeaseEvent::Granted(lease(17, "res", "holder"));
    let m = granted.metadata();
    assert_eq!(m.trace_id.as_deref(), Some("lease-17"));
    assert_eq!(m.territory_id.as_deref(), Some("res"));
    let pty = PtyEvent { agent_id: "a".to_string(), event_name: None, timestamp_ms: 5 };
    assert_eq!(LedgerEvent::Pty(pty).metadata().trace_id.as_deref(), Some("pty-5"));
}

#[test]
fn parser_handles_split_tags() {
    let mut parser = PtyEventParser::new();
    assert!(parser.feed(&b"normal <FORGE_EVENT name=\"PLAN".to_vec()).is_empty());
    let results = parser.feed(&b"_COMPLETE\">{\"status\":\"done\"}</FORGE_EVENT> tail".to_vec());
    assert_eq!(results.len(), 1);
    assert_eq!(
        results[0],
        b"<FORGE_EVENT name=\"PLAN_COMPLETE\">{\"status\":\"done\"}</FORGE_EVENT>".to_vec()
    );
    assert_eq!(parser.buffer, b" tail".to_vec());
}

#[test]
fn parser_trims_text_without_a_start_marker() {
    let mut parser = PtyEventParser::new();
    assert!(parser.feed(&b"a long line of ordinary output".to_vec()).is_empty());
    assert_eq!(parser.buffer, b"inary output".to_vec());
}

#[test]
fn parser_flags_invalid_json() {
    let mut parser = PtyEventParser::new();
    let frames = parser.feed(&b"<FORGE_EVENT name=\"BROKEN\">not json</FORGE_EVENT>".to_vec());
    assert_eq!(frames.len(), 1);
    let raw = String::from_utf8(frames[0].clone()).unwrap();
    let (name, payload) = split_frame(&raw).unwrap();
    assert_eq!(name.as_deref(), Some("BROKEN"));
    assert_eq!(payload, "not json");
    assert!(serde_json::from_str::<serde_json::Value>(&payload).is_err());
}

#[test]
fn frames_split_into_name_and_payload() {
    let (name, payload) =
        split_frame("<FORGE_EVENT name=\"PLAN_COMPLETE\">{\"status\":\"done\"}</FORGE_EVENT>").unwrap();
    assert_eq!(name.as_deref(), Some("PLAN_COMPLETE"));
    let value: serde_json::Value = serde_json::from_str(&payload).unwrap();
    assert_eq!(value["status"], "done");
    let (unnamed, _) = split_frame("<FORGE_EVENT other=1> {} </FORGE_EVENT>").unwrap();
    assert_eq!(unnamed, None);
    assert!(matches!(
        split_frame("<FORGE_EVENT name=\"X\">   </FORGE_EVENT>"),
        Err(EventParseError::MissingJson { .. })
    ));
    assert!(matches!(split_frame("no tag at all"), Err(EventParseError::MissingJson { .. })));
    assert!(matches!(
        split_frame("<FORGE_EVENT></FORGE_EVENT"),
        Err(EventParseError::MissingJson { .. })
    ));
}
