use liminal::metrics::MetricsRegistry;
use liminal::agent::PtyEventParser;
use liminal::director::{
    check_completion, format_turn_prompt, AgentRole, ExecutionSummary, ParseError, Runbook,
    RunbookParser, Session, SessionState, Turn, TurnResult, TurnStatus,
};

#[test]
fn test_execution_summary_creation() {
    let summary = ExecutionSummary {
        epoch_id: "test-epoch".to_string(),
        total_turns: 3,
        completed_turns: 2,
        failed_turns: 1,
        total_duration_ms: 5000,
        turn_summaries: vec![],
    };

    assert_eq!(summary.epoch_id, "test-epoch");
    assert_eq!(summary.total_turns, 3);
    assert_eq!(summary.completed_turns, 2);
    assert_eq!(summary.failed_turns, 1);
}

#[test]
fn roles_are_read_in_any_case() {
    assert_eq!(AgentRole::from_str("Systems"), Some(AgentRole::Systems));
    assert_eq!(AgentRole::from_str("INTERFACE"), Some(AgentRole::Interface));
    assert_eq!(AgentRole::from_str("director"), Some(AgentRole::Director));
    assert_eq!(AgentRole::from_str("pilot"), None);
    assert_eq!(AgentRole::from_lowercase(&"research".to_string()), Some(AgentRole::Research));
    assert_eq!(AgentRole::from_lowercase(&"Research".to_string()), None);
}

#[test]
fn test_executable_turns() {
    let mut runbook = Runbook::new("epoch".to_string(), "goal".to_string());
    runbook.add_turn(Turn::new(1, AgentRole::Systems, "one".to_string()));
    runbook.add_turn(Turn::new(2, AgentRole::Interface, "two".to_string()).with_parallel_group(Some(1)));
    runbook.add_turn(Turn::new(3, AgentRole::Testing, "three".to_string()).with_parallel_group(Some(1)));
    runbook.add_turn(Turn::new(4, AgentRole::Research, "four".to_string()));
    runbook.build_dependency_graph();

    assert!(runbook.turns[0].dependencies.is_empty());
    assert_eq!(runbook.turns[1].dependencies, vec![1]);
    assert_eq!(runbook.turns[2].dependencies, vec![1]);
    assert_eq!(runbook.turns[3].dependencies, vec![1, 2, 3]);

    assert_eq!(runbook.get_executable_turns(), vec![0]);
    runbook.turns[0].status = TurnStatus::Completed;
    assert_eq!(runbook.get_executable_turns(), vec![1, 2]);
}

#[test]
fn turn_metadata_keeps_one_value_per_key() {
    let turn = Turn::new(1, AgentRole::Router, "p".to_string())
        .with_metadata("k".to_string(), "a".to_string())
        .with_metadata("k".to_string(), "b".to_string());
    assert_eq!(turn.metadata, vec![("k".to_string(), "b".to_string())]);
}

#[test]
fn session_lifecycle_records_turns_and_duration() {
    let mut session = Session::new("epoch-1".to_string(), "runbook.md".to_string(), 1_234_567);
    assert_eq!(session.session_id, "epoch-1_1234567");
    assert_eq!(session.created_at, 1234);
    session.start(100);
    session.pause();
    assert_eq!(session.state, SessionState::Paused);
    session.resume();
    session.start(150);
    assert_eq!(session.started_at, Some(100));
    let result = TurnResult {
        turn_id: 7,
        status: TurnStatus::Completed,
        artifacts: vec![],
        output_log: "log".to_string(),
        duration_ms: 20_000,
        error_message: None,
    };
    session.record_turn_completion(7, result, 140);
    let record = session.get_turn_record(7).unwrap();
    assert_eq!(record.started_at, 120);
    assert_eq!(record.duration_ms, 20_000);
    assert!(session.get_turn_record(8).is_none());
    assert_eq!(session.total_duration_ms(), None);
    session.finalize(160);
    assert_eq!(session.total_duration_ms(), Some(60_000));
}

#[test]
fn test_format_turn_prompt() {
    let turn = Turn::new(1, AgentRole::Systems, "Test prompt".to_string())
        .with_acceptance(vec!["Criterion 1".to_string(), "Criterion 2".to_string()]);
    let formatted = format_turn_prompt(&turn);
    assert!(formatted.contains("Turn ID: 1"));
    assert!(formatted.contains("Role: Systems"));
    assert!(formatted.contains("Test prompt"));
    assert!(formatted.contains("Criterion 1"));
    assert!(formatted.contains("Criterion 2"));
    assert!(formatted.contains("TURN_COMPLETE"));
    assert!(formatted.contains("- Criterion 2\n"));
    let bare = format_turn_prompt(&Turn::new(12, AgentRole::Director, "x".to_string()));
    assert!(!bare.contains("ACCEPTANCE CRITERIA"));
    assert!(bare.starts_with("=== LIMINAL TURN EXECUTION ===\nTurn ID: 12\nRole: Director\n"));
}

#[test]
fn test_check_completion() {
    assert!(check_completion("Task done. TURN_COMPLETE"));
    assert!(check_completion("Turn complete successfully"));
    assert!(!check_completion("Still working on it"));
    assert!(!check_completion(""));
}

#[test]
fn turn_numbers_are_read_from_headings() {
    let parser = RunbookParser::new(String::new());
    assert_eq!(parser.extract_turn_number("Turn 3 — Systems Agent"), Ok(3));
    assert_eq!(parser.extract_turn_number("  Turn   42"), Ok(42));
    assert_eq!(parser.extract_turn_number("Turn +7"), Ok(7));
    assert_eq!(
        parser.extract_turn_number("Step 3"),
        Err(ParseError::InvalidTurnNumber("Step 3".to_string()))
    );
    assert!(parser.extract_turn_number("Turn x").is_err());
    assert!(parser.extract_turn_number("Turn").is_err());
    assert!(parser.extract_turn_number("Turn 99999999999999999999999").is_err());
}

#[test]
fn tag_names_are_read_from_words_after_the_first() {
    assert_eq!(
        PtyEventParser::extract_name("<FORGE_EVENT name=\"PLAN\""),
        Some("PLAN".to_string())
    );
    assert_eq!(PtyEventParser::extract_name("name=\"FIRST\" other"), None);
    assert_eq!(PtyEventParser::extract_name("<FORGE_EVENT a=1 name=\"\""), Some(String::new()));
}

#[test]
fn metrics_registry_counts_and_snapshots() {
    let mut m = MetricsRegistry::empty();
    m.record_router_delivery(liminal::priority::Priority::Critical, 10, [0, 1, 0, 2, 0], 5);
    m.record_router_delivery(liminal::priority::Priority::Info, 20, [0, 0, 0, 2, 0], 6);
    m.increment_rate_limited(&"zed".to_string());
    m.increment_rate_limited(&"amy".to_string());
    m.increment_rate_limited(&"zed".to_string());
    m.update_token_bucket(&"amy".to_string(), 500, 2000, 4000, 7);
    m.record_quorum_metrics(&"r".to_string(), true, 660, &"override".to_string());
    m.record_quorum_metrics(&"r".to_string(), false, 660, &"queue".to_string());
    m.record_quorum_metrics(&"r".to_string(), true, 660, &"queue".to_string());
    m.update_lease_inventory(1, vec![("a".to_string(), 2), ("b".to_string(), 3)], vec![4]);
    let s = m.snapshot();
    assert_eq!(s.total_messages_routed, 2);
    assert_eq!(s.message_routing_latency_ms, 15);
    assert_eq!(s.rate_limited_messages, 3);
    let senders: Vec<(String, u64)> = s.rate_limits.iter().map(|r| (r.sender.clone(), r.hits)).collect();
    assert_eq!(senders, vec![("amy".to_string(), 1), ("zed".to_string(), 2)]);
    assert_eq!(s.rate_limits[0].tokens_remaining, 500);
    assert_eq!(s.consensus_success_ratio, 666);
    assert_eq!(s.leases.total_pending, 5);
    assert_eq!(s.router.queue_depths[3], ("critical".to_string(), 2));
    assert_eq!(s.router.last_dispatched_priority.as_deref(), Some("info"));
    m.reset();
    let e = m.snapshot();
    assert_eq!(e.total_messages_routed, 0);
    assert_eq!(e.consensus_success_ratio, 1000);
    assert!(e.rate_limits.is_empty());
}
