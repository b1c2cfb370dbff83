use liminal::config::{parse_duration, RouterConfig};
use liminal::ledger::{ChainState, RouterDispatchRecord};
use liminal::priority::Priority;
use liminal::router::{DispatcherConfig, Message, RouteError, TokenBucket, UnifiedMessageRouter};

fn message(content: &str, priority: Priority, sender: &str) -> Message {
    Message {
        content: content.to_string(),
        priority,
        sender: sender.to_string(),
        recipient: "peer".to_string(),
    }
}

fn build_router_config() -> RouterConfig {
    RouterConfig {
        token_bucket_capacity: Some(512_000),
        token_bucket_refill_rate: Some(256_000),
        token_bucket_initial: Some(128_000),
        aging_threshold: Some("250ms".to_string()),
        max_aging_boosts: Some(5),
        idle_backoff: Some("15ms".to_string()),
        queue_depth_warning: Some(10),
        queue_depth_critical: Some(20),
    }
}

#[test]
fn dispatcher_config_applies_overrides() {
    let overrides = build_router_config();
    let config = DispatcherConfig::from_router_config(Some(&overrides));
    assert_eq!(config.token_capacity, 512_000);
    assert_eq!(config.token_refill_rate, 256_000);
    assert_eq!(config.initial_tokens, 128_000);
    assert_eq!(config.max_aging_boosts, 5);
    assert_eq!(config.aging_threshold, 250);
    assert_eq!(config.idle_backoff, 15);
}

#[test]
fn dispatcher_config_defaults_initial_tokens_to_capacity() {
    let overrides = RouterConfig {
        token_bucket_capacity: Some(300_000),
        token_bucket_refill_rate: None,
        token_bucket_initial: None,
        aging_threshold: None,
        max_aging_boosts: None,
        idle_backoff: None,
        queue_depth_warning: None,
        queue_depth_critical: None,
    };
    let config = DispatcherConfig::from_router_config(Some(&overrides));
    assert_eq!(config.token_capacity, 300_000);
    assert_eq!(config.initial_tokens, 300_000);
}

#[test]
fn dispatcher_config_clamps_initial_tokens() {
    let mut overrides = build_router_config();
    overrides.token_bucket_initial = Some(900_000);
    let config = DispatcherConfig::from_router_config(Some(&overrides));
    assert_eq!(config.initial_tokens, 512_000);
    let defaults = DispatcherConfig::from_router_config(None);
    assert_eq!(defaults.aging_threshold, 500);
    assert_eq!(defaults.token_capacity, 200_000);
}

#[test]
fn router_dispatches_by_priority() {
    let mut router = UnifiedMessageRouter::new();
    router.route_message(message("info", Priority::Info, "agent"), 0).unwrap();
    router.route_message(message("coordinate", Priority::Coordinate, "agent"), 0).unwrap();
    router.route_message(message("critical", Priority::Critical, "agent"), 0).unwrap();

    let first = router.dispatch_next(1).delivery.unwrap();
    let second = router.dispatch_next(2).delivery.unwrap();
    let third = router.dispatch_next(3).delivery.unwrap();
    assert_eq!(first.message.content, "critical");
    assert_eq!(second.message.content, "coordinate");
    assert_eq!(third.message.content, "info");
    assert!(router.dispatch_next(4).delivery.is_none());
}

#[test]
fn router_applies_aging_boosts() {
    let config = DispatcherConfig {
        aging_threshold: 60,
        idle_backoff: 5,
        token_capacity: 5_000,
        token_refill_rate: 10_000,
        initial_tokens: 0,
        max_aging_boosts: 1,
    };
    let mut router = UnifiedMessageRouter::with_config(config);
    router.route_message(message("needs boost", Priority::Info, "slow"), 0).unwrap();

    let mut delivered = None;
    let mut now = 0;
    while delivered.is_none() && now <= 1200 {
        now += 5;
        delivered = router.dispatch_next(now).delivery;
    }
    let delivery = delivered.unwrap();
    assert_eq!(delivery.message.content, "needs boost");
    assert_eq!(delivery.effective_priority, Priority::Coordinate);
    assert!(delivery.wait_time >= 60);
    assert!(delivery.aging_boosts >= 1);
}

#[test]
fn router_enforces_token_quota() {
    let config = DispatcherConfig {
        idle_backoff: 5,
        token_capacity: 2_000,
        token_refill_rate: 4_000,
        initial_tokens: 2_000,
        ..DispatcherConfig::default()
    };
    let mut router = UnifiedMessageRouter::with_config(config);
    for label in ["first", "second"] {
        router.route_message(message(label, Priority::Info, "quota"), 0).unwrap();
    }
    let one = router.dispatch_next(0).delivery.unwrap();
    let two = router.dispatch_next(0).delivery.unwrap();
    assert_eq!(one.message.content, "first");
    assert_eq!(two.message.content, "second");

    router.route_message(message("third", Priority::Info, "quota"), 0).unwrap();
    let step = router.dispatch_next(50);
    assert!(step.delivery.is_none());
    assert_eq!(step.rate_limited.len(), 1);
    assert_eq!(step.rate_limited[0].tokens_remaining, 200);

    let mut now = 50;
    let mut eventual = None;
    while eventual.is_none() && now < 450 {
        now += 10;
        eventual = router.dispatch_next(now).delivery;
    }
    let eventual = eventual.unwrap();
    assert_eq!(eventual.message.content, "third");
    assert!(eventual.retry_count > 0);
    assert!(now >= 250);
}

#[test]
fn top_tier_is_never_rate_limited() {
    let config = DispatcherConfig {
        token_capacity: 0,
        initial_tokens: 0,
        token_refill_rate: 0,
        ..DispatcherConfig::default()
    };
    let mut router = UnifiedMessageRouter::with_config(config);
    router.route_message(message("override", Priority::DirectorOverride, "d"), 0).unwrap();
    router.route_message(message("info", Priority::Info, "d"), 0).unwrap();
    let step = router.dispatch_next(0);
    assert_eq!(step.delivery.unwrap().message.content, "override");
    let step = router.dispatch_next(0);
    assert!(step.delivery.is_none());
    assert_eq!(step.rate_limited.len(), 1);
}

#[test]
fn same_sender_same_tier_is_delivered_in_order() {
    let mut router = UnifiedMessageRouter::new();
    for label in ["a", "b", "c"] {
        router.route_message(message(label, Priority::Blocking, "s"), 0).unwrap();
    }
    let pending: Vec<String> = router.get_pending_messages().into_iter().map(|m| m.content).collect();
    assert_eq!(pending, vec!["a", "b", "c"]);
    for label in ["a", "b", "c"] {
        assert_eq!(router.dispatch_next(0).delivery.unwrap().message.content, label);
    }
}

#[test]
fn pending_messages_list_highest_tier_first() {
    let mut router = UnifiedMessageRouter::new();
    router.route_message(message("low", Priority::Info, "s"), 0).unwrap();
    router.route_message(message("high", Priority::Critical, "s"), 0).unwrap();
    let pending: Vec<String> = router.get_pending_messages().into_iter().map(|m| m.content).collect();
    assert_eq!(pending, vec!["high", "low"]);
    assert_eq!(router.queue_depths(), [1, 0, 0, 1, 0]);
}

#[test]
fn routing_fails_after_shutdown() {
    let mut router = UnifiedMessageRouter::new();
    router.shutdown();
    assert_eq!(
        router.route_message(message("late", Priority::Info, "s"), 0),
        Err(RouteError::RouterShuttingDown)
    );
}

#[test]
fn token_bucket_stays_within_capacity() {
    let mut bucket = TokenBucket::new(2_000, 4_000, 5_000, 0);
    assert_eq!(bucket.tokens, 2_000);
    assert!(bucket.try_consume(1_000, 0));
    assert_eq!(bucket.tokens, 1_000);
    bucket.refill(10_000);
    assert_eq!(bucket.tokens, 2_000);
    assert!(!bucket.try_consume(5_000, 10_000));
    assert_eq!(bucket.tokens, 2_000);
}

#[test]
fn priorities_have_labels_costs_and_boosts() {
    assert_eq!(Priority::Info.as_str(), "info");
    assert_eq!(Priority::DirectorOverride.as_str(), "directorOverride");
    assert_eq!(Priority::Blocking.token_cost(), 20);
    assert_eq!(Priority::DirectorOverride.token_cost(), 0);
    assert_eq!(Priority::Info.boost(1), Priority::Coordinate);
    assert_eq!(Priority::Blocking.boost(5), Priority::Critical);
    assert_eq!(Priority::from_index(9), Priority::DirectorOverride);
    assert_eq!(Priority::Critical.as_index(), 3);
}

#[test]
fn durations_are_read_with_units() {
    assert_eq!(parse_duration("250ms"), Some(250));
    assert_eq!(parse_duration(" 2h "), Some(7_200_000));
    assert_eq!(parse_duration("1.5s"), Some(1500));
    assert_eq!(parse_duration("3m"), Some(180_000));
    assert_eq!(parse_duration("45"), Some(45_000));
    assert_eq!(parse_duration("0.25"), Some(250));
    assert_eq!(parse_duration(""), None);
    assert_eq!(parse_duration("fast"), None);
    assert_eq!(parse_duration("1.2.3s"), None);
    assert_eq!(parse_duration("+5s"), Some(5000));
    assert_eq!(parse_duration("1e3s"), Some(1_000_000));
    assert_eq!(parse_duration("2.5E-1m"), Some(15_000));
    assert_eq!(parse_duration("1e-9s"), Some(0));
    assert_eq!(parse_duration("-5s"), None);
    assert_eq!(parse_duration("1e30s"), None);
    assert_eq!(parse_duration("1e"), None);
}

#[test]
fn ledger_captures_router_messages() {
    let mut router = UnifiedMessageRouter::new();
    let priorities = [
        Priority::Info,
        Priority::Coordinate,
        Priority::Critical,
        Priority::Info,
        Priority::Coordinate,
        Priority::Info,
        Priority::Critical,
        Priority::Info,
        Priority::Coordinate,
        Priority::Info,
    ];
    for (idx, priority) in priorities.iter().enumerate() {
        router
            .route_message(message(&format!("message_{idx}"), *priority, &format!("agent_{idx}")), 0)
            .unwrap();
    }
    let mut chain = ChainState::new();
    let mut sequences = Vec::new();
    let mut dispatch_count = 0;
    for _ in 0..10 {
        if let Some(d) = router.dispatch_next(1).delivery {
            let record = RouterDispatchRecord {
                message_id: None,
                content_digest: None,
                sender: d.message.sender.clone(),
                recipient: d.message.recipient.clone(),
                priority: d.message.priority.as_str().to_string(),
                effective_priority: d.effective_priority.as_str().to_string(),
                wait_time_ms: d.wait_time,
                queue_depths: d.queue_depths.to_vec(),
                aging_boosts: d.aging_boosts,
                retry_count: d.retry_count,
            };
            let (sequence, _) = chain.stamp(1);
            chain.commit(1, &format!("{:?}", record).into_bytes());
            sequences.push(sequence);
            dispatch_count += 1;
        }
    }
    assert_eq!(dispatch_count, 10);
    assert!(sequences.windows(2).all(|w| w[1] == w[0] + 1));
    assert_eq!(sequences[0], 1);
}

#[test]
fn refused_heads_move_to_the_tail_and_are_reported() {
    let config = DispatcherConfig {
        token_capacity: 1_000,
        initial_tokens: 1_000,
        token_refill_rate: 0,
        ..DispatcherConfig::default()
    };
    let mut router = UnifiedMessageRouter::with_config(config);
    router.route_message(message("big", Priority::Blocking, "poor"), 0).unwrap();
    router.route_message(message("big2", Priority::Blocking, "poor"), 0).unwrap();
    router.route_message(message("small", Priority::Info, "rich"), 0).unwrap();
    let step = router.dispatch_next(0);
    assert_eq!(step.delivery.unwrap().message.content, "small");
    assert_eq!(step.rate_limited.len(), 1);
    assert_eq!(step.rate_limited[0].sender, "poor");
    let pending: Vec<String> = router.get_pending_messages().into_iter().map(|m| m.content).collect();
    assert_eq!(pending, vec!["big2", "big"]);
}
