use vstd::prelude::*;
use crate::config::{duration_or, parse_duration_or, RouterConfig};
use crate::priority::{boosted, tier_cost, tier_index, Priority, PRIORITY_LEVELS};
use crate::text::same_text;

verus! {

#[derive(Debug, Clone, PartialEq, Eq)]
pub struct Message {
    pub content: String,
    pub priority: Priority,
    pub sender: String,
    pub recipient: String,
}

/// A message waiting in the router. Instants are milliseconds on the caller's clock.
#[derive(Debug, Clone)]
pub struct QueuedMessage {
    pub message: Message,
    pub enqueued_at: u64,
    pub effective_priority: Priority,
    pub aging_boosts: u8,
    pub retry_count: u32,
    pub last_attempt_at: Option<u64>,
}

/// What the dispatcher hands to subscribers. `wait_time` is in milliseconds.
#[derive(Debug, Clone)]
pub struct RouterDelivery {
    pub message: Message,
    pub effective_priority: Priority,
    pub wait_time: u64,
    pub queue_depths: [usize; 5],
    pub aging_boosts: u8,
    pub retry_count: u32,
}

/// A dispatch that the sender's bucket refused; the message went back to its tier.
#[derive(Debug, Clone)]
pub struct RateLimitNotice {
    pub sender: String,
    pub priority: Priority,
    pub tokens_remaining: u64,
    pub capacity: u64,
    pub refill_rate: u64,
    pub last_refill: u64,
}

#[derive(Debug, Clone, Copy, PartialEq, Eq, Structural)]
pub enum RouteError {
    RouterShuttingDown,
}

/// Dispatcher settings. Durations are milliseconds; token amounts are thousandths of a
/// token, the refill rate thousandths of a token per second.
#[derive(Debug, Clone, Copy, PartialEq, Eq, Structural)]
pub struct DispatcherConfig {
    pub aging_threshold: u64,
    pub max_aging_boosts: u8,
    pub idle_backoff: u64,
    pub token_capacity: u64,
    pub token_refill_rate: u64,
    pub initial_tokens: u64,
}

/// A per-sender rate limiter. Amounts in thousandths of a token; `last_refill` in ms.
#[derive(Debug, Clone, Copy, PartialEq, Eq, Structural)]
pub struct TokenBucket {
    pub capacity: u64,
    pub tokens: u64,
    pub refill_rate: u64,
    pub last_refill: u64,
}

/// Milli-tokens a dispatch at this tier costs.
pub open spec fn dispatch_cost(p: Priority) -> nat {
    tier_cost(p) * 1000
}

pub open spec fn min_nat(a: nat, b: nat) -> nat {
    if a < b {
        a
    } else {
        b
    }
}

/// The bucket topped up for the time since its last refill, never past its capacity.
pub open spec fn refilled(b: TokenBucket, now: u64) -> TokenBucket {
    if now > b.last_refill {
        TokenBucket {
            tokens: min_nat(
                b.tokens as nat + ((now - b.last_refill) as nat * b.refill_rate as nat) / 1000,
                b.capacity as nat,
            ) as u64,
            last_refill: now,
            ..b
        }
    } else {
        b
    }
}

impl TokenBucket {
    pub open spec fn wf(&self) -> bool {
        self.tokens <= self.capacity
    }

    /// A bucket holding `initial` tokens, or `capacity` when that is less.
    pub fn new(capacity: u64, refill_rate: u64, initial: u64, now: u64) -> (r: TokenBucket)
        ensures
            r.wf(),
            r.capacity == capacity,
            r.refill_rate == refill_rate,
            r.tokens == min_nat(initial as nat, capacity as nat),
            r.last_refill == now,
    {
        let tokens = if initial < capacity {
            initial
        } else {
            capacity
        };
        TokenBucket { capacity, tokens, refill_rate, last_refill: now }
    }

    pub fn refill(&mut self, now: u64)
        requires
            old(self).wf(),
        ensures
            final(self).wf(),
            *final(self) == refilled(*old(self), now),
    {
        if now > self.last_refill {
            let elapsed: u128 = (now - self.last_refill) as u128;
            assert(elapsed * (self.refill_rate as u128) <= (u64::MAX as u128) * (u64::MAX as u128))
                by (nonlinear_arith)
                requires
                    elapsed <= u64::MAX,
                    self.refill_rate <= u64::MAX,
            ;
            let added: u128 = elapsed * (self.refill_rate as u128) / 1000;
            let sum: u128 = self.tokens as u128 + added;
            self.tokens = if sum < self.capacity as u128 {
                sum as u64
            } else {
                self.capacity
            };
            self.last_refill = now;
        }
    }

    /// Refills, then takes `cost` if that many tokens are there.
    pub fn try_consume(&mut self, cost: u64, now: u64) -> (r: bool)
        requires
            old(self).wf(),
        ensures
            final(self).wf(),
            r == (refilled(*old(self), now).tokens >= cost),
            *final(self) == if r {
                TokenBucket {
                    tokens: (refilled(*old(self), now).tokens - cost) as u64,
                    ..refilled(*old(self), now)
                }
            } else {
                refilled(*old(self), now)
            },
    {
        self.refill(now);
        if self.tokens >= cost {
            self.tokens = self.tokens - cost;
            true
        } else {
            false
        }
    }
}

impl DispatcherConfig {
    pub open spec fn default_spec() -> DispatcherConfig {
        DispatcherConfig {
            aging_threshold: 500,
            max_aging_boosts: 2,
            idle_backoff: 5,
            token_capacity: 200_000,
            token_refill_rate: 60_000,
            initial_tokens: 200_000,
        }
    }

    /// Half a second to age, two boosts, 5 ms idle wait, 200 tokens refilled at 60 per second.
    pub fn default() -> (r: DispatcherConfig)
        ensures
            r == Self::default_spec(),
    {
        DispatcherConfig {
            aging_threshold: 500,
            max_aging_boosts: 2,
            idle_backoff: 5,
            token_capacity: 200_000,
            token_refill_rate: 60_000,
            initial_tokens: 200_000,
        }
    }

    pub open spec fn from_router_config_spec(config: Option<&RouterConfig>) -> DispatcherConfig {
        let d = Self::default_spec();
        let c0 = match config {
            None => d,
            Some(c) => {
                let capacity = match c.token_bucket_capacity {
                    Some(v) => v,
                    None => d.token_capacity,
                };
                DispatcherConfig {
                    token_capacity: capacity,
                    token_refill_rate: match c.token_bucket_refill_rate {
                        Some(v) => v,
                        None => d.token_refill_rate,
                    },
                    initial_tokens: match c.token_bucket_initial {
                        Some(v) => v,
                        None => if c.token_bucket_capacity is Some {
                            capacity
                        } else {
                            d.initial_tokens
                        },
                    },
                    aging_threshold: duration_or(c.aging_threshold, d.aging_threshold),
                    max_aging_boosts: match c.max_aging_boosts {
                        Some(v) => v,
                        None => d.max_aging_boosts,
                    },
                    idle_backoff: duration_or(c.idle_backoff, d.idle_backoff),
                }
            },
        };
        if c0.initial_tokens > c0.token_capacity {
            DispatcherConfig { initial_tokens: c0.token_capacity, ..c0 }
        } else {
            c0
        }
    }

    /// The defaults with the present overrides applied; a capacity given without initial
    /// tokens starts the buckets full; initial tokens are clamped to the capacity.
    pub fn from_router_config(config: Option<&RouterConfig>) -> (r: DispatcherConfig)
        ensures
            r == Self::from_router_config_spec(config),
            r.initial_tokens <= r.token_capacity,
    {
        let mut current = Self::default();
        if let Some(cfg) = config {
            if let Some(capacity) = cfg.token_bucket_capacity {
                current.token_capacity = capacity;
            }
            if let Some(refill) = cfg.token_bucket_refill_rate {
                current.token_refill_rate = refill;
            }
            if let Some(initial) = cfg.token_bucket_initial {
                current.initial_tokens = initial;
            } else if cfg.token_bucket_capacity.is_some() {
                current.initial_tokens = current.token_capacity;
            }
            current.aging_threshold = parse_duration_or(&cfg.aging_threshold, current.aging_threshold);
            if let Some(boosts) = cfg.max_aging_boosts {
                current.max_aging_boosts = boosts;
            }
            current.idle_backoff = parse_duration_or(&cfg.idle_backoff, current.idle_backoff);
        }
        if current.initial_tokens > current.token_capacity {
            current.initial_tokens = current.token_capacity;
        }
        current
    }
}

/// Aging keeps a message between its declared tier and `Critical`; only a message
/// declared at the top tier sits there.
pub open spec fn tier_bounds_hold(m: QueuedMessage) -> bool {
    &&& tier_index(m.effective_priority) >= tier_index(m.message.priority)
    &&& m.message.priority != Priority::DirectorOverride ==> tier_index(m.effective_priority) <= 3
    &&& m.message.priority == Priority::DirectorOverride ==> m.effective_priority
        == Priority::DirectorOverride
}

pub open spec fn promoted(m: QueuedMessage) -> QueuedMessage {
    QueuedMessage {
        effective_priority: boosted(m.effective_priority, 1),
        aging_boosts: (m.aging_boosts + 1) as u8,
        ..m
    }
}

pub open spec fn attempted(m: QueuedMessage, now: u64) -> QueuedMessage {
    QueuedMessage {
        retry_count: if m.retry_count == u32::MAX {
            m.retry_count
        } else {
            (m.retry_count + 1) as u32
        },
        last_attempt_at: Some(now),
        ..m
    }
}

pub open spec fn boost_due(m: QueuedMessage, now: u64, threshold: u64, max_boosts: u8) -> bool {
    m.aging_boosts < max_boosts && now >= m.enqueued_at && now - m.enqueued_at >= threshold
}

impl QueuedMessage {
    pub fn new(message: Message, now: u64) -> (r: QueuedMessage)
        ensures
            r.message == message,
            r.enqueued_at == now,
            r.effective_priority == message.priority,
            r.aging_boosts == 0,
            r.retry_count == 0,
            r.last_attempt_at is None,
            tier_bounds_hold(r),
    {
        let p = message.priority;
        QueuedMessage {
            message,
            enqueued_at: now,
            effective_priority: p,
            aging_boosts: 0,
            retry_count: 0,
            last_attempt_at: None,
        }
    }

    /// Old enough at `now`, and not yet boosted `max_boosts` times.
    pub fn eligible_for_boost(&self, now: u64, threshold: u64, max_boosts: u8) -> (r: bool)
        ensures
            r == boost_due(*self, now, threshold, max_boosts),
    {
        self.aging_boosts < max_boosts && now >= self.enqueued_at && now - self.enqueued_at >= threshold
    }

    /// One aging step: one tier up, capped at `Critical`, and one more boost counted.
    /// The tier never goes down.
    pub fn promote(&mut self)
        requires
            old(self).aging_boosts < u8::MAX,
            tier_bounds_hold(*old(self)),
            old(self).message.priority != Priority::DirectorOverride,
        ensures
            *final(self) == promoted(*old(self)),
            tier_index(final(self).effective_priority) >= tier_index(old(self).effective_priority),
            tier_bounds_hold(*final(self)),
    {
        self.effective_priority = self.effective_priority.boost(1);
        self.aging_boosts = self.aging_boosts + 1;
    }

    pub fn record_attempt(&mut self, now: u64)
        ensures
            *final(self) == attempted(*old(self), now),
    {
        if self.retry_count < u32::MAX {
            self.retry_count = self.retry_count + 1;
        }
        self.last_attempt_at = Some(now);
    }
}

/// One sender's bucket.
#[derive(Debug, Clone)]
pub struct SenderBucket {
    pub sender: String,
    pub bucket: TokenBucket,
}

pub open spec fn senders_unique(s: Seq<SenderBucket>) -> bool {
    forall|i: int, j: int| 0 <= i < j < s.len() ==> #[trigger] s[i].sender@ != #[trigger] s[j].sender@
}

pub open spec fn has_bucket(s: Seq<SenderBucket>, k: Seq<char>) -> bool {
    exists|i: int| 0 <= i < s.len() && s[i].sender@ == k
}

/// The bucket of sender `k`, if it has one yet.
pub open spec fn bucket_for(s: Seq<SenderBucket>, k: Seq<char>) -> Option<TokenBucket> {
    if has_bucket(s, k) {
        Some(s[choose|i: int| 0 <= i < s.len() && s[i].sender@ == k].bucket)
    } else {
        None
    }
}

proof fn lemma_bucket_index(s: Seq<SenderBucket>, i: int)
    requires
        senders_unique(s),
        0 <= i < s.len(),
    ensures
        bucket_for(s, s[i].sender@) == Some(s[i].bucket),
{
    let k = s[i].sender@;
    assert(has_bucket(s, k));
    let j = choose|j: int| 0 <= j < s.len() && s[j].sender@ == k;
    if j != i {
        if j < i {
            assert(s[j].sender@ != s[i].sender@);
        } else {
            assert(s[i].sender@ != s[j].sender@);
        }
    }
}

proof fn lemma_bucket_update(s: Seq<SenderBucket>, i: int, b: SenderBucket)
    requires
        senders_unique(s),
        0 <= i < s.len(),
        b.sender@ == s[i].sender@,
    ensures
        senders_unique(s.update(i, b)),
        forall|k: Seq<char>|
            #[trigger] bucket_for(s.update(i, b), k) == if k == s[i].sender@ {
                Some(b.bucket)
            } else {
                bucket_for(s, k)
            },
{
    let t = s.update(i, b);
    assert forall|a: int, c: int| 0 <= a < c < t.len() implies #[trigger] t[a].sender@
        != #[trigger] t[c].sender@ by {
        assert(s[a].sender@ != s[c].sender@);
    }
    assert forall|k: Seq<char>| #[trigger]
        bucket_for(s.update(i, b), k) == if k == s[i].sender@ {
            Some(b.bucket)
        } else {
            bucket_for(s, k)
        } by {
        if k == s[i].sender@ {
            lemma_bucket_index(t, i);
        } else if has_bucket(s, k) {
            let j = choose|j: int| 0 <= j < s.len() && s[j].sender@ == k;
            lemma_bucket_index(s, j);
            lemma_bucket_index(t, j);
        } else {
            assert(!has_bucket(t, k));
        }
    }
}

proof fn lemma_bucket_push(s: Seq<SenderBucket>, b: SenderBucket)
    requires
        senders_unique(s),
        !has_bucket(s, b.sender@),
    ensures
        senders_unique(s.push(b)),
        forall|k: Seq<char>|
            #[trigger] bucket_for(s.push(b), k) == if k == b.sender@ {
                Some(b.bucket)
            } else {
                bucket_for(s, k)
            },
{
    let t = s.push(b);
    assert forall|a: int, c: int| 0 <= a < c < t.len() implies #[trigger] t[a].sender@
        != #[trigger] t[c].sender@ by {
        if c == s.len() {
            assert(t[a] == s[a]);
        } else {
            assert(s[a].sender@ != s[c].sender@);
        }
    }
    assert forall|k: Seq<char>| #[trigger]
        bucket_for(s.push(b), k) == if k == b.sender@ {
            Some(b.bucket)
        } else {
            bucket_for(s, k)
        } by {
        if k == b.sender@ {
            lemma_bucket_index(t, s.len() as int);
        } else if has_bucket(s, k) {
            let j = choose|j: int| 0 <= j < s.len() && s[j].sender@ == k;
            lemma_bucket_index(s, j);
            assert(t[j] == s[j]);
            lemma_bucket_index(t, j);
        } else {
            assert forall|j: int| 0 <= j < t.len() implies t[j].sender@ != k by {
                if j < s.len() {
                    assert(t[j] == s[j]);
                }
            }
        }
    }
}

/// The outcome of looking at one tier's head.
#[derive(Debug, Clone)]
pub enum TierAttempt {
    Empty,
    Delivered(RouterDelivery),
    Limited(RateLimitNotice),
}

/// What one dispatcher pass did: at most one delivery, and the heads it had to requeue.
#[derive(Debug, Clone)]
pub struct DispatchStep {
    pub delivery: Option<RouterDelivery>,
    pub rate_limited: Vec<RateLimitNotice>,
}

pub open spec fn limited_at(s: Seq<RateLimitNotice>, t: nat) -> bool {
    exists|i: int| 0 <= i < s.len() && tier_index(#[trigger] s[i].priority) == t
}

/// The router's state: one FIFO queue per tier and one bucket per sender.
#[derive(Debug, Clone)]
pub struct UnifiedMessageRouter {
    pub queues: Vec<Vec<QueuedMessage>>,
    pub buckets: Vec<SenderBucket>,
    pub config: DispatcherConfig,
    pub shutting_down: bool,
}

impl UnifiedMessageRouter {
    /// Five queues; each message sits in the queue of its effective tier, within its
    /// tier bounds; one bucket per sender, none over capacity.
    pub open spec fn wf(&self) -> bool {
        &&& self.queues@.len() == 5
        &&& forall|t: int, j: int|
            0 <= t < 5 && 0 <= j < self.queues@[t]@.len() ==> {
                &&& tier_index((#[trigger] self.queues@[t]@[j]).effective_priority) == t
                &&& tier_bounds_hold(self.queues@[t]@[j])
            }
        &&& senders_unique(self.buckets@)
        &&& forall|i: int| 0 <= i < self.buckets@.len() ==> (#[trigger] self.buckets@[i]).bucket.wf()
    }

    pub open spec fn queue(&self, t: int) -> Seq<QueuedMessage> {
        self.queues@[t]@
    }

    pub open spec fn total(&self) -> nat {
        self.queue(0).len() + self.queue(1).len() + self.queue(2).len() + self.queue(3).len()
            + self.queue(4).len()
    }

    /// The bucket `sender` will be charged from at `now`: its own, or a fresh one.
    pub open spec fn bucket_at(&self, sender: Seq<char>, now: u64) -> TokenBucket {
        match bucket_for(self.buckets@, sender) {
            Some(b) => b,
            None => TokenBucket {
                capacity: self.config.token_capacity,
                tokens: min_nat(
                    self.config.initial_tokens as nat,
                    self.config.token_capacity as nat,
                ) as u64,
                refill_rate: self.config.token_refill_rate,
                last_refill: now,
            },
        }
    }

    pub fn with_config(config: DispatcherConfig) -> (r: UnifiedMessageRouter)
        ensures
            r.wf(),
            r.config == config,
            !r.shutting_down,
            r.buckets@.len() == 0,
            forall|t: int| 0 <= t < 5 ==> #[trigger] r.queue(t).len() == 0,
    {
        let mut queues: Vec<Vec<QueuedMessage>> = Vec::new();
        let mut t: usize = 0;
        while t < PRIORITY_LEVELS
            invariant
                0 <= t <= 5,
                queues@.len() == t,
                forall|u: int| 0 <= u < t ==> (#[trigger] queues@[u])@.len() == 0,
            decreases 5 - t,
        {
            queues.push(Vec::new());
            t += 1;
        }
        UnifiedMessageRouter { queues, buckets: Vec::new(), config, shutting_down: false }
    }

    pub fn new() -> (r: UnifiedMessageRouter)
        ensures
            r.wf(),
            r.config == DispatcherConfig::default_spec(),
            !r.shutting_down,
            forall|t: int| 0 <= t < 5 ==> #[trigger] r.queue(t).len() == 0,
    {
        Self::with_config(DispatcherConfig::default())
    }

    pub fn with_settings(router_config: Option<&RouterConfig>) -> (r: UnifiedMessageRouter)
        ensures
            r.wf(),
            r.config == DispatcherConfig::from_router_config_spec(router_config),
            !r.shutting_down,
            forall|t: int| 0 <= t < 5 ==> #[trigger] r.queue(t).len() == 0,
    {
        Self::with_config(DispatcherConfig::from_router_config(router_config))
    }

    pub fn dispatcher_config(&self) -> (r: DispatcherConfig)
        ensures
            r == self.config,
    {
        self.config
    }

    /// From now on every enqueue fails.
    pub fn shutdown(&mut self)
        ensures
            final(self).shutting_down,
            final(self).queues == old(self).queues,
            final(self).buckets == old(self).buckets,
            final(self).config == old(self).config,
    {
        self.shutting_down = true;
    }

    /// Appends `msg` to the queue of its tier; fails only once shutdown has begun.
    pub fn route_message(&mut self, msg: Message, now: u64) -> (r: Result<(), RouteError>)
        requires
            old(self).wf(),
        ensures
            final(self).wf(),
            old(self).shutting_down ==> r == Err::<(), RouteError>(RouteError::RouterShuttingDown)
                && *final(self) == *old(self),
            !old(self).shutting_down ==> {
                &&& r is Ok
                &&& final(self).buckets == old(self).buckets
                &&& final(self).config == old(self).config
                &&& final(self).shutting_down == old(self).shutting_down
                &&& forall|t: int|
                    0 <= t < 5 ==> #[trigger] final(self).queue(t) == if t == tier_index(
                        msg.priority,
                    ) {
                        old(self).queue(t).push(
                            QueuedMessage {
                                message: msg,
                                enqueued_at: now,
                                effective_priority: msg.priority,
                                aging_boosts: 0,
                                retry_count: 0,
                                last_attempt_at: None,
                            },
                        )
                    } else {
                        old(self).queue(t)
                    }
            },
    {
        if self.shutting_down {
            return Err(RouteError::RouterShuttingDown);
        }
        let index = msg.priority.as_index();
        let queued = QueuedMessage::new(msg, now);
        self.queues[index].push(queued);
        proof {
            assert forall|t: int, j: int|
                0 <= t < 5 && 0 <= j < self.queues@[t]@.len() implies {
                &&& tier_index((#[trigger] self.queues@[t]@[j]).effective_priority) == t
                &&& tier_bounds_hold(self.queues@[t]@[j])
            } by {
                if t != index || j < old(self).queues@[t]@.len() {
                    assert(self.queues@[t]@[j] == old(self).queues@[t]@[j]);
                }
            }
        }
        Ok(())
    }

    /// The number of messages waiting in each tier.
    pub fn queue_depths(&self) -> (r: [usize; 5])
        requires
            self.wf(),
        ensures
            forall|t: int| 0 <= t < 5 ==> #[trigger] r@[t] == self.queue(t).len(),
    {
        [
            self.queues[0].len(),
            self.queues[1].len(),
            self.queues[2].len(),
            self.queues[3].len(),
            self.queues[4].len(),
        ]
    }
}

impl Message {
    pub fn duplicate(&self) -> (r: Message)
        ensures
            r == *self,
    {
        Message {
            content: self.content.clone(),
            priority: self.priority,
            sender: self.sender.clone(),
            recipient: self.recipient.clone(),
        }
    }
}

fn sub_sat(a: u64, b: u64) -> (r: u64)
    ensures
        r == if a >= b {
            (a - b) as u64
        } else {
            0u64
        },
{
    if a >= b {
        a - b
    } else {
        0
    }
}

impl UnifiedMessageRouter {
    /// Index of `sender`'s bucket, made from the configuration at `now` when it had none.
    fn bucket_index(&mut self, sender: &String, now: u64) -> (r: usize)
        requires
            old(self).wf(),
        ensures
            final(self).wf(),
            r < final(self).buckets@.len(),
            final(self).buckets@[r as int].sender@ == sender@,
            final(self).buckets@[r as int].bucket == old(self).bucket_at(sender@, now),
            forall|k: Seq<char>|
                k != sender@ ==> #[trigger] bucket_for(final(self).buckets@, k) == bucket_for(
                    old(self).buckets@,
                    k,
                ),
            final(self).queues == old(self).queues,
            final(self).config == old(self).config,
            final(self).shutting_down == old(self).shutting_down,
    {
        let mut i: usize = 0;
        while i < self.buckets.len()
            invariant
                0 <= i <= self.buckets@.len(),
                self.wf(),
                *self == *old(self),
                forall|k: int| 0 <= k < i ==> (#[trigger] self.buckets@[k]).sender@ != sender@,
            decreases self.buckets@.len() - i,
        {
            if same_text(&self.buckets[i].sender, sender) {
                proof {
                    lemma_bucket_index(self.buckets@, i as int);
                }
                return i;
            }
            i += 1;
        }
        let b = TokenBucket::new(
            self.config.token_capacity,
            self.config.token_refill_rate,
            self.config.initial_tokens,
            now,
        );
        let sb = SenderBucket { sender: sender.clone(), bucket: b };
        proof {
            lemma_bucket_push(self.buckets@, sb);
        }
        self.buckets.push(sb);
        proof {
            assert forall|k: int| 0 <= k < self.buckets@.len() implies (
            #[trigger] self.buckets@[k]).bucket.wf() by {
                if k < old(self).buckets@.len() {
                    assert(self.buckets@[k] == old(self).buckets@[k]);
                }
            }
        }
        self.buckets.len() - 1
    }

    /// Takes the head of tier `t`, if any, and charges its sender. A paid message is
    /// delivered; otherwise it goes back to the tail of its tier with one more attempt.
    pub fn dispatch_from_tier(&mut self, t: usize, now: u64) -> (r: TierAttempt)
        requires
            old(self).wf(),
            t < 5,
        ensures
            final(self).wf(),
            final(self).config == old(self).config,
            final(self).shutting_down == old(self).shutting_down,
            forall|u: int| 0 <= u < 5 && u != t ==> #[trigger] final(self).queue(u) == old(self).queue(u),
            old(self).queue(t as int).len() == 0 ==> r is Empty && *final(self) == *old(self),
            old(self).queue(t as int).len() > 0 ==> {
                let m = old(self).queue(t as int)[0];
                let b = refilled(old(self).bucket_at(m.message.sender@, now), now);
                let cost = dispatch_cost(m.effective_priority);
                &&& forall|k: Seq<char>|
                    k != m.message.sender@ ==> #[trigger] bucket_for(final(self).buckets@, k)
                        == bucket_for(old(self).buckets@, k)
                &&& b.tokens >= cost ==> {
                    &&& bucket_for(final(self).buckets@, m.message.sender@) == Some(
                        TokenBucket { tokens: (b.tokens - cost) as u64, ..b },
                    )
                    &&& final(self).queue(t as int) == old(self).queue(t as int).drop_first()
                    &&& r matches TierAttempt::Delivered(d) && d.message == m.message
                        && d.effective_priority == m.effective_priority && d.wait_time == (if now
                        >= m.enqueued_at {
                        now - m.enqueued_at
                    } else {
                        0
                    }) && d.aging_boosts == m.aging_boosts && d.retry_count == m.retry_count
                        && (forall|u: int|
                        0 <= u < 5 ==> #[trigger] d.queue_depths@[u] == final(self).queue(u).len())
                }
                &&& b.tokens < cost ==> {
                    &&& bucket_for(final(self).buckets@, m.message.sender@) == Some(b)
                    &&& final(self).queue(t as int) == old(self).queue(t as int).drop_first().push(
                        attempted(m, now),
                    )
                    &&& r matches TierAttempt::Limited(n) && n.sender == m.message.sender
                        && n.priority == m.effective_priority && n.tokens_remaining == b.tokens
                        && n.capacity == b.capacity && n.refill_rate == b.refill_rate
                        && n.last_refill == b.last_refill
                }
            },
    {
        if self.queues[t].len() == 0 {
            return TierAttempt::Empty;
        }
        let ghost m0 = self.queues@[t as int]@[0];
        let mut queued = self.queues[t].remove(0);
        let ghost popped = *self;
        proof {
            assert forall|u: int, j: int|
                0 <= u < 5 && 0 <= j < self.queues@[u]@.len() implies {
                &&& tier_index((#[trigger] self.queues@[u]@[j]).effective_priority) == u
                &&& tier_bounds_hold(self.queues@[u]@[j])
            } by {
                if u == t {
                    assert(self.queues@[u]@[j] == old(self).queues@[u]@[j + 1]);
                } else {
                    assert(self.queues@[u] == old(self).queues@[u]);
                }
            }
            assert(self.queue(t as int) =~= old(self).queue(t as int).drop_first());
        }
        let bi = self.bucket_index(&queued.message.sender, now);
        let cost = queued.effective_priority.token_cost() * 1000;
        let ghost before = self.buckets@;
        let ok = self.buckets[bi].bucket.try_consume(cost, now);
        proof {
            lemma_bucket_update(before, bi as int, self.buckets@[bi as int]);
            assert(self.buckets@ =~= before.update(bi as int, self.buckets@[bi as int]));
            assert forall|k: int| 0 <= k < self.buckets@.len() implies (
            #[trigger] self.buckets@[k]).bucket.wf() by {
                if k != bi {
                    assert(self.buckets@[k] == before[k]);
                }
            }
            assert forall|k: Seq<char>| k != m0.message.sender@ implies #[trigger] bucket_for(
                self.buckets@,
                k,
            ) == bucket_for(old(self).buckets@, k) by {
                assert(bucket_for(popped.buckets@, k) == bucket_for(old(self).buckets@, k));
            }
        }
        let b = self.buckets[bi].bucket;
        if !ok {
            queued.record_attempt(now);
            let notice = RateLimitNotice {
                sender: queued.message.sender.clone(),
                priority: queued.effective_priority,
                tokens_remaining: b.tokens,
                capacity: b.capacity,
                refill_rate: b.refill_rate,
                last_refill: b.last_refill,
            };
            let ghost mid = self.queues@;
            self.queues[t].push(queued);
            proof {
                assert forall|u: int, j: int|
                    0 <= u < 5 && 0 <= j < self.queues@[u]@.len() implies {
                    &&& tier_index((#[trigger] self.queues@[u]@[j]).effective_priority) == u
                    &&& tier_bounds_hold(self.queues@[u]@[j])
                } by {
                    if u != t || j < mid[u]@.len() {
                        assert(self.queues@[u]@[j] == mid[u]@[j]);
                    }
                }
            }
            return TierAttempt::Limited(notice);
        }
        let wait_time = sub_sat(now, queued.enqueued_at);
        let queue_depths = self.queue_depths();
        TierAttempt::Delivered(
            RouterDelivery {
                message: queued.message,
                effective_priority: queued.effective_priority,
                wait_time,
                queue_depths,
                aging_boosts: queued.aging_boosts,
                retry_count: queued.retry_count,
            },
        )
    }
}

// ----- aging -----

/// The entries of `q` not yet due a boost, in order.
pub open spec fn kept_of(q: Seq<QueuedMessage>, now: u64, threshold: u64, max_boosts: u8) -> Seq<
    QueuedMessage,
>
    decreases q.len(),
{
    if q.len() == 0 {
        seq![]
    } else {
        let r = kept_of(q.drop_last(), now, threshold, max_boosts);
        if boost_due(q.last(), now, threshold, max_boosts) {
            r
        } else {
            r.push(q.last())
        }
    }
}

/// The entries of `q` due a boost, each promoted one tier, in order.
pub open spec fn raised_of(q: Seq<QueuedMessage>, now: u64, threshold: u64, max_boosts: u8) -> Seq<
    QueuedMessage,
>
    decreases q.len(),
{
    if q.len() == 0 {
        seq![]
    } else {
        let r = raised_of(q.drop_last(), now, threshold, max_boosts);
        if boost_due(q.last(), now, threshold, max_boosts) {
            r.push(promoted(q.last()))
        } else {
            r
        }
    }
}

/// Tier `t` swept once: its due entries leave it and join the tail of the tier above
/// (of `Critical` itself when `t` is `Critical`).
pub open spec fn aged_tier(qs: Seq<Seq<QueuedMessage>>, t: int, now: u64, c: DispatcherConfig) -> Seq<
    Seq<QueuedMessage>,
> {
    let nt = if t < 3 {
        t + 1
    } else {
        3
    };
    let k = kept_of(qs[t], now, c.aging_threshold, c.max_aging_boosts);
    let r = raised_of(qs[t], now, c.aging_threshold, c.max_aging_boosts);
    let q1 = qs.update(t, k);
    q1.update(nt, q1[nt] + r)
}

/// One aging pass: tiers `Info` through `Critical` swept in that order.
pub open spec fn aged(qs: Seq<Seq<QueuedMessage>>, now: u64, c: DispatcherConfig) -> Seq<
    Seq<QueuedMessage>,
> {
    aged_tier(aged_tier(aged_tier(aged_tier(qs, 0, now, c), 1, now, c), 2, now, c), 3, now, c)
}

/// Aging only ever raises a message's tier, and never past `Critical`.
pub proof fn lemma_aging_monotone(m: QueuedMessage)
    requires
        tier_bounds_hold(m),
        tier_index(m.effective_priority) <= 3,
        m.aging_boosts < u8::MAX,
    ensures
        tier_index(promoted(m).effective_priority) >= tier_index(m.effective_priority),
        tier_index(promoted(m).effective_priority) <= 3,
        tier_index(promoted(m).effective_priority) >= tier_index(m.message.priority),
        tier_bounds_hold(promoted(m)),
{
}

impl QueuedMessage {
    pub fn duplicate(&self) -> (r: QueuedMessage)
        ensures
            r == *self,
    {
        QueuedMessage {
            message: self.message.duplicate(),
            enqueued_at: self.enqueued_at,
            effective_priority: self.effective_priority,
            aging_boosts: self.aging_boosts,
            retry_count: self.retry_count,
            last_attempt_at: self.last_attempt_at,
        }
    }
}

impl UnifiedMessageRouter {
    pub open spec fn queue_views(&self) -> Seq<Seq<QueuedMessage>> {
        self.queues@.map_values(|v: Vec<QueuedMessage>| v@)
    }

    fn age_tier(&mut self, t: usize, now: u64)
        requires
            old(self).wf(),
            t < 4,
        ensures
            final(self).wf(),
            final(self).queue_views() == aged_tier(old(self).queue_views(), t as int, now, old(self).config),
            final(self).buckets == old(self).buckets,
            final(self).config == old(self).config,
            final(self).shutting_down == old(self).shutting_down,
    {
        let threshold = self.config.aging_threshold;
        let max_boosts = self.config.max_aging_boosts;
        let ghost q = self.queues@[t as int]@;
        let mut kept: Vec<QueuedMessage> = Vec::new();
        let mut raised: Vec<QueuedMessage> = Vec::new();
        let n = self.queues[t].len();
        let mut j: usize = 0;
        while j < n
            invariant
                *self == *old(self),
                old(self).wf(),
                t < 4,
                q == self.queues@[t as int]@,
                n == q.len(),
                0 <= j <= n,
                threshold == self.config.aging_threshold,
                max_boosts == self.config.max_aging_boosts,
                kept@ == kept_of(q.subrange(0, j as int), now, threshold, max_boosts),
                raised@ == raised_of(q.subrange(0, j as int), now, threshold, max_boosts),
                forall|x: int| 0 <= x < kept@.len() ==> tier_index((#[trigger] kept@[x]).effective_priority) == t && tier_bounds_hold(kept@[x]),
                forall|x: int| 0 <= x < raised@.len() ==> tier_index((#[trigger] raised@[x]).effective_priority) == (if t < 3 { t + 1 } else { 3 }) && tier_bounds_hold(raised@[x]),
            decreases n - j,
        {
            let m = self.queues[t][j].duplicate();
            let ghost sub = q.subrange(0, j + 1);
            assert(sub.drop_last() =~= q.subrange(0, j as int));
            assert(sub.last() == q[j as int]);
            assert(tier_index(m.effective_priority) == t && tier_bounds_hold(m));
            if m.eligible_for_boost(now, threshold, max_boosts) {
                let mut p = m;
                p.promote();
                raised.push(p);
            } else {
                kept.push(m);
            }
            j += 1;
        }
        assert(q.subrange(0, n as int) =~= q);
        let nt: usize = if t < 3 {
            t + 1
        } else {
            3
        };
        let ghost before = self.queues@;
        self.queues.set(t, kept);
        let mut x: usize = 0;
        let ghost base = self.queues@[nt as int]@;
        let ghost mid = self.queues@;
        while x < raised.len()
            invariant
                t < 4,
                nt == (if t < 3 { t + 1 } else { 3 }),
                self.queues@.len() == 5,
                forall|u: int| 0 <= u < 5 && u != nt ==> #[trigger] self.queues@[u] == mid[u],
                self.queues@[nt as int]@ == base + raised@.subrange(0, x as int),
                0 <= x <= raised@.len(),
                self.buckets == old(self).buckets,
                self.config == old(self).config,
                self.shutting_down == old(self).shutting_down,
            decreases raised@.len() - x,
        {
            let m = raised[x].duplicate();
            self.queues[nt].push(m);
            proof {
                assert(raised@.subrange(0, x + 1) =~= raised@.subrange(0, x as int).push(raised@[x as int]));
            }
            x += 1;
        }
        proof {
            assert(raised@.subrange(0, raised@.len() as int) =~= raised@);
            let qv = self.queue_views();
            let want = aged_tier(old(self).queue_views(), t as int, now, old(self).config);
            assert(old(self).queue_views()[t as int] == q);
            assert forall|u: int| 0 <= u < 5 implies qv[u] == want[u] by {
                if u != nt && u != t {
                    assert(self.queues@[u] == before[u]);
                }
            }
            assert(qv =~= want);
            assert forall|u: int, j2: int|
                0 <= u < 5 && 0 <= j2 < self.queues@[u]@.len() implies {
                &&& tier_index((#[trigger] self.queues@[u]@[j2]).effective_priority) == u
                &&& tier_bounds_hold(self.queues@[u]@[j2])
            } by {
                if u == nt {
                    if j2 >= base.len() {
                        assert(self.queues@[u]@[j2] == raised@[j2 - base.len()]);
                    } else if u == t {
                        assert(self.queues@[u]@[j2] == kept@[j2]);
                    } else {
                        assert(self.queues@[u]@[j2] == old(self).queues@[u]@[j2]);
                    }
                } else if u == t {
                    assert(self.queues@[u]@[j2] == kept@[j2]);
                } else {
                    assert(self.queues@[u]@[j2] == old(self).queues@[u]@[j2]);
                }
            }
        }
    }

    /// Sweeps tiers `Info` through `Critical` once, promoting every entry that has waited
    /// `aging_threshold` and has boosts left.
    pub fn apply_aging(&mut self, now: u64)
        requires
            old(self).wf(),
        ensures
            final(self).wf(),
            final(self).queue_views() == aged(old(self).queue_views(), now, old(self).config),
            final(self).buckets == old(self).buckets,
            final(self).config == old(self).config,
            final(self).shutting_down == old(self).shutting_down,
    {
        self.age_tier(0, now);
        self.age_tier(1, now);
        self.age_tier(2, now);
        self.age_tier(3, now);
    }
}

/// The messages of tiers 4 down to `t`, highest tier first, each tier in queue order.
pub open spec fn messages_from(qs: Seq<Seq<QueuedMessage>>, t: int) -> Seq<Message>
    decreases 5 - t,
{
    if t >= 5 || t < 0 {
        seq![]
    } else {
        messages_from(qs, t + 1) + qs[t].map_values(|m: QueuedMessage| m.message)
    }
}

/// What sender `s`'s bucket holds when it is charged during a pass at `now`: its bucket
/// (or a fresh one) topped up to `now`.
pub open spec fn charge_bucket(r: UnifiedMessageRouter, s: Seq<char>, now: u64) -> TokenBucket {
    refilled(r.bucket_at(s, now), now)
}

/// The head of tier `t` of the queues `a` can pay for its dispatch.
pub open spec fn head_pays(r: UnifiedMessageRouter, a: Seq<Seq<QueuedMessage>>, t: int, now: u64) -> bool {
    a[t].len() > 0 && charge_bucket(r, a[t][0].message.sender@, now).tokens >= dispatch_cost(
        a[t][0].effective_priority,
    )
}

/// Tier `t` has a head, and its sender cannot pay.
pub open spec fn head_refused(r: UnifiedMessageRouter, a: Seq<Seq<QueuedMessage>>, t: int, now: u64) -> bool {
    a[t].len() > 0 && !head_pays(r, a, t, now)
}

/// The highest tier at or below `t` whose head pays, or -1.
pub open spec fn paying_tier_from(r: UnifiedMessageRouter, a: Seq<Seq<QueuedMessage>>, t: int, now: u64) -> int
    decreases t + 1,
{
    if t < 0 {
        -1
    } else if head_pays(r, a, t, now) {
        t
    } else {
        paying_tier_from(r, a, t - 1, now)
    }
}

/// The tier a pass delivers from, or -1 when no head pays.
pub open spec fn chosen_tier(r: UnifiedMessageRouter, a: Seq<Seq<QueuedMessage>>, now: u64) -> int {
    paying_tier_from(r, a, 4, now)
}

/// The refused tiers from 4 down to `t`, in that order.
pub open spec fn refused_from(r: UnifiedMessageRouter, a: Seq<Seq<QueuedMessage>>, now: u64, t: int) -> Seq<int>
    decreases 5 - t,
{
    if t >= 5 || t < 0 {
        seq![]
    } else {
        refused_from(r, a, now, t + 1) + if head_refused(r, a, t, now) {
            seq![t]
        } else {
            seq![]
        }
    }
}

/// Tier `u`'s queue after the pass: tiers below the delivery untouched, the delivered
/// head gone, and above it each refused head moved to the tail with one more attempt.
pub open spec fn queue_after_pass(r: UnifiedMessageRouter, a: Seq<Seq<QueuedMessage>>, now: u64, u: int) -> Seq<
    QueuedMessage,
> {
    let c = chosen_tier(r, a, now);
    if u < c {
        a[u]
    } else if u == c {
        a[u].drop_first()
    } else if head_refused(r, a, u, now) {
        a[u].drop_first().push(attempted(a[u][0], now))
    } else {
        a[u]
    }
}

/// Some tier above the delivery had its head from `k` refused.
pub open spec fn refused_sender(r: UnifiedMessageRouter, a: Seq<Seq<QueuedMessage>>, now: u64, k: Seq<char>) -> bool {
    exists|u: int|
        chosen_tier(r, a, now) < u < 5 && #[trigger] head_refused(r, a, u, now) && a[u][0].message.sender@ == k
}

/// Sender `k`'s bucket after the pass: charged when it paid for the delivery, topped up
/// when one of its heads was refused, otherwise as it was.
pub open spec fn bucket_after_pass(r: UnifiedMessageRouter, a: Seq<Seq<QueuedMessage>>, now: u64, k: Seq<char>) -> Option<
    TokenBucket,
> {
    let c = chosen_tier(r, a, now);
    let b = charge_bucket(r, k, now);
    if c >= 0 && k == a[c][0].message.sender@ {
        Some(TokenBucket { tokens: (b.tokens - dispatch_cost(a[c][0].effective_priority)) as u64, ..b })
    } else if refused_sender(r, a, now, k) {
        Some(b)
    } else {
        bucket_for(r.buckets@, k)
    }
}

/// `n` reports the refused head of tier `t`.
pub open spec fn notice_for(n: RateLimitNotice, r: UnifiedMessageRouter, a: Seq<Seq<QueuedMessage>>, now: u64, t: int) -> bool {
    let m = a[t][0];
    let b = charge_bucket(r, m.message.sender@, now);
    &&& n.sender == m.message.sender
    &&& n.priority == m.effective_priority
    &&& n.tokens_remaining == b.tokens
    &&& n.capacity == b.capacity
    &&& n.refill_rate == b.refill_rate
    &&& n.last_refill == b.last_refill
}

proof fn lemma_refilled_twice(b: TokenBucket, now: u64)
    ensures
        refilled(refilled(b, now), now) == refilled(b, now),
{
}

proof fn lemma_paying_tier(r: UnifiedMessageRouter, a: Seq<Seq<QueuedMessage>>, now: u64, t: int, x: int)
    requires
        -1 <= x <= t,
        forall|u: int| x < u <= t ==> !head_pays(r, a, u, now),
        x >= 0 ==> head_pays(r, a, x, now),
    ensures
        paying_tier_from(r, a, t, now) == x,
    decreases t + 1,
{
    if t > x {
        lemma_paying_tier(r, a, now, t - 1, x);
    }
}

/// Priority dominance: a pass never delivers from below a tier whose head can pay, so of
/// two heads that can pay, the higher tier's is delivered first.
pub proof fn lemma_priority_dominance(r: UnifiedMessageRouter, a: Seq<Seq<QueuedMessage>>, now: u64, t: int)
    requires
        0 <= t < 5,
        head_pays(r, a, t, now),
    ensures
        chosen_tier(r, a, now) >= t,
{
    lemma_paying_at_least(r, a, now, 4, t);
}

proof fn lemma_paying_at_least(r: UnifiedMessageRouter, a: Seq<Seq<QueuedMessage>>, now: u64, top: int, t: int)
    requires
        0 <= t <= top,
        head_pays(r, a, t, now),
    ensures
        paying_tier_from(r, a, top, now) >= t,
    decreases top + 1,
{
    if top > t && !head_pays(r, a, top, now) {
        lemma_paying_at_least(r, a, now, top - 1, t);
    }
}

impl UnifiedMessageRouter {
    /// One dispatcher pass at `now`: aging, then the tiers from the top down, each head
    /// charged to its sender's bucket. A head that cannot pay is moved to the tail of its
    /// tier with one more attempt, and reported; the first head that pays is delivered and
    /// ends the pass. The queues, buckets, notices and delivery are exactly those that
    /// `queue_after_pass`, `bucket_after_pass`, `refused_from` and `chosen_tier` give.
    pub fn dispatch_next(&mut self, now: u64) -> (r: DispatchStep)
        requires
            old(self).wf(),
        ensures
            final(self).wf(),
            final(self).config == old(self).config,
            final(self).shutting_down == old(self).shutting_down,
            ({
                let a = aged(old(self).queue_views(), now, old(self).config);
                let c = chosen_tier(*old(self), a, now);
                let refused = refused_from(*old(self), a, now, c + 1);
                &&& forall|u: int|
                    0 <= u < 5 ==> #[trigger] final(self).queue(u) == queue_after_pass(*old(self), a, now, u)
                &&& forall|k: Seq<char>|
                    #[trigger] bucket_for(final(self).buckets@, k) == bucket_after_pass(*old(self), a, now, k)
                &&& r.rate_limited@.len() == refused.len()
                &&& forall|i: int|
                    0 <= i < refused.len() ==> notice_for(#[trigger] r.rate_limited@[i], *old(self), a, now, refused[i])
                &&& c < 0 ==> r.delivery is None
                &&& c >= 0 ==> (r.delivery matches Some(d) && d.message == a[c][0].message
                    && d.effective_priority == a[c][0].effective_priority && d.wait_time == (if now
                    >= a[c][0].enqueued_at {
                    now - a[c][0].enqueued_at
                } else {
                    0
                }) && d.aging_boosts == a[c][0].aging_boosts && d.retry_count == a[c][0].retry_count
                    && (forall|u: int| 0 <= u < 5 ==> #[trigger] d.queue_depths@[u] == final(self).queue(u).len()))
            }),
    {
        self.apply_aging(now);
        let ghost o = *old(self);
        let ghost a = aged(o.queue_views(), now, o.config);
        proof {
            assert forall|u: int| 0 <= u < 5 implies #[trigger] self.queue(u) == a[u] by {
                assert(self.queue_views()[u] == self.queues@[u]@);
            }
            assert(self.buckets@ == o.buckets@);
        }
        let mut notices: Vec<RateLimitNotice> = Vec::new();
        let mut t: usize = 5;
        while t > 0
            invariant
                self.wf(),
                0 <= t <= 5,
                a == aged(o.queue_views(), now, o.config),
                o == *old(self),
                self.config == o.config,
                self.shutting_down == o.shutting_down,
                forall|u: int| t <= u < 5 ==> !#[trigger] head_pays(o, a, u, now),
                forall|u: int|
                    0 <= u < 5 ==> #[trigger] self.queue(u) == if u >= t && head_refused(o, a, u, now) {
                        a[u].drop_first().push(attempted(a[u][0], now))
                    } else {
                        a[u]
                    },
                forall|k: Seq<char>|
                    #[trigger] bucket_for(self.buckets@, k) == if exists|u: int|
                        t <= u < 5 && #[trigger] head_refused(o, a, u, now) && a[u][0].message.sender@ == k {
                        Some(charge_bucket(o, k, now))
                    } else {
                        bucket_for(o.buckets@, k)
                    },
                notices@.len() == refused_from(o, a, now, t as int).len(),
                forall|i: int|
                    0 <= i < notices@.len() ==> notice_for(#[trigger] notices@[i], o, a, now, refused_from(o, a, now, t as int)[i]),
            decreases t,
        {
            t = t - 1;
            let ghost cur = *self;
            let ghost prev = notices@;
            proof {
                assert(cur.queue(t as int) == a[t as int]);
                if a[t as int].len() > 0 {
                    let s = a[t as int][0].message.sender@;
                    if exists|u: int| t < u < 5 && #[trigger] head_refused(o, a, u, now) && a[u][0].message.sender@ == s {
                        assert(bucket_for(cur.buckets@, s) == Some(charge_bucket(o, s, now)));
                        lemma_refilled_twice(o.bucket_at(s, now), now);
                    } else {
                        assert(bucket_for(cur.buckets@, s) == bucket_for(o.buckets@, s));
                    }
                    assert(refilled(cur.bucket_at(s, now), now) == charge_bucket(o, s, now));
                }
                assert(refused_from(o, a, now, t as int) == refused_from(o, a, now, t + 1) + if head_refused(o, a, t as int, now) {
                    seq![t as int]
                } else {
                    seq![]
                });
            }
            match self.dispatch_from_tier(t, now) {
                TierAttempt::Empty => {
                    proof {
                        assert(refused_from(o, a, now, t as int) =~= refused_from(o, a, now, t + 1));
                        assert forall|k: Seq<char>| #[trigger] bucket_for(self.buckets@, k) == if exists|u: int|
                            t <= u < 5 && #[trigger] head_refused(o, a, u, now) && a[u][0].message.sender@ == k {
                            Some(charge_bucket(o, k, now))
                        } else {
                            bucket_for(o.buckets@, k)
                        } by {
                            if exists|u: int| t <= u < 5 && #[trigger] head_refused(o, a, u, now) && a[u][0].message.sender@ == k {
                                let u = choose|u: int| t <= u < 5 && #[trigger] head_refused(o, a, u, now) && a[u][0].message.sender@ == k;
                                assert(u != t);
                            }
                        }
                    }
                },
                TierAttempt::Limited(n) => {
                    notices.push(n);
                    proof {
                        let s = a[t as int][0].message.sender@;
                        assert(refused_from(o, a, now, t as int) =~= refused_from(o, a, now, t + 1).push(t as int));
                        assert forall|i: int| 0 <= i < notices@.len() implies notice_for(
                            #[trigger] notices@[i],
                            o,
                            a,
                            now,
                            refused_from(o, a, now, t as int)[i],
                        ) by {
                            if i < prev.len() {
                                assert(notices@[i] == prev[i]);
                            }
                        }
                        assert forall|k: Seq<char>| #[trigger] bucket_for(self.buckets@, k) == if exists|u: int|
                            t <= u < 5 && #[trigger] head_refused(o, a, u, now) && a[u][0].message.sender@ == k {
                            Some(charge_bucket(o, k, now))
                        } else {
                            bucket_for(o.buckets@, k)
                        } by {
                            if k == s {
                                assert(head_refused(o, a, t as int, now));
                            } else if exists|u: int| t <= u < 5 && #[trigger] head_refused(o, a, u, now) && a[u][0].message.sender@ == k {
                                let u = choose|u: int| t <= u < 5 && #[trigger] head_refused(o, a, u, now) && a[u][0].message.sender@ == k;
                                assert(u != t);
                            }
                        }
                    }
                },
                TierAttempt::Delivered(d) => {
                    proof {
                        assert(head_pays(o, a, t as int, now));
                        lemma_paying_tier(o, a, now, 4, t as int);
                        let s = a[t as int][0].message.sender@;
                        assert forall|k: Seq<char>| #[trigger] bucket_for(self.buckets@, k) == bucket_after_pass(o, a, now, k) by {
                            if k != s {
                                if exists|u: int| t <= u < 5 && #[trigger] head_refused(o, a, u, now) && a[u][0].message.sender@ == k {
                                    let u = choose|u: int| t <= u < 5 && #[trigger] head_refused(o, a, u, now) && a[u][0].message.sender@ == k;
                                    assert(u != t);
                                    assert(refused_sender(o, a, now, k));
                                } else {
                                    assert(!refused_sender(o, a, now, k));
                                }
                            }
                        }
                        assert forall|u: int| 0 <= u < 5 implies #[trigger] self.queue(u) == queue_after_pass(o, a, now, u) by {
                            if u != t {
                                assert(self.queue(u) == cur.queue(u));
                            }
                        }
                    }
                    return DispatchStep { delivery: Some(d), rate_limited: notices };
                },
            }
        }
        proof {
            lemma_paying_tier(o, a, now, 4, -1);
            assert forall|k: Seq<char>| #[trigger] bucket_for(self.buckets@, k) == bucket_after_pass(o, a, now, k) by {
                if exists|u: int| 0 <= u < 5 && #[trigger] head_refused(o, a, u, now) && a[u][0].message.sender@ == k {
                    let u = choose|u: int| 0 <= u < 5 && #[trigger] head_refused(o, a, u, now) && a[u][0].message.sender@ == k;
                    assert(refused_sender(o, a, now, k));
                } else {
                    assert(!refused_sender(o, a, now, k));
                }
            }
        }
        DispatchStep { delivery: None, rate_limited: notices }
    }

    /// Every waiting message, highest tier first, each tier in queue order.
    pub fn get_pending_messages(&self) -> (r: Vec<Message>)
        requires
            self.wf(),
        ensures
            r@ == messages_from(self.queue_views(), 0),
    {
        let mut r: Vec<Message> = Vec::new();
        let mut t: usize = 5;
        while t > 0
            invariant
                self.wf(),
                0 <= t <= 5,
                r@ == messages_from(self.queue_views(), t as int),
            decreases t,
        {
            t = t - 1;
            let n = self.queues[t].len();
            let ghost base = r@;
            let ghost q = self.queues@[t as int]@;
            assert(self.queue_views()[t as int] == q);
            let mut j: usize = 0;
            while j < n
                invariant
                    self.wf(),
                    t < 5,
                    q == self.queues@[t as int]@,
                    n == q.len(),
                    0 <= j <= n,
                    r@ == base + q.subrange(0, j as int).map_values(|m: QueuedMessage| m.message),
                decreases n - j,
            {
                r.push(self.queues[t][j].message.duplicate());
                proof {
                    assert(q.subrange(0, j + 1).map_values(|m: QueuedMessage| m.message) =~= q.subrange(
                        0,
                        j as int,
                    ).map_values(|m: QueuedMessage| m.message).push(q[j as int].message));
                    assert(r@ =~= base + q.subrange(0, j + 1).map_values(|m: QueuedMessage| m.message));
                }
                j += 1;
            }
            assert(q.subrange(0, n as int) =~= q);
        }
        r
    }
}


} // verus!
