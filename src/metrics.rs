use vstd::prelude::*;
use crate::ledger::{LeaseRecord, LeaseReplayState, RouterReplayState};
use crate::heat::HeatSummary;
use crate::priority::{tier_label, tier_of_index, Priority};

verus! {

/// Router figures as a snapshot shows them. Depths are listed by tier label.
#[derive(Debug, Clone, PartialEq, Eq)]
pub struct RouterSnapshot {
    pub queue_depths: Vec<(String, usize)>,
    pub last_dispatched_priority: Option<String>,
    pub last_dispatched_at: Option<u64>,
    pub rate_limited_messages: u64,
}

/// Lease figures as a snapshot shows them.
#[derive(Debug, Clone, PartialEq, Eq)]
pub struct LeaseSnapshotSummary {
    pub active_leases: usize,
    pub total_pending: usize,
    pub pending_by_resource: Vec<(String, usize)>,
    pub deferrals: u64,
    pub overrides: u64,
    pub escalations: u64,
    pub outstanding_lease_ids: Vec<u64>,
}

/// The last structured worker event seen; `timestamp` in ms since the Unix epoch.
#[derive(Debug, Clone, PartialEq, Eq)]
pub struct PtyLastEvent {
    pub agent_id: String,
    pub event_name: Option<String>,
    pub timestamp: u64,
}

#[derive(Debug, Clone, PartialEq, Eq)]
pub struct PtySnapshot {
    pub events_by_name: Vec<(String, u64)>,
    pub total_events: u64,
    pub last_event: Option<PtyLastEvent>,
}

impl RouterReplayState {
    /// The replayed router figures: each depth under its tier's label, in tier order.
    pub fn to_snapshot(&self) -> (r: RouterSnapshot)
        ensures
            r.queue_depths@.len() == self.queue_depths@.len(),
            forall|i: int|
                0 <= i < r.queue_depths@.len() ==> (#[trigger] r.queue_depths@[i]).0@ == tier_label(
                    tier_of_index(i),
                ) && r.queue_depths@[i].1 == self.queue_depths@[i],
            r.last_dispatched_priority == self.last_priority,
            r.last_dispatched_at is None,
            r.rate_limited_messages == 0,
    {
        let mut depths: Vec<(String, usize)> = Vec::new();
        let mut i: usize = 0;
        while i < self.queue_depths.len()
            invariant
                0 <= i <= self.queue_depths@.len(),
                depths@.len() == i,
                forall|k: int|
                    0 <= k < i ==> (#[trigger] depths@[k]).0@ == tier_label(tier_of_index(k))
                        && depths@[k].1 == self.queue_depths@[k],
            decreases self.queue_depths@.len() - i,
        {
            let label = Priority::from_index(i).as_str().to_string();
            depths.push((label, self.queue_depths[i]));
            i += 1;
        }
        RouterSnapshot {
            queue_depths: depths,
            last_dispatched_priority: crate::text::copy_opt_text(&self.last_priority),
            last_dispatched_at: None,
            rate_limited_messages: 0,
        }
    }
}

impl LeaseReplayState {
    /// The replayed lease figures: the active count, the counters and the lease ids in
    /// inventory order; replay knows nothing of pending requests.
    pub fn to_summary(&self) -> (r: LeaseSnapshotSummary)
        ensures
            r.active_leases == self.active@.len(),
            r.total_pending == 0,
            r.pending_by_resource@.len() == 0,
            r.deferrals == self.deferrals,
            r.overrides == self.overrides,
            r.escalations == self.escalations,
            r.outstanding_lease_ids@ == self.active@.map_values(|l: LeaseRecord| l.lease_id),
    {
        let mut ids: Vec<u64> = Vec::new();
        let mut i: usize = 0;
        while i < self.active.len()
            invariant
                0 <= i <= self.active@.len(),
                ids@ == self.active@.subrange(0, i as int).map_values(|l: LeaseRecord| l.lease_id),
            decreases self.active@.len() - i,
        {
            ids.push(self.active[i].lease_id);
            proof {
                assert(self.active@.subrange(0, i + 1).map_values(|l: LeaseRecord| l.lease_id)
                    =~= self.active@.subrange(0, i as int).map_values(|l: LeaseRecord| l.lease_id).push(
                    self.active@[i as int].lease_id,
                ));
            }
            i += 1;
        }
        assert(self.active@.subrange(0, self.active@.len() as int) =~= self.active@);
        LeaseSnapshotSummary {
            active_leases: self.active.len(),
            total_pending: 0,
            pending_by_resource: Vec::new(),
            deferrals: self.deferrals,
            overrides: self.overrides,
            escalations: self.escalations,
            outstanding_lease_ids: ids,
        }
    }
}

#[derive(Debug, Clone, Copy, PartialEq, Eq, Structural)]
pub enum Severity {
    Normal,
    Warning,
    Critical,
}

pub fn severity_to_str(severity: Severity) -> (r: &'static str)
    ensures
        r@ == match severity {
            Severity::Normal => "normal"@,
            Severity::Warning => "warning"@,
            Severity::Critical => "critical"@,
        },
{
    match severity {
        Severity::Normal => "normal",
        Severity::Warning => "warning",
        Severity::Critical => "critical",
    }
}

/// The value listed under `label`, or 0.
pub open spec fn depth_under(depths: Seq<(String, usize)>, label: Seq<char>) -> usize
    decreases depths.len(),
{
    if depths.len() == 0 {
        0
    } else if depths.last().0@ == label {
        depths.last().1
    } else {
        depth_under(depths.drop_last(), label)
    }
}

fn depth_for(depths: &Vec<(String, usize)>, key: &str) -> (r: usize)
    ensures
        r == depth_under(depths@, key@),
{
    let wanted = key.to_string();
    assert(wanted@ == key@);
    let mut k: usize = depths.len();
    assert(depths@.subrange(0, k as int) =~= depths@);
    while k > 0
        invariant
            0 <= k <= depths@.len(),
            wanted@ == key@,
            depth_under(depths@, key@) == depth_under(depths@.subrange(0, k as int), key@),
        decreases k,
    {
        proof {
            assert(depths@.subrange(0, k as int).drop_last() =~= depths@.subrange(0, k - 1));
            assert(depths@.subrange(0, k as int).last() == depths@[k - 1]);
        }
        if crate::text::same_text(&depths[k - 1].0, &wanted) {
            return depths[k - 1].1;
        }
        k -= 1;
    }
    0
}

/// The depths listed by label, read back in tier order (0 for a missing tier; the last
/// entry wins for a repeated label).
pub fn priority_vec_from_map(depths: &Vec<(String, usize)>) -> (r: Vec<usize>)
    ensures
        r@.len() == 5,
        forall|t: int| 0 <= t < 5 ==> #[trigger] r@[t] == depth_under(depths@, tier_label(tier_of_index(t))),
{
    let mut values: Vec<usize> = Vec::new();
    let mut t: usize = 0;
    while t < 5
        invariant
            0 <= t <= 5,
            values@.len() == t,
            forall|u: int| 0 <= u < t ==> #[trigger] values@[u] == depth_under(depths@, tier_label(tier_of_index(u))),
        decreases 5 - t,
    {
        let key = Priority::from_index(t).as_str();
        let found = depth_for(depths, key);
        values.push(found);
        t += 1;
    }
    values
}

// ----- the registry -----

/// Text order: character by character, a proper prefix first.
pub open spec fn text_lt(a: Seq<char>, b: Seq<char>) -> bool
    decreases a.len(),
{
    if b.len() == 0 {
        false
    } else if a.len() == 0 {
        true
    } else if a[0] < b[0] {
        true
    } else if a[0] == b[0] {
        text_lt(a.drop_first(), b.drop_first())
    } else {
        false
    }
}

proof fn lemma_lt_irrefl(a: Seq<char>)
    ensures
        !text_lt(a, a),
    decreases a.len(),
{
    if a.len() > 0 {
        lemma_lt_irrefl(a.drop_first());
    }
}

proof fn lemma_lt_trans(a: Seq<char>, b: Seq<char>, c: Seq<char>)
    requires
        text_lt(a, b),
        text_lt(b, c),
    ensures
        text_lt(a, c),
    decreases a.len(),
{
    if a.len() > 0 && b.len() > 0 && c.len() > 0 && a[0] == b[0] && b[0] == c[0] {
        lemma_lt_trans(a.drop_first(), b.drop_first(), c.drop_first());
    }
}

proof fn lemma_lt_total(a: Seq<char>, b: Seq<char>)
    requires
        a != b,
    ensures
        text_lt(a, b) || text_lt(b, a),
    decreases a.len(),
{
    if a.len() > 0 && b.len() > 0 && a[0] == b[0] {
        if a.drop_first() == b.drop_first() {
            assert(a =~= seq![a[0]] + a.drop_first());
            assert(b =~= seq![b[0]] + b.drop_first());
        }
        lemma_lt_total(a.drop_first(), b.drop_first());
    } else if a.len() == 0 && b.len() == 0 {
        assert(a =~= b);
    }
}

fn text_less(a: &String, b: &String) -> (r: bool)
    ensures
        r == text_lt(a@, b@),
{
    let x = crate::agent::chars_of_str(a.as_str());
    let y = crate::agent::chars_of_str(b.as_str());
    let mut i: usize = 0;
    assert(a@.subrange(0, a@.len() as int) =~= a@);
    assert(b@.subrange(0, b@.len() as int) =~= b@);
    while i < x.len() && i < y.len() && x[i] == y[i]
        invariant
            x@ == a@,
            y@ == b@,
            0 <= i <= x@.len(),
            i <= y@.len(),
            forall|k: int| 0 <= k < i ==> x@[k] == y@[k],
            text_lt(a@, b@) == text_lt(a@.subrange(i as int, a@.len() as int), b@.subrange(i as int, b@.len() as int)),
        decreases x@.len() - i,
    {
        proof {
            let sa = a@.subrange(i as int, a@.len() as int);
            let sb = b@.subrange(i as int, b@.len() as int);
            assert(sa.drop_first() =~= a@.subrange(i + 1, a@.len() as int));
            assert(sb.drop_first() =~= b@.subrange(i + 1, b@.len() as int));
        }
        i += 1;
    }
    assert(a@.subrange(0, a@.len() as int) =~= a@);
    assert(b@.subrange(0, b@.len() as int) =~= b@);
    if i == y.len() {
        false
    } else if i == x.len() {
        true
    } else {
        x[i] < y[i]
    }
}

/// One sender's rate-limit figures; token amounts in thousandths.
#[derive(Debug, Clone, PartialEq, Eq)]
pub struct RateLimitEntry {
    pub sender: String,
    pub tokens_remaining: u64,
    pub capacity: u64,
    pub refill_rate: u64,
    pub last_refill: u64,
    pub hits: u64,
}

pub open spec fn rates_sorted(s: Seq<RateLimitEntry>) -> bool {
    forall|i: int, j: int| 0 <= i < j < s.len() ==> text_lt(#[trigger] s[i].sender@, #[trigger] s[j].sender@)
}

/// The figures of sender `k`, if it has any (the last entry for it).
pub open spec fn rate_entry(s: Seq<RateLimitEntry>, k: Seq<char>) -> Option<RateLimitEntry>
    decreases s.len(),
{
    if s.len() == 0 {
        None
    } else if s.last().sender@ == k {
        Some(s.last())
    } else {
        rate_entry(s.drop_last(), k)
    }
}

proof fn lemma_rate_absent(s: Seq<RateLimitEntry>, k: Seq<char>)
    requires
        forall|x: int| 0 <= x < s.len() ==> s[x].sender@ != k,
    ensures
        rate_entry(s, k) is None,
    decreases s.len(),
{
    if s.len() > 0 {
        assert(s.last() == s[s.len() - 1]);
        lemma_rate_absent(s.drop_last(), k);
    }
}

proof fn lemma_rate_index(s: Seq<RateLimitEntry>, i: int)
    requires
        rates_sorted(s),
        0 <= i < s.len(),
    ensures
        rate_entry(s, s[i].sender@) == Some(s[i]),
    decreases s.len(),
{
    let k = s[i].sender@;
    if i < s.len() - 1 {
        let p = s.drop_last();
        assert(rates_sorted(p)) by {
            assert forall|a: int, b: int| 0 <= a < b < p.len() implies text_lt(#[trigger] p[a].sender@, #[trigger] p[b].sender@) by {
                assert(p[a] == s[a] && p[b] == s[b]);
            }
        }
        assert(p[i] == s[i]);
        lemma_rate_index(p, i);
        assert(text_lt(s[i].sender@, s[s.len() - 1].sender@));
        lemma_lt_irrefl(k);
    }
}

pub open spec fn sat_inc(a: u64) -> u64 {
    if a == u64::MAX {
        a
    } else {
        (a + 1) as u64
    }
}

fn inc(a: u64) -> (r: u64)
    ensures
        r == sat_inc(a),
{
    if a == u64::MAX {
        a
    } else {
        a + 1
    }
}

fn add_sat(a: u64, b: u64) -> (r: u64)
    ensures
        r == if a as nat + b as nat > u64::MAX {
            u64::MAX
        } else {
            (a + b) as u64
        },
{
    if a > u64::MAX - b {
        u64::MAX
    } else {
        a + b
    }
}

/// The metrics aggregated from router, registry, quorum broker, heat map and ledger.
/// Latencies are whole milliseconds, kept as a sum and a count for their means.
#[derive(Debug, Clone)]
pub struct MetricsRegistry {
    pub routing_latency_sum_ms: u64,
    pub total_messages_routed: u64,
    pub lease_latency_sum_ms: u64,
    pub lease_acquisitions_timed: u64,
    pub total_leases_acquired: u64,
    pub rate_limited_messages: u64,
    pub queue_depths: [usize; 5],
    pub last_dispatched_priority: Option<Priority>,
    pub last_dispatched_at: Option<u64>,
    pub rate_limits: Vec<RateLimitEntry>,
    pub active_leases: usize,
    pub pending_by_resource: Vec<(String, usize)>,
    pub deferrals: u64,
    pub overrides: u64,
    pub escalations: u64,
    pub outstanding_lease_ids: Vec<u64>,
    pub consensus_success: u64,
    pub consensus_failure: u64,
    pub consensus_threshold: u64,
    pub last_quorum_resource: Option<String>,
    pub last_quorum_reason: Option<String>,
    pub hottest_resource: Option<String>,
    pub hottest_score: u64,
    pub heat_cells: usize,
    pub last_append_latency_ms: u64,
    pub append_failures: u64,
    pub integrity_errors: u64,
}

/// A snapshot of the registry. Means are whole milliseconds (0 with no sample); the
/// quorum success ratio is in thousandths (1000 when nothing was recorded).
#[derive(Debug, Clone)]
pub struct MetricsView {
    pub message_routing_latency_ms: u64,
    pub lease_acquisition_time_ms: u64,
    pub total_messages_routed: u64,
    pub total_leases_acquired: u64,
    pub rate_limited_messages: u64,
    pub router: RouterSnapshot,
    pub rate_limits: Vec<RateLimitEntry>,
    pub leases: LeaseSnapshotSummary,
    pub consensus_success: u64,
    pub consensus_failure: u64,
    pub consensus_threshold: u64,
    pub consensus_success_ratio: u64,
    pub last_quorum_resource: Option<String>,
    pub last_quorum_reason: Option<String>,
    pub hottest_resource: Option<String>,
    pub hottest_score: u64,
    pub heat_cells: usize,
    pub last_append_latency_ms: u64,
    pub append_failures: u64,
    pub integrity_errors: u64,
}

pub open spec fn pending_sum(p: Seq<(String, usize)>) -> nat
    decreases p.len(),
{
    if p.len() == 0 {
        0
    } else {
        pending_sum(p.drop_last()) + p.last().1 as nat
    }
}

pub open spec fn mean_of(sum: u64, count: u64) -> u64 {
    if count == 0 {
        0
    } else {
        sum / count
    }
}

pub open spec fn ratio_of(success: u64, failure: u64) -> u64 {
    if success as nat + failure as nat == 0 {
        1000
    } else {
        (success as nat * 1000 / (success as nat + failure as nat)) as u64
    }
}

fn copy_rates(v: &Vec<RateLimitEntry>) -> (r: Vec<RateLimitEntry>)
    ensures
        r@ == v@,
{
    let mut r: Vec<RateLimitEntry> = Vec::new();
    let mut i: usize = 0;
    while i < v.len()
        invariant
            0 <= i <= v@.len(),
            r@ == v@.subrange(0, i as int),
        decreases v@.len() - i,
    {
        let e = &v[i];
        r.push(
            RateLimitEntry {
                sender: e.sender.clone(),
                tokens_remaining: e.tokens_remaining,
                capacity: e.capacity,
                refill_rate: e.refill_rate,
                last_refill: e.last_refill,
                hits: e.hits,
            },
        );
        proof {
            assert(r@ =~= v@.subrange(0, i + 1));
        }
        i += 1;
    }
    assert(v@.subrange(0, v@.len() as int) =~= v@);
    r
}

fn copy_pending(v: &Vec<(String, usize)>) -> (r: Vec<(String, usize)>)
    ensures
        r@ == v@,
{
    let mut r: Vec<(String, usize)> = Vec::new();
    let mut i: usize = 0;
    while i < v.len()
        invariant
            0 <= i <= v@.len(),
            r@ == v@.subrange(0, i as int),
        decreases v@.len() - i,
    {
        r.push((v[i].0.clone(), v[i].1));
        proof {
            assert(r@ =~= v@.subrange(0, i + 1));
        }
        i += 1;
    }
    assert(v@.subrange(0, v@.len() as int) =~= v@);
    r
}

fn copy_ids(v: &Vec<u64>) -> (r: Vec<u64>)
    ensures
        r@ == v@,
{
    let mut r: Vec<u64> = Vec::new();
    let mut i: usize = 0;
    while i < v.len()
        invariant
            0 <= i <= v@.len(),
            r@ == v@.subrange(0, i as int),
        decreases v@.len() - i,
    {
        r.push(v[i]);
        proof {
            assert(r@ =~= v@.subrange(0, i + 1));
        }
        i += 1;
    }
    assert(v@.subrange(0, v@.len() as int) =~= v@);
    r
}

/// The depths listed under their tier labels.
fn labelled_depths(d: &[usize; 5]) -> (r: Vec<(String, usize)>)
    ensures
        r@.len() == 5,
        forall|t: int| 0 <= t < 5 ==> (#[trigger] r@[t]).0@ == tier_label(tier_of_index(t)) && r@[t].1 == d@[t],
{
    let mut r: Vec<(String, usize)> = Vec::new();
    let mut t: usize = 0;
    while t < 5
        invariant
            0 <= t <= 5,
            r@.len() == t,
            forall|u: int| 0 <= u < t ==> (#[trigger] r@[u]).0@ == tier_label(tier_of_index(u)) && r@[u].1 == d@[u],
        decreases 5 - t,
    {
        r.push((Priority::from_index(t).as_str().to_string(), d[t]));
        t += 1;
    }
    r
}

impl MetricsRegistry {
    pub open spec fn wf(&self) -> bool {
        rates_sorted(self.rate_limits@)
    }

    /// Every counter at zero, every list empty, nothing last.
    pub open spec fn is_empty(&self) -> bool {
        &&& self.routing_latency_sum_ms == 0 && self.total_messages_routed == 0
        &&& self.lease_latency_sum_ms == 0 && self.lease_acquisitions_timed == 0
        &&& self.total_leases_acquired == 0 && self.rate_limited_messages == 0
        &&& forall|t: int| 0 <= t < 5 ==> self.queue_depths@[t] == 0
        &&& self.last_dispatched_priority is None && self.last_dispatched_at is None
        &&& self.rate_limits@.len() == 0 && self.active_leases == 0
        &&& self.pending_by_resource@.len() == 0 && self.outstanding_lease_ids@.len() == 0
        &&& self.deferrals == 0 && self.overrides == 0 && self.escalations == 0
        &&& self.consensus_success == 0 && self.consensus_failure == 0 && self.consensus_threshold == 0
        &&& self.last_quorum_resource is None && self.last_quorum_reason is None
        &&& self.hottest_resource is None && self.hottest_score == 0 && self.heat_cells == 0
        &&& self.last_append_latency_ms == 0 && self.append_failures == 0 && self.integrity_errors == 0
    }

    pub fn empty() -> (r: MetricsRegistry)
        ensures
            r.wf(),
            r.is_empty(),
    {
        MetricsRegistry {
            routing_latency_sum_ms: 0,
            total_messages_routed: 0,
            lease_latency_sum_ms: 0,
            lease_acquisitions_timed: 0,
            total_leases_acquired: 0,
            rate_limited_messages: 0,
            queue_depths: [0, 0, 0, 0, 0],
            last_dispatched_priority: None,
            last_dispatched_at: None,
            rate_limits: Vec::new(),
            active_leases: 0,
            pending_by_resource: Vec::new(),
            deferrals: 0,
            overrides: 0,
            escalations: 0,
            outstanding_lease_ids: Vec::new(),
            consensus_success: 0,
            consensus_failure: 0,
            consensus_threshold: 0,
            last_quorum_resource: None,
            last_quorum_reason: None,
            hottest_resource: None,
            hottest_score: 0,
            heat_cells: 0,
            last_append_latency_ms: 0,
            append_failures: 0,
            integrity_errors: 0,
        }
    }

    /// Zeroes every field.
    pub fn reset(&mut self)
        ensures
            final(self).wf(),
            final(self).is_empty(),
    {
        *self = Self::empty();
    }

    /// One more delivery at tier `p`, waited `wait_ms`, at `now`; depths are set.
    pub fn record_router_delivery(&mut self, p: Priority, wait_ms: u64, depths: [usize; 5], now: u64)
        ensures
            *final(self) == (MetricsRegistry {
                total_messages_routed: sat_inc(old(self).total_messages_routed),
                routing_latency_sum_ms: if old(self).routing_latency_sum_ms as nat + wait_ms as nat > u64::MAX {
                    u64::MAX
                } else {
                    (old(self).routing_latency_sum_ms + wait_ms) as u64
                },
                queue_depths: depths,
                last_dispatched_priority: Some(p),
                last_dispatched_at: Some(now),
                ..*old(self)
            }),
    {
        self.total_messages_routed = inc(self.total_messages_routed);
        self.routing_latency_sum_ms = add_sat(self.routing_latency_sum_ms, wait_ms);
        self.queue_depths = depths;
        self.last_dispatched_priority = Some(p);
        self.last_dispatched_at = Some(now);
    }

    pub fn update_queue_depths(&mut self, depths: [usize; 5])
        ensures
            *final(self) == (MetricsRegistry { queue_depths: depths, ..*old(self) }),
    {
        self.queue_depths = depths;
    }

    /// Index of `sender`'s figures, made (all zero) in sender order when it had none.
    fn rate_index(&mut self, sender: &String) -> (r: usize)
        requires
            old(self).wf(),
        ensures
            final(self).wf(),
            r < final(self).rate_limits@.len(),
            final(self).rate_limits@[r as int].sender@ == sender@,
            rate_entry(final(self).rate_limits@, sender@) == Some(final(self).rate_limits@[r as int]),
            match rate_entry(old(self).rate_limits@, sender@) {
                Some(e) => final(self).rate_limits@[r as int] == e,
                None => final(self).rate_limits@[r as int] == (RateLimitEntry {
                    sender: *sender,
                    tokens_remaining: 0,
                    capacity: 0,
                    refill_rate: 0,
                    last_refill: 0,
                    hits: 0,
                }),
            },
            forall|k: Seq<char>| k != sender@ ==> #[trigger] rate_entry(final(self).rate_limits@, k) == rate_entry(old(self).rate_limits@, k),
            *final(self) == (MetricsRegistry { rate_limits: final(self).rate_limits, ..*old(self) }),
    {
        let n = self.rate_limits.len();
        let mut i: usize = 0;
        while i < n && text_less(&self.rate_limits[i].sender, sender)
            invariant
                n == self.rate_limits@.len(),
                0 <= i <= n,
                *self == *old(self),
                old(self).wf(),
                forall|k: int| 0 <= k < i ==> text_lt(#[trigger] self.rate_limits@[k].sender@, sender@),
            decreases n - i,
        {
            i += 1;
        }
        let ghost s = self.rate_limits@;
        if i < n && crate::text::same_text(&self.rate_limits[i].sender, sender) {
            proof {
                lemma_rate_index(s, i as int);
            }
            return i;
        }
        proof {
            if i < n {
                lemma_lt_total(s[i as int].sender@, sender@);
            }
            lemma_lt_irrefl(sender@);
        }
        let e = RateLimitEntry {
            sender: sender.clone(),
            tokens_remaining: 0,
            capacity: 0,
            refill_rate: 0,
            last_refill: 0,
            hits: 0,
        };
        self.rate_limits.insert(i, e);
        proof {
            let t = self.rate_limits@;
            assert(t =~= s.insert(i as int, e));
            assert forall|a: int, b: int| 0 <= a < b < t.len() implies text_lt(#[trigger] t[a].sender@, #[trigger] t[b].sender@) by {
                if b < i {
                    assert(t[a] == s[a] && t[b] == s[b]);
                } else if b == i {
                    assert(t[a] == s[a]);
                } else if a < i {
                    assert(t[a] == s[a] && t[b] == s[b - 1]);
                    assert(text_lt(sender@, s[i as int].sender@));
                    if b - 1 > i {
                        lemma_lt_trans(sender@, s[i as int].sender@, s[b - 1].sender@);
                    }
                    lemma_lt_trans(s[a].sender@, sender@, s[b - 1].sender@);
                } else if a == i {
                    assert(t[b] == s[b - 1]);
                    if b - 1 > i {
                        lemma_lt_trans(sender@, s[i as int].sender@, s[b - 1].sender@);
                    }
                } else {
                    assert(t[a] == s[a - 1] && t[b] == s[b - 1]);
                }
            }
            assert forall|j: int| 0 <= j < s.len() implies s[j].sender@ != sender@ by {
                if j < i {
                    assert(text_lt(s[j].sender@, sender@));
                } else if j > i {
                    assert(text_lt(s[i as int].sender@, s[j].sender@));
                    if s[j].sender@ == sender@ {
                        assert(text_lt(sender@, s[j].sender@));
                    }
                }
            }
            lemma_rate_absent(s, sender@);
            lemma_rate_index(t, i as int);
            assert forall|k: Seq<char>| k != sender@ implies #[trigger] rate_entry(t, k) == rate_entry(s, k) by {
                if exists|j: int| 0 <= j < s.len() && s[j].sender@ == k {
                    let j = choose|j: int| 0 <= j < s.len() && s[j].sender@ == k;
                    lemma_rate_index(s, j);
                    let j2 = if j < i { j } else { j + 1 };
                    assert(t[j2] == s[j]);
                    lemma_rate_index(t, j2);
                } else {
                    assert forall|x: int| 0 <= x < t.len() implies t[x].sender@ != k by {
                        if x < i {
                            assert(t[x] == s[x]);
                        } else if x > i {
                            assert(t[x] == s[x - 1]);
                        }
                    }
                    lemma_rate_absent(s, k);
                    lemma_rate_absent(t, k);
                }
            }
        }
        i
    }

    fn set_rate(&mut self, i: usize, e: RateLimitEntry)
        requires
            old(self).wf(),
            i < old(self).rate_limits@.len(),
            e.sender@ == old(self).rate_limits@[i as int].sender@,
        ensures
            final(self).wf(),
            rate_entry(final(self).rate_limits@, e.sender@) == Some(e),
            forall|k: Seq<char>| k != e.sender@ ==> #[trigger] rate_entry(final(self).rate_limits@, k) == rate_entry(old(self).rate_limits@, k),
            *final(self) == (MetricsRegistry { rate_limits: final(self).rate_limits, ..*old(self) }),
    {
        let ghost s = self.rate_limits@;
        self.rate_limits.set(i, e);
        proof {
            let t = self.rate_limits@;
            assert forall|a: int, b: int| 0 <= a < b < t.len() implies text_lt(#[trigger] t[a].sender@, #[trigger] t[b].sender@) by {
                assert(text_lt(s[a].sender@, s[b].sender@));
            }
            lemma_rate_index(t, i as int);
            assert forall|k: Seq<char>| k != e.sender@ implies #[trigger] rate_entry(t, k) == rate_entry(s, k) by {
                if exists|j: int| 0 <= j < s.len() && s[j].sender@ == k {
                    let j = choose|j: int| 0 <= j < s.len() && s[j].sender@ == k;
                    lemma_rate_index(s, j);
                    lemma_rate_index(t, j);
                } else {
                    assert forall|x: int| 0 <= x < t.len() implies t[x].sender@ != k by {
                        if x != i {
                            assert(t[x] == s[x]);
                        }
                    }
                    lemma_rate_absent(s, k);
                    lemma_rate_absent(t, k);
                }
            }
        }
    }

    /// One more refused dispatch, counted in total and for `sender`.
    pub fn increment_rate_limited(&mut self, sender: &String)
        requires
            old(self).wf(),
        ensures
            final(self).wf(),
            final(self).rate_limited_messages == sat_inc(old(self).rate_limited_messages),
            rate_entry(final(self).rate_limits@, sender@) matches Some(e) && e.hits == match rate_entry(
                old(self).rate_limits@,
                sender@,
            ) {
                Some(o) => sat_inc(o.hits),
                None => 1,
            },
            forall|k: Seq<char>| k != sender@ ==> #[trigger] rate_entry(final(self).rate_limits@, k) == rate_entry(old(self).rate_limits@, k),
            *final(self) == (MetricsRegistry {
                rate_limits: final(self).rate_limits,
                rate_limited_messages: final(self).rate_limited_messages,
                ..*old(self)
            }),
    {
        let i = self.rate_index(sender);
        let cur = &self.rate_limits[i];
        let e = RateLimitEntry {
            sender: cur.sender.clone(),
            tokens_remaining: cur.tokens_remaining,
            capacity: cur.capacity,
            refill_rate: cur.refill_rate,
            last_refill: cur.last_refill,
            hits: inc(cur.hits),
        };
        self.set_rate(i, e);
        self.rate_limited_messages = inc(self.rate_limited_messages);
    }

    /// Records `sender`'s bucket as it stands; its hit count is kept.
    pub fn update_token_bucket(&mut self, sender: &String, tokens: u64, capacity: u64, refill_rate: u64, last_refill: u64)
        requires
            old(self).wf(),
        ensures
            final(self).wf(),
            rate_entry(final(self).rate_limits@, sender@) matches Some(e) && e.tokens_remaining == tokens
                && e.capacity == capacity && e.refill_rate == refill_rate && e.last_refill == last_refill
                && e.hits == match rate_entry(old(self).rate_limits@, sender@) {
                Some(o) => o.hits,
                None => 0,
            },
            forall|k: Seq<char>| k != sender@ ==> #[trigger] rate_entry(final(self).rate_limits@, k) == rate_entry(old(self).rate_limits@, k),
            *final(self) == (MetricsRegistry { rate_limits: final(self).rate_limits, ..*old(self) }),
    {
        let i = self.rate_index(sender);
        let e = RateLimitEntry {
            sender: self.rate_limits[i].sender.clone(),
            tokens_remaining: tokens,
            capacity,
            refill_rate,
            last_refill,
            hits: self.rate_limits[i].hits,
        };
        self.set_rate(i, e);
    }

    /// One quorum outcome counted; threshold, resource and reason become the latest.
    pub fn record_quorum_metrics(&mut self, resource: &String, achieved: bool, threshold: u64, reason: &String)
        ensures
            *final(self) == (MetricsRegistry {
                consensus_success: if achieved { sat_inc(old(self).consensus_success) } else { old(self).consensus_success },
                consensus_failure: if achieved { old(self).consensus_failure } else { sat_inc(old(self).consensus_failure) },
                consensus_threshold: threshold,
                last_quorum_resource: Some(*resource),
                last_quorum_reason: Some(*reason),
                ..*old(self)
            }),
    {
        if achieved {
            self.consensus_success = inc(self.consensus_success);
        } else {
            self.consensus_failure = inc(self.consensus_failure);
        }
        self.consensus_threshold = threshold;
        self.last_quorum_resource = Some(resource.clone());
        self.last_quorum_reason = Some(reason.clone());
    }

    pub fn update_heat_summary(&mut self, summary: &HeatSummary)
        ensures
            *final(self) == (MetricsRegistry {
                hottest_resource: summary.hottest_resource,
                hottest_score: summary.hottest_score,
                heat_cells: summary.cell_count,
                ..*old(self)
            }),
    {
        self.hottest_resource = crate::text::copy_opt_text(&summary.hottest_resource);
        self.hottest_score = summary.hottest_score;
        self.heat_cells = summary.cell_count;
    }

    pub fn record_ledger_append(&mut self, latency_ms: u64)
        ensures
            *final(self) == (MetricsRegistry { last_append_latency_ms: latency_ms, ..*old(self) }),
    {
        self.last_append_latency_ms = latency_ms;
    }

    pub fn record_ledger_error(&mut self)
        ensures
            *final(self) == (MetricsRegistry { append_failures: sat_inc(old(self).append_failures), ..*old(self) }),
    {
        self.append_failures = inc(self.append_failures);
    }

    pub fn record_ledger_integrity_failure(&mut self)
        ensures
            *final(self) == (MetricsRegistry { integrity_errors: sat_inc(old(self).integrity_errors), ..*old(self) }),
    {
        self.integrity_errors = inc(self.integrity_errors);
    }

    /// One timed acquisition of `latency_ms`.
    pub fn record_lease_acquisition(&mut self, latency_ms: u64)
        ensures
            *final(self) == (MetricsRegistry {
                lease_acquisitions_timed: sat_inc(old(self).lease_acquisitions_timed),
                lease_latency_sum_ms: if old(self).lease_latency_sum_ms as nat + latency_ms as nat > u64::MAX {
                    u64::MAX
                } else {
                    (old(self).lease_latency_sum_ms + latency_ms) as u64
                },
                ..*old(self)
            }),
    {
        self.lease_acquisitions_timed = inc(self.lease_acquisitions_timed);
        self.lease_latency_sum_ms = add_sat(self.lease_latency_sum_ms, latency_ms);
    }

    pub fn record_lease_grant(&mut self)
        ensures
            *final(self) == (MetricsRegistry { total_leases_acquired: sat_inc(old(self).total_leases_acquired), ..*old(self) }),
    {
        self.total_leases_acquired = inc(self.total_leases_acquired);
    }

    pub fn record_lease_deferral(&mut self)
        ensures
            *final(self) == (MetricsRegistry { deferrals: sat_inc(old(self).deferrals), ..*old(self) }),
    {
        self.deferrals = inc(self.deferrals);
    }

    pub fn record_lease_override(&mut self)
        ensures
            *final(self) == (MetricsRegistry { overrides: sat_inc(old(self).overrides), ..*old(self) }),
    {
        self.overrides = inc(self.overrides);
    }

    pub fn record_lease_escalation(&mut self)
        ensures
            *final(self) == (MetricsRegistry { escalations: sat_inc(old(self).escalations), ..*old(self) }),
    {
        self.escalations = inc(self.escalations);
    }

    pub fn update_lease_inventory(&mut self, active: usize, pending: Vec<(String, usize)>, outstanding: Vec<u64>)
        ensures
            *final(self) == (MetricsRegistry {
                active_leases: active,
                pending_by_resource: pending,
                outstanding_lease_ids: outstanding,
                ..*old(self)
            }),
    {
        self.active_leases = active;
        self.pending_by_resource = pending;
        self.outstanding_lease_ids = outstanding;
    }

    /// The registry as a snapshot (see `MetricsView`). The pending total saturates.
    pub fn snapshot(&self) -> (r: MetricsView)
        requires
            self.wf(),
        ensures
            r.message_routing_latency_ms == mean_of(self.routing_latency_sum_ms, self.total_messages_routed),
            r.lease_acquisition_time_ms == mean_of(self.lease_latency_sum_ms, self.lease_acquisitions_timed),
            r.total_messages_routed == self.total_messages_routed,
            r.total_leases_acquired == self.total_leases_acquired,
            r.rate_limited_messages == self.rate_limited_messages,
            r.router.queue_depths@.len() == 5,
            forall|t: int| 0 <= t < 5 ==> (#[trigger] r.router.queue_depths@[t]).0@ == tier_label(tier_of_index(t))
                && r.router.queue_depths@[t].1 == self.queue_depths@[t],
            r.router.last_dispatched_priority matches Some(l) ==> self.last_dispatched_priority matches Some(p) && l@ == tier_label(p),
            self.last_dispatched_priority is Some ==> r.router.last_dispatched_priority is Some,
            r.router.last_dispatched_at == self.last_dispatched_at,
            r.router.rate_limited_messages == self.rate_limited_messages,
            r.rate_limits@ == self.rate_limits@,
            rates_sorted(r.rate_limits@),
            r.leases.active_leases == self.active_leases,
            r.leases.pending_by_resource@ == self.pending_by_resource@,
            r.leases.total_pending as nat == if pending_sum(self.pending_by_resource@) > usize::MAX {
                usize::MAX as nat
            } else {
                pending_sum(self.pending_by_resource@)
            },
            r.leases.deferrals == self.deferrals,
            r.leases.overrides == self.overrides,
            r.leases.escalations == self.escalations,
            r.leases.outstanding_lease_ids@ == self.outstanding_lease_ids@,
            r.consensus_success == self.consensus_success,
            r.consensus_failure == self.consensus_failure,
            r.consensus_threshold == self.consensus_threshold,
            r.consensus_success_ratio == ratio_of(self.consensus_success, self.consensus_failure),
            r.last_quorum_resource == self.last_quorum_resource,
            r.last_quorum_reason == self.last_quorum_reason,
            r.hottest_resource == self.hottest_resource,
            r.hottest_score == self.hottest_score,
            r.heat_cells == self.heat_cells,
            r.last_append_latency_ms == self.last_append_latency_ms,
            r.append_failures == self.append_failures,
            r.integrity_errors == self.integrity_errors,
    {
        let mut total: usize = 0;
        let mut saturated = false;
        let mut i: usize = 0;
        while i < self.pending_by_resource.len()
            invariant
                0 <= i <= self.pending_by_resource@.len(),
                saturated ==> pending_sum(self.pending_by_resource@.subrange(0, i as int)) > usize::MAX && total == usize::MAX,
                !saturated ==> total as nat == pending_sum(self.pending_by_resource@.subrange(0, i as int)),
            decreases self.pending_by_resource@.len() - i,
        {
            let ghost sub = self.pending_by_resource@.subrange(0, i + 1);
            assert(sub.drop_last() =~= self.pending_by_resource@.subrange(0, i as int));
            let v = self.pending_by_resource[i].1;
            if !saturated {
                if total > usize::MAX - v {
                    total = usize::MAX;
                    saturated = true;
                } else {
                    total = total + v;
                }
            }
            i += 1;
        }
        assert(self.pending_by_resource@.subrange(0, self.pending_by_resource@.len() as int) =~= self.pending_by_resource@);
        let denom: u128 = self.consensus_success as u128 + self.consensus_failure as u128;
        let ratio: u64 = if denom == 0 {
            1000
        } else {
            let sc: u128 = self.consensus_success as u128;
            proof {
                let d: int = denom as int;
                let n: int = sc as int;
                assert(n * 1000 / d <= 1000) by (nonlinear_arith)
                    requires
                        d >= n,
                        d > 0,
                        n >= 0,
                ;
            }
            (self.consensus_success as u128 * 1000 / denom) as u64
        };
        let last = match self.last_dispatched_priority {
            Some(p) => Some(p.as_str().to_string()),
            None => None,
        };
        MetricsView {
            message_routing_latency_ms: if self.total_messages_routed == 0 {
                0
            } else {
                self.routing_latency_sum_ms / self.total_messages_routed
            },
            lease_acquisition_time_ms: if self.lease_acquisitions_timed == 0 {
                0
            } else {
                self.lease_latency_sum_ms / self.lease_acquisitions_timed
            },
            total_messages_routed: self.total_messages_routed,
            total_leases_acquired: self.total_leases_acquired,
            rate_limited_messages: self.rate_limited_messages,
            router: RouterSnapshot {
                queue_depths: labelled_depths(&self.queue_depths),
                last_dispatched_priority: last,
                last_dispatched_at: self.last_dispatched_at,
                rate_limited_messages: self.rate_limited_messages,
            },
            rate_limits: copy_rates(&self.rate_limits),
            leases: LeaseSnapshotSummary {
                active_leases: self.active_leases,
                total_pending: total,
                pending_by_resource: copy_pending(&self.pending_by_resource),
                deferrals: self.deferrals,
                overrides: self.overrides,
                escalations: self.escalations,
                outstanding_lease_ids: copy_ids(&self.outstanding_lease_ids),
            },
            consensus_success: self.consensus_success,
            consensus_failure: self.consensus_failure,
            consensus_threshold: self.consensus_threshold,
            consensus_success_ratio: ratio,
            last_quorum_resource: crate::text::copy_opt_text(&self.last_quorum_resource),
            last_quorum_reason: crate::text::copy_opt_text(&self.last_quorum_reason),
            hottest_resource: crate::text::copy_opt_text(&self.hottest_resource),
            hottest_score: self.hottest_score,
            heat_cells: self.heat_cells,
            last_append_latency_ms: self.last_append_latency_ms,
            append_failures: self.append_failures,
            integrity_errors: self.integrity_errors,
        }
    }
}

/// Two snapshots hold the same figures.
pub open spec fn same_metrics(a: MetricsView, b: MetricsView) -> bool {
    &&& a.message_routing_latency_ms == b.message_routing_latency_ms
    &&& a.lease_acquisition_time_ms == b.lease_acquisition_time_ms
    &&& a.total_messages_routed == b.total_messages_routed
    &&& a.total_leases_acquired == b.total_leases_acquired
    &&& a.rate_limited_messages == b.rate_limited_messages
    &&& a.router.queue_depths@ == b.router.queue_depths@
    &&& a.router.last_dispatched_priority == b.router.last_dispatched_priority
    &&& a.router.last_dispatched_at == b.router.last_dispatched_at
    &&& a.router.rate_limited_messages == b.router.rate_limited_messages
    &&& a.rate_limits@ == b.rate_limits@
    &&& a.leases.active_leases == b.leases.active_leases
    &&& a.leases.total_pending == b.leases.total_pending
    &&& a.leases.pending_by_resource@ == b.leases.pending_by_resource@
    &&& a.leases.deferrals == b.leases.deferrals
    &&& a.leases.overrides == b.leases.overrides
    &&& a.leases.escalations == b.leases.escalations
    &&& a.leases.outstanding_lease_ids@ == b.leases.outstanding_lease_ids@
    &&& a.consensus_success == b.consensus_success
    &&& a.consensus_failure == b.consensus_failure
    &&& a.consensus_threshold == b.consensus_threshold
    &&& a.consensus_success_ratio == b.consensus_success_ratio
    &&& a.last_quorum_resource == b.last_quorum_resource
    &&& a.last_quorum_reason == b.last_quorum_reason
    &&& a.hottest_resource == b.hottest_resource
    &&& a.hottest_score == b.hottest_score
    &&& a.heat_cells == b.heat_cells
    &&& a.last_append_latency_ms == b.last_append_latency_ms
    &&& a.append_failures == b.append_failures
    &&& a.integrity_errors == b.integrity_errors
}

/// The snapshot replay builds when the log holds no checkpoint: the replayed router and
/// lease figures, every other figure at zero (the quorum ratio at 1000).
pub open spec fn is_replay_metrics(m: MetricsView, router: RouterReplayState, leases: LeaseReplayState) -> bool {
    &&& m.router.queue_depths@.len() == router.queue_depths@.len()
    &&& forall|i: int| 0 <= i < m.router.queue_depths@.len() ==> (#[trigger] m.router.queue_depths@[i]).0@
        == tier_label(tier_of_index(i)) && m.router.queue_depths@[i].1 == router.queue_depths@[i]
    &&& m.router.last_dispatched_priority == router.last_priority
    &&& m.router.last_dispatched_at is None
    &&& m.router.rate_limited_messages == 0
    &&& m.leases.active_leases == leases.active@.len()
    &&& m.leases.total_pending == 0
    &&& m.leases.pending_by_resource@.len() == 0
    &&& m.leases.deferrals == leases.deferrals
    &&& m.leases.overrides == leases.overrides
    &&& m.leases.escalations == leases.escalations
    &&& m.leases.outstanding_lease_ids@ == leases.active@.map_values(|l: LeaseRecord| l.lease_id)
    &&& m.message_routing_latency_ms == 0 && m.lease_acquisition_time_ms == 0
    &&& m.total_messages_routed == 0 && m.total_leases_acquired == 0 && m.rate_limited_messages == 0
    &&& m.rate_limits@.len() == 0
    &&& m.consensus_success == 0 && m.consensus_failure == 0 && m.consensus_threshold == 0
    &&& m.consensus_success_ratio == 1000
    &&& m.last_quorum_resource is None && m.last_quorum_reason is None
    &&& m.hottest_resource is None && m.hottest_score == 0 && m.heat_cells == 0
    &&& m.last_append_latency_ms == 0 && m.append_failures == 0 && m.integrity_errors == 0
}

impl MetricsView {
    pub fn duplicate(&self) -> (r: MetricsView)
        ensures
            same_metrics(r, *self),
    {
        MetricsView {
            message_routing_latency_ms: self.message_routing_latency_ms,
            lease_acquisition_time_ms: self.lease_acquisition_time_ms,
            total_messages_routed: self.total_messages_routed,
            total_leases_acquired: self.total_leases_acquired,
            rate_limited_messages: self.rate_limited_messages,
            router: RouterSnapshot {
                queue_depths: copy_pending(&self.router.queue_depths),
                last_dispatched_priority: crate::text::copy_opt_text(&self.router.last_dispatched_priority),
                last_dispatched_at: self.router.last_dispatched_at,
                rate_limited_messages: self.router.rate_limited_messages,
            },
            rate_limits: copy_rates(&self.rate_limits),
            leases: LeaseSnapshotSummary {
                active_leases: self.leases.active_leases,
                total_pending: self.leases.total_pending,
                pending_by_resource: copy_pending(&self.leases.pending_by_resource),
                deferrals: self.leases.deferrals,
                overrides: self.leases.overrides,
                escalations: self.leases.escalations,
                outstanding_lease_ids: copy_ids(&self.leases.outstanding_lease_ids),
            },
            consensus_success: self.consensus_success,
            consensus_failure: self.consensus_failure,
            consensus_threshold: self.consensus_threshold,
            consensus_success_ratio: self.consensus_success_ratio,
            last_quorum_resource: crate::text::copy_opt_text(&self.last_quorum_resource),
            last_quorum_reason: crate::text::copy_opt_text(&self.last_quorum_reason),
            hottest_resource: crate::text::copy_opt_text(&self.hottest_resource),
            hottest_score: self.hottest_score,
            heat_cells: self.heat_cells,
            last_append_latency_ms: self.last_append_latency_ms,
            append_failures: self.append_failures,
            integrity_errors: self.integrity_errors,
        }
    }

    /// The snapshot of a replay that met no checkpoint.
    pub fn from_replay(router: &RouterReplayState, leases: &LeaseReplayState) -> (r: MetricsView)
        ensures
            is_replay_metrics(r, *router, *leases),
    {
        MetricsView {
            message_routing_latency_ms: 0,
            lease_acquisition_time_ms: 0,
            total_messages_routed: 0,
            total_leases_acquired: 0,
            rate_limited_messages: 0,
            router: router.to_snapshot(),
            rate_limits: Vec::new(),
            leases: leases.to_summary(),
            consensus_success: 0,
            consensus_failure: 0,
            consensus_threshold: 0,
            consensus_success_ratio: 1000,
            last_quorum_resource: None,
            last_quorum_reason: None,
            hottest_resource: None,
            hottest_score: 0,
            heat_cells: 0,
            last_append_latency_ms: 0,
            append_failures: 0,
            integrity_errors: 0,
        }
    }
}

} // verus!
