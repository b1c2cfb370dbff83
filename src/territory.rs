use vstd::prelude::*;
use crate::config::{duration_or, parse_duration_or, TerritoryConfig};
use crate::consensus::QuorumVote;
use crate::heat::{cells_at, summary_of, summary_view, with_bump, HeatMap, HeatSummary};
use crate::priority::{tier_index, tier_label, Priority};
use crate::ledger::{LeaseEscalationRecord, LeaseEvent as LedgerLeaseEvent, LeaseQueueRecord, LeaseRecord};
use crate::text::{copy_opt_text, decimal, decimal_text, same_text};

verus! {

/// Identifier of a lease, drawn from a counter of the manager.
#[derive(Debug, Clone, Copy, PartialEq, Eq, Structural, Hash)]
pub struct LeaseId(pub u64);

/// Identifier of a queued request, drawn from a counter of the manager.
#[derive(Debug, Clone, Copy, PartialEq, Eq, Structural, Hash)]
pub struct RequestId(pub u64);

impl LeaseId {
    pub fn new(value: u64) -> (r: LeaseId)
        ensures
            r.0 == value,
    {
        LeaseId(value)
    }

    pub fn as_u64(self) -> (r: u64)
        ensures
            r == self.0,
    {
        self.0
    }
}

impl RequestId {
    pub fn new(value: u64) -> (r: RequestId)
        ensures
            r.0 == value,
    {
        RequestId(value)
    }
}

#[derive(Debug, Clone, Copy, PartialEq, Eq, Structural)]
pub enum NegotiationState {
    Idle,
    Queued,
    Negotiating,
    Deferred,
    Escalating,
    Overridden,
    Expired,
}

#[derive(Debug, Clone, Copy, PartialEq, Eq, Structural)]
pub enum EscalationReason {
    QueueDepth,
    Starvation,
    Deadlock,
}

/// A request for exclusive use of a resource. Progress is in thousandths.
#[derive(Debug, Clone)]
pub struct LeaseRequest {
    pub agent_id: String,
    pub resource_id: String,
    pub priority: Priority,
    pub holder_role: Option<String>,
    pub progress_hint: Option<u64>,
    pub coordinates: Option<(i64, i64)>,
}

impl LeaseRequest {
    pub fn new(agent_id: String, resource_id: String, priority: Priority) -> (r: LeaseRequest)
        ensures
            r.agent_id == agent_id,
            r.resource_id == resource_id,
            r.priority == priority,
            r.holder_role is None,
            r.progress_hint is None,
            r.coordinates is None,
    {
        LeaseRequest {
            agent_id,
            resource_id,
            priority,
            holder_role: None,
            progress_hint: None,
            coordinates: None,
        }
    }
}

/// A request to hand a live lease from its holder to another agent.
#[derive(Debug, Clone)]
pub struct TransferRequest {
    pub from_agent: String,
    pub to_agent: String,
    pub resource_id: String,
    pub new_priority: Option<Priority>,
}

/// A held lease. Instants are milliseconds on the caller's clock; progress in thousandths.
#[derive(Debug, Clone)]
pub struct Lease {
    pub id: LeaseId,
    pub resource_id: String,
    pub holder_id: String,
    pub holder_role: Option<String>,
    pub priority: Priority,
    pub granted_at: u64,
    pub expires_at: u64,
    pub last_heartbeat_at: u64,
    pub holder_progress: u64,
    pub negotiation_state: NegotiationState,
    pub conflict_attempts: u32,
    pub defer_count: u32,
    pub override_count: u32,
    pub escalation_ticket: Option<String>,
    pub coordinates: Option<(i64, i64)>,
}

/// What callers see of a lease.
#[derive(Debug, Clone, PartialEq, Eq)]
pub struct LeaseSnapshot {
    pub lease_id: LeaseId,
    pub resource_id: String,
    pub holder_id: String,
    pub holder_role: Option<String>,
    pub priority: Priority,
    pub granted_at: u64,
    pub expires_at: u64,
    pub last_heartbeat_at: u64,
    pub holder_progress: u64,
    pub conflict_attempts: u32,
    pub defer_count: u32,
    pub override_count: u32,
    pub escalation_ticket: Option<String>,
}

/// Where a queued request stood when it was answered.
#[derive(Debug, Clone, PartialEq, Eq)]
pub struct NegotiationHandle {
    pub request_id: RequestId,
    pub resource_id: String,
    pub agent_id: String,
    pub queue_position: usize,
}

/// A pending request for a held resource.
#[derive(Debug, Clone)]
pub struct LeaseQueueEntry {
    pub id: RequestId,
    pub agent_id: String,
    pub priority: Priority,
    pub holder_role: Option<String>,
    pub coordinates: Option<(i64, i64)>,
    pub enqueued_at: u64,
    pub deferred_until: Option<u64>,
    pub state: NegotiationState,
    pub escalation_ticket: Option<String>,
}

/// The pending requests for one resource, in queue order.
#[derive(Debug, Clone)]
pub struct ResourceQueue {
    pub resource_id: String,
    pub entries: Vec<LeaseQueueEntry>,
}

#[derive(Debug, Clone)]
pub enum LeaseDecision {
    Granted(LeaseSnapshot),
    Deferred { handle: NegotiationHandle, grace_deadline: u64 },
    Queued(NegotiationHandle),
    Overridden { previous: LeaseSnapshot, lease: LeaseSnapshot },
}

#[derive(Debug, Clone)]
pub enum TransferDecision {
    Transferred { previous: LeaseSnapshot, lease: LeaseSnapshot },
    Rejected,
}

/// The ballot a contested acquisition puts to the quorum broker.
#[derive(Debug, Clone)]
pub struct QuorumRequest {
    pub votes: Vec<QuorumVote>,
    pub reason: String,
}

/// Everything one acquisition decided: the answer, any escalation, the ballot to record,
/// and the heat summary after the bump.
#[derive(Debug, Clone)]
pub struct AcquireOutcome {
    pub decision: LeaseDecision,
    pub escalation: Option<EscalationReason>,
    pub quorum: Option<QuorumRequest>,
    pub heat: HeatSummary,
}

/// What a release decided: the lease let go, and the lease granted to the next waiter.
#[derive(Debug, Clone)]
pub struct ReleaseOutcome {
    pub released: LeaseSnapshot,
    pub granted: Option<LeaseSnapshot>,
    pub heat: HeatSummary,
}

pub open spec fn sat_add(a: u64, b: u64) -> u64 {
    if a as nat + b as nat > u64::MAX {
        u64::MAX
    } else {
        (a + b) as u64
    }
}

pub open spec fn sat_sub(a: u64, b: u64) -> u64 {
    if a >= b {
        (a - b) as u64
    } else {
        0
    }
}

pub open spec fn sat_inc(a: u32) -> u32 {
    if a == u32::MAX {
        a
    } else {
        (a + 1) as u32
    }
}

pub open spec fn min_u64(a: u64, b: u64) -> u64 {
    if a < b {
        a
    } else {
        b
    }
}

pub open spec fn clamp_progress(p: Option<u64>) -> u64 {
    match p {
        Some(v) => if v > 1000 {
            1000
        } else {
            v
        },
        None => 0,
    }
}

fn add_sat(a: u64, b: u64) -> (r: u64)
    ensures
        r == sat_add(a, b),
{
    if a > u64::MAX - b {
        u64::MAX
    } else {
        a + b
    }
}

fn inc_sat(a: u32) -> (r: u32)
    ensures
        r == sat_inc(a),
{
    if a == u32::MAX {
        a
    } else {
        a + 1
    }
}

fn progress_of(p: Option<u64>) -> (r: u64)
    ensures
        r == clamp_progress(p),
{
    match p {
        Some(v) => if v > 1000 {
            1000
        } else {
            v
        },
        None => 0,
    }
}

pub open spec fn snapshot_of(l: Lease) -> LeaseSnapshot {
    LeaseSnapshot {
        lease_id: l.id,
        resource_id: l.resource_id,
        holder_id: l.holder_id,
        holder_role: l.holder_role,
        priority: l.priority,
        granted_at: l.granted_at,
        expires_at: l.expires_at,
        last_heartbeat_at: l.last_heartbeat_at,
        holder_progress: l.holder_progress,
        conflict_attempts: l.conflict_attempts,
        defer_count: l.defer_count,
        override_count: l.override_count,
        escalation_ticket: l.escalation_ticket,
    }
}

impl Lease {
    /// A fresh lease for `request` granted at `now` with id `id` (see `new_lease`).
    pub fn new(request: &LeaseRequest, now: u64, policy: &TerritoryPolicy, id: u64) -> (r: Lease)
        ensures
            r == new_lease(*request, now, *policy, id),
    {
        Lease {
            id: LeaseId::new(id),
            resource_id: request.resource_id.clone(),
            holder_id: request.agent_id.clone(),
            holder_role: copy_opt_text(&request.holder_role),
            priority: request.priority,
            granted_at: now,
            expires_at: add_sat(
                now,
                if policy.default_lease_duration < policy.max_lease_duration {
                    policy.default_lease_duration
                } else {
                    policy.max_lease_duration
                },
            ),
            last_heartbeat_at: now,
            holder_progress: progress_of(request.progress_hint),
            negotiation_state: NegotiationState::Idle,
            conflict_attempts: 0,
            defer_count: 0,
            override_count: 0,
            escalation_ticket: None,
            coordinates: request.coordinates,
        }
    }

    pub fn snapshot(&self) -> (r: LeaseSnapshot)
        ensures
            r == snapshot_of(*self),
    {
        LeaseSnapshot {
            lease_id: self.id,
            resource_id: self.resource_id.clone(),
            holder_id: self.holder_id.clone(),
            holder_role: copy_opt_text(&self.holder_role),
            priority: self.priority,
            granted_at: self.granted_at,
            expires_at: self.expires_at,
            last_heartbeat_at: self.last_heartbeat_at,
            holder_progress: self.holder_progress,
            conflict_attempts: self.conflict_attempts,
            defer_count: self.defer_count,
            override_count: self.override_count,
            escalation_ticket: copy_opt_text(&self.escalation_ticket),
        }
    }
}

// ----- views: at most one lease and one queue per resource -----

pub open spec fn leases_unique(s: Seq<Lease>) -> bool {
    forall|i: int, j: int|
        0 <= i < j < s.len() ==> #[trigger] s[i].resource_id@ != #[trigger] s[j].resource_id@
}

pub open spec fn has_lease(s: Seq<Lease>, k: Seq<char>) -> bool {
    exists|i: int| 0 <= i < s.len() && s[i].resource_id@ == k
}

/// The lease held on resource `k`, if any.
pub open spec fn lease_for(s: Seq<Lease>, k: Seq<char>) -> Option<Lease> {
    if has_lease(s, k) {
        Some(s[choose|i: int| 0 <= i < s.len() && s[i].resource_id@ == k])
    } else {
        None
    }
}

proof fn lemma_lease_for_index(s: Seq<Lease>, i: int)
    requires
        leases_unique(s),
        0 <= i < s.len(),
    ensures
        lease_for(s, s[i].resource_id@) == Some(s[i]),
{
    let k = s[i].resource_id@;
    assert(has_lease(s, k));
    let j = choose|j: int| 0 <= j < s.len() && s[j].resource_id@ == k;
    if j != i {
        if j < i {
            assert(s[j].resource_id@ != s[i].resource_id@);
        } else {
            assert(s[i].resource_id@ != s[j].resource_id@);
        }
    }
}

/// How lease_for reads after the entry at `i` is replaced by one with the same resource.
proof fn lemma_lease_update(s: Seq<Lease>, i: int, l: Lease)
    requires
        leases_unique(s),
        0 <= i < s.len(),
        l.resource_id@ == s[i].resource_id@,
    ensures
        leases_unique(s.update(i, l)),
        forall|k: Seq<char>|
            #[trigger] lease_for(s.update(i, l), k) == if k == s[i].resource_id@ {
                Some(l)
            } else {
                lease_for(s, k)
            },
{
    let t = s.update(i, l);
    assert forall|a: int, b: int| 0 <= a < b < t.len() implies #[trigger] t[a].resource_id@
        != #[trigger] t[b].resource_id@ by {
        assert(s[a].resource_id@ != s[b].resource_id@);
    }
    assert forall|k: Seq<char>| #[trigger]
        lease_for(s.update(i, l), k) == if k == s[i].resource_id@ {
            Some(l)
        } else {
            lease_for(s, k)
        } by {
        if k == s[i].resource_id@ {
            lemma_lease_for_index(t, i);
        } else if has_lease(s, k) {
            let j = choose|j: int| 0 <= j < s.len() && s[j].resource_id@ == k;
            lemma_lease_for_index(s, j);
            lemma_lease_for_index(t, j);
        } else {
            assert(!has_lease(t, k));
        }
    }
}

proof fn lemma_lease_push(s: Seq<Lease>, l: Lease)
    requires
        leases_unique(s),
        !has_lease(s, l.resource_id@),
    ensures
        leases_unique(s.push(l)),
        forall|k: Seq<char>|
            #[trigger] lease_for(s.push(l), k) == if k == l.resource_id@ {
                Some(l)
            } else {
                lease_for(s, k)
            },
{
    let t = s.push(l);
    assert forall|a: int, b: int| 0 <= a < b < t.len() implies #[trigger] t[a].resource_id@
        != #[trigger] t[b].resource_id@ by {
        if b == s.len() {
            assert(t[a] == s[a]);
        } else {
            assert(s[a].resource_id@ != s[b].resource_id@);
        }
    }
    assert forall|k: Seq<char>| #[trigger]
        lease_for(s.push(l), k) == if k == l.resource_id@ {
            Some(l)
        } else {
            lease_for(s, k)
        } by {
        if k == l.resource_id@ {
            lemma_lease_for_index(t, s.len() as int);
        } else if has_lease(s, k) {
            let j = choose|j: int| 0 <= j < s.len() && s[j].resource_id@ == k;
            lemma_lease_for_index(s, j);
            assert(t[j] == s[j]);
            lemma_lease_for_index(t, j);
        } else {
            assert forall|j: int| 0 <= j < t.len() implies t[j].resource_id@ != k by {
                if j < s.len() {
                    assert(t[j] == s[j]);
                }
            }
        }
    }
}

proof fn lemma_lease_remove(s: Seq<Lease>, i: int)
    requires
        leases_unique(s),
        0 <= i < s.len(),
    ensures
        leases_unique(s.remove(i)),
        forall|k: Seq<char>|
            #[trigger] lease_for(s.remove(i), k) == if k == s[i].resource_id@ {
                None
            } else {
                lease_for(s, k)
            },
{
    let t = s.remove(i);
    assert forall|a: int, b: int| 0 <= a < b < t.len() implies #[trigger] t[a].resource_id@
        != #[trigger] t[b].resource_id@ by {
        let a2 = if a < i { a } else { a + 1 };
        let b2 = if b < i { b } else { b + 1 };
        assert(t[a] == s[a2] && t[b] == s[b2]);
        assert(s[a2].resource_id@ != s[b2].resource_id@);
    }
    assert forall|k: Seq<char>| #[trigger]
        lease_for(s.remove(i), k) == if k == s[i].resource_id@ {
            None
        } else {
            lease_for(s, k)
        } by {
        if k == s[i].resource_id@ {
            assert forall|j: int| 0 <= j < t.len() implies t[j].resource_id@ != k by {
                let j2 = if j < i { j } else { j + 1 };
                assert(t[j] == s[j2]);
                if j2 < i {
                    assert(s[j2].resource_id@ != s[i].resource_id@);
                } else {
                    assert(s[i].resource_id@ != s[j2].resource_id@);
                }
            }
        } else if has_lease(s, k) {
            let j = choose|j: int| 0 <= j < s.len() && s[j].resource_id@ == k;
            lemma_lease_for_index(s, j);
            let j2 = if j < i { j } else { j - 1 };
            assert(t[j2] == s[j]);
            lemma_lease_for_index(t, j2);
        } else {
            assert forall|j: int| 0 <= j < t.len() implies t[j].resource_id@ != k by {
                let j2 = if j < i { j } else { j + 1 };
                assert(t[j] == s[j2]);
            }
        }
    }
}

// ----- pending requests -----

pub open spec fn queues_unique(s: Seq<ResourceQueue>) -> bool {
    forall|i: int, j: int|
        0 <= i < j < s.len() ==> #[trigger] s[i].resource_id@ != #[trigger] s[j].resource_id@
}

pub open spec fn has_queue(s: Seq<ResourceQueue>, k: Seq<char>) -> bool {
    exists|i: int| 0 <= i < s.len() && s[i].resource_id@ == k
}

/// The requests pending on resource `k`, in queue order.
pub open spec fn pending(s: Seq<ResourceQueue>, k: Seq<char>) -> Seq<LeaseQueueEntry> {
    if has_queue(s, k) {
        s[choose|i: int| 0 <= i < s.len() && s[i].resource_id@ == k].entries@
    } else {
        Seq::empty()
    }
}

/// `a` may stand before `b`: a higher tier, or the same tier and enqueued no later.
pub open spec fn precedes(a: LeaseQueueEntry, b: LeaseQueueEntry) -> bool {
    tier_index(a.priority) > tier_index(b.priority) || (tier_index(a.priority) == tier_index(
        b.priority,
    ) && a.enqueued_at <= b.enqueued_at)
}

/// Descending tier, then ascending enqueue time.
pub open spec fn queue_ordered(es: Seq<LeaseQueueEntry>) -> bool {
    forall|i: int, j: int| 0 <= i < j < es.len() ==> precedes(#[trigger] es[i], #[trigger] es[j])
}

pub open spec fn queues_ordered(s: Seq<ResourceQueue>) -> bool {
    forall|i: int| 0 <= i < s.len() ==> queue_ordered(#[trigger] s[i].entries@)
}

/// Where a new entry goes: after every entry that may precede it, before the rest.
pub open spec fn is_insert_position(es: Seq<LeaseQueueEntry>, e: LeaseQueueEntry, pos: int) -> bool {
    &&& 0 <= pos <= es.len()
    &&& forall|k: int| 0 <= k < pos ==> precedes(#[trigger] es[k], e)
    &&& forall|k: int| pos <= k < es.len() ==> !precedes(#[trigger] es[k], e)
}

/// A request waiting out a deferral is not yet eligible.
pub open spec fn eligible(e: LeaseQueueEntry, now: u64) -> bool {
    match e.deferred_until {
        Some(d) => d <= now,
        None => true,
    }
}

/// Index of the first eligible entry.
pub open spec fn first_eligible(es: Seq<LeaseQueueEntry>, now: u64) -> Option<int>
    decreases es.len(),
{
    if es.len() == 0 {
        None
    } else {
        match first_eligible(es.drop_last(), now) {
            Some(i) => Some(i),
            None => if eligible(es.last(), now) {
                Some(es.len() - 1)
            } else {
                None
            },
        }
    }
}

proof fn lemma_first_eligible(es: Seq<LeaseQueueEntry>, now: u64, i: int)
    requires
        -1 <= i < es.len(),
        forall|j: int| 0 <= j < es.len() && (i < 0 || j < i) ==> !eligible(#[trigger] es[j], now),
        i >= 0 ==> eligible(es[i], now),
    ensures
        first_eligible(es, now) == if i < 0 {
            None::<int>
        } else {
            Some(i)
        },
    decreases es.len(),
{
    if es.len() > 0 {
        let p = es.drop_last();
        if i == es.len() - 1 {
            assert forall|j: int| 0 <= j < p.len() implies !eligible(#[trigger] p[j], now) by {
                assert(p[j] == es[j]);
            }
            lemma_first_eligible(p, now, -1);
        } else {
            assert forall|j: int| 0 <= j < p.len() && (i < 0 || j < i) implies !eligible(
                #[trigger] p[j],
                now,
            ) by {
                assert(p[j] == es[j]);
            }
            if i >= 0 {
                assert(p[i] == es[i]);
            }
            lemma_first_eligible(p, now, i);
            if i < 0 {
                assert(!eligible(es[es.len() - 1], now));
            }
        }
    }
}

proof fn lemma_queue_index(s: Seq<ResourceQueue>, i: int)
    requires
        queues_unique(s),
        0 <= i < s.len(),
    ensures
        pending(s, s[i].resource_id@) == s[i].entries@,
{
    let k = s[i].resource_id@;
    assert(has_queue(s, k));
    let j = choose|j: int| 0 <= j < s.len() && s[j].resource_id@ == k;
    if j != i {
        if j < i {
            assert(s[j].resource_id@ != s[i].resource_id@);
        } else {
            assert(s[i].resource_id@ != s[j].resource_id@);
        }
    }
}

proof fn lemma_queue_update(s: Seq<ResourceQueue>, i: int, q: ResourceQueue)
    requires
        queues_unique(s),
        0 <= i < s.len(),
        q.resource_id@ == s[i].resource_id@,
    ensures
        queues_unique(s.update(i, q)),
        forall|k: Seq<char>|
            #[trigger] pending(s.update(i, q), k) == if k == s[i].resource_id@ {
                q.entries@
            } else {
                pending(s, k)
            },
{
    let t = s.update(i, q);
    assert forall|a: int, b: int| 0 <= a < b < t.len() implies #[trigger] t[a].resource_id@
        != #[trigger] t[b].resource_id@ by {
        assert(s[a].resource_id@ != s[b].resource_id@);
    }
    assert forall|k: Seq<char>| #[trigger]
        pending(s.update(i, q), k) == if k == s[i].resource_id@ {
            q.entries@
        } else {
            pending(s, k)
        } by {
        if k == s[i].resource_id@ {
            lemma_queue_index(t, i);
        } else if has_queue(s, k) {
            let j = choose|j: int| 0 <= j < s.len() && s[j].resource_id@ == k;
            lemma_queue_index(s, j);
            lemma_queue_index(t, j);
        } else {
            assert(!has_queue(t, k));
        }
    }
}

proof fn lemma_queue_push(s: Seq<ResourceQueue>, q: ResourceQueue)
    requires
        queues_unique(s),
        !has_queue(s, q.resource_id@),
        q.entries@.len() == 0,
    ensures
        queues_unique(s.push(q)),
        forall|k: Seq<char>| #[trigger] pending(s.push(q), k) == pending(s, k),
{
    let t = s.push(q);
    assert forall|a: int, b: int| 0 <= a < b < t.len() implies #[trigger] t[a].resource_id@
        != #[trigger] t[b].resource_id@ by {
        if b == s.len() {
            assert(t[a] == s[a]);
        } else {
            assert(s[a].resource_id@ != s[b].resource_id@);
        }
    }
    assert forall|k: Seq<char>| #[trigger] pending(s.push(q), k) == pending(s, k) by {
        if k == q.resource_id@ {
            lemma_queue_index(t, s.len() as int);
        } else if has_queue(s, k) {
            let j = choose|j: int| 0 <= j < s.len() && s[j].resource_id@ == k;
            lemma_queue_index(s, j);
            assert(t[j] == s[j]);
            lemma_queue_index(t, j);
        } else {
            assert forall|j: int| 0 <= j < t.len() implies t[j].resource_id@ != k by {
                if j < s.len() {
                    assert(t[j] == s[j]);
                }
            }
        }
    }
}

proof fn lemma_insert_ordered(es: Seq<LeaseQueueEntry>, e: LeaseQueueEntry, pos: int)
    requires
        queue_ordered(es),
        is_insert_position(es, e, pos),
    ensures
        queue_ordered(es.insert(pos, e)),
{
    let t = es.insert(pos, e);
    assert forall|i: int, j: int| 0 <= i < j < t.len() implies precedes(#[trigger] t[i], #[trigger] t[j]) by {
        if i < pos && j < pos {
            assert(t[i] == es[i] && t[j] == es[j]);
        } else if i < pos && j == pos {
            assert(t[i] == es[i]);
        } else if i < pos {
            assert(t[i] == es[i] && t[j] == es[j - 1]);
        } else if i == pos {
            assert(t[j] == es[j - 1]);
            assert(!precedes(es[j - 1], e));
        } else {
            assert(t[i] == es[i - 1] && t[j] == es[j - 1]);
        }
    }
}

proof fn lemma_remove_ordered(es: Seq<LeaseQueueEntry>, i: int)
    requires
        queue_ordered(es),
        0 <= i < es.len(),
    ensures
        queue_ordered(es.remove(i)),
{
    let t = es.remove(i);
    assert forall|a: int, b: int| 0 <= a < b < t.len() implies precedes(#[trigger] t[a], #[trigger] t[b]) by {
        let a2 = if a < i { a } else { a + 1 };
        let b2 = if b < i { b } else { b + 1 };
        assert(t[a] == es[a2] && t[b] == es[b2]);
    }
}

fn entry_precedes(a: &LeaseQueueEntry, b: &LeaseQueueEntry) -> (r: bool)
    ensures
        r == precedes(*a, *b),
{
    a.priority.as_index() > b.priority.as_index() || (a.priority.as_index() == b.priority.as_index()
        && a.enqueued_at <= b.enqueued_at)
}

/// The tunables of the lease registry. Durations are milliseconds; `consensus_threshold` is
/// in thousandths; heat scores are in millionths and `heat_retention_per_ms` is the share
/// of a score kept per millisecond, in parts per billion.
#[derive(Debug, Clone)]
pub struct TerritoryPolicy {
    pub default_lease_duration: u64,
    pub max_lease_duration: u64,
    pub auto_extend_threshold: u64,
    pub negotiation_timeout: u64,
    pub negotiation_max_rounds: u32,
    pub escalation_queue_threshold: usize,
    pub escalation_deadlock_timeout: u64,
    pub fairness_starvation_threshold: u64,
    pub fairness_priority_boost_after: u64,
    pub override_priority_delta: u8,
    pub spatial_cell_size: u64,
    pub consensus_threshold: u64,
    pub heat_retention_per_ms: u64,
    pub heat_increment: u64,
    pub heat_max: u64,
}

/// The lease registry: leases, pending requests and the heat map, under one owner.
#[derive(Debug, Clone)]
pub struct TerritoryManager {
    pub policy: TerritoryPolicy,
    pub leases: Vec<Lease>,
    pub queues: Vec<ResourceQueue>,
    pub heat_map: HeatMap,
    pub next_lease_id: u64,
    pub next_request_id: u64,
}

impl TerritoryManager {
    /// At most one lease and one queue per resource; each queue in order; heat capped.
    pub open spec fn wf(&self) -> bool {
        &&& leases_unique(self.leases@)
        &&& forall|i: int| 0 <= i < self.leases@.len() ==> (#[trigger] self.leases@[i]).id.0 < self.next_lease_id
        &&& queues_unique(self.queues@)
        &&& queues_ordered(self.queues@)
        &&& self.heat_map.wf()
    }

    /// Every held lease has an id below the next one handed out, so a grant's id is fresh.
    pub proof fn lemma_lease_ids_fresh(&self, k: Seq<char>)
        requires
            self.wf(),
        ensures
            self.lease_on(k) matches Some(l) ==> l.id.0 < self.next_lease_id,
    {
        if has_lease(self.leases@, k) {
            let i = choose|i: int| 0 <= i < self.leases@.len() && self.leases@[i].resource_id@ == k;
            assert(self.leases@[i].id.0 < self.next_lease_id);
        }
    }

    pub open spec fn lease_on(&self, k: Seq<char>) -> Option<Lease> {
        lease_for(self.leases@, k)
    }

    pub open spec fn waiting_on(&self, k: Seq<char>) -> Seq<LeaseQueueEntry> {
        pending(self.queues@, k)
    }

    fn find_lease(&self, resource: &String) -> (r: Option<usize>)
        requires
            leases_unique(self.leases@),
        ensures
            match r {
                Some(i) => i < self.leases@.len() && self.leases@[i as int].resource_id@ == resource@
                    && lease_for(self.leases@, resource@) == Some(self.leases@[i as int]),
                None => !has_lease(self.leases@, resource@) && lease_for(self.leases@, resource@)
                    is None,
            },
    {
        let mut i: usize = 0;
        while i < self.leases.len()
            invariant
                0 <= i <= self.leases@.len(),
                leases_unique(self.leases@),
                forall|k: int| 0 <= k < i ==> (#[trigger] self.leases@[k]).resource_id@ != resource@,
            decreases self.leases@.len() - i,
        {
            if same_text(&self.leases[i].resource_id, resource) {
                proof {
                    lemma_lease_for_index(self.leases@, i as int);
                }
                return Some(i);
            }
            i += 1;
        }
        None
    }

    fn find_queue(&self, resource: &String) -> (r: Option<usize>)
        requires
            queues_unique(self.queues@),
        ensures
            match r {
                Some(i) => i < self.queues@.len() && self.queues@[i as int].resource_id@ == resource@
                    && pending(self.queues@, resource@) == self.queues@[i as int].entries@,
                None => !has_queue(self.queues@, resource@) && pending(self.queues@, resource@)
                    == Seq::<LeaseQueueEntry>::empty(),
            },
    {
        let mut i: usize = 0;
        while i < self.queues.len()
            invariant
                0 <= i <= self.queues@.len(),
                queues_unique(self.queues@),
                forall|k: int| 0 <= k < i ==> (#[trigger] self.queues@[k]).resource_id@ != resource@,
            decreases self.queues@.len() - i,
        {
            if same_text(&self.queues[i].resource_id, resource) {
                proof {
                    lemma_queue_index(self.queues@, i as int);
                }
                return Some(i);
            }
            i += 1;
        }
        None
    }

    /// `votes` followed by a "no" from every waiter on `resource` other than `requester`.
    fn waiter_ballot(&self, resource: &String, requester: &String, votes: Vec<QuorumVote>) -> (r: Vec<QuorumVote>)
        requires
            queues_unique(self.queues@),
        ensures
            r@ == votes@ + waiter_votes(self.waiting_on(resource@), requester@),
    {
        let mut votes = votes;
        let ghost base = votes@;
        match self.find_queue(resource) {
            Some(q) => {
                let ghost es = self.queues@[q as int].entries@;
                let n = self.queues[q].entries.len();
                let mut j: usize = 0;
                while j < n
                    invariant
                        q < self.queues@.len(),
                        es == self.queues@[q as int].entries@,
                        n == es.len(),
                        0 <= j <= n,
                        votes@ == base + waiter_votes(es.subrange(0, j as int), requester@),
                    decreases n - j,
                {
                    let x = &self.queues[q].entries[j];
                    let ghost sub = es.subrange(0, j + 1);
                    assert(sub.drop_last() =~= es.subrange(0, j as int));
                    assert(sub.last() == es[j as int]);
                    if !same_text(&x.agent_id, requester) {
                        votes.push(
                            QuorumVote {
                                agent_id: x.agent_id.clone(),
                                weight: (x.priority.as_index() as u64 + 1) * 1000,
                                vote: false,
                            },
                        );
                    }
                    proof {
                        assert(votes@ =~= base + waiter_votes(sub, requester@));
                    }
                    j += 1;
                }
                assert(es.subrange(0, n as int) =~= es);
            },
            None => {
                assert(votes@ =~= base + waiter_votes(Seq::<LeaseQueueEntry>::empty(), requester@));
            },
        }
        votes
    }

    /// Index of the queue for `resource`, made (empty) when there was none.
    fn queue_index(&mut self, resource: &String) -> (r: usize)
        requires
            old(self).wf(),
        ensures
            final(self).wf(),
            r < final(self).queues@.len(),
            final(self).queues@[r as int].resource_id@ == resource@,
            forall|k: Seq<char>| #[trigger] final(self).waiting_on(k) == old(self).waiting_on(k),
            final(self).leases == old(self).leases,
            final(self).policy == old(self).policy,
            final(self).heat_map == old(self).heat_map,
            final(self).next_lease_id == old(self).next_lease_id,
            final(self).next_request_id == old(self).next_request_id,
    {
        match self.find_queue(resource) {
            Some(i) => i,
            None => {
                let q = ResourceQueue { resource_id: resource.clone(), entries: Vec::new() };
                proof {
                    lemma_queue_push(self.queues@, q);
                }
                self.queues.push(q);
                proof {
                    assert(queues_ordered(self.queues@)) by {
                        assert forall|i: int| 0 <= i < self.queues@.len() implies queue_ordered(
                            #[trigger] self.queues@[i].entries@,
                        ) by {
                            if i < self.queues@.len() - 1 {
                                assert(self.queues@[i] == old(self).queues@[i]);
                            }
                        }
                    }
                }
                self.queues.len() - 1
            },
        }
    }

    /// Places `e` in `resource`'s queue by tier and enqueue time; returns its index.
    fn enqueue(&mut self, resource: &String, e: LeaseQueueEntry) -> (r: usize)
        requires
            old(self).wf(),
        ensures
            final(self).wf(),
            is_insert_position(old(self).waiting_on(resource@), e, r as int),
            final(self).waiting_on(resource@) == old(self).waiting_on(resource@).insert(r as int, e),
            forall|k: Seq<char>|
                k != resource@ ==> #[trigger] final(self).waiting_on(k) == old(self).waiting_on(k),
            final(self).leases == old(self).leases,
            final(self).policy == old(self).policy,
            final(self).heat_map == old(self).heat_map,
            final(self).next_lease_id == old(self).next_lease_id,
            final(self).next_request_id == old(self).next_request_id,
    {
        let qi = self.queue_index(resource);
        let ghost mid = *self;
        let ghost es = self.queues@[qi as int].entries@;
        proof {
            lemma_queue_index(self.queues@, qi as int);
            assert(self.waiting_on(resource@) == old(self).waiting_on(resource@));
            assert(es == old(self).waiting_on(resource@));
        }
        let n = self.queues[qi].entries.len();
        let mut pos: usize = 0;
        while pos < n && entry_precedes(&self.queues[qi].entries[pos], &e)
            invariant
                0 <= pos <= n,
                qi < self.queues@.len(),
                n == es.len(),
                es == self.queues@[qi as int].entries@,
                forall|k: int| 0 <= k < pos ==> precedes(#[trigger] es[k], e),
            decreases n - pos,
        {
            pos += 1;
        }
        proof {
            assert forall|k: int| pos <= k < es.len() implies !precedes(#[trigger] es[k], e) by {
                assert(queue_ordered(self.queues@[qi as int].entries@));
                if k > pos {
                    assert(precedes(es[pos as int], es[k]));
                }
            }
            lemma_insert_ordered(es, e, pos as int);
        }
        let ghost before = self.queues@;
        self.queues[qi].entries.insert(pos, e);
        proof {
            lemma_queue_update(before, qi as int, self.queues@[qi as int]);
            assert(self.queues@ =~= before.update(qi as int, self.queues@[qi as int]));
            assert(self.waiting_on(resource@) == es.insert(pos as int, e));
            assert forall|k: Seq<char>| k != resource@ implies #[trigger] self.waiting_on(k)
                == old(self).waiting_on(k) by {
                assert(mid.waiting_on(k) == old(self).waiting_on(k));
            }
            assert forall|i: int| 0 <= i < self.queues@.len() implies queue_ordered(
                #[trigger] self.queues@[i].entries@,
            ) by {
                if i != qi {
                    assert(self.queues@[i] == before[i]);
                }
            }
        }
        pos
    }
}

// ----- what an acquisition does -----

/// A fresh lease for `req`, granted at `now`, lasting the shorter of the default and
/// maximal durations.
pub open spec fn new_lease(req: LeaseRequest, now: u64, p: TerritoryPolicy, id: u64) -> Lease {
    Lease {
        id: LeaseId(id),
        resource_id: req.resource_id,
        holder_id: req.agent_id,
        holder_role: req.holder_role,
        priority: req.priority,
        granted_at: now,
        expires_at: sat_add(now, min_u64(p.default_lease_duration, p.max_lease_duration)),
        last_heartbeat_at: now,
        holder_progress: clamp_progress(req.progress_hint),
        negotiation_state: NegotiationState::Idle,
        conflict_attempts: 0,
        defer_count: 0,
        override_count: 0,
        escalation_ticket: None,
        coordinates: req.coordinates,
    }
}

/// The lease `l` rewritten in place for the overriding request `req`.
pub open spec fn overridden_lease(l: Lease, req: LeaseRequest, now: u64, p: TerritoryPolicy) -> Lease {
    Lease {
        holder_id: req.agent_id,
        holder_role: req.holder_role,
        priority: req.priority,
        granted_at: now,
        expires_at: sat_add(now, p.default_lease_duration),
        last_heartbeat_at: now,
        holder_progress: clamp_progress(req.progress_hint),
        override_count: sat_inc(l.override_count),
        coordinates: req.coordinates,
        ..l
    }
}

/// The request's tier exceeds the holder's by at least the policy's delta.
pub open spec fn overrides(req: Priority, holder: Priority, p: TerritoryPolicy) -> bool {
    tier_index(req) >= tier_index(holder) + p.override_priority_delta
}

/// The holder's lease runs out within the auto-extend threshold.
pub open spec fn defers(l: Lease, now: u64, p: TerritoryPolicy) -> bool {
    sat_sub(l.expires_at, now) <= p.auto_extend_threshold
}

pub open spec fn queued_entry(
    req: LeaseRequest,
    now: u64,
    p: TerritoryPolicy,
    id: u64,
    deferred: bool,
) -> LeaseQueueEntry {
    LeaseQueueEntry {
        id: RequestId(id),
        agent_id: req.agent_id,
        priority: req.priority,
        holder_role: req.holder_role,
        coordinates: req.coordinates,
        enqueued_at: now,
        deferred_until: if deferred {
            Some(sat_add(now, p.auto_extend_threshold))
        } else {
            None
        },
        state: if deferred {
            NegotiationState::Deferred
        } else {
            NegotiationState::Queued
        },
        escalation_ticket: None,
    }
}

/// A ballot of weight `tier + 1` (in thousandths).
pub open spec fn tier_vote(agent: String, p: Priority, vote: bool) -> QuorumVote {
    QuorumVote { agent_id: agent, weight: ((tier_index(p) + 1) * 1000) as u64, vote }
}

/// A "no" from every waiter other than `requester`, in queue order.
pub open spec fn waiter_votes(es: Seq<LeaseQueueEntry>, requester: Seq<char>) -> Seq<QuorumVote>
    decreases es.len(),
{
    if es.len() == 0 {
        seq![]
    } else {
        let rest = waiter_votes(es.drop_last(), requester);
        if es.last().agent_id@ != requester {
            rest.push(tier_vote(es.last().agent_id, es.last().priority, false))
        } else {
            rest
        }
    }
}

pub open spec fn starving(es: Seq<LeaseQueueEntry>, now: u64, p: TerritoryPolicy) -> bool {
    exists|i: int|
        0 <= i < es.len() && sat_sub(now, #[trigger] es[i].enqueued_at)
            >= p.fairness_starvation_threshold
}

/// Queue depth first, then starvation.
pub open spec fn escalation_for(es: Seq<LeaseQueueEntry>, now: u64, p: TerritoryPolicy) -> Option<
    EscalationReason,
> {
    if es.len() >= p.escalation_queue_threshold {
        Some(EscalationReason::QueueDepth)
    } else if starving(es, now, p) {
        Some(EscalationReason::Starvation)
    } else {
        None
    }
}

pub open spec fn decision_handle(d: LeaseDecision) -> Option<NegotiationHandle> {
    match d {
        LeaseDecision::Deferred { handle, .. } => Some(handle),
        LeaseDecision::Queued(handle) => Some(handle),
        _ => None,
    }
}

impl TerritoryManager {
    pub open spec fn heat_after_bump(old: TerritoryManager, new: TerritoryManager, resource: String, now: u64) -> bool {
        &&& new.heat_map.cells@ == cells_at(
            with_bump(
                old.heat_map.cells@,
                resource,
                old.heat_map.retention_per_ms as nat,
                now,
                old.heat_map.increment,
                old.heat_map.max_value,
            ),
            old.heat_map.retention_per_ms as nat,
            now,
        )
        &&& new.heat_map.retention_per_ms == old.heat_map.retention_per_ms
        &&& new.heat_map.increment == old.heat_map.increment
        &&& new.heat_map.max_value == old.heat_map.max_value
    }

    /// Acquires `request.resource_id` at `now`.
    /// - No holder: a new lease is granted.
    /// - The request outranks the holder by the override delta: the lease is rewritten for
    ///   the requester in place, and the holder's "no" and the requester's "yes" go to a
    ///   quorum with reason "override".
    /// - Otherwise the request is queued (deferred until `now + auto_extend_threshold` when
    ///   the holder's lease runs out within that threshold), the holder's counters move, and
    ///   the queue is escalated on depth or starvation. The ballot then also holds a "no"
    ///   from each other waiter, with reason "escalate", "defer" or "queue".
    /// Every path bumps the resource's heat.
    pub fn acquire_lease(&mut self, request: LeaseRequest, now: u64) -> (r: AcquireOutcome)
        requires
            old(self).wf(),
            old(self).next_lease_id < u64::MAX,
            old(self).next_request_id < u64::MAX,
        ensures
            final(self).wf(),
            final(self).policy == old(self).policy,
            Self::heat_after_bump(*old(self), *final(self), request.resource_id, now),
            summary_view(r.heat) == summary_of(final(self).heat_map.cells@),
            forall|k: Seq<char>|
                k != request.resource_id@ ==> #[trigger] final(self).lease_on(k) == old(
                    self,
                ).lease_on(k) && final(self).waiting_on(k) == old(self).waiting_on(k),
            match old(self).lease_on(request.resource_id@) {
                None => {
                    let l = new_lease(request, now, old(self).policy, old(self).next_lease_id);
                    &&& r.decision == LeaseDecision::Granted(snapshot_of(l))
                    &&& final(self).lease_on(request.resource_id@) == Some(l)
                    &&& final(self).waiting_on(request.resource_id@) == old(self).waiting_on(
                        request.resource_id@,
                    )
                    &&& final(self).next_lease_id == old(self).next_lease_id + 1
                    &&& final(self).next_request_id == old(self).next_request_id
                    &&& r.quorum is None
                    &&& r.escalation is None
                },
                Some(h) => if overrides(request.priority, h.priority, old(self).policy) {
                    let l = overridden_lease(h, request, now, old(self).policy);
                    &&& r.decision == LeaseDecision::Overridden {
                        previous: snapshot_of(h),
                        lease: snapshot_of(l),
                    }
                    &&& final(self).lease_on(request.resource_id@) == Some(l)
                    &&& final(self).waiting_on(request.resource_id@) == old(self).waiting_on(
                        request.resource_id@,
                    )
                    &&& final(self).next_lease_id == old(self).next_lease_id
                    &&& final(self).next_request_id == old(self).next_request_id
                    &&& r.escalation is None
                    &&& r.quorum matches Some(q) && q.reason@ == "override"@ && q.votes@ == seq![
                        tier_vote(h.holder_id, h.priority, false),
                        tier_vote(request.agent_id, request.priority, true),
                    ] + waiter_votes(old(self).waiting_on(request.resource_id@), request.agent_id@)
                } else {
                    let deferred = defers(h, now, old(self).policy);
                    let e = queued_entry(
                        request,
                        now,
                        old(self).policy,
                        old(self).next_request_id,
                        deferred,
                    );
                    let before = old(self).waiting_on(request.resource_id@);
                    let after = final(self).waiting_on(request.resource_id@);
                    &&& decision_handle(r.decision) matches Some(hd) && {
                        let pos = hd.queue_position - 1;
                        &&& hd.request_id == RequestId(old(self).next_request_id)
                        &&& hd.resource_id == request.resource_id
                        &&& hd.agent_id == request.agent_id
                        &&& is_insert_position(before, e, pos)
                        &&& after == before.insert(pos, e)
                    }
                    &&& deferred ==> (r.decision matches LeaseDecision::Deferred { grace_deadline, .. }
                        && grace_deadline == sat_add(now, old(self).policy.auto_extend_threshold))
                    &&& !deferred ==> r.decision is Queued
                    &&& final(self).lease_on(request.resource_id@) == Some(
                        if deferred {
                            Lease { defer_count: sat_inc(h.defer_count), ..h }
                        } else {
                            Lease { conflict_attempts: sat_inc(h.conflict_attempts), ..h }
                        },
                    )
                    &&& final(self).next_lease_id == old(self).next_lease_id
                    &&& final(self).next_request_id == old(self).next_request_id + 1
                    &&& r.escalation == escalation_for(after, now, old(self).policy)
                    &&& r.quorum matches Some(q) && q.votes@ == seq![
                        tier_vote(h.holder_id, h.priority, false),
                        tier_vote(request.agent_id, request.priority, true),
                    ] + waiter_votes(after, request.agent_id@) && q.reason@ == if r.escalation is Some {
                        "escalate"@
                    } else if deferred {
                        "defer"@
                    } else {
                        "queue"@
                    }
                },
            },
    {
        proof {
            reveal_strlit("override");
            reveal_strlit("escalate");
            reveal_strlit("defer");
            reveal_strlit("queue");
        }
        let heat = self.heat_map.bump(&request.resource_id, now);
        let ghost bumped = *self;
        assert(Self::heat_after_bump(*old(self), bumped, request.resource_id, now));
        match self.find_lease(&request.resource_id) {
            None => {
                let l = Lease::new(&request, now, &self.policy, self.next_lease_id);
                let snap = l.snapshot();
                proof {
                    lemma_lease_push(self.leases@, l);
                }
                self.leases.push(l);
                self.next_lease_id = self.next_lease_id + 1;
                AcquireOutcome {
                    decision: LeaseDecision::Granted(snap),
                    escalation: None,
                    quorum: None,
                    heat,
                }
            },
            Some(i) => {
                let h = &self.leases[i];
                let ghost hv = *h;
                let holder_tier = h.priority.as_index();
                let req_tier = request.priority.as_index();
                let mut votes: Vec<QuorumVote> = Vec::new();
                votes.push(
                    QuorumVote {
                        agent_id: h.holder_id.clone(),
                        weight: (holder_tier as u64 + 1) * 1000,
                        vote: false,
                    },
                );
                votes.push(
                    QuorumVote {
                        agent_id: request.agent_id.clone(),
                        weight: (req_tier as u64 + 1) * 1000,
                        vote: true,
                    },
                );
                if req_tier >= holder_tier + self.policy.override_priority_delta as usize {
                    proof {
                        assert(votes@ =~= seq![
                            tier_vote(hv.holder_id, hv.priority, false),
                            tier_vote(request.agent_id, request.priority, true),
                        ]);
                    }
                    let votes = self.waiter_ballot(&request.resource_id, &request.agent_id, votes);
                    let h = &self.leases[i];
                    let previous = h.snapshot();
                    let l = Lease {
                        id: h.id,
                        resource_id: h.resource_id.clone(),
                        holder_id: request.agent_id.clone(),
                        holder_role: copy_opt_text(&request.holder_role),
                        priority: request.priority,
                        granted_at: now,
                        expires_at: add_sat(now, self.policy.default_lease_duration),
                        last_heartbeat_at: now,
                        holder_progress: progress_of(request.progress_hint),
                        negotiation_state: h.negotiation_state,
                        conflict_attempts: h.conflict_attempts,
                        defer_count: h.defer_count,
                        override_count: inc_sat(h.override_count),
                        escalation_ticket: copy_opt_text(&h.escalation_ticket),
                        coordinates: request.coordinates,
                    };
                    let snap = l.snapshot();
                    proof {
                        lemma_lease_update(self.leases@, i as int, l);
                    }
                    self.leases.set(i, l);
                    AcquireOutcome {
                        decision: LeaseDecision::Overridden { previous, lease: snap },
                        escalation: None,
                        quorum: Some(QuorumRequest { votes, reason: String::from_str("override") }),
                        heat,
                    }
                } else {
                    proof {
                        assert(votes@ =~= seq![
                            tier_vote(hv.holder_id, hv.priority, false),
                            tier_vote(request.agent_id, request.priority, true),
                        ]);
                    }
                    self.contend(request, now, i, votes, heat)
                }
            },
        }
    }
}

impl TerritoryManager {
    /// The contested path of `acquire_lease`: `i` is the holder's lease, which the request
    /// does not outrank enough to override.
    fn contend(
        &mut self,
        request: LeaseRequest,
        now: u64,
        i: usize,
        votes: Vec<QuorumVote>,
        heat: HeatSummary,
    ) -> (r: AcquireOutcome)
        requires
            old(self).wf(),
            old(self).next_request_id < u64::MAX,
            i < old(self).leases@.len(),
            old(self).leases@[i as int].resource_id@ == request.resource_id@,
            !overrides(request.priority, old(self).leases@[i as int].priority, old(self).policy),
            votes@ == seq![
                tier_vote(old(self).leases@[i as int].holder_id, old(self).leases@[i as int].priority, false),
                tier_vote(request.agent_id, request.priority, true),
            ],
        ensures
            final(self).wf(),
            final(self).policy == old(self).policy,
            final(self).heat_map == old(self).heat_map,
            r.heat == heat,
            forall|k: Seq<char>|
                k != request.resource_id@ ==> #[trigger] final(self).lease_on(k) == old(
                    self,
                ).lease_on(k) && final(self).waiting_on(k) == old(self).waiting_on(k),
            ({
                let h = old(self).leases@[i as int];
                let deferred = defers(h, now, old(self).policy);
                let e = queued_entry(
                    request,
                    now,
                    old(self).policy,
                    old(self).next_request_id,
                    deferred,
                );
                let before = old(self).waiting_on(request.resource_id@);
                let after = final(self).waiting_on(request.resource_id@);
                &&& decision_handle(r.decision) matches Some(hd) && {
                    let pos = hd.queue_position - 1;
                    &&& hd.request_id == RequestId(old(self).next_request_id)
                    &&& hd.resource_id == request.resource_id
                    &&& hd.agent_id == request.agent_id
                    &&& is_insert_position(before, e, pos)
                    &&& after == before.insert(pos, e)
                }
                &&& deferred ==> (r.decision matches LeaseDecision::Deferred { grace_deadline, .. }
                    && grace_deadline == sat_add(now, old(self).policy.auto_extend_threshold))
                &&& !deferred ==> r.decision is Queued
                &&& final(self).lease_on(request.resource_id@) == Some(
                    if deferred {
                        Lease { defer_count: sat_inc(h.defer_count), ..h }
                    } else {
                        Lease { conflict_attempts: sat_inc(h.conflict_attempts), ..h }
                    },
                )
                &&& final(self).next_lease_id == old(self).next_lease_id
                &&& final(self).next_request_id == old(self).next_request_id + 1
                &&& r.escalation == escalation_for(after, now, old(self).policy)
                &&& r.quorum matches Some(q) && q.votes@ == seq![
                    tier_vote(h.holder_id, h.priority, false),
                    tier_vote(request.agent_id, request.priority, true),
                ] + waiter_votes(after, request.agent_id@) && q.reason@ == if r.escalation is Some {
                    "escalate"@
                } else if deferred {
                    "defer"@
                } else {
                    "queue"@
                }
            }),
    {
        proof {
            reveal_strlit("escalate");
            reveal_strlit("defer");
            reveal_strlit("queue");
            lemma_lease_for_index(self.leases@, i as int);
        }
        let ghost h = self.leases@[i as int];
        let time_left: u64 = if self.leases[i].expires_at >= now {
            self.leases[i].expires_at - now
        } else {
            0
        };
        let deferred = time_left <= self.policy.auto_extend_threshold;
        let hl = &self.leases[i];
        let updated = Lease {
            id: hl.id,
            resource_id: hl.resource_id.clone(),
            holder_id: hl.holder_id.clone(),
            holder_role: copy_opt_text(&hl.holder_role),
            priority: hl.priority,
            granted_at: hl.granted_at,
            expires_at: hl.expires_at,
            last_heartbeat_at: hl.last_heartbeat_at,
            holder_progress: hl.holder_progress,
            negotiation_state: hl.negotiation_state,
            conflict_attempts: if deferred {
                hl.conflict_attempts
            } else {
                inc_sat(hl.conflict_attempts)
            },
            defer_count: if deferred {
                inc_sat(hl.defer_count)
            } else {
                hl.defer_count
            },
            override_count: hl.override_count,
            escalation_ticket: copy_opt_text(&hl.escalation_ticket),
            coordinates: hl.coordinates,
        };
        let ghost uv = updated;
        proof {
            lemma_lease_update(self.leases@, i as int, updated);
        }
        self.leases.set(i, updated);
        assert(self.leases@ == old(self).leases@.update(i as int, uv));
        let grace = add_sat(now, self.policy.auto_extend_threshold);
        let request_id = RequestId::new(self.next_request_id);
        let entry = LeaseQueueEntry {
            id: request_id,
            agent_id: request.agent_id.clone(),
            priority: request.priority,
            holder_role: copy_opt_text(&request.holder_role),
            coordinates: request.coordinates,
            enqueued_at: now,
            deferred_until: if deferred {
                Some(grace)
            } else {
                None
            },
            state: if deferred {
                NegotiationState::Deferred
            } else {
                NegotiationState::Queued
            },
            escalation_ticket: None,
        };
        let ghost mid = *self;
        let pos = self.enqueue(&request.resource_id, entry);
        let ghost queued = *self;
        self.next_request_id = self.next_request_id + 1;
        assert forall|k: Seq<char>| k != request.resource_id@ implies #[trigger] self.lease_on(k)
            == old(self).lease_on(k) && self.waiting_on(k) == old(self).waiting_on(k) by {
            assert(mid.waiting_on(k) == old(self).waiting_on(k));
            assert(queued.waiting_on(k) == mid.waiting_on(k));
            assert(lease_for(old(self).leases@.update(i as int, uv), k) == old(self).lease_on(k));
            assert(self.leases@ == mid.leases@);
            assert(self.lease_on(k) == mid.lease_on(k));
        }
        assert(lease_for(old(self).leases@.update(i as int, uv), request.resource_id@) == Some(uv));
        assert(mid.waiting_on(request.resource_id@) == old(self).waiting_on(request.resource_id@));
        assert(self.waiting_on(request.resource_id@) == queued.waiting_on(request.resource_id@));
        // ballots of the other waiters, and the escalation test
        let qi = self.find_queue(&request.resource_id);
        let mut votes = votes;
        let mut depth: usize = 0;
        let mut starved = false;
        match qi {
            Some(q) => {
                let ghost es = self.queues@[q as int].entries@;
                let n = self.queues[q].entries.len();
                let mut j: usize = 0;
                while j < n
                    invariant
                        q < self.queues@.len(),
                        es == self.queues@[q as int].entries@,
                        n == es.len(),
                        0 <= j <= n,
                        votes@ == seq![
                            tier_vote(h.holder_id, h.priority, false),
                            tier_vote(request.agent_id, request.priority, true),
                        ] + waiter_votes(es.subrange(0, j as int), request.agent_id@),
                        starved == starving(es.subrange(0, j as int), now, self.policy),
                    decreases n - j,
                {
                    let x = &self.queues[q].entries[j];
                    let ghost sub = es.subrange(0, j + 1);
                    assert(sub.drop_last() =~= es.subrange(0, j as int));
                    assert(sub.last() == es[j as int]);
                    if !same_text(&x.agent_id, &request.agent_id) {
                        votes.push(
                            QuorumVote {
                                agent_id: x.agent_id.clone(),
                                weight: (x.priority.as_index() as u64 + 1) * 1000,
                                vote: false,
                            },
                        );
                    }
                    let waited: u64 = if now >= x.enqueued_at {
                        now - x.enqueued_at
                    } else {
                        0
                    };
                    proof {
                        if starving(sub, now, self.policy) && !starving(es.subrange(0, j as int), now, self.policy) {
                            let w = choose|w: int| 0 <= w < sub.len() && sat_sub(now, #[trigger] sub[w].enqueued_at)
                                >= self.policy.fairness_starvation_threshold;
                            if w < j {
                                assert(es.subrange(0, j as int)[w] == sub[w]);
                            }
                        }
                        if starving(es.subrange(0, j as int), now, self.policy) {
                            let w = choose|w: int| 0 <= w < j && sat_sub(now, #[trigger] es.subrange(0, j as int)[w].enqueued_at)
                                >= self.policy.fairness_starvation_threshold;
                            assert(sub[w] == es.subrange(0, j as int)[w]);
                        }
                        if waited >= self.policy.fairness_starvation_threshold {
                            assert(sub[j as int] == es[j as int]);
                        }
                    }
                    if waited >= self.policy.fairness_starvation_threshold {
                        starved = true;
                    }
                    j += 1;
                }
                assert(es.subrange(0, n as int) =~= es);
                depth = n;
            },
            None => {
            },
        }
        assert(pos < depth);
        let handle = NegotiationHandle {
            request_id,
            resource_id: request.resource_id.clone(),
            agent_id: request.agent_id.clone(),
            queue_position: pos + 1,
        };
        let escalation = if depth >= self.policy.escalation_queue_threshold {
            Some(EscalationReason::QueueDepth)
        } else if starved {
            Some(EscalationReason::Starvation)
        } else {
            None
        };
        let reason = if escalation.is_some() {
            String::from_str("escalate")
        } else if deferred {
            String::from_str("defer")
        } else {
            String::from_str("queue")
        };
        let decision = if deferred {
            LeaseDecision::Deferred { handle, grace_deadline: grace }
        } else {
            LeaseDecision::Queued(handle)
        };
        AcquireOutcome {
            decision,
            escalation,
            quorum: Some(QuorumRequest { votes, reason }),
            heat,
        }
    }
}

/// The request a queued entry stands for, on `resource`.
pub open spec fn request_from_entry(e: LeaseQueueEntry, resource: String) -> LeaseRequest {
    LeaseRequest {
        agent_id: e.agent_id,
        resource_id: resource,
        priority: e.priority,
        holder_role: e.holder_role,
        progress_hint: None,
        coordinates: e.coordinates,
    }
}

/// The lease `l` handed to `to`, restarted at `now`.
pub open spec fn transferred_lease(l: Lease, to: String, tier: Option<Priority>, now: u64, p: TerritoryPolicy) -> Lease {
    Lease {
        holder_id: to,
        priority: match tier {
            Some(t) => t,
            None => l.priority,
        },
        granted_at: now,
        expires_at: sat_add(now, p.default_lease_duration),
        last_heartbeat_at: now,
        override_count: sat_inc(l.override_count),
        ..l
    }
}

impl TerritoryManager {
    /// Releases `resource` when `agent_id` holds it, then grants it to the first queued
    /// request that is not waiting out a deferral. `None`, with nothing changed, when the
    /// resource is free or held by another agent.
    pub fn release_lease(&mut self, agent_id: &String, resource: &String, now: u64) -> (r: Option<
        ReleaseOutcome,
    >)
        requires
            old(self).wf(),
            old(self).next_lease_id < u64::MAX,
        ensures
            final(self).wf(),
            final(self).policy == old(self).policy,
            forall|k: Seq<char>|
                k != resource@ ==> #[trigger] final(self).lease_on(k) == old(self).lease_on(k)
                    && final(self).waiting_on(k) == old(self).waiting_on(k),
            match old(self).lease_on(resource@) {
                Some(h) => if h.holder_id@ == agent_id@ {
                    &&& r matches Some(o) && o.released == snapshot_of(h) && summary_view(o.heat)
                        == summary_of(final(self).heat_map.cells@) && match first_eligible(
                        old(self).waiting_on(resource@),
                        now,
                    ) {
                        Some(idx) => {
                            let l = new_lease(
                                request_from_entry(old(self).waiting_on(resource@)[idx], *resource),
                                now,
                                old(self).policy,
                                old(self).next_lease_id,
                            );
                            &&& o.granted == Some(snapshot_of(l))
                            &&& final(self).lease_on(resource@) == Some(l)
                            &&& final(self).waiting_on(resource@) == old(self).waiting_on(
                                resource@,
                            ).remove(idx)
                            &&& final(self).next_lease_id == old(self).next_lease_id + 1
                        },
                        None => {
                            &&& o.granted is None
                            &&& final(self).lease_on(resource@) is None
                            &&& final(self).waiting_on(resource@) == old(self).waiting_on(resource@)
                            &&& final(self).next_lease_id == old(self).next_lease_id
                        },
                    }
                    &&& final(self).heat_map.cells@ == cells_at(
                        old(self).heat_map.cells@,
                        old(self).heat_map.retention_per_ms as nat,
                        now,
                    )
                } else {
                    r is None && *final(self) == *old(self)
                },
                None => r is None && *final(self) == *old(self),
            },
    {
        let i = match self.find_lease(resource) {
            Some(i) => i,
            None => {
                return None;
            },
        };
        if !same_text(&self.leases[i].holder_id, agent_id) {
            return None;
        }
        let released = self.leases[i].snapshot();
        let ghost h = self.leases@[i as int];
        proof {
            lemma_lease_remove(self.leases@, i as int);
        }
        let _ = self.leases.remove(i);
        let ghost removed = *self;
        let mut granted: Option<LeaseSnapshot> = None;
        match self.find_queue(resource) {
            Some(q) => {
                let ghost es = self.queues@[q as int].entries@;
                let n = self.queues[q].entries.len();
                let mut k: usize = 0;
                while k < n && !entry_eligible(&self.queues[q].entries[k], now)
                    invariant
                        q < self.queues@.len(),
                        es == self.queues@[q as int].entries@,
                        n == es.len(),
                        0 <= k <= n,
                        forall|j: int| 0 <= j < k ==> !eligible(#[trigger] es[j], now),
                    decreases n - k,
                {
                    k += 1;
                }
                if k < n {
                    proof {
                        lemma_first_eligible(es, now, k as int);
                        lemma_remove_ordered(es, k as int);
                        lemma_queue_index(self.queues@, q as int);
                    }
                    let ghost before = self.queues@;
                    let e = self.queues[q].entries.remove(k);
                    proof {
                        lemma_queue_update(before, q as int, self.queues@[q as int]);
                        assert(self.queues@ =~= before.update(q as int, self.queues@[q as int]));
                        assert forall|x: int| 0 <= x < self.queues@.len() implies queue_ordered(
                            #[trigger] self.queues@[x].entries@,
                        ) by {
                            if x != q {
                                assert(self.queues@[x] == before[x]);
                            }
                        }
                    }
                    let l = Lease {
                        id: LeaseId::new(self.next_lease_id),
                        resource_id: resource.clone(),
                        holder_id: e.agent_id,
                        holder_role: e.holder_role,
                        priority: e.priority,
                        granted_at: now,
                        expires_at: add_sat(
                            now,
                            if self.policy.default_lease_duration < self.policy.max_lease_duration {
                                self.policy.default_lease_duration
                            } else {
                                self.policy.max_lease_duration
                            },
                        ),
                        last_heartbeat_at: now,
                        holder_progress: 0,
                        negotiation_state: NegotiationState::Idle,
                        conflict_attempts: 0,
                        defer_count: 0,
                        override_count: 0,
                        escalation_ticket: None,
                        coordinates: e.coordinates,
                    };
                    granted = Some(l.snapshot());
                    proof {
                        assert(!has_lease(self.leases@, resource@));
                        lemma_lease_push(self.leases@, l);
                    }
                    self.leases.push(l);
                    self.next_lease_id = self.next_lease_id + 1;
                } else {
                    proof {
                        lemma_first_eligible(es, now, -1);
                    }
                }
            },
            None => {
                proof {
                    lemma_first_eligible(Seq::<LeaseQueueEntry>::empty(), now, -1);
                }
            },
        }
        let heat = self.heat_map.summary(now);
        Some(ReleaseOutcome { released, granted, heat })
    }

    /// Hands the lease on `request.resource_id` from `from_agent` to `to_agent`, restarting
    /// it at `now`; rejected, with nothing changed, unless `from_agent` holds it.
    pub fn transfer_lease(&mut self, request: TransferRequest, now: u64) -> (r: TransferDecision)
        requires
            old(self).wf(),
        ensures
            final(self).wf(),
            final(self).policy == old(self).policy,
            final(self).queues == old(self).queues,
            final(self).heat_map == old(self).heat_map,
            forall|k: Seq<char>|
                k != request.resource_id@ ==> #[trigger] final(self).lease_on(k) == old(self).lease_on(k),
            match old(self).lease_on(request.resource_id@) {
                Some(h) => if h.holder_id@ == request.from_agent@ {
                    let l = transferred_lease(h, request.to_agent, request.new_priority, now, old(self).policy);
                    &&& r == TransferDecision::Transferred { previous: snapshot_of(h), lease: snapshot_of(l) }
                    &&& final(self).lease_on(request.resource_id@) == Some(l)
                } else {
                    r is Rejected && *final(self) == *old(self)
                },
                None => r is Rejected && *final(self) == *old(self),
            },
    {
        let i = match self.find_lease(&request.resource_id) {
            Some(i) => i,
            None => {
                return TransferDecision::Rejected;
            },
        };
        if !same_text(&self.leases[i].holder_id, &request.from_agent) {
            return TransferDecision::Rejected;
        }
        let h = &self.leases[i];
        let previous = h.snapshot();
        let l = Lease {
            id: h.id,
            resource_id: h.resource_id.clone(),
            holder_id: request.to_agent,
            holder_role: copy_opt_text(&h.holder_role),
            priority: match request.new_priority {
                Some(t) => t,
                None => h.priority,
            },
            granted_at: now,
            expires_at: add_sat(now, self.policy.default_lease_duration),
            last_heartbeat_at: now,
            holder_progress: h.holder_progress,
            negotiation_state: h.negotiation_state,
            conflict_attempts: h.conflict_attempts,
            defer_count: h.defer_count,
            override_count: inc_sat(h.override_count),
            escalation_ticket: copy_opt_text(&h.escalation_ticket),
            coordinates: h.coordinates,
        };
        let lease = l.snapshot();
        proof {
            lemma_lease_update(self.leases@, i as int, l);
        }
        self.leases.set(i, l);
        TransferDecision::Transferred { previous, lease }
    }

    /// Records the holder's progress (thousandths, capped at one) and a heartbeat at `now`.
    /// `None`, with nothing changed, unless `agent_id` holds `resource`.
    pub fn update_progress(&mut self, resource: &String, agent_id: &String, progress: u64, now: u64) -> (r: Option<
        LeaseSnapshot,
    >)
        requires
            old(self).wf(),
        ensures
            final(self).wf(),
            final(self).policy == old(self).policy,
            final(self).queues == old(self).queues,
            final(self).heat_map == old(self).heat_map,
            forall|k: Seq<char>| k != resource@ ==> #[trigger] final(self).lease_on(k) == old(self).lease_on(k),
            match old(self).lease_on(resource@) {
                Some(h) => if h.holder_id@ == agent_id@ {
                    let l = Lease {
                        holder_progress: clamp_progress(Some(progress)),
                        last_heartbeat_at: now,
                        ..h
                    };
                    r == Some(snapshot_of(l)) && final(self).lease_on(resource@) == Some(l)
                } else {
                    r is None && *final(self) == *old(self)
                },
                None => r is None && *final(self) == *old(self),
            },
    {
        let i = match self.find_lease(resource) {
            Some(i) => i,
            None => {
                return None;
            },
        };
        if !same_text(&self.leases[i].holder_id, agent_id) {
            return None;
        }
        let h = &self.leases[i];
        let l = Lease {
            id: h.id,
            resource_id: h.resource_id.clone(),
            holder_id: h.holder_id.clone(),
            holder_role: copy_opt_text(&h.holder_role),
            priority: h.priority,
            granted_at: h.granted_at,
            expires_at: h.expires_at,
            last_heartbeat_at: now,
            holder_progress: progress_of(Some(progress)),
            negotiation_state: h.negotiation_state,
            conflict_attempts: h.conflict_attempts,
            defer_count: h.defer_count,
            override_count: h.override_count,
            escalation_ticket: copy_opt_text(&h.escalation_ticket),
            coordinates: h.coordinates,
        };
        let snap = l.snapshot();
        proof {
            lemma_lease_update(self.leases@, i as int, l);
        }
        self.leases.set(i, l);
        Some(snap)
    }

    pub fn current_lease(&self, resource: &String) -> (r: Option<LeaseSnapshot>)
        requires
            self.wf(),
        ensures
            match self.lease_on(resource@) {
                Some(l) => r == Some(snapshot_of(l)),
                None => r is None,
            },
    {
        match self.find_lease(resource) {
            Some(i) => Some(self.leases[i].snapshot()),
            None => None,
        }
    }

    /// Number of requests pending on `resource`.
    pub fn queue_depth(&self, resource: &String) -> (r: usize)
        requires
            self.wf(),
        ensures
            r == self.waiting_on(resource@).len(),
    {
        match self.find_queue(resource) {
            Some(q) => self.queues[q].entries.len(),
            None => 0,
        }
    }

    /// The heat summary at `now` (cells decayed and pruned).
    pub fn heat_snapshot(&mut self, now: u64) -> (r: HeatSummary)
        requires
            old(self).wf(),
        ensures
            final(self).wf(),
            final(self).leases == old(self).leases,
            final(self).queues == old(self).queues,
            final(self).policy == old(self).policy,
            final(self).heat_map.cells@ == cells_at(
                old(self).heat_map.cells@,
                old(self).heat_map.retention_per_ms as nat,
                now,
            ),
            summary_view(r) == summary_of(final(self).heat_map.cells@),
    {
        self.heat_map.summary(now)
    }
}

fn entry_eligible(e: &LeaseQueueEntry, now: u64) -> (r: bool)
    ensures
        r == eligible(*e, now),
{
    match e.deferred_until {
        Some(d) => d <= now,
        None => true,
    }
}

pub open spec fn opt_or<T>(v: Option<T>, fallback: T) -> T {
    match v {
        Some(x) => x,
        None => fallback,
    }
}

impl TerritoryPolicy {
    pub open spec fn baseline_spec() -> TerritoryPolicy {
        TerritoryPolicy {
            default_lease_duration: 900_000,
            max_lease_duration: 3_600_000,
            auto_extend_threshold: 60_000,
            negotiation_timeout: 30_000,
            negotiation_max_rounds: 3,
            escalation_queue_threshold: 2,
            escalation_deadlock_timeout: 60_000,
            fairness_starvation_threshold: 600_000,
            fairness_priority_boost_after: 300_000,
            override_priority_delta: 1,
            spatial_cell_size: 64,
            consensus_threshold: 660,
            heat_retention_per_ms: 999_837_494,
            heat_increment: 1_500_000,
            heat_max: 10_000_000,
        }
    }

    /// Fifteen-minute leases capped at an hour, one-minute auto-extend window, escalation
    /// at two waiters or ten minutes, override at one tier, quorum at 0.66, heat decaying
    /// 15% per second by 1.5 per bump up to 10.
    pub fn baseline() -> (r: TerritoryPolicy)
        ensures
            r == Self::baseline_spec(),
    {
        TerritoryPolicy {
            default_lease_duration: 900_000,
            max_lease_duration: 3_600_000,
            auto_extend_threshold: 60_000,
            negotiation_timeout: 30_000,
            negotiation_max_rounds: 3,
            escalation_queue_threshold: 2,
            escalation_deadlock_timeout: 60_000,
            fairness_starvation_threshold: 600_000,
            fairness_priority_boost_after: 300_000,
            override_priority_delta: 1,
            spatial_cell_size: 64,
            consensus_threshold: 660,
            heat_retention_per_ms: 999_837_494,
            heat_increment: 1_500_000,
            heat_max: 10_000_000,
        }
    }

    pub open spec fn from_config_spec(config: Option<&TerritoryConfig>) -> TerritoryPolicy {
        match config {
                None => Self::baseline_spec(),
                Some(c) => {
                    let b = Self::baseline_spec();
                    TerritoryPolicy {
                        default_lease_duration: duration_or(c.default_lease_duration, b.default_lease_duration),
                        max_lease_duration: duration_or(c.max_lease_duration, b.max_lease_duration),
                        auto_extend_threshold: duration_or(c.auto_extend_threshold, b.auto_extend_threshold),
                        negotiation_timeout: duration_or(c.negotiation_timeout, b.negotiation_timeout),
                        negotiation_max_rounds: opt_or(c.negotiation_max_rounds, b.negotiation_max_rounds),
                        escalation_queue_threshold: opt_or(c.escalation_queue_threshold, b.escalation_queue_threshold),
                        escalation_deadlock_timeout: duration_or(c.escalation_deadlock_timeout, b.escalation_deadlock_timeout),
                        fairness_starvation_threshold: duration_or(c.fairness_starvation_threshold, b.fairness_starvation_threshold),
                        fairness_priority_boost_after: duration_or(c.fairness_priority_boost_after, b.fairness_priority_boost_after),
                        consensus_threshold: opt_or(c.consensus_threshold, b.consensus_threshold),
                        heat_retention_per_ms: opt_or(c.heat_retention_per_ms, b.heat_retention_per_ms),
                        heat_increment: opt_or(c.heat_increment, b.heat_increment),
                        heat_max: opt_or(c.heat_max, b.heat_max),
                        ..b
                    }
                },
            }
    }

    /// The baseline with every override that is present (and, for durations, parses) applied.
    pub fn from_config(config: Option<&TerritoryConfig>) -> (r: TerritoryPolicy)
        ensures
            r == Self::from_config_spec(config),
    {
        let mut p = Self::baseline();
        match config {
            None => p,
            Some(c) => {
                p.default_lease_duration = parse_duration_or(&c.default_lease_duration, p.default_lease_duration);
                p.max_lease_duration = parse_duration_or(&c.max_lease_duration, p.max_lease_duration);
                p.auto_extend_threshold = parse_duration_or(&c.auto_extend_threshold, p.auto_extend_threshold);
                p.negotiation_timeout = parse_duration_or(&c.negotiation_timeout, p.negotiation_timeout);
                if let Some(v) = c.negotiation_max_rounds {
                    p.negotiation_max_rounds = v;
                }
                if let Some(v) = c.escalation_queue_threshold {
                    p.escalation_queue_threshold = v;
                }
                p.escalation_deadlock_timeout = parse_duration_or(&c.escalation_deadlock_timeout, p.escalation_deadlock_timeout);
                p.fairness_starvation_threshold = parse_duration_or(&c.fairness_starvation_threshold, p.fairness_starvation_threshold);
                p.fairness_priority_boost_after = parse_duration_or(&c.fairness_priority_boost_after, p.fairness_priority_boost_after);
                if let Some(v) = c.consensus_threshold {
                    p.consensus_threshold = v;
                }
                if let Some(v) = c.heat_retention_per_ms {
                    p.heat_retention_per_ms = v;
                }
                if let Some(v) = c.heat_increment {
                    p.heat_increment = v;
                }
                if let Some(v) = c.heat_max {
                    p.heat_max = v;
                }
                p
            },
        }
    }
}

impl TerritoryManager {
    /// An empty registry under the policy built from `config`.
    pub fn new(config: Option<&TerritoryConfig>) -> (r: TerritoryManager)
        ensures
            r.wf(),
            r.policy == TerritoryPolicy::from_config_spec(config),
            r.leases@.len() == 0,
            r.queues@.len() == 0,
            r.heat_map.cells@.len() == 0,
    {
        Self::with_policy(TerritoryPolicy::from_config(config))
    }

    /// An empty registry; lease and request ids start at one.
    pub fn with_policy(policy: TerritoryPolicy) -> (r: TerritoryManager)
        ensures
            r.wf(),
            r.policy == policy,
            r.leases@.len() == 0,
            r.queues@.len() == 0,
            r.heat_map.cells@.len() == 0,
            r.heat_map.increment == policy.heat_increment,
            r.heat_map.max_value == policy.heat_max,
            r.next_lease_id == 1,
            r.next_request_id == 1,
    {
        let heat_map = HeatMap::new(policy.heat_retention_per_ms, policy.heat_increment, policy.heat_max);
        TerritoryManager {
            policy,
            leases: Vec::new(),
            queues: Vec::new(),
            heat_map,
            next_lease_id: 1,
            next_request_id: 1,
        }
    }

    pub fn policy(&self) -> (r: &TerritoryPolicy)
        ensures
            *r == self.policy,
    {
        &self.policy
    }
}

/// What the registry announces to subscribers. Instants are the caller's milliseconds.
#[derive(Debug, Clone)]
pub enum TerritoryEvent {
    Granted(LeaseSnapshot),
    Deferred { handle: NegotiationHandle, grace_deadline: u64 },
    Queued(NegotiationHandle),
    Released(LeaseSnapshot),
    Overridden { previous: LeaseSnapshot, lease: LeaseSnapshot },
    Escalated { handle: NegotiationHandle, reason: EscalationReason },
}

pub open spec fn reason_label(r: EscalationReason) -> Seq<char> {
    match r {
        EscalationReason::QueueDepth => "queueDepth"@,
        EscalationReason::Starvation => "starvation"@,
        EscalationReason::Deadlock => "deadlock"@,
    }
}

pub open spec fn lease_record_view(s: LeaseSnapshot) -> (u64, Seq<char>, Seq<char>, Seq<char>) {
    (s.lease_id.0, s.resource_id@, s.holder_id@, tier_label(s.priority))
}

pub open spec fn record_view(r: LeaseRecord) -> (u64, Seq<char>, Seq<char>, Seq<char>) {
    (r.lease_id, r.resource_id@, r.holder_id@, r.priority@)
}

/// The ledger's record of a lease: id, resource, holder and tier label.
pub fn lease_record_from(snapshot: &LeaseSnapshot) -> (r: LeaseRecord)
    ensures
        record_view(r) == lease_record_view(*snapshot),
{
    LeaseRecord {
        lease_id: snapshot.lease_id.as_u64(),
        resource_id: snapshot.resource_id.clone(),
        holder_id: snapshot.holder_id.clone(),
        priority: snapshot.priority.as_str().to_string(),
    }
}

/// The ledger's record of a queued request, named `<agent>:<position>`.
pub fn queue_record_from(handle: &NegotiationHandle, grace_deadline_ms: Option<u64>) -> (r:
    LeaseQueueRecord)
    ensures
        r.request_id@ == handle.agent_id@ + ":"@ + decimal(handle.queue_position as nat),
        r.agent_id@ == handle.agent_id@,
        r.resource_id@ == handle.resource_id@,
        r.queue_position == handle.queue_position,
        r.grace_deadline_ms == grace_deadline_ms,
{
    let position = decimal_text(handle.queue_position as u64);
    let request_id = handle.agent_id.clone().concat(":").concat(position.as_str());
    proof {
        reveal_strlit(":");
    }
    LeaseQueueRecord {
        request_id,
        agent_id: handle.agent_id.clone(),
        resource_id: handle.resource_id.clone(),
        queue_position: handle.queue_position,
        grace_deadline_ms,
    }
}

pub fn escalation_record_from(handle: &NegotiationHandle, reason: &EscalationReason) -> (r:
    LeaseEscalationRecord)
    ensures
        r.agent_id@ == handle.agent_id@,
        r.resource_id@ == handle.resource_id@,
        r.reason@ == reason_label(*reason),
{
    proof {
        reveal_strlit("queueDepth");
        reveal_strlit("starvation");
        reveal_strlit("deadlock");
    }
    let reason_str = match reason {
        EscalationReason::QueueDepth => "queueDepth",
        EscalationReason::Starvation => "starvation",
        EscalationReason::Deadlock => "deadlock",
    };
    LeaseEscalationRecord {
        agent_id: handle.agent_id.clone(),
        resource_id: handle.resource_id.clone(),
        reason: reason_str.to_string(),
    }
}

/// The ledger event for a registry event: grants, releases and overrides as lease
/// records, deferrals and queueing as queue records, escalations as escalation records.
pub fn ledger_event_from_territory(event: &TerritoryEvent) -> (r: LedgerLeaseEvent)
    ensures
        match (*event, r) {
            (TerritoryEvent::Granted(s), LedgerLeaseEvent::Granted(l)) => record_view(l) == lease_record_view(s),
            (TerritoryEvent::Released(s), LedgerLeaseEvent::Released(l)) => record_view(l) == lease_record_view(s),
            (TerritoryEvent::Overridden { previous, lease }, LedgerLeaseEvent::Overridden { previous: p, lease: l }) =>
                record_view(p) == lease_record_view(previous) && record_view(l) == lease_record_view(lease),
            (TerritoryEvent::Deferred { handle, grace_deadline }, LedgerLeaseEvent::Deferred(q)) =>
                q.queue_position == handle.queue_position && q.grace_deadline_ms == Some(grace_deadline)
                    && q.agent_id@ == handle.agent_id@ && q.resource_id@ == handle.resource_id@,
            (TerritoryEvent::Queued(handle), LedgerLeaseEvent::Deferred(q)) =>
                q.queue_position == handle.queue_position && q.grace_deadline_ms is None
                    && q.agent_id@ == handle.agent_id@ && q.resource_id@ == handle.resource_id@,
            (TerritoryEvent::Escalated { handle, reason }, LedgerLeaseEvent::Escalated(e)) =>
                e.reason@ == reason_label(reason) && e.agent_id@ == handle.agent_id@,
            _ => false,
        },
{
    match event {
        TerritoryEvent::Granted(snapshot) => LedgerLeaseEvent::Granted(lease_record_from(snapshot)),
        TerritoryEvent::Deferred { handle, grace_deadline } => LedgerLeaseEvent::Deferred(
            queue_record_from(handle, Some(*grace_deadline)),
        ),
        TerritoryEvent::Queued(handle) => LedgerLeaseEvent::Deferred(queue_record_from(handle, None)),
        TerritoryEvent::Released(snapshot) => LedgerLeaseEvent::Released(lease_record_from(snapshot)),
        TerritoryEvent::Overridden { previous, lease } => LedgerLeaseEvent::Overridden {
            previous: lease_record_from(previous),
            lease: lease_record_from(lease),
        },
        TerritoryEvent::Escalated { handle, reason } => LedgerLeaseEvent::Escalated(
            escalation_record_from(handle, reason),
        ),
    }
}

/// What the registry publishes after each change: the number of leases, the pending
/// count per resource, and the outstanding lease ids.
#[derive(Debug, Clone)]
pub struct LeaseInventorySnapshot {
    pub active: usize,
    pub pending: Vec<(String, usize)>,
    pub outstanding: Vec<u64>,
}

impl LeaseInventorySnapshot {
    pub fn into_parts(self) -> (r: (usize, Vec<(String, usize)>, Vec<u64>))
        ensures
            r.0 == self.active,
            r.1 == self.pending,
            r.2 == self.outstanding,
    {
        (self.active, self.pending, self.outstanding)
    }
}

impl TerritoryManager {
    pub fn inventory(&self) -> (r: LeaseInventorySnapshot)
        ensures
            r.active == self.leases@.len(),
            r.pending@.len() == self.queues@.len(),
            forall|i: int|
                0 <= i < r.pending@.len() ==> (#[trigger] r.pending@[i]).0@ == self.queues@[i].resource_id@
                    && r.pending@[i].1 == self.queues@[i].entries@.len(),
            r.outstanding@ == self.leases@.map_values(|l: Lease| l.id.0),
    {
        let mut pending: Vec<(String, usize)> = Vec::new();
        let mut i: usize = 0;
        while i < self.queues.len()
            invariant
                0 <= i <= self.queues@.len(),
                pending@.len() == i,
                forall|k: int|
                    0 <= k < i ==> (#[trigger] pending@[k]).0@ == self.queues@[k].resource_id@
                        && pending@[k].1 == self.queues@[k].entries@.len(),
            decreases self.queues@.len() - i,
        {
            pending.push((self.queues[i].resource_id.clone(), self.queues[i].entries.len()));
            i += 1;
        }
        let mut outstanding: Vec<u64> = Vec::new();
        let mut j: usize = 0;
        while j < self.leases.len()
            invariant
                0 <= j <= self.leases@.len(),
                outstanding@ == self.leases@.subrange(0, j as int).map_values(|l: Lease| l.id.0),
            decreases self.leases@.len() - j,
        {
            outstanding.push(self.leases[j].id.as_u64());
            proof {
                assert(self.leases@.subrange(0, j + 1).map_values(|l: Lease| l.id.0) =~= self.leases@.subrange(
                    0,
                    j as int,
                ).map_values(|l: Lease| l.id.0).push(self.leases@[j as int].id.0));
            }
            j += 1;
        }
        assert(self.leases@.subrange(0, self.leases@.len() as int) =~= self.leases@);
        LeaseInventorySnapshot { active: self.leases.len(), pending, outstanding }
    }
}

} // verus!
