use vstd::prelude::*;
use crate::digest::{blake3_hex, blake3_hex_of};
use crate::consensus::ConsensusEvent;
use crate::config::LedgerConfig;
use crate::metrics::{is_replay_metrics, same_metrics, MetricsView};
use crate::consensus::{signal_of, ConsensusSignal};
use crate::text::{copy_bytes, copy_opt_text, decimal, decimal_text, prefixed, prefixed_decimal};

verus! {

/// A hybrid timestamp: wall milliseconds and a counter that orders ticks within one.
#[derive(Debug, Clone, Copy, PartialEq, Eq, Structural)]
pub struct LogicalClock {
    pub wall_millis: u64,
    pub counter: u32,
}

/// Issues strictly increasing hybrid timestamps even when the wall clock stalls or rewinds.
#[derive(Debug, Clone, Copy, PartialEq, Eq, Structural)]
pub struct HybridLogicalClock {
    pub last_wall: u64,
    pub counter: u32,
}

/// The clock after a tick at wall time `w`.
pub open spec fn ticked(c: HybridLogicalClock, w: u64) -> HybridLogicalClock {
    if w > c.last_wall {
        HybridLogicalClock { last_wall: w, counter: 0 }
    } else {
        HybridLogicalClock {
            last_wall: c.last_wall,
            counter: if c.counter == u32::MAX {
                u32::MAX
            } else {
                (c.counter + 1) as u32
            },
        }
    }
}

/// `a` comes strictly before `b`.
pub open spec fn clock_before(a: LogicalClock, b: LogicalClock) -> bool {
    a.wall_millis < b.wall_millis || (a.wall_millis == b.wall_millis && a.counter < b.counter)
}

impl HybridLogicalClock {
    pub fn new() -> (r: HybridLogicalClock)
        ensures
            r.last_wall == 0,
            r.counter == 0,
    {
        HybridLogicalClock { last_wall: 0, counter: 0 }
    }

    /// Advances to wall time `wall_millis` (ms since the epoch): a later wall time restarts
    /// the counter, any other bumps it (saturating). Returns the new reading.
    pub fn tick(&mut self, wall_millis: u64) -> (r: LogicalClock)
        ensures
            *final(self) == ticked(*old(self), wall_millis),
            r.wall_millis == final(self).last_wall,
            r.counter == final(self).counter,
            old(self).counter < u32::MAX ==> clock_before(
                LogicalClock { wall_millis: old(self).last_wall, counter: old(self).counter },
                r,
            ),
    {
        if wall_millis > self.last_wall {
            self.last_wall = wall_millis;
            self.counter = 0;
        } else if self.counter < u32::MAX {
            self.counter = self.counter + 1;
        }
        LogicalClock { wall_millis: self.last_wall, counter: self.counter }
    }
}

impl LogicalClock {
    /// The clock's next reading at wall time `wall_millis`.
    pub fn now(clock: &mut HybridLogicalClock, wall_millis: u64) -> (r: LogicalClock)
        ensures
            *final(clock) == ticked(*old(clock), wall_millis),
            r.wall_millis == final(clock).last_wall,
            r.counter == final(clock).counter,
    {
        clock.tick(wall_millis)
    }
}

// ----- the hash chain -----

/// The bytes of the literal "0": what the first link chains from.
pub open spec fn chain_origin() -> Seq<u8> {
    seq![48u8]
}

/// One line of the log as the chain sees it: the envelope encoded without its chain value,
/// and the chain value stored with it (ASCII hex).
#[derive(Debug, Clone)]
pub struct ChainLink {
    pub body: Vec<u8>,
    pub hash: Vec<u8>,
}

pub open spec fn link_hash(prev: Seq<u8>, body: Seq<u8>) -> Seq<u8> {
    blake3_hex(prev + body)
}

/// The chain value link `i` must follow from.
pub open spec fn prev_of(hashes: Seq<Seq<u8>>, i: int) -> Seq<u8> {
    if i == 0 {
        chain_origin()
    } else {
        hashes[i - 1]
    }
}

/// Every link's value is the digest of its predecessor's value followed by its body,
/// starting from "0".
pub open spec fn chain_valid(bodies: Seq<Seq<u8>>, hashes: Seq<Seq<u8>>) -> bool {
    &&& bodies.len() == hashes.len()
    &&& forall|i: int| 0 <= i < bodies.len() ==> #[trigger] hashes[i] == link_hash(prev_of(hashes, i), bodies[i])
}

/// Sequences that start at 1 and rise by one.
pub open spec fn gap_free(seqs: Seq<u64>) -> bool {
    forall|i: int| 0 <= i < seqs.len() ==> #[trigger] seqs[i] == i + 1
}

/// The digest that chains `body` onto `prev`.
pub fn chain_hash(prev: &Vec<u8>, body: &Vec<u8>) -> (r: Vec<u8>)
    ensures
        r@ == link_hash(prev@, body@),
        r@.len() == 64,
{
    let mut data = copy_bytes(prev);
    let mut i: usize = 0;
    while i < body.len()
        invariant
            0 <= i <= body@.len(),
            data@ == prev@ + body@.subrange(0, i as int),
        decreases body@.len() - i,
    {
        data.push(body[i]);
        proof {
            assert(body@.subrange(0, i + 1) =~= body@.subrange(0, i as int).push(body@[i as int]));
            assert(data@ =~= prev@ + body@.subrange(0, i + 1));
        }
        i += 1;
    }
    assert(body@.subrange(0, body@.len() as int) =~= body@);
    blake3_hex_of(data.as_slice())
}

fn same_bytes(a: &Vec<u8>, b: &Vec<u8>) -> (r: bool)
    ensures
        r == (a@ == b@),
{
    if a.len() != b.len() {
        return false;
    }
    let mut i: usize = 0;
    while i < a.len()
        invariant
            a@.len() == b@.len(),
            0 <= i <= a@.len(),
            forall|k: int| 0 <= k < i ==> a@[k] == b@[k],
        decreases a@.len() - i,
    {
        if a[i] != b[i] {
            return false;
        }
        i += 1;
    }
    assert(a@ =~= b@);
    true
}

pub open spec fn links_bodies(links: Seq<ChainLink>) -> Seq<Seq<u8>> {
    links.map_values(|l: ChainLink| l.body@)
}

pub open spec fn links_hashes(links: Seq<ChainLink>) -> Seq<Seq<u8>> {
    links.map_values(|l: ChainLink| l.hash@)
}

/// Recomputes every link from "0" and compares; false at the first mismatch.
pub fn verify_chain(links: &Vec<ChainLink>) -> (r: bool)
    ensures
        r == chain_valid(links_bodies(links@), links_hashes(links@)),
{
    let mut prev: Vec<u8> = Vec::new();
    prev.push(48u8);
    assert(prev@ =~= chain_origin());
    let mut i: usize = 0;
    let ghost bodies = links_bodies(links@);
    let ghost hashes = links_hashes(links@);
    while i < links.len()
        invariant
            0 <= i <= links@.len(),
            bodies == links_bodies(links@),
            hashes == links_hashes(links@),
            prev@ == prev_of(hashes, i as int),
            forall|k: int| 0 <= k < i ==> #[trigger] hashes[k] == link_hash(prev_of(hashes, k), bodies[k]),
        decreases links@.len() - i,
    {
        let expected = chain_hash(&prev, &links[i].body);
        assert(bodies[i as int] == links@[i as int].body@);
        assert(hashes[i as int] == links@[i as int].hash@);
        if !same_bytes(&expected, &links[i].hash) {
            assert(hashes[i as int] != link_hash(prev_of(hashes, i as int), bodies[i as int]));
            return false;
        }
        prev = copy_bytes(&links[i].hash);
        i += 1;
    }
    true
}

/// The writer's side of the chain: the last sequence and chain value, with the
/// history of both. Sequences rise by one from 1, and every value chains on the last.
pub struct ChainState {
    pub sequence: u64,
    pub prev_hash: Vec<u8>,
    pub clock: HybridLogicalClock,
    pub sequences: Ghost<Seq<u64>>,
    pub bodies: Ghost<Seq<Seq<u8>>>,
    pub hashes: Ghost<Seq<Seq<u8>>>,
}

impl ChainState {
    pub open spec fn wf(&self) -> bool {
        &&& gap_free(self.sequences@)
        &&& self.sequences@.len() == self.sequence
        &&& chain_valid(self.bodies@, self.hashes@)
        &&& self.hashes@.len() == self.sequence
        &&& self.prev_hash@ == prev_of(self.hashes@, self.sequence as int)
    }

    /// A chain with nothing written: sequence 0, chaining from "0".
    pub fn new() -> (r: ChainState)
        ensures
            r.wf(),
            r.sequence == 0,
            r.prev_hash@ == chain_origin(),
            r.clock == (HybridLogicalClock { last_wall: 0, counter: 0 }),
    {
        let mut prev_hash: Vec<u8> = Vec::new();
        prev_hash.push(48u8);
        assert(prev_hash@ =~= chain_origin());
        ChainState {
            sequence: 0,
            prev_hash,
            clock: HybridLogicalClock::new(),
            sequences: Ghost(Seq::empty()),
            bodies: Ghost(Seq::empty()),
            hashes: Ghost(Seq::empty()),
        }
    }

    /// The sequence and timestamp the next envelope gets at wall time `wall_millis`.
    pub fn stamp(&self, wall_millis: u64) -> (r: (u64, LogicalClock))
        requires
            self.sequence < u64::MAX,
        ensures
            r.0 == self.sequence + 1,
            r.1.wall_millis == ticked(self.clock, wall_millis).last_wall,
            r.1.counter == ticked(self.clock, wall_millis).counter,
    {
        let mut c = self.clock;
        let t = c.tick(wall_millis);
        (self.sequence + 1, t)
    }

    /// Appends the envelope `body` (encoded without its chain value) stamped by `stamp`
    /// at `wall_millis`, and returns its chain value.
    pub fn commit(&mut self, wall_millis: u64, body: &Vec<u8>) -> (r: Vec<u8>)
        requires
            old(self).wf(),
            old(self).sequence < u64::MAX,
        ensures
            final(self).wf(),
            final(self).sequence == old(self).sequence + 1,
            final(self).clock == ticked(old(self).clock, wall_millis),
            r@ == link_hash(old(self).prev_hash@, body@),
            final(self).prev_hash@ == r@,
            final(self).sequences@ == old(self).sequences@.push(final(self).sequence),
            final(self).bodies@ == old(self).bodies@.push(body@),
            final(self).hashes@ == old(self).hashes@.push(r@),
    {
        let h = chain_hash(&self.prev_hash, body);
        let _ = self.clock.tick(wall_millis);
        self.sequence = self.sequence + 1;
        self.prev_hash = copy_bytes(&h);
        let ghost n = self.sequence;
        self.sequences = Ghost(self.sequences@.push(n));
        self.bodies = Ghost(self.bodies@.push(body@));
        self.hashes = Ghost(self.hashes@.push(h@));
        proof {
            let hs = self.hashes@;
            let bs = self.bodies@;
            assert forall|i: int| 0 <= i < bs.len() implies #[trigger] hs[i] == link_hash(prev_of(hs, i), bs[i]) by {
                if i < bs.len() - 1 {
                    assert(hs[i] == old(self).hashes@[i]);
                    assert(bs[i] == old(self).bodies@[i]);
                    if i > 0 {
                        assert(hs[i - 1] == old(self).hashes@[i - 1]);
                    }
                } else {
                    if i > 0 {
                        assert(hs[i - 1] == old(self).hashes@[i - 1]);
                    }
                }
            }
            assert forall|i: int| 0 <= i < self.sequences@.len() implies #[trigger] self.sequences@[i] == i + 1 by {
                if i < self.sequences@.len() - 1 {
                    assert(self.sequences@[i] == old(self).sequences@[i]);
                }
            }
        }
        h
    }
}

/// What two consecutive appends assign: sequences one apart, and the later chain value
/// computed from the earlier one.
pub proof fn lemma_consecutive_links(s: ChainState, i: int)
    requires
        s.wf(),
        1 <= i < s.sequence,
    ensures
        s.sequences@[i] == s.sequences@[i - 1] + 1,
        s.hashes@[i] == link_hash(s.hashes@[i - 1], s.bodies@[i]),
        s.hashes@[0] == link_hash(chain_origin(), s.bodies@[0]),
{
    assert(s.sequences@[i] == i + 1);
    assert(s.sequences@[i - 1] == i);
    assert(s.hashes@[i] == link_hash(prev_of(s.hashes@, i), s.bodies@[i]));
    assert(s.hashes@[0] == link_hash(prev_of(s.hashes@, 0), s.bodies@[0]));
}

// ----- events -----

#[derive(Debug, Clone, PartialEq, Eq)]
pub struct EventMetadata {
    pub trace_id: Option<String>,
    pub agent_id: Option<String>,
    pub territory_id: Option<String>,
    pub priority: Option<String>,
}

#[derive(Debug, Clone, PartialEq, Eq)]
pub struct RouterDispatchRecord {
    pub message_id: Option<String>,
    pub content_digest: Option<String>,
    pub sender: String,
    pub recipient: String,
    pub priority: String,
    pub effective_priority: String,
    pub wait_time_ms: u64,
    pub queue_depths: Vec<usize>,
    pub aging_boosts: u8,
    pub retry_count: u32,
}

/// A refused dispatch; `tokens_remaining` in thousandths of a token.
#[derive(Debug, Clone, PartialEq, Eq)]
pub struct RateLimitedRecord {
    pub sender: String,
    pub priority: String,
    pub tokens_remaining: u64,
}

#[derive(Debug, Clone, PartialEq, Eq)]
pub enum RouterEvent {
    Dispatched(RouterDispatchRecord),
    RateLimited(RateLimitedRecord),
}

#[derive(Debug, Clone, PartialEq, Eq)]
pub struct LeaseRecord {
    pub lease_id: u64,
    pub resource_id: String,
    pub holder_id: String,
    pub priority: String,
}

#[derive(Debug, Clone, PartialEq, Eq)]
pub struct LeaseQueueRecord {
    pub request_id: String,
    pub agent_id: String,
    pub resource_id: String,
    pub queue_position: usize,
    pub grace_deadline_ms: Option<u64>,
}

#[derive(Debug, Clone, PartialEq, Eq)]
pub struct LeaseEscalationRecord {
    pub agent_id: String,
    pub resource_id: String,
    pub reason: String,
}

#[derive(Debug, Clone, PartialEq, Eq)]
pub enum LeaseEvent {
    Granted(LeaseRecord),
    Released(LeaseRecord),
    Deferred(LeaseQueueRecord),
    Escalated(LeaseEscalationRecord),
    Overridden { previous: LeaseRecord, lease: LeaseRecord },
}

#[derive(Debug, Clone, PartialEq, Eq)]
pub struct PtyEvent {
    pub agent_id: String,
    pub event_name: Option<String>,
    pub timestamp_ms: u64,
}

#[derive(Debug, Clone, PartialEq, Eq)]
pub struct HealthEvent {
    pub severity: String,
    pub message: String,
    pub timestamp_ms: u64,
}

/// Router counters rebuilt from the log.
#[derive(Debug, Clone, PartialEq, Eq)]
pub struct RouterReplayState {
    pub total_dispatched: u64,
    pub last_priority: Option<String>,
    pub queue_depths: Vec<usize>,
}

/// Lease inventory rebuilt from the log: one record per resource.
#[derive(Debug, Clone, PartialEq, Eq)]
pub struct LeaseReplayState {
    pub active: Vec<LeaseRecord>,
    pub deferrals: u64,
    pub overrides: u64,
    pub escalations: u64,
}

/// A snapshot of the replay state and the metrics, written to the log; replay restarts
/// from it.
#[derive(Debug, Clone)]
pub struct StateCheckpoint {
    pub checkpoint_id: String,
    pub captured_at_ms: u64,
    pub router: RouterReplayState,
    pub leases: LeaseReplayState,
    pub metrics: MetricsView,
}

#[derive(Debug, Clone)]
pub enum LedgerEvent {
    Router(RouterEvent),
    Lease(LeaseEvent),
    Consensus(ConsensusEvent),
    Pty(PtyEvent),
    Health(HealthEvent),
    Checkpoint(StateCheckpoint),
}

/// One log line. `payload_digest` and `hash_chain` are ASCII hex.
#[derive(Debug, Clone)]
pub struct EventEnvelope {
    pub epoch_id: String,
    pub sequence: u64,
    pub logical_clock: LogicalClock,
    pub metadata: EventMetadata,
    pub payload_digest: Vec<u8>,
    pub hash_chain: Vec<u8>,
    pub event: LedgerEvent,
}

// ----- the lease inventory as a map -----

/// The inventory that inserting `recs` in order, later ones winning, leaves.
pub open spec fn map_of_records(recs: Seq<LeaseRecord>) -> Map<Seq<char>, LeaseRecord>
    decreases recs.len(),
{
    if recs.len() == 0 {
        Map::empty()
    } else {
        map_of_records(recs.drop_last()).insert(recs.last().resource_id@, recs.last())
    }
}

pub open spec fn records_unique(s: Seq<LeaseRecord>) -> bool {
    forall|i: int, j: int| 0 <= i < j < s.len() ==> #[trigger] s[i].resource_id@ != #[trigger] s[j].resource_id@
}

proof fn lemma_records_dom(s: Seq<LeaseRecord>, k: Seq<char>)
    ensures
        map_of_records(s).contains_key(k) <==> exists|i: int| 0 <= i < s.len() && s[i].resource_id@ == k,
    decreases s.len(),
{
    if s.len() > 0 {
        lemma_records_dom(s.drop_last(), k);
        if map_of_records(s.drop_last()).contains_key(k) {
            let i = choose|i: int| 0 <= i < s.drop_last().len() && s.drop_last()[i].resource_id@ == k;
            assert(s[i] == s.drop_last()[i]);
        }
        if exists|i: int| 0 <= i < s.len() && s[i].resource_id@ == k {
            let i = choose|i: int| 0 <= i < s.len() && s[i].resource_id@ == k;
            if i < s.len() - 1 {
                assert(s.drop_last()[i] == s[i]);
            }
        }
    }
}

proof fn lemma_records_unique_prefix(s: Seq<LeaseRecord>)
    requires
        records_unique(s),
        s.len() > 0,
    ensures
        records_unique(s.drop_last()),
{
    let p = s.drop_last();
    assert forall|i: int, j: int| 0 <= i < j < p.len() implies #[trigger] p[i].resource_id@ != #[trigger] p[j].resource_id@ by {
        assert(p[i] == s[i] && p[j] == s[j]);
    }
}

proof fn lemma_records_update(s: Seq<LeaseRecord>, i: int, r: LeaseRecord)
    requires
        records_unique(s),
        0 <= i < s.len(),
        r.resource_id@ == s[i].resource_id@,
    ensures
        records_unique(s.update(i, r)),
        map_of_records(s.update(i, r)) == map_of_records(s).insert(r.resource_id@, r),
    decreases s.len(),
{
    let t = s.update(i, r);
    assert forall|a: int, b: int| 0 <= a < b < t.len() implies #[trigger] t[a].resource_id@ != #[trigger] t[b].resource_id@ by {
        assert(s[a].resource_id@ != s[b].resource_id@);
    }
    if i == s.len() - 1 {
        assert(t.drop_last() =~= s.drop_last());
        assert(map_of_records(t) =~= map_of_records(s).insert(r.resource_id@, r));
    } else {
        lemma_records_unique_prefix(s);
        lemma_records_update(s.drop_last(), i, r);
        assert(t.drop_last() =~= s.drop_last().update(i, r));
        assert(s.last().resource_id@ != r.resource_id@) by {
            assert(s[i].resource_id@ != s[s.len() - 1].resource_id@);
        }
        assert(map_of_records(t) =~= map_of_records(s).insert(r.resource_id@, r));
    }
}

proof fn lemma_records_push(s: Seq<LeaseRecord>, r: LeaseRecord)
    requires
        records_unique(s),
        forall|i: int| 0 <= i < s.len() ==> (#[trigger] s[i]).resource_id@ != r.resource_id@,
    ensures
        records_unique(s.push(r)),
        map_of_records(s.push(r)) == map_of_records(s).insert(r.resource_id@, r),
{
    let t = s.push(r);
    assert forall|a: int, b: int| 0 <= a < b < t.len() implies #[trigger] t[a].resource_id@ != #[trigger] t[b].resource_id@ by {
        if b == s.len() {
            assert(t[a] == s[a]);
        } else {
            assert(s[a].resource_id@ != s[b].resource_id@);
        }
    }
    assert(t.drop_last() =~= s);
}

proof fn lemma_records_remove(s: Seq<LeaseRecord>, i: int)
    requires
        records_unique(s),
        0 <= i < s.len(),
    ensures
        records_unique(s.remove(i)),
        map_of_records(s.remove(i)) == map_of_records(s).remove(s[i].resource_id@),
    decreases s.len(),
{
    let t = s.remove(i);
    let k = s[i].resource_id@;
    assert forall|a: int, b: int| 0 <= a < b < t.len() implies #[trigger] t[a].resource_id@ != #[trigger] t[b].resource_id@ by {
        let a2 = if a < i { a } else { a + 1 };
        let b2 = if b < i { b } else { b + 1 };
        assert(t[a] == s[a2] && t[b] == s[b2]);
        assert(s[a2].resource_id@ != s[b2].resource_id@);
    }
    lemma_records_unique_prefix(s);
    if i == s.len() - 1 {
        assert(t =~= s.drop_last());
        lemma_records_dom(s.drop_last(), k);
        if map_of_records(s.drop_last()).contains_key(k) {
            let j = choose|j: int| 0 <= j < s.drop_last().len() && s.drop_last()[j].resource_id@ == k;
            assert(s[j].resource_id@ != s[i].resource_id@);
        }
        assert(map_of_records(t) =~= map_of_records(s).remove(k));
    } else {
        lemma_records_remove(s.drop_last(), i);
        assert(t.drop_last() =~= s.drop_last().remove(i));
        assert(t.last() == s.last());
        assert(s.last().resource_id@ != k) by {
            assert(s[i].resource_id@ != s[s.len() - 1].resource_id@);
        }
        assert(map_of_records(t) =~= map_of_records(s).remove(k));
    }
}

pub open spec fn sat_inc64(a: u64) -> u64 {
    if a == u64::MAX {
        a
    } else {
        (a + 1) as u64
    }
}

fn inc64(a: u64) -> (r: u64)
    ensures
        r == sat_inc64(a),
{
    if a == u64::MAX {
        a
    } else {
        a + 1
    }
}

fn copy_usizes(v: &Vec<usize>) -> (r: Vec<usize>)
    ensures
        r@ == v@,
{
    let mut r: Vec<usize> = Vec::new();
    let mut i: usize = 0;
    while i < v.len()
        invariant
            0 <= i <= v@.len(),
            r@ == v@.subrange(0, i as int),
        decreases v@.len() - i,
    {
        r.push(v[i]);
        proof {
            assert(r@ =~= v@.subrange(0, i + 1));
        }
        i += 1;
    }
    assert(v@.subrange(0, v@.len() as int) =~= v@);
    r
}

impl LeaseRecord {
    pub fn duplicate(&self) -> (r: LeaseRecord)
        ensures
            r == *self,
    {
        LeaseRecord {
            lease_id: self.lease_id,
            resource_id: self.resource_id.clone(),
            holder_id: self.holder_id.clone(),
            priority: self.priority.clone(),
        }
    }
}

impl RouterReplayState {
    pub fn new() -> (r: RouterReplayState)
        ensures
            r.total_dispatched == 0,
            r.last_priority is None,
            r.queue_depths@.len() == 0,
    {
        RouterReplayState { total_dispatched: 0, last_priority: None, queue_depths: Vec::new() }
    }

    /// One more dispatch counted (saturating); its tier and depths become the latest.
    pub fn apply_dispatch(&mut self, record: &RouterDispatchRecord)
        ensures
            final(self).total_dispatched == sat_inc64(old(self).total_dispatched),
            final(self).last_priority == Some(record.effective_priority),
            final(self).queue_depths@ == record.queue_depths@,
    {
        self.total_dispatched = inc64(self.total_dispatched);
        self.last_priority = Some(record.effective_priority.clone());
        self.queue_depths = copy_usizes(&record.queue_depths);
    }

    pub fn duplicate(&self) -> (r: RouterReplayState)
        ensures
            r.total_dispatched == self.total_dispatched,
            r.last_priority == self.last_priority,
            r.queue_depths@ == self.queue_depths@,
    {
        RouterReplayState {
            total_dispatched: self.total_dispatched,
            last_priority: copy_opt_text(&self.last_priority),
            queue_depths: copy_usizes(&self.queue_depths),
        }
    }
}

impl LeaseReplayState {
    pub open spec fn wf(&self) -> bool {
        records_unique(self.active@)
    }

    pub open spec fn active_map(&self) -> Map<Seq<char>, LeaseRecord> {
        map_of_records(self.active@)
    }

    pub fn new() -> (r: LeaseReplayState)
        ensures
            r.wf(),
            r.active@.len() == 0,
            r.deferrals == 0,
            r.overrides == 0,
            r.escalations == 0,
    {
        LeaseReplayState { active: Vec::new(), deferrals: 0, overrides: 0, escalations: 0 }
    }

    /// Records `rec` as the lease on its resource.
    fn upsert(&mut self, rec: LeaseRecord)
        requires
            old(self).wf(),
        ensures
            final(self).wf(),
            final(self).active_map() == old(self).active_map().insert(rec.resource_id@, rec),
            final(self).deferrals == old(self).deferrals,
            final(self).overrides == old(self).overrides,
            final(self).escalations == old(self).escalations,
    {
        let mut i: usize = 0;
        while i < self.active.len()
            invariant
                0 <= i <= self.active@.len(),
                *self == *old(self),
                old(self).wf(),
                forall|k: int| 0 <= k < i ==> (#[trigger] self.active@[k]).resource_id@ != rec.resource_id@,
            decreases self.active@.len() - i,
        {
            if crate::text::same_text(&self.active[i].resource_id, &rec.resource_id) {
                proof {
                    lemma_records_update(self.active@, i as int, rec);
                }
                self.active.set(i, rec);
                return;
            }
            i += 1;
        }
        proof {
            lemma_records_push(self.active@, rec);
        }
        self.active.push(rec);
    }

    /// Drops the lease on `resource`, if there is one.
    fn remove_resource(&mut self, resource: &String)
        requires
            old(self).wf(),
        ensures
            final(self).wf(),
            final(self).active_map() == old(self).active_map().remove(resource@),
            final(self).deferrals == old(self).deferrals,
            final(self).overrides == old(self).overrides,
            final(self).escalations == old(self).escalations,
    {
        let mut i: usize = 0;
        while i < self.active.len()
            invariant
                0 <= i <= self.active@.len(),
                *self == *old(self),
                old(self).wf(),
                forall|k: int| 0 <= k < i ==> (#[trigger] self.active@[k]).resource_id@ != resource@,
            decreases self.active@.len() - i,
        {
            if crate::text::same_text(&self.active[i].resource_id, resource) {
                proof {
                    lemma_records_remove(self.active@, i as int);
                }
                let _ = self.active.remove(i);
                return;
            }
            i += 1;
        }
        proof {
            lemma_records_dom(self.active@, resource@);
            assert(self.active_map().remove(resource@) =~= self.active_map());
        }
    }

    /// Applies one lease event to the inventory.
    pub fn apply(&mut self, event: &LeaseEvent)
        requires
            old(self).wf(),
        ensures
            final(self).wf(),
            lease_view(*final(self)) == lease_applied(lease_view(*old(self)), *event),
    {
        match event {
            LeaseEvent::Granted(record) => {
                self.upsert(record.duplicate());
            },
            LeaseEvent::Released(record) => {
                self.remove_resource(&record.resource_id);
            },
            LeaseEvent::Deferred(_) => {
                self.deferrals = inc64(self.deferrals);
            },
            LeaseEvent::Escalated(_) => {
                self.escalations = inc64(self.escalations);
            },
            LeaseEvent::Overridden { lease, .. } => {
                self.overrides = inc64(self.overrides);
                self.upsert(lease.duplicate());
            },
        }
    }

    /// Rebuilds an inventory from `other`'s records, later records winning.
    pub fn rebuilt_from(other: &LeaseReplayState) -> (r: LeaseReplayState)
        ensures
            r.wf(),
            lease_view(r) == lease_view(*other),
    {
        let mut r = LeaseReplayState::new();
        r.deferrals = other.deferrals;
        r.overrides = other.overrides;
        r.escalations = other.escalations;
        let mut i: usize = 0;
        assert(r.active_map() =~= map_of_records(other.active@.subrange(0, 0)));
        while i < other.active.len()
            invariant
                0 <= i <= other.active@.len(),
                r.wf(),
                r.deferrals == other.deferrals,
                r.overrides == other.overrides,
                r.escalations == other.escalations,
                r.active_map() == map_of_records(other.active@.subrange(0, i as int)),
            decreases other.active@.len() - i,
        {
            r.upsert(other.active[i].duplicate());
            proof {
                let sub = other.active@.subrange(0, i + 1);
                assert(sub.drop_last() =~= other.active@.subrange(0, i as int));
            }
            i += 1;
        }
        assert(other.active@.subrange(0, other.active@.len() as int) =~= other.active@);
        r
    }
}

/// The inventory as a value: the map of active leases and the three counters.
pub open spec fn lease_view(s: LeaseReplayState) -> (Map<Seq<char>, LeaseRecord>, u64, u64, u64) {
    (map_of_records(s.active@), s.deferrals, s.overrides, s.escalations)
}

/// What one lease event does to the inventory.
pub open spec fn lease_applied(v: (Map<Seq<char>, LeaseRecord>, u64, u64, u64), e: LeaseEvent) -> (
    Map<Seq<char>, LeaseRecord>,
    u64,
    u64,
    u64,
) {
    match e {
        LeaseEvent::Granted(r) => (v.0.insert(r.resource_id@, r), v.1, v.2, v.3),
        LeaseEvent::Released(r) => (v.0.remove(r.resource_id@), v.1, v.2, v.3),
        LeaseEvent::Deferred(_) => (v.0, sat_inc64(v.1), v.2, v.3),
        LeaseEvent::Escalated(_) => (v.0, v.1, v.2, sat_inc64(v.3)),
        LeaseEvent::Overridden { lease, .. } => (
            v.0.insert(lease.resource_id@, lease),
            v.1,
            sat_inc64(v.2),
            v.3,
        ),
    }
}

// ----- replay -----

/// Everything replay rebuilds.
#[derive(Debug, Clone)]
pub struct ReplayOutcome {
    pub router: RouterReplayState,
    pub leases: LeaseReplayState,
    pub checkpoints: Vec<StateCheckpoint>,
    pub metrics: Option<MetricsView>,
    pub last_sequence: Option<u64>,
    pub tail_hash: Option<Vec<u8>>,
}

/// The checkpoint of the last checkpoint envelope, if any.
pub open spec fn last_checkpoint(es: Seq<EventEnvelope>) -> Option<StateCheckpoint>
    decreases es.len(),
{
    if es.len() == 0 {
        None
    } else {
        match es.last().event {
            LedgerEvent::Checkpoint(c) => Some(c),
            _ => last_checkpoint(es.drop_last()),
        }
    }
}

/// The metrics a replay holds: those of the last checkpoint seen.
pub open spec fn metrics_from_checkpoint(m: Option<MetricsView>, es: Seq<EventEnvelope>) -> bool {
    match last_checkpoint(es) {
        Some(c) => m matches Some(x) && same_metrics(x, c.metrics),
        None => m is None,
    }
}

/// The value of a replay: router counters, lease inventory, checkpoints seen, and the
/// sequence and chain value of the last envelope.
pub struct ReplayView {
    pub total_dispatched: u64,
    pub last_priority: Option<Seq<char>>,
    pub queue_depths: Seq<usize>,
    pub leases: (Map<Seq<char>, LeaseRecord>, u64, u64, u64),
    pub checkpoints: nat,
    pub last_sequence: Option<u64>,
    pub tail_hash: Option<Seq<u8>>,
}

pub open spec fn opt_text_view(o: Option<String>) -> Option<Seq<char>> {
    match o {
        Some(s) => Some(s@),
        None => None,
    }
}

pub open spec fn replay_view(o: ReplayOutcome) -> ReplayView {
    ReplayView {
        total_dispatched: o.router.total_dispatched,
        last_priority: opt_text_view(o.router.last_priority),
        queue_depths: o.router.queue_depths@,
        leases: lease_view(o.leases),
        checkpoints: o.checkpoints@.len(),
        last_sequence: o.last_sequence,
        tail_hash: match o.tail_hash {
            Some(h) => Some(h@),
            None => None,
        },
    }
}

pub open spec fn empty_replay() -> ReplayView {
    ReplayView {
        total_dispatched: 0,
        last_priority: None,
        queue_depths: seq![],
        leases: (Map::empty(), 0, 0, 0),
        checkpoints: 0,
        last_sequence: None,
        tail_hash: None,
    }
}

/// What one envelope does to a replay: dispatches advance the router counters, lease
/// events move the inventory, a checkpoint replaces both; every envelope becomes the last.
pub open spec fn replay_step(v: ReplayView, e: EventEnvelope) -> ReplayView {
    let w = match e.event {
        LedgerEvent::Router(RouterEvent::Dispatched(r)) => ReplayView {
            total_dispatched: sat_inc64(v.total_dispatched),
            last_priority: Some(r.effective_priority@),
            queue_depths: r.queue_depths@,
            ..v
        },
        LedgerEvent::Lease(l) => ReplayView { leases: lease_applied(v.leases, l), ..v },
        LedgerEvent::Checkpoint(c) => ReplayView {
            total_dispatched: c.router.total_dispatched,
            last_priority: opt_text_view(c.router.last_priority),
            queue_depths: c.router.queue_depths@,
            leases: lease_view(c.leases),
            checkpoints: v.checkpoints + 1,
            ..v
        },
        _ => v,
    };
    ReplayView { last_sequence: Some(e.sequence), tail_hash: Some(e.hash_chain@), ..w }
}

pub open spec fn replay_from(v: ReplayView, es: Seq<EventEnvelope>) -> ReplayView
    decreases es.len(),
{
    if es.len() == 0 {
        v
    } else {
        replay_step(replay_from(v, es.drop_last()), es.last())
    }
}

/// Replaying a log in two parts, the second from where the first left off, gives what
/// replaying it whole gives: applying events as they are written and replaying the
/// written log agree.
pub proof fn lemma_replay_concat(v: ReplayView, a: Seq<EventEnvelope>, b: Seq<EventEnvelope>)
    ensures
        replay_from(replay_from(v, a), b) == replay_from(v, a + b),
    decreases b.len(),
{
    if b.len() == 0 {
        assert(a + b =~= a);
    } else {
        lemma_replay_concat(v, a, b.drop_last());
        assert((a + b).drop_last() =~= a + b.drop_last());
        assert((a + b).last() == b.last());
    }
}

impl ReplayOutcome {
    pub open spec fn wf(&self) -> bool {
        self.leases.wf()
    }

    pub fn new() -> (r: ReplayOutcome)
        ensures
            r.wf(),
            replay_view(r) == empty_replay(),
            r.metrics is None,
    {
        let r = ReplayOutcome {
            router: RouterReplayState::new(),
            leases: LeaseReplayState::new(),
            checkpoints: Vec::new(),
            metrics: None,
            last_sequence: None,
            tail_hash: None,
        };
        assert(lease_view(r.leases).0 =~= Map::<Seq<char>, LeaseRecord>::empty());
        assert(r.router.queue_depths@ =~= seq![]);
        r
    }

    /// Takes the router counters and lease inventory of `checkpoint`.
    pub fn update_from_checkpoint(&mut self, checkpoint: &StateCheckpoint)
        requires
            old(self).wf(),
        ensures
            final(self).wf(),
            final(self).router.total_dispatched == checkpoint.router.total_dispatched,
            final(self).router.last_priority == checkpoint.router.last_priority,
            final(self).router.queue_depths@ == checkpoint.router.queue_depths@,
            lease_view(final(self).leases) == lease_view(checkpoint.leases),
            final(self).checkpoints == old(self).checkpoints,
            final(self).metrics matches Some(m) && same_metrics(m, checkpoint.metrics),
            final(self).last_sequence == old(self).last_sequence,
            final(self).tail_hash == old(self).tail_hash,
    {
        self.router = checkpoint.router.duplicate();
        self.leases = LeaseReplayState::rebuilt_from(&checkpoint.leases);
        self.metrics = Some(checkpoint.metrics.duplicate());
    }

    /// Applies one envelope.
    pub fn apply(&mut self, envelope: &EventEnvelope)
        requires
            old(self).wf(),
        ensures
            final(self).wf(),
            replay_view(*final(self)) == replay_step(replay_view(*old(self)), *envelope),
            match envelope.event {
                LedgerEvent::Checkpoint(c) => final(self).metrics matches Some(m) && same_metrics(m, c.metrics),
                _ => final(self).metrics == old(self).metrics,
            },
    {
        match &envelope.event {
            LedgerEvent::Router(RouterEvent::Dispatched(record)) => {
                self.router.apply_dispatch(record);
            },
            LedgerEvent::Router(RouterEvent::RateLimited(_)) => {},
            LedgerEvent::Lease(event) => {
                self.leases.apply(event);
            },
            LedgerEvent::Consensus(_) => {},
            LedgerEvent::Pty(_) => {},
            LedgerEvent::Health(_) => {},
            LedgerEvent::Checkpoint(checkpoint) => {
                self.checkpoints.push(checkpoint.clone());
                self.update_from_checkpoint(checkpoint);
            },
        }
        self.last_sequence = Some(envelope.sequence);
        self.tail_hash = Some(copy_bytes(&envelope.hash_chain));
        assert(replay_view(*self) =~= replay_step(replay_view(*old(self)), *envelope));
    }
}

/// Rebuilds router counters and lease inventory from a log.
#[derive(Debug, Clone)]
pub struct ReplayCoordinator {
    pub root: String,
}

impl ReplayCoordinator {
    pub fn new(root: String) -> (r: ReplayCoordinator)
        ensures
            r.root == root,
    {
        ReplayCoordinator { root }
    }

    /// Replays `envelopes` in order from an empty state.
    pub fn replay(envelopes: &Vec<EventEnvelope>) -> (r: ReplayOutcome)
        ensures
            r.wf(),
            replay_view(r) == replay_from(empty_replay(), envelopes@),
            match last_checkpoint(envelopes@) {
                Some(c) => r.metrics matches Some(m) && same_metrics(m, c.metrics),
                None => r.metrics matches Some(m) && is_replay_metrics(m, r.router, r.leases),
            },
    {
        let mut outcome = ReplayOutcome::new();
        let mut i: usize = 0;
        while i < envelopes.len()
            invariant
                0 <= i <= envelopes@.len(),
                outcome.wf(),
                replay_view(outcome) == replay_from(empty_replay(), envelopes@.subrange(0, i as int)),
                metrics_from_checkpoint(outcome.metrics, envelopes@.subrange(0, i as int)),
            decreases envelopes@.len() - i,
        {
            outcome.apply(&envelopes[i]);
            proof {
                let sub = envelopes@.subrange(0, i + 1);
                assert(sub.drop_last() =~= envelopes@.subrange(0, i as int));
                assert(sub.last() == envelopes@[i as int]);
            }
            i += 1;
        }
        assert(envelopes@.subrange(0, envelopes@.len() as int) =~= envelopes@);
        if outcome.metrics.is_none() {
            outcome.metrics = Some(MetricsView::from_replay(&outcome.router, &outcome.leases));
        }
        outcome
    }
}

// ----- metadata -----

pub open spec fn no_text() -> Option<Seq<char>> {
    None
}

/// The four metadata fields as texts.
pub open spec fn metadata_view(m: EventMetadata) -> (
    Option<Seq<char>>,
    Option<Seq<char>>,
    Option<Seq<char>>,
    Option<Seq<char>>,
) {
    (opt_text_view(m.trace_id), opt_text_view(m.agent_id), opt_text_view(m.territory_id), opt_text_view(m.priority))
}

impl EventMetadata {
    pub fn empty() -> (r: EventMetadata)
        ensures
            r.trace_id is None,
            r.agent_id is None,
            r.territory_id is None,
            r.priority is None,
    {
        EventMetadata { trace_id: None, agent_id: None, territory_id: None, priority: None }
    }
}

impl RouterEvent {
    pub fn metadata(&self) -> (r: EventMetadata)
        ensures
            metadata_view(r) == match *self {
                RouterEvent::Dispatched(d) => (
                    opt_text_view(d.message_id),
                    Some(d.sender@),
                    no_text(),
                    Some(d.effective_priority@),
                ),
                RouterEvent::RateLimited(l) => (no_text(), Some(l.sender@), no_text(), Some(l.priority@)),
            },
    {
        match self {
            RouterEvent::Dispatched(record) => EventMetadata {
                agent_id: Some(record.sender.clone()),
                priority: Some(record.effective_priority.clone()),
                trace_id: copy_opt_text(&record.message_id),
                territory_id: None,
            },
            RouterEvent::RateLimited(record) => EventMetadata {
                agent_id: Some(record.sender.clone()),
                priority: Some(record.priority.clone()),
                trace_id: None,
                territory_id: None,
            },
        }
    }
}

pub open spec fn lease_metadata_view(r: LeaseRecord) -> (
    Option<Seq<char>>,
    Option<Seq<char>>,
    Option<Seq<char>>,
    Option<Seq<char>>,
) {
    (
        Some("lease-"@ + decimal(r.lease_id as nat)),
        Some(r.holder_id@),
        Some(r.resource_id@),
        Some(r.priority@),
    )
}

fn lease_record_metadata(record: &LeaseRecord) -> (r: EventMetadata)
    ensures
        metadata_view(r) == lease_metadata_view(*record),
{
    EventMetadata {
        agent_id: Some(record.holder_id.clone()),
        territory_id: Some(record.resource_id.clone()),
        priority: Some(record.priority.clone()),
        trace_id: Some(prefixed_decimal("lease-", record.lease_id)),
    }
}

impl LeaseEvent {
    /// Lease records carry holder, resource and tier, traced as `lease-<id>`; queue records
    /// as `lease-queue-<request>`, escalations as `lease-escalation-<reason>`.
    pub fn metadata(&self) -> (r: EventMetadata)
        ensures
            metadata_view(r) == match *self {
                LeaseEvent::Granted(l) => lease_metadata_view(l),
                LeaseEvent::Released(l) => lease_metadata_view(l),
                LeaseEvent::Overridden { lease, .. } => lease_metadata_view(lease),
                LeaseEvent::Deferred(q) => (
                    Some("lease-queue-"@ + q.request_id@),
                    Some(q.agent_id@),
                    Some(q.resource_id@),
                    no_text(),
                ),
                LeaseEvent::Escalated(e) => (
                    Some("lease-escalation-"@ + e.reason@),
                    Some(e.agent_id@),
                    Some(e.resource_id@),
                    no_text(),
                ),
            },
    {
        match self {
            LeaseEvent::Granted(record) => lease_record_metadata(record),
            LeaseEvent::Released(record) => lease_record_metadata(record),
            LeaseEvent::Overridden { lease, .. } => lease_record_metadata(lease),
            LeaseEvent::Deferred(record) => EventMetadata {
                agent_id: Some(record.agent_id.clone()),
                territory_id: Some(record.resource_id.clone()),
                priority: None,
                trace_id: Some(prefixed("lease-queue-", &record.request_id)),
            },
            LeaseEvent::Escalated(record) => EventMetadata {
                agent_id: Some(record.agent_id.clone()),
                territory_id: Some(record.resource_id.clone()),
                priority: None,
                trace_id: Some(prefixed("lease-escalation-", &record.reason)),
            },
        }
    }
}

pub open spec fn signal_metadata_view(s: ConsensusSignal) -> (
    Option<Seq<char>>,
    Option<Seq<char>>,
    Option<Seq<char>>,
    Option<Seq<char>>,
) {
    (
        Some(s.topic@),
        opt_text_view(s.agent_id),
        match s.vector {
            Some(v) => Some(v.resource_id@),
            None => opt_text_view(s.territory_id),
        },
        no_text(),
    )
}

fn signal_metadata(signal: &ConsensusSignal) -> (r: EventMetadata)
    ensures
        metadata_view(r) == signal_metadata_view(*signal),
{
    let territory = match &signal.vector {
        Some(v) => Some(v.resource_id.clone()),
        None => copy_opt_text(&signal.territory_id),
    };
    EventMetadata {
        trace_id: Some(signal.topic.clone()),
        agent_id: copy_opt_text(&signal.agent_id),
        territory_id: territory,
        priority: None,
    }
}

/// Metadata of a quorum record: its topic, its agent, and the vector's resource (or the
/// signal's territory); none for `Idle`.
pub fn consensus_metadata(event: &ConsensusEvent) -> (r: EventMetadata)
    ensures
        metadata_view(r) == match signal_of(*event) {
            Some(s) => signal_metadata_view(s),
            None => (no_text(), no_text(), no_text(), no_text()),
        },
{
    match event {
        ConsensusEvent::Proposal(signal) => signal_metadata(signal),
        ConsensusEvent::Vote(signal) => signal_metadata(signal),
        ConsensusEvent::Commit(signal) => signal_metadata(signal),
        ConsensusEvent::Idle => EventMetadata::empty(),
    }
}

impl PtyEvent {
    pub fn metadata(&self) -> (r: EventMetadata)
        ensures
            metadata_view(r) == (
                Some("pty-"@ + decimal(self.timestamp_ms as nat)),
                Some(self.agent_id@),
                no_text(),
                no_text(),
            ),
    {
        EventMetadata {
            agent_id: Some(self.agent_id.clone()),
            trace_id: Some(prefixed_decimal("pty-", self.timestamp_ms)),
            territory_id: None,
            priority: None,
        }
    }
}

impl HealthEvent {
    pub fn metadata(&self) -> (r: EventMetadata)
        ensures
            metadata_view(r) == (
                Some("health-"@ + decimal(self.timestamp_ms as nat)),
                no_text(),
                no_text(),
                Some(self.severity@),
            ),
    {
        EventMetadata {
            trace_id: Some(prefixed_decimal("health-", self.timestamp_ms)),
            agent_id: None,
            territory_id: None,
            priority: Some(self.severity.clone()),
        }
    }
}

impl StateCheckpoint {
    pub fn metadata(&self) -> (r: EventMetadata)
        ensures
            metadata_view(r) == (
                Some(self.checkpoint_id@),
                no_text(),
                no_text(),
                no_text(),
            ),
    {
        EventMetadata {
            trace_id: Some(self.checkpoint_id.clone()),
            agent_id: None,
            territory_id: None,
            priority: None,
        }
    }
}

impl LedgerEvent {
    /// The metadata of the wrapped event.
    pub fn metadata(&self) -> (r: EventMetadata)
        ensures
            metadata_view(r) == match *self {
                LedgerEvent::Router(RouterEvent::Dispatched(d)) => (
                    opt_text_view(d.message_id),
                    Some(d.sender@),
                    no_text(),
                    Some(d.effective_priority@),
                ),
                LedgerEvent::Router(RouterEvent::RateLimited(l)) => (no_text(), Some(l.sender@), no_text(), Some(l.priority@)),
                LedgerEvent::Lease(LeaseEvent::Granted(l)) => lease_metadata_view(l),
                LedgerEvent::Lease(LeaseEvent::Released(l)) => lease_metadata_view(l),
                LedgerEvent::Lease(LeaseEvent::Overridden { lease, .. }) => lease_metadata_view(lease),
                LedgerEvent::Lease(LeaseEvent::Deferred(q)) => (
                    Some("lease-queue-"@ + q.request_id@),
                    Some(q.agent_id@),
                    Some(q.resource_id@),
                    no_text(),
                ),
                LedgerEvent::Lease(LeaseEvent::Escalated(e)) => (
                    Some("lease-escalation-"@ + e.reason@),
                    Some(e.agent_id@),
                    Some(e.resource_id@),
                    no_text(),
                ),
                LedgerEvent::Consensus(c) => match signal_of(c) {
                    Some(s) => signal_metadata_view(s),
                    None => (no_text(), no_text(), no_text(), no_text()),
                },
                LedgerEvent::Pty(p) => (
                    Some("pty-"@ + decimal(p.timestamp_ms as nat)),
                    Some(p.agent_id@),
                    no_text(),
                    no_text(),
                ),
                LedgerEvent::Health(h) => (
                    Some("health-"@ + decimal(h.timestamp_ms as nat)),
                    no_text(),
                    no_text(),
                    Some(h.severity@),
                ),
                LedgerEvent::Checkpoint(c) => (Some(c.checkpoint_id@), no_text(), no_text(), no_text()),
            },
    {
        match self {
            LedgerEvent::Router(event) => event.metadata(),
            LedgerEvent::Lease(event) => event.metadata(),
            LedgerEvent::Consensus(event) => consensus_metadata(event),
            LedgerEvent::Pty(event) => event.metadata(),
            LedgerEvent::Health(event) => event.metadata(),
            LedgerEvent::Checkpoint(event) => event.metadata(),
        }
    }
}

// ----- segments -----

/// `s` left-padded with zeros to `w` characters.
pub open spec fn zero_padded(s: Seq<char>, w: nat) -> Seq<char> {
    if s.len() >= w {
        s
    } else {
        Seq::new((w - s.len()) as nat, |i: int| '0') + s
    }
}

/// The file of segment `index`: `segment_` and the index in at least four digits, `.log`.
/// Lexicographic order of these names is creation order below ten thousand segments.
pub fn segment_file_name(index: u32) -> (r: String)
    ensures
        r@ == "segment_"@ + zero_padded(decimal(index as nat), 4) + ".log"@,
{
    let digits = decimal_text(index as u64);
    let n = digits.as_str().unicode_len();
    let mut name = String::from_str("segment_");
    let ghost start = name@;
    let mut k: usize = n;
    while k < 4
        invariant
            n == decimal(index as nat).len(),
            n <= k <= 4 || (n > 4 && k == n),
            name@ == start + Seq::new((k - n) as nat, |i: int| '0'),
        decreases 4 - k,
    {
        proof {
            reveal_strlit("0");
        }
        name = name.concat("0");
        proof {
            assert(name@ =~= start + Seq::new((k + 1 - n) as nat, |i: int| '0'));
        }
        k += 1;
    }
    let r = name.concat(digits.as_str()).concat(".log");
    proof {
        if n >= 4 {
            assert(Seq::new((k - n) as nat, |i: int| '0') =~= Seq::<char>::empty());
        }
        assert(r@ =~= "segment_"@ + zero_padded(decimal(index as nat), 4) + ".log"@);
    }
    r
}

/// The name of a fresh epoch started `secs` seconds after the Unix epoch.
pub fn current_epoch_id(secs: u64) -> (r: String)
    ensures
        r@ == "epoch-"@ + decimal(secs as nat),
{
    prefixed_decimal("epoch-", secs)
}

/// Segment limits: rotation once a segment holds `segment_size_bytes` or is
/// `segment_duration` ms old.
#[derive(Debug, Clone, Copy, PartialEq, Eq, Structural)]
pub struct LedgerRuntimeConfig {
    pub segment_size_bytes: u64,
    pub segment_duration: u64,
}

impl LedgerRuntimeConfig {
    /// Durations below one second count as one second.
    pub fn from_config(config: &LedgerConfig) -> (r: LedgerRuntimeConfig)
        ensures
            r.segment_size_bytes == config.segment_size_bytes,
            r.segment_duration == if config.segment_duration_secs < 1 {
                1000
            } else if config.segment_duration_secs as nat * 1000 > u64::MAX {
                u64::MAX
            } else {
                (config.segment_duration_secs * 1000) as u64
            },
    {
        let secs = if config.segment_duration_secs < 1 {
            1
        } else {
            config.segment_duration_secs
        };
        let ms = if secs > u64::MAX / 1000 {
            u64::MAX
        } else {
            secs * 1000
        };
        LedgerRuntimeConfig { segment_size_bytes: config.segment_size_bytes, segment_duration: ms }
    }
}

/// Where the writer is in the current segment.
#[derive(Debug, Clone, Copy, PartialEq, Eq, Structural)]
pub struct WriterState {
    pub segment_index: u32,
    pub bytes_written: u64,
    pub segment_opened_at: u64,
}

impl WriterState {
    pub fn new(now: u64) -> (r: WriterState)
        ensures
            r.segment_index == 0,
            r.bytes_written == 0,
            r.segment_opened_at == now,
    {
        WriterState { segment_index: 0, bytes_written: 0, segment_opened_at: now }
    }

    /// The current segment is full or old enough at `now` (ms).
    pub fn should_rotate(&self, now: u64, config: &LedgerRuntimeConfig) -> (r: bool)
        ensures
            r == (self.bytes_written >= config.segment_size_bytes || (now >= self.segment_opened_at
                && now - self.segment_opened_at >= config.segment_duration) || (now
                < self.segment_opened_at && config.segment_duration == 0)),
    {
        let age: u64 = if now >= self.segment_opened_at {
            now - self.segment_opened_at
        } else {
            0
        };
        self.bytes_written >= config.segment_size_bytes || age >= config.segment_duration
    }

    /// Opens the next segment at `now`.
    pub fn rotate(&mut self, now: u64)
        ensures
            final(self).segment_index == if old(self).segment_index == u32::MAX {
                u32::MAX
            } else {
                (old(self).segment_index + 1) as u32
            },
            final(self).bytes_written == 0,
            final(self).segment_opened_at == now,
    {
        if self.segment_index < u32::MAX {
            self.segment_index = self.segment_index + 1;
        }
        self.bytes_written = 0;
        self.segment_opened_at = now;
    }

    /// Counts a written line of `n` bytes (saturating).
    pub fn record_write(&mut self, n: u64)
        ensures
            final(self).bytes_written == if old(self).bytes_written as nat + n as nat > u64::MAX {
                u64::MAX
            } else {
                (old(self).bytes_written + n) as u64
            },
            final(self).segment_index == old(self).segment_index,
            final(self).segment_opened_at == old(self).segment_opened_at,
    {
        self.bytes_written = if self.bytes_written > u64::MAX - n {
            u64::MAX
        } else {
            self.bytes_written + n
        };
    }
}

} // verus!
