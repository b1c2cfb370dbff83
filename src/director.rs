use vstd::prelude::*;
use crate::agent::{next_word, words_from};
use crate::config::{all_digits, digits_value, is_digit};
use crate::text::same_text;

verus! {

#[derive(Debug, Clone, Copy, PartialEq, Eq, Structural, Hash)]
pub enum AgentRole {
    Systems,
    Interface,
    Router,
    Testing,
    Research,
    Director,
}

#[derive(Debug, Clone, Copy, PartialEq, Eq, Structural)]
pub enum TurnStatus {
    Pending,
    InProgress,
    Completed,
    Failed,
    Blocked,
}

/// The lowercase form of a text, as `str::to_lowercase` gives it.
pub uninterp spec fn lower_of(s: Seq<char>) -> Seq<char>;

/// Relies on `str::to_lowercase`: the result depends on the characters alone.
#[verifier::external_body]
fn lowercase(s: &str) -> (r: String)
    ensures
        r@ == lower_of(s@),
{
    s.to_lowercase()
}

/// The role a lowercase name stands for.
pub open spec fn role_named(s: Seq<char>) -> Option<AgentRole> {
    if s == "systems"@ {
        Some(AgentRole::Systems)
    } else if s == "interface"@ {
        Some(AgentRole::Interface)
    } else if s == "router"@ {
        Some(AgentRole::Router)
    } else if s == "testing"@ {
        Some(AgentRole::Testing)
    } else if s == "research"@ {
        Some(AgentRole::Research)
    } else if s == "director"@ {
        Some(AgentRole::Director)
    } else {
        None
    }
}

fn text_is(s: &String, lit: &str) -> (r: bool)
    ensures
        r == (s@ == lit@),
{
    let l = String::from_str(lit);
    same_text(s, &l)
}

impl AgentRole {
    /// The role named by an already lowercased name.
    pub fn from_lowercase(name: &String) -> (r: Option<AgentRole>)
        ensures
            r == role_named(name@),
    {
        if text_is(name, "systems") {
            Some(AgentRole::Systems)
        } else if text_is(name, "interface") {
            Some(AgentRole::Interface)
        } else if text_is(name, "router") {
            Some(AgentRole::Router)
        } else if text_is(name, "testing") {
            Some(AgentRole::Testing)
        } else if text_is(name, "research") {
            Some(AgentRole::Research)
        } else if text_is(name, "director") {
            Some(AgentRole::Director)
        } else {
            None
        }
    }

    /// The role named by `s`, in any letter case.
    pub fn from_str(s: &str) -> (r: Option<AgentRole>)
        ensures
            r == role_named(lower_of(s@)),
    {
        let lower = lowercase(s);
        Self::from_lowercase(&lower)
    }
}

/// One delegated unit of work. `metadata` holds key/value pairs, one per key.
#[derive(Debug, Clone)]
pub struct Turn {
    pub id: usize,
    pub specialist: AgentRole,
    pub prompt: String,
    pub acceptance_criteria: Vec<String>,
    pub parallel_group: Option<usize>,
    pub dependencies: Vec<usize>,
    pub status: TurnStatus,
    pub metadata: Vec<(String, String)>,
}

impl Turn {
    pub fn new(id: usize, specialist: AgentRole, prompt: String) -> (r: Turn)
        ensures
            r.id == id,
            r.specialist == specialist,
            r.prompt == prompt,
            r.acceptance_criteria@.len() == 0,
            r.parallel_group is None,
            r.dependencies@.len() == 0,
            r.status == TurnStatus::Pending,
            r.metadata@.len() == 0,
    {
        Turn {
            id,
            specialist,
            prompt,
            acceptance_criteria: Vec::new(),
            parallel_group: None,
            dependencies: Vec::new(),
            status: TurnStatus::Pending,
            metadata: Vec::new(),
        }
    }

    pub fn with_acceptance(self, criteria: Vec<String>) -> (r: Turn)
        ensures
            r == (Turn { acceptance_criteria: criteria, ..self }),
    {
        let mut t = self;
        t.acceptance_criteria = criteria;
        t
    }

    pub fn with_parallel_group(self, group: Option<usize>) -> (r: Turn)
        ensures
            r == (Turn { parallel_group: group, ..self }),
    {
        let mut t = self;
        t.parallel_group = group;
        t
    }

    /// Sets `key` to `value`, replacing an earlier value of the key.
    pub fn with_metadata(self, key: String, value: String) -> (r: Turn)
        ensures
            r == (Turn { metadata: r.metadata, ..self }),
            r.metadata@.len() == self.metadata@.len() || r.metadata@ == self.metadata@.push((key, value)),
            exists|i: int| 0 <= i < r.metadata@.len() && r.metadata@[i].0@ == key@ && r.metadata@[i].1@ == value@,
            forall|i: int|
                0 <= i < r.metadata@.len() && (#[trigger] r.metadata@[i]).0@ != key@ ==> r.metadata@[i]
                    == self.metadata@[i],
    {
        let mut t = self;
        let mut i: usize = 0;
        while i < t.metadata.len()
            invariant
                0 <= i <= t.metadata@.len(),
                t == self,
            decreases t.metadata@.len() - i,
        {
            if same_text(&t.metadata[i].0, &key) {
                let ghost kv = key@;
                t.metadata.set(i, (key, value));
                assert(t.metadata@[i as int].0@ == kv);
                return t;
            }
            i += 1;
        }
        t.metadata.push((key, value));
        assert(t.metadata@[t.metadata@.len() - 1].0@ == key@);
        t
    }
}

/// A plan of turns toward a goal.
#[derive(Debug, Clone)]
pub struct Runbook {
    pub epoch_id: String,
    pub goal: String,
    pub turns: Vec<Turn>,
    pub metadata: Vec<(String, String)>,
}

/// The turns that `t` waits for: in a parallel group, every turn of an earlier group and
/// every ungrouped turn with a lower id; ungrouped, every turn with a lower id.
pub open spec fn depends_on(turns: Seq<Turn>, t: Turn, id: usize) -> bool {
    exists|j: int|
        0 <= j < turns.len() && turns[j].id == id && match t.parallel_group {
            Some(g) => match turns[j].parallel_group {
                Some(h) => h < g,
                None => turns[j].id < t.id,
            },
            None => turns[j].id < t.id,
        }
}

pub open spec fn strictly_ascending(s: Seq<usize>) -> bool {
    forall|a: int, b: int| 0 <= a < b < s.len() ==> s[a] < s[b]
}

/// Inserts `x` into the ascending list `v` unless it is there already.
fn insert_sorted(v: &mut Vec<usize>, x: usize)
    requires
        strictly_ascending(old(v)@),
    ensures
        strictly_ascending(final(v)@),
        forall|y: usize| final(v)@.contains(y) <==> (old(v)@.contains(y) || y == x),
{
    let mut i: usize = 0;
    while i < v.len() && v[i] < x
        invariant
            0 <= i <= v@.len(),
            *v == *old(v),
            strictly_ascending(v@),
            forall|k: int| 0 <= k < i ==> v@[k] < x,
        decreases v@.len() - i,
    {
        i += 1;
    }
    if i < v.len() && v[i] == x {
        return;
    }
    v.insert(i, x);
    assert forall|y: usize| v@.contains(y) <==> (old(v)@.contains(y) || y == x) by {
        if v@.contains(y) {
            let k = choose|k: int| 0 <= k < v@.len() && v@[k] == y;
            if k < i {
                assert(old(v)@[k] == y);
            } else if k > i {
                assert(old(v)@[k - 1] == y);
            }
        }
        if old(v)@.contains(y) {
            let k = choose|k: int| 0 <= k < old(v)@.len() && old(v)@[k] == y;
            if k < i {
                assert(v@[k] == y);
            } else {
                assert(v@[k + 1] == y);
            }
        }
        if y == x {
            assert(v@[i as int] == y);
        }
    }
}

impl Runbook {
    pub fn new(epoch_id: String, goal: String) -> (r: Runbook)
        ensures
            r.epoch_id == epoch_id,
            r.goal == goal,
            r.turns@.len() == 0,
            r.metadata@.len() == 0,
    {
        Runbook { epoch_id, goal, turns: Vec::new(), metadata: Vec::new() }
    }

    pub fn add_turn(&mut self, turn: Turn)
        ensures
            final(self).turns@ == old(self).turns@.push(turn),
            final(self).epoch_id == old(self).epoch_id,
            final(self).goal == old(self).goal,
    {
        self.turns.push(turn);
    }

    /// Fills in every turn's dependencies (see `depends_on`), ascending and without repeats.
    pub fn build_dependency_graph(&mut self)
        ensures
            final(self).turns@.len() == old(self).turns@.len(),
            final(self).epoch_id == old(self).epoch_id,
            final(self).goal == old(self).goal,
            final(self).metadata == old(self).metadata,
            forall|i: int|
                0 <= i < final(self).turns@.len() ==> {
                    let t = #[trigger] final(self).turns@[i];
                    &&& t == (Turn { dependencies: t.dependencies, ..old(self).turns@[i] })
                    &&& strictly_ascending(t.dependencies@)
                    &&& forall|d: usize|
                        t.dependencies@.contains(d) <==> depends_on(old(self).turns@, old(self).turns@[i], d)
                },
    {
        let ghost orig = self.turns@;
        let n = self.turns.len();
        let mut i: usize = 0;
        while i < n
            invariant
                n == orig.len(),
                self.turns@.len() == n,
                0 <= i <= n,
                self.epoch_id == old(self).epoch_id,
                self.goal == old(self).goal,
                self.metadata == old(self).metadata,
                forall|k: int| 0 <= k < n ==> (#[trigger] self.turns@[k]) == (Turn { dependencies: self.turns@[k].dependencies, ..orig[k] }),
                forall|k: int|
                    0 <= k < i ==> {
                        let t = #[trigger] self.turns@[k];
                        &&& strictly_ascending(t.dependencies@)
                        &&& forall|d: usize| t.dependencies@.contains(d) <==> depends_on(orig, orig[k], d)
                    },
            decreases n - i,
        {
            let group = self.turns[i].parallel_group;
            let own = self.turns[i].id;
            let mut deps: Vec<usize> = Vec::new();
            let mut j: usize = 0;
            while j < n
                invariant
                    n == orig.len(),
                    self.turns@.len() == n,
                    i < n,
                    group == orig[i as int].parallel_group,
                    own == orig[i as int].id,
                    forall|k: int| 0 <= k < n ==> (#[trigger] self.turns@[k]).id == orig[k].id
                        && self.turns@[k].parallel_group == orig[k].parallel_group,
                    0 <= j <= n,
                    strictly_ascending(deps@),
                    forall|d: usize| deps@.contains(d) <==> exists|m: int|
                        0 <= m < j && orig[m].id == d && match group {
                            Some(g) => match orig[m].parallel_group {
                                Some(h) => h < g,
                                None => orig[m].id < own,
                            },
                            None => orig[m].id < own,
                        },
                decreases n - j,
            {
                let other = self.turns[j].id;
                let take = match group {
                    Some(g) => match self.turns[j].parallel_group {
                        Some(h) => h < g,
                        None => other < own,
                    },
                    None => other < own,
                };
                let ghost before = deps@;
                if take {
                    insert_sorted(&mut deps, other);
                }
                proof {
                    assert forall|d: usize| deps@.contains(d) <==> exists|m: int|
                        0 <= m < j + 1 && orig[m].id == d && match group {
                            Some(g) => match orig[m].parallel_group {
                                Some(h) => h < g,
                                None => orig[m].id < own,
                            },
                            None => orig[m].id < own,
                        } by {
                        if deps@.contains(d) && !before.contains(d) {
                            assert(orig[j as int].id == d);
                        }
                    }
                }
                j += 1;
            }
            let ghost before_set = self.turns@;
            self.turns[i].dependencies = deps;
            assert(self.turns@ =~= before_set.update(i as int, self.turns@[i as int]));
            i += 1;
        }
    }

    /// Positions of the pending turns whose dependencies have all completed.
    pub fn get_executable_turns(&self) -> (r: Vec<usize>)
        ensures
            forall|k: int| 0 <= k < r@.len() ==> (#[trigger] r@[k]) < self.turns@.len(),
            forall|a: int, b: int| 0 <= a < b < r@.len() ==> r@[a] < r@[b],
            forall|p: usize|
                p < self.turns@.len() ==> (r@.contains(p) <==> (self.turns@[p as int].status
                    == TurnStatus::Pending && forall|d: usize| #![auto]
                    self.turns@[p as int].dependencies@.contains(d) ==> exists|c: int|
                        0 <= c < self.turns@.len() && self.turns@[c].id == d && self.turns@[c].status
                            == TurnStatus::Completed)),
    {
        let n = self.turns.len();
        let mut r: Vec<usize> = Vec::new();
        let mut p: usize = 0;
        while p < n
            invariant
                n == self.turns@.len(),
                0 <= p <= n,
                forall|k: int| 0 <= k < r@.len() ==> (#[trigger] r@[k]) < p,
                forall|a: int, b: int| 0 <= a < b < r@.len() ==> r@[a] < r@[b],
                forall|q: usize|
                    q < p ==> (r@.contains(q) <==> (self.turns@[q as int].status == TurnStatus::Pending
                        && forall|d: usize| #![auto]
                        self.turns@[q as int].dependencies@.contains(d) ==> exists|c: int|
                            0 <= c < n && self.turns@[c].id == d && self.turns@[c].status
                                == TurnStatus::Completed)),
            decreases n - p,
        {
            let ok = self.turns[p].status == TurnStatus::Pending && self.all_completed(p);
            let ghost before = r@;
            if ok {
                r.push(p);
            }
            proof {
                assert forall|q: usize| q < p + 1 implies (r@.contains(q) <==> (self.turns@[q as int].status
                    == TurnStatus::Pending && forall|d: usize| #![auto]
                    self.turns@[q as int].dependencies@.contains(d) ==> exists|c: int|
                        0 <= c < n && self.turns@[c].id == d && self.turns@[c].status
                            == TurnStatus::Completed)) by {
                    if q < p {
                        if r@.contains(q) && !before.contains(q) {
                            assert(r@[r@.len() - 1] == q);
                        }
                        if before.contains(q) {
                            let k = choose|k: int| 0 <= k < before.len() && before[k] == q;
                            assert(r@[k] == q);
                        }
                    } else {
                        if ok {
                            assert(r@[r@.len() - 1] == q);
                        } else if r@.contains(q) {
                            let k = choose|k: int| 0 <= k < r@.len() && r@[k] == q;
                            assert(before[k] < p);
                        }
                    }
                }
            }
            p += 1;
        }
        r
    }

    /// Every dependency of turn `p` names a completed turn.
    fn all_completed(&self, p: usize) -> (r: bool)
        requires
            p < self.turns@.len(),
        ensures
            r == forall|d: usize| #![auto]
                self.turns@[p as int].dependencies@.contains(d) ==> exists|c: int|
                    0 <= c < self.turns@.len() && self.turns@[c].id == d && self.turns@[c].status
                        == TurnStatus::Completed,
    {
        let deps = &self.turns[p].dependencies;
        let mut k: usize = 0;
        while k < deps.len()
            invariant
                p < self.turns@.len(),
                *deps == self.turns@[p as int].dependencies,
                0 <= k <= deps@.len(),
                forall|x: int| 0 <= x < k ==> exists|c: int|
                    0 <= c < self.turns@.len() && self.turns@[c].id == #[trigger] deps@[x] && self.turns@[c].status
                        == TurnStatus::Completed,
            decreases deps@.len() - k,
        {
            let d = deps[k];
            let mut c: usize = 0;
            let mut found = false;
            while c < self.turns.len()
                invariant_except_break
                    !found,
                invariant
                    0 <= c <= self.turns@.len(),
                    forall|y: int| 0 <= y < c ==> !(self.turns@[y].id == d && self.turns@[y].status == TurnStatus::Completed),
                ensures
                    found ==> c < self.turns@.len() && self.turns@[c as int].id == d && self.turns@[c as int].status == TurnStatus::Completed,
                    !found ==> forall|y: int| 0 <= y < self.turns@.len() ==> !(self.turns@[y].id == d && self.turns@[y].status == TurnStatus::Completed),
                decreases self.turns@.len() - c,
            {
                if self.turns[c].id == d && self.turns[c].status == TurnStatus::Completed {
                    found = true;
                    break;
                }
                c += 1;
            }
            if !found {
                assert(deps@.contains(d) && deps@[k as int] == d);
                return false;
            }
            k += 1;
        }
        proof {
            assert forall|d: usize| #![auto] deps@.contains(d) implies exists|c: int|
                0 <= c < self.turns@.len() && self.turns@[c].id == d && self.turns@[c].status
                    == TurnStatus::Completed by {
                let x = choose|x: int| 0 <= x < deps@.len() && deps@[x] == d;
                assert(exists|c: int|
                    0 <= c < self.turns@.len() && self.turns@[c].id == deps@[x] && self.turns@[c].status
                        == TurnStatus::Completed);
            }
        }
        true
    }
}

// ----- sessions and execution records -----

#[derive(Debug, Clone, Copy, PartialEq, Eq, Structural)]
pub enum SessionState {
    Created,
    Running,
    Paused,
    Completed,
    Failed,
}

#[derive(Debug, Clone, Copy, PartialEq, Eq, Structural)]
pub enum AgentStatus {
    Idle,
    Spawning,
    Ready,
    ExecutingTurn,
    Completed,
    Failed,
    ShuttingDown,
}

/// The outcome of one turn. `duration_ms` in milliseconds; paths as texts.
#[derive(Debug, Clone)]
pub struct TurnResult {
    pub turn_id: usize,
    pub status: TurnStatus,
    pub artifacts: Vec<String>,
    pub output_log: String,
    pub duration_ms: u64,
    pub error_message: Option<String>,
}

/// A finished turn as a session keeps it; instants in seconds since the Unix epoch.
#[derive(Debug, Clone)]
pub struct TurnRecord {
    pub turn_id: usize,
    pub started_at: u64,
    pub completed_at: Option<u64>,
    pub duration_ms: u64,
    pub artifacts: Vec<String>,
    pub output_log: String,
    pub error_message: Option<String>,
}

/// One run of a runbook; instants in seconds since the Unix epoch; one record per turn.
#[derive(Debug, Clone)]
pub struct Session {
    pub session_id: String,
    pub epoch_id: String,
    pub runbook_path: String,
    pub state: SessionState,
    pub created_at: u64,
    pub started_at: Option<u64>,
    pub completed_at: Option<u64>,
    pub turn_records: Vec<TurnRecord>,
}

/// The record of a turn completed at `now` (seconds): it started `duration` earlier, not
/// before the epoch.
pub open spec fn turn_record_of(turn_id: usize, result: TurnResult, now: u64) -> TurnRecord {
    TurnRecord {
        turn_id,
        started_at: if now >= result.duration_ms / 1000 {
            (now - result.duration_ms / 1000) as u64
        } else {
            0
        },
        completed_at: Some(now),
        duration_ms: result.duration_ms,
        artifacts: result.artifacts,
        output_log: result.output_log,
        error_message: result.error_message,
    }
}

impl Session {
    /// A session named `<epoch>_<now_ms>`, created at `now_ms`.
    pub fn new(epoch_id: String, runbook_path: String, now_ms: u64) -> (r: Session)
        ensures
            r.session_id@ == epoch_id@ + "_"@ + crate::text::decimal(now_ms as nat),
            r.epoch_id == epoch_id,
            r.runbook_path == runbook_path,
            r.state == SessionState::Created,
            r.created_at == now_ms / 1000,
            r.started_at is None,
            r.completed_at is None,
            r.turn_records@.len() == 0,
    {
        let session_id = Self::generate_session_id(&epoch_id, now_ms);
        Session {
            session_id,
            epoch_id,
            runbook_path,
            state: SessionState::Created,
            created_at: now_ms / 1000,
            started_at: None,
            completed_at: None,
            turn_records: Vec::new(),
        }
    }

    pub fn generate_session_id(epoch_id: &String, now_ms: u64) -> (r: String)
        ensures
            r@ == epoch_id@ + "_"@ + crate::text::decimal(now_ms as nat),
    {
        proof {
            reveal_strlit("_");
        }
        let digits = crate::text::decimal_text(now_ms);
        epoch_id.clone().concat("_").concat(digits.as_str())
    }

    /// Running; the first start (in seconds) is kept.
    pub fn start(&mut self, now_secs: u64)
        ensures
            final(self).state == SessionState::Running,
            *final(self) == (Session {
                state: SessionState::Running,
                started_at: match old(self).started_at {
                    Some(t) => Some(t),
                    None => Some(now_secs),
                },
                ..*old(self)
            }),
    {
        self.state = SessionState::Running;
        if self.started_at.is_none() {
            self.started_at = Some(now_secs);
        }
    }

    pub fn pause(&mut self)
        ensures
            *final(self) == (Session { state: SessionState::Paused, ..*old(self) }),
    {
        self.state = SessionState::Paused;
    }

    pub fn resume(&mut self)
        ensures
            *final(self) == (Session { state: SessionState::Running, ..*old(self) }),
    {
        self.state = SessionState::Running;
    }

    pub fn finalize(&mut self, now_secs: u64)
        ensures
            *final(self) == (Session {
                state: SessionState::Completed,
                completed_at: Some(now_secs),
                ..*old(self)
            }),
    {
        self.state = SessionState::Completed;
        self.completed_at = Some(now_secs);
    }

    /// Records `result` for `turn_id` as completed at `now_secs`, replacing an earlier
    /// record of the same turn; it started `duration` earlier (not before the epoch).
    pub fn record_turn_completion(&mut self, turn_id: usize, result: TurnResult, now_secs: u64)
        ensures
            *final(self) == (Session { turn_records: final(self).turn_records, ..*old(self) }),
            ({
                let rec = turn_record_of(turn_id, result, now_secs);
                let old_recs = old(self).turn_records@;
                ||| exists|i: int|
                    0 <= i < old_recs.len() && (#[trigger] old_recs[i]).turn_id == turn_id && (forall|j: int|
                        0 <= j < i ==> old_recs[j].turn_id != turn_id) && final(self).turn_records@
                        == old_recs.update(i, rec)
                ||| (forall|j: int| 0 <= j < old_recs.len() ==> (#[trigger] old_recs[j]).turn_id != turn_id)
                    && final(self).turn_records@ == old_recs.push(rec)
            }),
    {
        let secs = result.duration_ms / 1000;
        let started_at = if now_secs >= secs {
            now_secs - secs
        } else {
            0
        };
        let ghost spec_rec = turn_record_of(turn_id, result, now_secs);
        let record = TurnRecord {
            turn_id,
            started_at,
            completed_at: Some(now_secs),
            duration_ms: result.duration_ms,
            artifacts: result.artifacts,
            output_log: result.output_log,
            error_message: result.error_message,
        };
        assert(record == spec_rec);
        let mut i: usize = 0;
        while i < self.turn_records.len()
            invariant
                0 <= i <= self.turn_records@.len(),
                record == spec_rec,
                spec_rec == turn_record_of(turn_id, result, now_secs),
                *self == *old(self),
                forall|k: int| 0 <= k < i ==> (#[trigger] self.turn_records@[k]).turn_id != turn_id,
            decreases self.turn_records@.len() - i,
        {
            if self.turn_records[i].turn_id == turn_id {
                let ghost old_recs = self.turn_records@;
                self.turn_records.set(i, record);
                assert(old_recs[i as int].turn_id == turn_id);
                assert(exists|x: int|
                    0 <= x < old(self).turn_records@.len() && (#[trigger] old(self).turn_records@[x]).turn_id == turn_id && (forall|j: int|
                        0 <= j < x ==> old(self).turn_records@[j].turn_id != turn_id) && self.turn_records@
                        == old(self).turn_records@.update(x, turn_record_of(turn_id, result, now_secs)));
                return;
            }
            i += 1;
        }
        self.turn_records.push(record);
    }

    /// The record of `turn_id`, if there is one.
    pub fn get_turn_record(&self, turn_id: usize) -> (r: Option<&TurnRecord>)
        ensures
            match r {
                Some(t) => t.turn_id == turn_id,
                None => forall|i: int| 0 <= i < self.turn_records@.len() ==> (#[trigger] self.turn_records@[i]).turn_id != turn_id,
            },
    {
        let mut i: usize = 0;
        while i < self.turn_records.len()
            invariant
                0 <= i <= self.turn_records@.len(),
                forall|k: int| 0 <= k < i ==> (#[trigger] self.turn_records@[k]).turn_id != turn_id,
            decreases self.turn_records@.len() - i,
        {
            if self.turn_records[i].turn_id == turn_id {
                return Some(&self.turn_records[i]);
            }
            i += 1;
        }
        None
    }

    /// Milliseconds from start to completion, once both are known (saturating).
    pub fn total_duration_ms(&self) -> (r: Option<u64>)
        ensures
            match (self.started_at, self.completed_at) {
                (Some(s), Some(c)) => r == Some(
                    if c < s {
                        0u64
                    } else if (c - s) as nat * 1000 > u64::MAX {
                        u64::MAX
                    } else {
                        ((c - s) * 1000) as u64
                    },
                ),
                _ => r is None,
            },
    {
        match (self.started_at, self.completed_at) {
            (Some(started), Some(completed)) => {
                let span = if completed >= started {
                    completed - started
                } else {
                    0
                };
                Some(
                    if span > u64::MAX / 1000 {
                        u64::MAX
                    } else {
                        span * 1000
                    },
                )
            },
            _ => None,
        }
    }
}

#[derive(Debug, Clone, PartialEq, Eq)]
pub enum ClaudeAgentError {
    SpawnFailed(String),
    PromptSendFailed(String),
    TurnTimeout(u64),
    NotReady(String),
    ExecutionFailed(String),
}

#[derive(Debug, Clone, PartialEq, Eq)]
pub enum OrchestratorError {
    RunbookLoadFailed(String),
    NoRunbookLoaded,
    AgentSpawnFailed(ClaudeAgentError),
    TurnExecutionFailed(String),
    SessionError(String),
    AlreadyExecuting,
    Paused,
}

#[derive(Debug, Clone, PartialEq, Eq)]
pub enum ExecutorError {
    OrchestratorError(OrchestratorError),
    AlreadyExecuting,
    NotExecuting,
    NoRunbookLoaded,
}

#[derive(Debug, Clone, PartialEq, Eq)]
pub enum ExecutionEvent {
    RunbookStarted { epoch_id: String, total_turns: usize, timestamp: u64 },
    TurnStarted { turn_id: usize, specialist: AgentRole, timestamp: u64 },
    TurnCompleted { turn_id: usize, duration_ms: u64, artifacts_count: usize },
    TurnFailed { turn_id: usize, error_message: String },
    RunbookCompleted { total_duration_ms: u64, completed_turns: usize, failed_turns: usize },
    RunbookFailed { error_message: String },
}

#[derive(Debug, Clone, PartialEq, Eq)]
pub struct TurnSummary {
    pub turn_id: usize,
    pub specialist: AgentRole,
    pub status: TurnStatus,
    pub duration_ms: u64,
    pub error_message: Option<String>,
}

#[derive(Debug, Clone, PartialEq, Eq)]
pub struct ExecutionSummary {
    pub epoch_id: String,
    pub total_turns: usize,
    pub completed_turns: usize,
    pub failed_turns: usize,
    pub total_duration_ms: u64,
    pub turn_summaries: Vec<TurnSummary>,
}

#[derive(Debug, Clone, PartialEq, Eq)]
pub struct RunbookSummary {
    pub epoch_id: String,
    pub goal: String,
    pub total_turns: usize,
    pub completed_turns: usize,
    pub failed_turns: usize,
    pub in_progress_turns: usize,
}

#[derive(Debug, Clone, PartialEq, Eq)]
pub struct TurnUpdate {
    pub turn_id: usize,
    pub status: TurnStatus,
    pub specialist: AgentRole,
    pub started_at: Option<u64>,
    pub completed_at: Option<u64>,
    pub duration_ms: Option<u64>,
    pub error_message: Option<String>,
}

#[derive(Debug, Clone, PartialEq, Eq)]
pub struct Escalation {
    pub turn_id: usize,
    pub reason: String,
    pub severity: String,
    pub timestamp: u64,
}

#[derive(Debug, Clone, PartialEq, Eq)]
pub enum ParseError {
    MissingField(String),
    InvalidFormat(String),
    UnknownRole(String),
    InvalidTurnNumber(String),
}

/// Reads runbooks written in Markdown.
#[derive(Debug, Clone)]
pub struct RunbookParser {
    pub content: String,
}

/// The digits of a number word: an optional leading `+` dropped.
pub open spec fn number_digits(w: Seq<char>) -> Seq<char> {
    if w.len() > 0 && w[0] == '+' {
        w.drop_first()
    } else {
        w
    }
}

/// The turn number a heading `Turn <n> ...` gives, when `n` is a number that fits.
pub open spec fn turn_number_of(h: Seq<char>) -> Option<nat> {
    let ws = words_from(h, 0);
    if ws.len() >= 2 && ws[0] == "Turn"@ && number_digits(ws[1]).len() > 0 && all_digits(
        number_digits(ws[1]),
    ) && digits_value(number_digits(ws[1])) <= usize::MAX {
        Some(digits_value(number_digits(ws[1])))
    } else {
        None
    }
}

proof fn lemma_digits_prefix_le(s: Seq<char>, k: int)
    requires
        0 <= k <= s.len(),
        all_digits(s),
    ensures
        digits_value(s.subrange(0, k)) <= digits_value(s),
    decreases s.len() - k,
{
    if k < s.len() {
        let p = s.subrange(0, k + 1);
        assert(p.drop_last() =~= s.subrange(0, k));
        assert(is_digit(s[k]));
        lemma_digits_prefix_le(s, k + 1);
    } else {
        assert(s.subrange(0, k) =~= s);
    }
}

impl RunbookParser {
    pub fn new(content: String) -> (r: RunbookParser)
        ensures
            r.content == content,
    {
        RunbookParser { content }
    }

    /// The number in a heading `Turn <n> ...`; `InvalidTurnNumber` with the heading otherwise.
    pub fn extract_turn_number(&self, heading: &str) -> (r: Result<usize, ParseError>)
        ensures
            match (r, turn_number_of(heading@)) {
                (Ok(n), Some(m)) => n as nat == m,
                (Err(ParseError::InvalidTurnNumber(h)), None) => h@ == heading@,
                _ => false,
            },
    {
        proof {
            reveal_strlit("Turn");
        }
        let c = crate::agent::chars_of_str(heading);
        assert(c@ == heading@);
        let invalid = ParseError::InvalidTurnNumber(heading.to_string());
        let (a, b) = match next_word(&c, 0) {
            Some(w) => w,
            None => {
                return Err(invalid);
            },
        };
        let (x, y) = match next_word(&c, b) {
            Some(w) => w,
            None => {
                return Err(invalid);
            },
        };
        let ghost ws = words_from(c@, 0);
        assert(ws[0] == c@.subrange(a as int, b as int));
        assert(ws.drop_first() =~= words_from(c@, b as int));
        assert(ws[1] == c@.subrange(x as int, y as int));
        let is_turn = b - a == 4 && c[a] == 'T' && c[a + 1] == 'u' && c[a + 2] == 'r' && c[a + 3] == 'n';
        proof {
            assert("Turn"@.len() == 4);
            if ws[0] == "Turn"@ {
                assert(ws[0].len() == b - a);
                assert(ws[0][0] == c@[a as int] && ws[0][1] == c@[a + 1] && ws[0][2] == c@[a + 2]
                    && ws[0][3] == c@[a + 3]);
                assert(ws[0][0] == 'T' && ws[0][1] == 'u' && ws[0][2] == 'r' && ws[0][3] == 'n');
            }
            if is_turn {
                assert(ws[0] =~= "Turn"@);
            }
        }
        if !is_turn {
            return Err(invalid);
        }
        let start = if c[x] == '+' {
            x + 1
        } else {
            x
        };
        let ghost d = c@.subrange(start as int, y as int);
        assert(d =~= number_digits(ws[1]));
        if start == y {
            return Err(invalid);
        }
        let mut v: usize = 0;
        let mut i = start;
        while i < y
            invariant
                start <= i <= y <= c@.len(),
                d == c@.subrange(start as int, y as int),
                d == number_digits(ws[1]),
                ws == words_from(heading@, 0),
                ws.len() >= 2,
                ws[0] == "Turn"@,
                d.len() > 0,
                all_digits(c@.subrange(start as int, i as int)),
                v as nat == digits_value(c@.subrange(start as int, i as int)),
            decreases y - i,
        {
            let ch = c[i];
            let ghost sub = c@.subrange(start as int, i + 1);
            assert(sub.drop_last() =~= c@.subrange(start as int, i as int));
            assert(sub.last() == ch);
            if !('0' <= ch && ch <= '9') {
                assert(!is_digit(d[i - start]));
                return Err(ParseError::InvalidTurnNumber(heading.to_string()));
            }
            let digit = (ch as u32 - '0' as u32) as usize;
            if v > (usize::MAX - digit) / 10 {
                proof {
                    assert forall|k: int| 0 <= k < sub.len() implies is_digit(#[trigger] sub[k]) by {
                        if k < i - start {
                            assert(sub[k] == c@.subrange(start as int, i as int)[k]);
                        }
                    }
                    assert(digits_value(sub) > usize::MAX) by (nonlinear_arith)
                        requires
                            digits_value(sub) == v as nat * 10 + digit as nat,
                            v > (usize::MAX - digit) / 10,
                            digit <= 9,
                    ;
                    if all_digits(d) {
                        assert(d.subrange(0, i + 1 - start) =~= sub);
                        lemma_digits_prefix_le(d, i + 1 - start);
                    }
                }
                return Err(ParseError::InvalidTurnNumber(heading.to_string()));
            }
            v = v * 10 + digit;
            proof {
                assert forall|k: int| 0 <= k < sub.len() implies is_digit(#[trigger] sub[k]) by {
                    if k < i - start {
                        assert(sub[k] == c@.subrange(start as int, i as int)[k]);
                    }
                }
            }
            i += 1;
        }
        Ok(v)
    }
}

// ----- turn prompts -----

pub open spec fn role_label(r: AgentRole) -> Seq<char> {
    match r {
        AgentRole::Systems => "Systems"@,
        AgentRole::Interface => "Interface"@,
        AgentRole::Router => "Router"@,
        AgentRole::Testing => "Testing"@,
        AgentRole::Research => "Research"@,
        AgentRole::Director => "Director"@,
    }
}

pub fn role_name(r: AgentRole) -> (s: &'static str)
    ensures
        s@ == role_label(r),
{
    match r {
        AgentRole::Systems => "Systems",
        AgentRole::Interface => "Interface",
        AgentRole::Router => "Router",
        AgentRole::Testing => "Testing",
        AgentRole::Research => "Research",
        AgentRole::Director => "Director",
    }
}

/// One bullet line per criterion.
pub open spec fn criteria_lines(cs: Seq<String>) -> Seq<char>
    decreases cs.len(),
{
    if cs.len() == 0 {
        seq![]
    } else {
        criteria_lines(cs.drop_last()) + "- "@ + cs.last()@ + "\n"@
    }
}

/// The text handed to a worker for a turn: a header with the turn's id and role, the
/// prompt, the acceptance criteria when there are any, and the completion instruction.
pub open spec fn turn_prompt_text(t: Turn) -> Seq<char> {
    "=== LIMINAL TURN EXECUTION ===\n"@ + "Turn ID: "@ + crate::text::decimal(t.id as nat) + "\n"@
        + "Role: "@ + role_label(t.specialist) + "\n"@ + "\n"@ + "PROMPT:\n"@ + t.prompt@ + "\n\n"@
        + (if t.acceptance_criteria@.len() == 0 {
        seq![]
    } else {
        "ACCEPTANCE CRITERIA:\n"@ + criteria_lines(t.acceptance_criteria@) + "\n"@
    }) + "When complete, respond with: TURN_COMPLETE\n"@ + "=== END TURN EXECUTION ===\n"@
}

pub fn format_turn_prompt(turn: &Turn) -> (r: String)
    ensures
        r@ == turn_prompt_text(*turn),
{
    let mut p = String::from_str("=== LIMINAL TURN EXECUTION ===\n");
    p = p.concat("Turn ID: ");
    let id = crate::text::decimal_text(turn.id as u64);
    p = p.concat(id.as_str());
    p = p.concat("\n");
    p = p.concat("Role: ");
    p = p.concat(role_name(turn.specialist));
    p = p.concat("\n");
    p = p.concat("\n");
    p = p.concat("PROMPT:\n");
    p = p.concat(turn.prompt.as_str());
    p = p.concat("\n\n");
    let ghost head = p@;
    if turn.acceptance_criteria.len() > 0 {
        p = p.concat("ACCEPTANCE CRITERIA:\n");
        let ghost base = p@;
        let mut i: usize = 0;
        while i < turn.acceptance_criteria.len()
            invariant
                0 <= i <= turn.acceptance_criteria@.len(),
                p@ == base + criteria_lines(turn.acceptance_criteria@.subrange(0, i as int)),
            decreases turn.acceptance_criteria@.len() - i,
        {
            p = p.concat("- ");
            p = p.concat(turn.acceptance_criteria[i].as_str());
            p = p.concat("\n");
            proof {
                let sub = turn.acceptance_criteria@.subrange(0, i + 1);
                assert(sub.drop_last() =~= turn.acceptance_criteria@.subrange(0, i as int));
                assert(sub.last() == turn.acceptance_criteria@[i as int]);
                assert(p@ =~= base + criteria_lines(sub));
            }
            i += 1;
        }
        assert(turn.acceptance_criteria@.subrange(0, turn.acceptance_criteria@.len() as int)
            =~= turn.acceptance_criteria@);
        p = p.concat("\n");
    }
    p = p.concat("When complete, respond with: TURN_COMPLETE\n");
    p = p.concat("=== END TURN EXECUTION ===\n");
    assert(p@ =~= turn_prompt_text(*turn));
    p
}

pub open spec fn contains_at(h: Seq<char>, n: Seq<char>, i: int) -> bool {
    0 <= i && i + n.len() <= h.len() && h.subrange(i, i + n.len()) == n
}

pub open spec fn contains_text(h: Seq<char>, n: Seq<char>) -> bool {
    exists|i: int| contains_at(h, n, i)
}

fn find_text(h: &Vec<char>, n: &str) -> (r: bool)
    ensures
        r == contains_text(h@, n@),
{
    let m = crate::agent::chars_of_str(n);
    if m.len() > h.len() {
        assert forall|i: int| !contains_at(h@, n@, i) by {}
        return false;
    }
    let mut i: usize = 0;
    while i <= h.len() - m.len()
        invariant
            m@ == n@,
            m@.len() <= h@.len(),
            0 <= i <= h@.len() - m@.len() + 1,
            forall|k: int| 0 <= k < i ==> !contains_at(h@, n@, k),
        decreases h@.len() - i,
    {
        let mut j: usize = 0;
        let mut same = true;
        while j < m.len()
            invariant
                m@ == n@,
                i + m@.len() <= h@.len(),
                0 <= j <= m@.len(),
                same == (forall|k: int| 0 <= k < j ==> h@[i + k] == m@[k]),
            decreases m@.len() - j,
        {
            let hl = h.len();
            assert(i + j < hl);
            if h[i + j] != m[j] {
                same = false;
            }
            j += 1;
        }
        if same {
            assert(h@.subrange(i as int, (i + m@.len()) as int) =~= n@);
            assert(contains_at(h@, n@, i as int));
            return true;
        }
        proof {
            let k = choose|k: int| 0 <= k < m@.len() && h@[i + k] != m@[k];
            assert(h@.subrange(i as int, (i + m@.len()) as int)[k] != n@[k]);
        }
        i += 1;
    }
    assert forall|k: int| !contains_at(h@, n@, k) by {
        if 0 <= k && k + n@.len() <= h@.len() {
            assert(k < i);
        }
    }
    false
}

/// The worker's output says the turn is done.
pub fn check_completion(output: &str) -> (r: bool)
    ensures
        r == (contains_text(output@, "TURN_COMPLETE"@) || contains_text(output@, "Turn complete"@)),
{
    let h = crate::agent::chars_of_str(output);
    find_text(&h, "TURN_COMPLETE") || find_text(&h, "Turn complete")
}

} // verus!
