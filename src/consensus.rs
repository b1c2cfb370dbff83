use vstd::prelude::*;
use crate::digest::{blake3_hex, blake3_hex_of};
use crate::text::copy_opt_bytes;

verus! {

/// One weighted ballot; the weight is in thousandths.
#[derive(Debug, Clone, PartialEq, Eq)]
pub struct QuorumVote {
    pub agent_id: String,
    pub weight: u64,
    pub vote: bool,
}

/// The tally and verdict of one quorum call. Weights and `threshold` are in thousandths.
#[derive(Debug, Clone, PartialEq, Eq)]
pub struct QuorumVector {
    pub resource_id: String,
    pub threshold: u64,
    pub total_weight: u64,
    pub agree_weight: u64,
    pub achieved: bool,
    pub reason: String,
    pub votes: Vec<QuorumVote>,
}

/// One phase of a quorum call as the ledger records it.
#[derive(Debug, Clone, PartialEq, Eq)]
pub struct ConsensusSignal {
    pub topic: String,
    pub phase: String,
    pub agent_id: Option<String>,
    pub territory_id: Option<String>,
    pub quorum_threshold: Option<u64>,
    pub payload_digest: Option<Vec<u8>>,
    pub vector: Option<QuorumVector>,
}

#[derive(Debug, Clone, PartialEq, Eq)]
pub enum ConsensusEvent {
    Idle,
    Proposal(ConsensusSignal),
    Vote(ConsensusSignal),
    Commit(ConsensusSignal),
}

/// A weight as counted: zero counts as one (1000 thousandths).
pub open spec fn counted_weight(w: u64) -> nat {
    if w == 0 {
        1000
    } else {
        w as nat
    }
}

pub open spec fn total_weight_of(votes: Seq<QuorumVote>) -> nat
    decreases votes.len(),
{
    if votes.len() == 0 {
        0
    } else {
        total_weight_of(votes.drop_last()) + counted_weight(votes.last().weight)
    }
}

pub open spec fn agree_weight_of(votes: Seq<QuorumVote>) -> nat
    decreases votes.len(),
{
    if votes.len() == 0 {
        0
    } else {
        agree_weight_of(votes.drop_last()) + if votes.last().vote {
            counted_weight(votes.last().weight)
        } else {
            0
        }
    }
}

/// A threshold in thousandths, clamped to one.
pub open spec fn clamped_threshold(t: u64) -> nat {
    if t > 1000 {
        1000
    } else {
        t as nat
    }
}

/// Achieved when some weight was cast and the agreeing share reaches the threshold.
pub open spec fn quorum_achieved(agree: nat, total: nat, threshold: nat) -> bool {
    total > 0 && agree * 1000 >= threshold * total
}

pub open spec fn coerced(votes: Seq<QuorumVote>) -> Seq<QuorumVote> {
    votes.map_values(|v: QuorumVote| QuorumVote { weight: counted_weight(v.weight) as u64, ..v })
}

proof fn lemma_agree_le_total(votes: Seq<QuorumVote>)
    ensures
        agree_weight_of(votes) <= total_weight_of(votes),
    decreases votes.len(),
{
    if votes.len() > 0 {
        lemma_agree_le_total(votes.drop_last());
    }
}

pub open spec fn signal_of(e: ConsensusEvent) -> Option<ConsensusSignal> {
    match e {
        ConsensusEvent::Proposal(s) => Some(s),
        ConsensusEvent::Vote(s) => Some(s),
        ConsensusEvent::Commit(s) => Some(s),
        ConsensusEvent::Idle => None,
    }
}

/// Two optional digests hold the same bytes.
pub open spec fn same_digest(a: Option<Vec<u8>>, b: Option<Vec<u8>>) -> bool {
    match (a, b) {
        (Some(x), Some(y)) => x@ == y@,
        (None, None) => true,
        _ => false,
    }
}

/// `d` is the digest of `serialized`, or both are absent.
pub open spec fn digest_matches(d: Option<Vec<u8>>, serialized: Option<Vec<u8>>) -> bool {
    match (d, serialized) {
        (Some(x), Some(b)) => x@ == blake3_hex(b@),
        (None, None) => true,
        _ => false,
    }
}

proof fn lemma_prefix_total(votes: Seq<QuorumVote>, n: int)
    requires
        0 <= n <= votes.len(),
    ensures
        total_weight_of(votes.subrange(0, n)) <= total_weight_of(votes),
    decreases votes.len() - n,
{
    if n < votes.len() {
        lemma_prefix_total(votes, n + 1);
        let sub = votes.subrange(0, n + 1);
        assert(sub.drop_last() =~= votes.subrange(0, n));
    } else {
        assert(votes.subrange(0, n) =~= votes);
    }
}

/// A copy of a ballot list.
pub fn copy_votes(votes: &Vec<QuorumVote>) -> (r: Vec<QuorumVote>)
    ensures
        r@ == votes@,
{
    let mut r: Vec<QuorumVote> = Vec::new();
    let mut i: usize = 0;
    while i < votes.len()
        invariant
            0 <= i <= votes@.len(),
            r@ == votes@.subrange(0, i as int),
        decreases votes@.len() - i,
    {
        let v = &votes[i];
        r.push(QuorumVote { agent_id: v.agent_id.clone(), weight: v.weight, vote: v.vote });
        proof {
            assert(r@ =~= votes@.subrange(0, i + 1));
        }
        i += 1;
    }
    assert(votes@.subrange(0, votes@.len() as int) =~= votes@);
    r
}

/// Two vectors carry the same tally, verdict, reason and ballots.
pub open spec fn same_vector(a: QuorumVector, b: QuorumVector) -> bool {
    &&& a.resource_id == b.resource_id
    &&& a.threshold == b.threshold
    &&& a.total_weight == b.total_weight
    &&& a.agree_weight == b.agree_weight
    &&& a.achieved == b.achieved
    &&& a.reason == b.reason
    &&& a.votes@ == b.votes@
}

/// A copy of a quorum vector.
pub fn copy_vector(v: &QuorumVector) -> (r: QuorumVector)
    ensures
        same_vector(r, *v),
{
    let votes = copy_votes(&v.votes);
    proof {
        assert(votes@ == v.votes@);
    }
    QuorumVector {
        resource_id: v.resource_id.clone(),
        threshold: v.threshold,
        total_weight: v.total_weight,
        agree_weight: v.agree_weight,
        achieved: v.achieved,
        reason: v.reason.clone(),
        votes,
    }
}

pub fn quorum_vote(agent_id: &str, weight: u64, vote: bool) -> (r: QuorumVote)
    ensures
        r.agent_id@ == agent_id@,
        r.weight == weight,
        r.vote == vote,
{
    QuorumVote { agent_id: agent_id.to_string(), weight, vote }
}

/// Weighs a quorum call. Empty ballots are vacuously achieved and leave no record.
#[derive(Debug, Clone)]
pub struct ConsensusBroker {
    pub default_threshold: u64,
}

impl ConsensusBroker {
    pub fn new(default_threshold: u64) -> (r: ConsensusBroker)
        ensures
            r.default_threshold == default_threshold,
    {
        ConsensusBroker { default_threshold }
    }

    /// Tallies `votes` for `resource_id`. `None` (achieved) for an empty ballot; otherwise
    /// the vector with zero weights counted as one, to be recorded as one triple.
    pub fn record_quorum(&self, resource_id: &str, votes: Vec<QuorumVote>, reason: &str) -> (r:
        Option<QuorumVector>)
        requires
            total_weight_of(votes@) <= u64::MAX,
        ensures
            votes@.len() == 0 <==> r is None,
            r matches Some(v) ==> {
                &&& v.resource_id@ == resource_id@
                &&& v.reason@ == reason@
                &&& v.threshold == clamped_threshold(self.default_threshold)
                &&& v.total_weight == total_weight_of(votes@)
                &&& v.agree_weight == agree_weight_of(votes@)
                &&& v.achieved == quorum_achieved(
                    agree_weight_of(votes@),
                    total_weight_of(votes@),
                    clamped_threshold(self.default_threshold),
                )
                &&& v.votes@ == coerced(votes@)
            },
    {
        if votes.len() == 0 {
            return None;
        }
        let mut counted: Vec<QuorumVote> = Vec::new();
        let mut total: u64 = 0;
        let mut agree: u64 = 0;
        let mut i: usize = 0;
        while i < votes.len()
            invariant
                0 <= i <= votes@.len(),
                total_weight_of(votes@) <= u64::MAX,
                total == total_weight_of(votes@.subrange(0, i as int)),
                agree == agree_weight_of(votes@.subrange(0, i as int)),
                counted@ == coerced(votes@.subrange(0, i as int)),
            decreases votes@.len() - i,
        {
            let v = &votes[i];
            let w: u64 = if v.weight == 0 {
                1000
            } else {
                v.weight
            };
            proof {
                let sub = votes@.subrange(0, i + 1);
                assert(sub.drop_last() =~= votes@.subrange(0, i as int));
                assert(sub.last() == votes@[i as int]);
                lemma_prefix_total(votes@, i + 1);
                lemma_agree_le_total(sub);
            }
            total = total + w;
            if v.vote {
                agree = agree + w;
            }
            counted.push(QuorumVote { agent_id: v.agent_id.clone(), weight: w, vote: v.vote });
            proof {
                assert(counted@ =~= coerced(votes@.subrange(0, i + 1)));
            }
            i += 1;
        }
        assert(votes@.subrange(0, votes@.len() as int) =~= votes@);
        let threshold: u64 = if self.default_threshold > 1000 {
            1000
        } else {
            self.default_threshold
        };
        let a: u128 = agree as u128;
        let t: u128 = threshold as u128;
        let w: u128 = total as u128;
        assert(a * 1000 <= u64::MAX as u128 * 1000) by (nonlinear_arith)
            requires
                a <= u64::MAX,
        ;
        assert(t * w <= 1000 * (u64::MAX as u128)) by (nonlinear_arith)
            requires
                t <= 1000,
                w <= u64::MAX,
        ;
        let achieved = total > 0 && a * 1000 >= t * w;
        Some(
            QuorumVector {
                resource_id: resource_id.to_string(),
                threshold,
                total_weight: total,
                agree_weight: agree,
                achieved,
                reason: reason.to_string(),
                votes: counted,
            },
        )
    }

    /// One phase's signal for `vector`, carrying `digest` when there is one.
    pub fn build_signal(phase: &str, vector: &QuorumVector, digest: &Option<Vec<u8>>) -> (r:
        ConsensusSignal)
        ensures
            r.phase@ == phase@,
            r.vector matches Some(v) && same_vector(v, *vector),
            same_digest(r.payload_digest, *digest),
            r.territory_id == Some(vector.resource_id),
            r.quorum_threshold == Some(vector.threshold),
            r.agent_id is None,
            r.topic@ == "consensus:"@ + vector.resource_id@,
    {
        let topic = String::from_str("consensus:").concat(vector.resource_id.as_str());
        proof {
            reveal_strlit("consensus:");
        }
        ConsensusSignal {
            topic,
            phase: phase.to_string(),
            agent_id: None,
            territory_id: Some(vector.resource_id.clone()),
            quorum_threshold: Some(vector.threshold),
            payload_digest: copy_opt_bytes(digest),
            vector: Some(copy_vector(vector)),
        }
    }

    /// The three records of one quorum call, in order: proposal, vote, commit. All carry
    /// the same vector and the digest of `serialized`, the vector's encoding.
    pub fn consensus_events(vector: &QuorumVector, serialized: &Option<Vec<u8>>) -> (r: Vec<
        ConsensusEvent,
    >)
        ensures
            r@.len() == 3,
            r@[0] matches ConsensusEvent::Proposal(s) && s.phase@ == "proposal"@,
            r@[1] matches ConsensusEvent::Vote(s) && s.phase@ == "vote"@,
            r@[2] matches ConsensusEvent::Commit(s) && s.phase@ == "commit"@,
            forall|i: int|
                0 <= i < 3 ==> (signal_of(#[trigger] r@[i]) matches Some(s) && s.vector matches Some(v)
                    && same_vector(v, *vector) && digest_matches(s.payload_digest, *serialized)),
    {
        let digest: Option<Vec<u8>> = match serialized {
            Some(bytes) => Some(blake3_hex_of(bytes.as_slice())),
            None => None,
        };
        proof {
            reveal_strlit("proposal");
            reveal_strlit("vote");
            reveal_strlit("commit");
        }
        let mut r: Vec<ConsensusEvent> = Vec::new();
        r.push(ConsensusEvent::Proposal(Self::build_signal("proposal", vector, &digest)));
        r.push(ConsensusEvent::Vote(Self::build_signal("vote", vector, &digest)));
        r.push(ConsensusEvent::Commit(Self::build_signal("commit", vector, &digest)));
        r
    }
}

} // verus!
