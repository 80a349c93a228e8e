//! QR-Avalanche consensus: votes are collected per DAG node and a node is
//! finalized once enough distinct voters support it.  Message transport
//! (channels, the processing task) is the caller's; this module decides
//! what each vote does to the consensus state.

use vstd::prelude::*;

use crate::crypto::{signature_verifies, QuDAGCrypto};
use crate::dag::DAGNode;
use crate::error::{text, QuDAGError};
use crate::ids::{uuid_string, uuid_text};
use dashmap::DashMap;

verus! {

/// A vote in the consensus process.  `voter` is the text of the voter's
/// peer identifier.
#[derive(Debug)]
pub struct Vote {
    pub voter: String,
    pub preference: bool,
    pub timestamp: u64,
    pub signature: Vec<u8>,
}

/// Mathematical value of a [`Vote`].
pub struct VoteView {
    pub voter: Seq<char>,
    pub preference: bool,
    pub timestamp: u64,
    pub signature: Seq<u8>,
}

impl View for Vote {
    type V = VoteView;

    open spec fn view(&self) -> VoteView {
        VoteView {
            voter: self.voter@,
            preference: self.preference,
            timestamp: self.timestamp,
            signature: self.signature@,
        }
    }
}

impl Clone for Vote {
    fn clone(&self) -> (res: Self)
        ensures
            res@ == self@,
    {
        let signature = self.signature.clone();
        assert(signature@ =~= self.signature@);
        Vote {
            voter: self.voter.clone(),
            preference: self.preference,
            timestamp: self.timestamp,
            signature,
        }
    }
}

/// Mathematical value of a [`VoteSet`]: the two tallies and who voted.
pub struct VoteSetView {
    pub positive: nat,
    pub negative: nat,
    pub voters: Set<Seq<char>>,
}

/// The empty tally.
pub open spec fn empty_votes() -> VoteSetView {
    VoteSetView { positive: 0, negative: 0, voters: Set::empty() }
}

/// The tally after `v`: a voter counts once, later votes of the same
/// voter are ignored.
pub open spec fn votes_after(s: VoteSetView, v: VoteView) -> VoteSetView {
    if s.voters.contains(v.voter) {
        s
    } else {
        VoteSetView {
            positive: if v.preference {
                s.positive + 1
            } else {
                s.positive
            },
            negative: if v.preference {
                s.negative
            } else {
                s.negative + 1
            },
            voters: s.voters.insert(v.voter),
        }
    }
}

/// The texts of a list of voter identifiers.
pub open spec fn voter_texts(v: Seq<String>) -> Seq<Seq<char>> {
    v.map_values(|s: String| s@)
}

/// Votes for one DAG node.
#[derive(Debug)]
pub struct VoteSet {
    positive: usize,
    negative: usize,
    voters: Vec<String>,
}

impl View for VoteSet {
    type V = VoteSetView;

    closed spec fn view(&self) -> VoteSetView {
        VoteSetView {
            positive: self.positive as nat,
            negative: self.negative as nat,
            voters: voter_texts(self.voters@).to_set(),
        }
    }
}

impl VoteSet {
    /// Each voter listed once; every listed voter counted once.
    pub closed spec fn wf(&self) -> bool {
        &&& forall|i: int, j: int|
            0 <= i < j < self.voters@.len() ==> self.voters@[i]@ != self.voters@[j]@
        &&& self.positive + self.negative == self.voters@.len()
        &&& self.positive + self.negative <= usize::MAX
    }

    /// Number of votes counted so far.
    pub open spec fn spec_total(&self) -> nat {
        self@.positive + self@.negative
    }

    /// No votes.
    pub fn new() -> (s: Self)
        ensures
            s.wf(),
            s@ == empty_votes(),
    {
        let s = VoteSet { positive: 0, negative: 0, voters: Vec::new() };
        assert(s@.voters =~= Set::<Seq<char>>::empty());
        s
    }

    /// Counts a vote unless its voter already voted.
    pub fn add_vote(&mut self, vote: Vote)
        requires
            old(self).wf(),
            old(self).spec_total() < usize::MAX || old(self)@.voters.contains(vote@.voter),
        ensures
            final(self).wf(),
            final(self)@ == votes_after(old(self)@, vote@),
    {
        let ghost vs = self.voters@;
        let mut i: usize = 0;
        while i < self.voters.len()
            invariant
                self.voters@ == vs,
                self.wf(),
                self@ == old(self)@,
                i <= vs.len(),
                forall|j: int| 0 <= j < i ==> vs[j]@ != vote.voter@,
            decreases vs.len() - i,
        {
            if self.voters[i] == vote.voter {
                proof {
                    assert(voter_texts(vs)[i as int] == vote.voter@);
                    assert(self@.voters.contains(vote.voter@));
                }
                return;
            }
            i = i + 1;
        }
        proof {
            assert(!self@.voters.contains(vote.voter@)) by {
                if self@.voters.contains(vote.voter@) {
                    let k = choose|k: int|
                        0 <= k < vs.len() && #[trigger] voter_texts(vs)[k] == vote.voter@;
                    assert(vs[k]@ == vote.voter@);
                }
            }
        }
        let ghost before = self@;
        self.voters.push(vote.voter);
        if vote.preference {
            self.positive = self.positive + 1;
        } else {
            self.negative = self.negative + 1;
        }
        proof {
            let m = voter_texts(self.voters@);
            assert(m =~= voter_texts(vs).push(vote.voter@));
            assert(m.to_set() =~= before.voters.insert(vote.voter@)) by {
                assert forall|x: Seq<char>| m.to_set().contains(x) <==> before.voters.insert(vote.voter@).contains(x) by {
                    if m.to_set().contains(x) {
                        let k = choose|k: int| 0 <= k < m.len() && m[k] == x;
                        if k < vs.len() {
                            assert(voter_texts(vs)[k] == x);
                        }
                    }
                    if before.voters.contains(x) {
                        let k = choose|k: int| 0 <= k < vs.len() && #[trigger] voter_texts(vs)[k] == x;
                        assert(m[k] == x);
                    }
                    if x == vote.voter@ {
                        assert(m[vs.len() as int] == x);
                    }
                }
            }
        }
    }

    /// Number of positive votes.
    pub fn positive_votes(&self) -> (n: usize)
        ensures
            n == self@.positive,
    {
        self.positive
    }

    /// Number of votes counted.
    pub fn total_votes(&self) -> (n: usize)
        requires
            self.wf(),
        ensures
            n == self.spec_total(),
    {
        let n = self.voters.len();
        assert(n == self.positive + self.negative);
        self.positive + self.negative
    }
}

/// The vote-related consensus parameters.
#[derive(Debug, Clone, Copy, PartialEq, Eq, Structural)]
pub struct ConsensusConfig {
    pub finalization_threshold: usize,
    pub sample_size: usize,
}

impl Default for ConsensusConfig {
    fn default() -> (c: Self)
        ensures
            c.finalization_threshold == 10,
            c.sample_size == 20,
    {
        ConsensusConfig { finalization_threshold: 10, sample_size: 20 }
    }
}

/// Counters of the consensus engine.
#[derive(Debug, Clone, Copy, PartialEq, Eq, Structural)]
pub struct ConsensusState {
    pub finalized_count: u64,
    pub last_finalized_round: u64,
}

impl ConsensusState {
    /// Nothing finalized yet.
    pub fn new() -> (s: Self)
        ensures
            s.finalized_count == 0,
            s.last_finalized_round == 0,
    {
        ConsensusState { finalized_count: 0, last_finalized_round: 0 }
    }
}

#[verifier::external_type_specification]
#[verifier::external_body]
#[verifier::reject_recursive_types(K)]
#[verifier::reject_recursive_types(V)]
#[verifier::reject_recursive_types(S)]
pub struct ExDashMap<K, V, S>(DashMap<K, V, S>);

/// The tallies a concurrent map of pending votes holds, by node.
pub uninterp spec fn vote_tallies(m: DashMap<u128, VoteSet>) -> Map<u128, VoteSet>;

/// `DashMap::new`: an empty map.
#[verifier::external_body]
fn tallies_new() -> (fresh: DashMap<u128, VoteSet>)
    ensures
        vote_tallies(fresh) =~= Map::empty(),
{
    DashMap::new()
}

/// `DashMap::is_empty`: whether the map holds no tally.
#[verifier::external_body]
fn tallies_is_empty(m: &DashMap<u128, VoteSet>) -> (b: bool)
    ensures
        b == (vote_tallies(*m).dom() =~= Set::empty()),
{
    m.is_empty()
}

/// `DashMap::get`, handing out the two counts of the tally of `id`.
#[verifier::external_body]
fn tallies_counts(m: &DashMap<u128, VoteSet>, id: u128) -> (r: Option<(usize, usize)>)
    ensures
        r == if vote_tallies(*m).contains_key(id) {
            Some((vote_tallies(*m)[id].positive, vote_tallies(*m)[id].negative))
        } else {
            None::<(usize, usize)>
        },
{
    m.get(&id).map(|t| (t.positive, t.negative))
}

/// `DashMap::remove`: takes the tally of `id` out of the map.
#[verifier::external_body]
fn tallies_remove(m: &mut DashMap<u128, VoteSet>, id: u128) -> (r: Option<VoteSet>)
    ensures
        vote_tallies(*final(m)) == vote_tallies(*old(m)).remove(id),
        r == if vote_tallies(*old(m)).contains_key(id) {
            Some(vote_tallies(*old(m))[id])
        } else {
            None::<VoteSet>
        },
{
    m.remove(&id).map(|(_, t)| t)
}

/// `DashMap::insert`: stores `t` as the tally of `id`.
#[verifier::external_body]
fn tallies_insert(m: &mut DashMap<u128, VoteSet>, id: u128, t: VoteSet)
    ensures
        vote_tallies(*final(m)) == vote_tallies(*old(m)).insert(id, t),
{
    m.insert(id, t);
}

/// The QR-Avalanche engine: pending tallies per node, the finalized
/// nodes and the signature verifier.
#[derive(Debug)]
pub struct QRAvalanche {
    config: ConsensusConfig,
    state: ConsensusState,
    pending_votes: DashMap<u128, VoteSet>,
    finalized_nodes: Vec<u128>,
    crypto: QuDAGCrypto,
}

/// What processing one vote did.
#[derive(Debug, Clone, Copy, PartialEq, Eq, Structural)]
pub enum VoteOutcome {
    /// The vote was tallied; the node is still pending.
    Pending,
    /// The node reached the threshold and was finalized.
    Finalized,
}

impl QRAvalanche {
    /// The configuration.
    pub closed spec fn spec_config(&self) -> ConsensusConfig {
        self.config
    }

    /// The counters.
    pub closed spec fn spec_state(&self) -> ConsensusState {
        self.state
    }

    /// The finalized nodes.
    pub closed spec fn spec_finalized(&self) -> Set<u128> {
        self.finalized_nodes@.to_set()
    }

    /// The pending tallies, by node.
    pub closed spec fn spec_pending(&self) -> Map<u128, VoteSetView> {
        vote_tallies(self.pending_votes).map_values(|t: VoteSet| t@)
    }

    /// The tally of `id`, empty when it has none.
    pub open spec fn spec_tally(&self, id: u128) -> VoteSetView {
        if self.spec_pending().contains_key(id) {
            self.spec_pending()[id]
        } else {
            empty_votes()
        }
    }

    /// Tallies listed once per node and well formed; finalized nodes listed once.
    pub closed spec fn wf(&self) -> bool {
        &&& forall|id: u128|
            #[trigger] vote_tallies(self.pending_votes).contains_key(id) ==> vote_tallies(
                self.pending_votes,
            )[id].wf()
        &&& self.finalized_nodes@.no_duplicates()
    }

    /// A fresh engine with the given configuration.
    pub fn new(config: ConsensusConfig) -> (c: Self)
        ensures
            c.wf(),
            c.spec_config() == config,
            c.spec_state() == (ConsensusState { finalized_count: 0, last_finalized_round: 0 }),
            c.spec_finalized() == Set::<u128>::empty(),
            c.spec_pending() == Map::<u128, VoteSetView>::empty(),
    {
        let c = QRAvalanche {
            config,
            state: ConsensusState::new(),
            pending_votes: tallies_new(),
            finalized_nodes: Vec::new(),
            crypto: QuDAGCrypto::new(),
        };
        assert(c.spec_finalized() =~= Set::<u128>::empty());
        assert(c.spec_pending() =~= Map::<u128, VoteSetView>::empty());
        c
    }

    /// Whether no tally is pending.
    pub fn has_no_pending_votes(&self) -> (b: bool)
        ensures
            b == (self.spec_pending() == Map::<u128, VoteSetView>::empty()),
    {
        let b = tallies_is_empty(&self.pending_votes);
        proof {
            let t = vote_tallies(self.pending_votes);
            if b {
                assert(self.spec_pending() =~= Map::<u128, VoteSetView>::empty());
            } else {
                let k = choose|k: u128| t.dom().contains(k);
                assert(self.spec_pending().contains_key(k));
            }
        }
        b
    }

    /// Whether `node_id` has been finalized.
    pub fn is_node_finalized(&self, node_id: u128) -> (b: bool)
        ensures
            b == self.spec_finalized().contains(node_id),
    {
        crate::dag::vec_contains(&self.finalized_nodes, node_id)
    }

    /// Genesis nodes are allowed until the first node is finalized.
    pub fn is_genesis_allowed(&self) -> (b: bool)
        ensures
            b == (self.spec_state().finalized_count == 0),
    {
        self.state.finalized_count == 0
    }

    /// Number of nodes finalized so far.
    pub fn finalized_count(&self) -> (n: u64)
        ensures
            n == self.spec_state().finalized_count,
    {
        self.state.finalized_count
    }

    /// Number of votes tallied for `node_id` while it is pending.
    pub fn pending_total_votes(&self, node_id: u128) -> (n: usize)
        requires
            self.wf(),
        ensures
            n == self.spec_tally(node_id).positive + self.spec_tally(node_id).negative,
    {
        match tallies_counts(&self.pending_votes, node_id) {
            Some((positive, negative)) => {
                proof {
                    assert(vote_tallies(self.pending_votes).contains_key(node_id));
                    let t = vote_tallies(self.pending_votes)[node_id];
                    assert(t.wf());
                    assert(positive == t.positive && negative == t.negative);
                }
                positive + negative
            },
            None => 0,
        }
    }

    /// Checks a node against the consensus rules: a node without parents
    /// only before anything is finalized, every parent finalized, and a
    /// valid signature.
    pub fn validate_node(&self, node: &DAGNode) -> (r: Result<(), QuDAGError>)
        ensures
            r is Ok <==> ((node@.parents.len() > 0 || self.spec_state().finalized_count == 0) && (forall|k: int|
                0 <= k < node@.parents.len() ==> self.spec_finalized().contains(#[trigger] node@.parents[k]))
                && signature_verifies(node@)),
            node@.parents.len() == 0 && self.spec_state().finalized_count != 0 ==> (r matches Err(
                QuDAGError::ValidationError(m),
            ) && m@ == "Non-genesis node must have parents"@),
            (exists|k: int|
                0 <= k < node@.parents.len() && !self.spec_finalized().contains(#[trigger] node@.parents[k]))
                ==> (r matches Err(QuDAGError::ValidationError(m)) && exists|k: int|
                0 <= k < node@.parents.len() && !self.spec_finalized().contains(#[trigger] node@.parents[k])
                    && (forall|j: int| 0 <= j < k ==> self.spec_finalized().contains(node@.parents[j])) && m@
                    == "Parent "@ + uuid_text(node@.parents[k]) + " not finalized"@),
    {
        if node.parents.len() == 0 && !self.is_genesis_allowed() {
            return Err(QuDAGError::validation("Non-genesis node must have parents"));
        }
        let mut k: usize = 0;
        while k < node.parents.len()
            invariant
                k <= node.parents@.len(),
                forall|j: int| 0 <= j < k ==> self.spec_finalized().contains(#[trigger] node.parents@[j]),
            decreases node.parents@.len() - k,
        {
            let p = node.parents[k];
            if !self.is_node_finalized(p) {
                let msg = text("Parent ").concat(uuid_string(p).as_str()).concat(" not finalized");
                assert(!self.spec_finalized().contains(node@.parents[k as int]) && msg@ == "Parent "@
                    + uuid_text(node@.parents[k as int]) + " not finalized"@);
                return Err(QuDAGError::ValidationError(msg));
            }
            k = k + 1;
        }
        self.crypto.verify_signature(node)
    }
}

/// The engine state after processing a vote for `id`: the tally grows; at
/// the threshold the node is finalized, its tally dropped and the
/// finalization counted.
pub open spec fn finalizes(tally: VoteSetView, threshold: usize) -> bool {
    tally.positive >= threshold
}

impl QRAvalanche {
    /// Processes one vote for `node_id`.
    pub fn process_vote(&mut self, node_id: u128, vote: Vote) -> (outcome: VoteOutcome)
        requires
            old(self).wf(),
            old(self).spec_tally(node_id).positive + old(self).spec_tally(node_id).negative < usize::MAX,
            old(self).spec_state().finalized_count < u64::MAX,
        ensures
            final(self).wf(),
            final(self).spec_config() == old(self).spec_config(),
            ({
                let tally = votes_after(old(self).spec_tally(node_id), vote@);
                if finalizes(tally, old(self).spec_config().finalization_threshold) {
                    &&& outcome == VoteOutcome::Finalized
                    &&& final(self).spec_finalized() == old(self).spec_finalized().insert(node_id)
                    &&& final(self).spec_pending() == old(self).spec_pending().remove(node_id)
                    &&& final(self).spec_state() == (ConsensusState {
                        finalized_count: (old(self).spec_state().finalized_count + 1) as u64,
                        ..old(self).spec_state()
                    })
                } else {
                    &&& outcome == VoteOutcome::Pending
                    &&& final(self).spec_finalized() == old(self).spec_finalized()
                    &&& final(self).spec_pending() == old(self).spec_pending().insert(node_id, tally)
                    &&& final(self).spec_state() == old(self).spec_state()
                }
            }),
    {
        let ghost old_pending = self.spec_pending();
        let ghost old_tallies = vote_tallies(self.pending_votes);
        let removed = tallies_remove(&mut self.pending_votes, node_id);
        let mut set = match removed {
            Some(t) => t,
            None => VoteSet::new(),
        };
        proof {
            assert(set@ == old(self).spec_tally(node_id));
            if old_tallies.contains_key(node_id) {
                assert(old_tallies[node_id].wf());
            }
        }
        set.add_vote(vote);
        let ghost rest = vote_tallies(self.pending_votes);
        proof {
            assert(rest == old_tallies.remove(node_id));
            assert forall|id: u128| #[trigger] rest.contains_key(id) implies rest[id].wf() by {
                assert(old_tallies.contains_key(id));
            }
        }
        if set.positive_votes() >= self.config.finalization_threshold {
            let ghost fin = self.finalized_nodes@;
            if !crate::dag::vec_contains(&self.finalized_nodes, node_id) {
                self.finalized_nodes.push(node_id);
                proof {
                    assert forall|x: u128| #[trigger] self.finalized_nodes@.contains(x) <==> (fin.contains(x)
                        || x == node_id) by {
                        if self.finalized_nodes@.contains(x) {
                            let k = choose|k: int| 0 <= k < self.finalized_nodes@.len() && self.finalized_nodes@[k] == x;
                            if k < fin.len() {
                                assert(fin[k] == x);
                            }
                        }
                        if fin.contains(x) {
                            let k = choose|k: int| 0 <= k < fin.len() && fin[k] == x;
                            assert(self.finalized_nodes@[k] == x);
                        }
                        if x == node_id {
                            assert(self.finalized_nodes@[fin.len() as int] == x);
                        }
                    }
                }
            }
            self.state.finalized_count = self.state.finalized_count + 1;
            proof {
                assert(self.finalized_nodes@.no_duplicates());
                assert(self.spec_finalized() =~= old(self).spec_finalized().insert(node_id));
                assert(self.spec_pending() =~= old_pending.remove(node_id));
            }
            VoteOutcome::Finalized
        } else {
            let ghost tally = set@;
            let ghost stored = set;
            proof {
                assert(set.wf());
            }
            tallies_insert(&mut self.pending_votes, node_id, set);
            proof {
                let now = vote_tallies(self.pending_votes);
                assert(now == rest.insert(node_id, stored));
                assert forall|id: u128| #[trigger] now.contains_key(id) implies now[id].wf() by {
                    if id != node_id {
                        assert(rest.contains_key(id));
                    }
                }
                assert(self.spec_pending() =~= old_pending.insert(node_id, tally));
            }
            VoteOutcome::Pending
        }
    }
}

/// A voter counts once: after a vote by some voter, any further vote by the
/// same voter leaves the tally unchanged.
pub proof fn lemma_one_vote_per_voter(s: VoteSetView, first: VoteView, again: VoteView)
    requires
        first.voter == again.voter,
    ensures
        votes_after(votes_after(s, first), again) == votes_after(s, first),
{
}

/// Every counted vote belongs to a distinct voter: the two tallies add up
/// to the number of voters.
pub proof fn lemma_tally_counts_voters(set: &VoteSet)
    requires
        set.wf(),
    ensures
        set@.voters.finite(),
        set@.positive + set@.negative == set@.voters.len(),
{
    let t = voter_texts(set.voters@);
    assert(t.no_duplicates()) by {
        assert forall|i: int, j: int| 0 <= i < t.len() && 0 <= j < t.len() && i != j implies t[i] != t[j] by {
            if i < j {
                assert(set.voters@[i]@ != set.voters@[j]@);
            } else {
                assert(set.voters@[j]@ != set.voters@[i]@);
            }
        }
    }
    t.unique_seq_to_set();
    vstd::seq_lib::seq_to_set_is_finite(t);
}

/// A tally only grows: a vote never lowers either count, keeps every
/// earlier voter and records its own voter.
pub proof fn lemma_votes_monotone(s: VoteSetView, v: VoteView)
    ensures
        votes_after(s, v).positive >= s.positive,
        votes_after(s, v).negative >= s.negative,
        s.voters.subset_of(votes_after(s, v).voters),
        votes_after(s, v).voters.contains(v.voter),
{
}

} // verus!
