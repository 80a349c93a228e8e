//! A ledger node: DAG storage, the consensus engine, the node's signing key
//! and the network counters together.  A submitted transaction becomes a
//! signed DAG node on top of the current tips; broadcasting it is the
//! caller's part.

use vstd::prelude::*;

use crate::consensus::{ConsensusConfig, ConsensusState, QRAvalanche, VoteSetView};
use crate::crypto::{
    blake3_digest, ed25519_public_key, ed25519_signature, signature_verifies, QuDAGCrypto, SignatureAlgorithm,
    SignatureView,
};
use crate::dag::{spec_node_hash, DAGNode, DAGNodeView};
use crate::error::QuDAGError;
use crate::clock::now_unix_secs;
use crate::ids::new_uuid;
use crate::metrics::{same_but_clock, wrap_inc, NetworkCounters, NetworkMetrics};
use crate::storage::{empty_storage, stored_after_add, MemoryStorage, StorageView};

verus! {

/// The consensus rules accept `n`: a node without parents only before
/// anything is finalized, every parent finalized, and a valid signature.
pub open spec fn consensus_accepts(state: ConsensusState, finalized: Set<u128>, n: DAGNodeView) -> bool {
    &&& (n.parents.len() > 0 || state.finalized_count == 0)
    &&& forall|k: int| 0 <= k < n.parents.len() ==> finalized.contains(#[trigger] n.parents[k])
    &&& signature_verifies(n)
}

/// The transaction node for `data` with identifier `id`, stamped
/// `timestamp`, on top of `parents`, with its hash and signed with the
/// Ed25519 key of `seed` over the BLAKE3 digest of `data`.
pub open spec fn transaction_node(
    id: u128,
    data: Seq<u8>,
    parents: Seq<u128>,
    timestamp: u64,
    seed: Seq<u8>,
) -> DAGNodeView {
    let unsigned = DAGNodeView { id, data, parents, timestamp, signature: None, hash: Seq::empty(), nonce: 0 };
    DAGNodeView {
        hash: spec_node_hash(unsigned),
        signature: Some(
            SignatureView {
                algorithm: SignatureAlgorithm::Ed25519,
                signature: ed25519_signature(seed, blake3_digest(data)),
                public_key: ed25519_public_key(seed),
            },
        ),
        ..unsigned
    }
}

/// A node holding the DAG, the consensus engine and the network counters.
#[derive(Debug)]
pub struct QuDAGNode {
    consensus: QRAvalanche,
    crypto: QuDAGCrypto,
    storage: MemoryStorage,
    metrics: NetworkMetrics,
}

impl QuDAGNode {
    /// The stored DAG.
    pub closed spec fn spec_storage(&self) -> StorageView {
        self.storage@
    }

    /// The network counters.
    pub closed spec fn spec_counters(&self) -> NetworkCounters {
        self.metrics@
    }

    /// The consensus counters.
    pub closed spec fn spec_consensus_state(&self) -> ConsensusState {
        self.consensus.spec_state()
    }

    /// The finalized nodes.
    pub closed spec fn spec_finalized(&self) -> Set<u128> {
        self.consensus.spec_finalized()
    }

    /// The pending vote tallies.
    pub closed spec fn spec_pending(&self) -> Map<u128, VoteSetView> {
        self.consensus.spec_pending()
    }

    /// The node's Ed25519 signing seed.
    pub closed spec fn spec_signing_seed(&self) -> Seq<u8> {
        self.crypto.spec_signing_seed()->0
    }

    /// The parts are well formed.
    pub closed spec fn wf(&self) -> bool {
        &&& self.storage.wf()
        &&& self.consensus.wf()
        &&& self.metrics.wf()
        &&& self.crypto.wf()
        &&& self.crypto.spec_signing_seed() is Some
    }

    /// A node with an empty DAG, a fresh consensus engine, a fresh signing
    /// key and zeroed counters.
    pub fn new(config: ConsensusConfig) -> (n: Self)
        ensures
            n.wf(),
            n.spec_storage() == empty_storage(),
            n.spec_consensus_state() == (ConsensusState { finalized_count: 0, last_finalized_round: 0 }),
            n.spec_finalized() == Set::<u128>::empty(),
            n.spec_counters().transactions_submitted == 0,
    {
        let mut crypto = QuDAGCrypto::new();
        let _ = crypto.generate_signing_keypair();
        QuDAGNode {
            consensus: QRAvalanche::new(config),
            crypto,
            storage: MemoryStorage::new(),
            metrics: NetworkMetrics::new(),
        }
    }

    /// The current DAG tips, each once.
    pub fn get_dag_tips(&self) -> (r: Vec<u128>)
        requires
            self.wf(),
        ensures
            r@.no_duplicates(),
            r@.to_set() == self.spec_storage().tips,
    {
        self.storage.get_tips()
    }

    /// The consensus engine.
    pub fn consensus(&self) -> (c: &QRAvalanche)
        ensures
            c.spec_state() == self.spec_consensus_state(),
            c.spec_finalized() == self.spec_finalized(),
            c.spec_pending() == self.spec_pending(),
    {
        &self.consensus
    }

    /// The network metrics.
    pub fn metrics(&self) -> (m: &NetworkMetrics)
        ensures
            m@ == self.spec_counters(),
    {
        &self.metrics
    }

    /// Submits a transaction: a new node with a fresh random identifier,
    /// stamped by the clock, holding `data`, whose parents are the current
    /// tips, is signed with the node's key, checked by the consensus rules
    /// and stored, and the transaction is counted (see
    /// `submit_transaction_with`).  Returns the node's identifier; on an
    /// error nothing changes.
    pub fn submit_transaction(&mut self, data: Vec<u8>) -> (r: Result<u128, QuDAGError>)
        requires
            old(self).wf(),
        ensures
            final(self).wf(),
            final(self).spec_consensus_state() == old(self).spec_consensus_state(),
            final(self).spec_finalized() == old(self).spec_finalized(),
            final(self).spec_pending() == old(self).spec_pending(),
            final(self).spec_signing_seed() == old(self).spec_signing_seed(),
            exists|id: u128, timestamp: u64, parents: Seq<u128>|
                {
                    let n = #[trigger] transaction_node(id, data@, parents, timestamp, old(self).spec_signing_seed());
                    &&& parents.no_duplicates()
                    &&& parents.to_set() == old(self).spec_storage().tips
                    &&& signature_verifies(n)
                    &&& n.hash == spec_node_hash(n)
                    &&& (r is Ok <==> consensus_accepts(
                        old(self).spec_consensus_state(),
                        old(self).spec_finalized(),
                        n,
                    ) && !old(self).spec_storage().nodes.contains_key(n.id))
                    &&& (r matches Ok(id) ==> id == n.id && final(self).spec_storage() == stored_after_add(
                        old(self).spec_storage(),
                        n,
                    ) && same_but_clock(
                        final(self).spec_counters(),
                        NetworkCounters {
                            transactions_submitted: wrap_inc(old(self).spec_counters().transactions_submitted),
                            ..old(self).spec_counters()
                        },
                    ))
                    &&& (r is Err ==> final(self).spec_storage() == old(self).spec_storage()
                        && final(self).spec_counters() == old(self).spec_counters())
                },
    {
        let id = new_uuid();
        let timestamp = now_unix_secs();
        self.submit_transaction_with(data, id, timestamp)
    }

    /// Submits a transaction as the node `transaction_node(id, data, tips,
    /// timestamp, seed)` on top of the current tips (listed once each in
    /// some order), signed with the node's key: it is stored and counted
    /// exactly when the consensus rules accept it and `id` is new.
    /// Returns `id`; on an error nothing changes.
    pub fn submit_transaction_with(&mut self, data: Vec<u8>, id: u128, timestamp: u64) -> (r: Result<
        u128,
        QuDAGError,
    >)
        requires
            old(self).wf(),
        ensures
            final(self).wf(),
            final(self).spec_consensus_state() == old(self).spec_consensus_state(),
            final(self).spec_finalized() == old(self).spec_finalized(),
            final(self).spec_pending() == old(self).spec_pending(),
            final(self).spec_signing_seed() == old(self).spec_signing_seed(),
            exists|parents: Seq<u128>|
                {
                    let n = #[trigger] transaction_node(id, data@, parents, timestamp, old(self).spec_signing_seed());
                    &&& parents.no_duplicates()
                    &&& parents.to_set() == old(self).spec_storage().tips
                    &&& signature_verifies(n)
                    &&& n.hash == spec_node_hash(n)
                    &&& (r is Ok <==> consensus_accepts(
                        old(self).spec_consensus_state(),
                        old(self).spec_finalized(),
                        n,
                    ) && !old(self).spec_storage().nodes.contains_key(id))
                    &&& (r matches Ok(rid) ==> rid == id && final(self).spec_storage() == stored_after_add(
                        old(self).spec_storage(),
                        n,
                    ) && same_but_clock(
                        final(self).spec_counters(),
                        NetworkCounters {
                            transactions_submitted: wrap_inc(old(self).spec_counters().transactions_submitted),
                            ..old(self).spec_counters()
                        },
                    ))
                    &&& (r is Err ==> final(self).spec_storage() == old(self).spec_storage()
                        && final(self).spec_counters() == old(self).spec_counters())
                },
    {
        let tips = self.storage.get_tips();
        let mut node = DAGNode::with_timestamp(id, data, tips, timestamp);
        let signature = match self.crypto.sign(node.data.as_slice()) {
            Ok(sig) => sig,
            Err(e) => {
                return Err(e);
            },
        };
        node.sign(signature);
        let ghost nv = node@;
        proof {
            assert(nv == transaction_node(id, nv.data, tips@, timestamp, self.spec_signing_seed()));
        }
        assert(signature_verifies(nv));
        match self.consensus.validate_node(&node) {
            Err(e) => {
                return Err(e);
            },
            Ok(()) => {},
        }
        match self.storage.add_node(node) {
            Err(e) => {
                return Err(e);
            },
            Ok(()) => {},
        }
        self.metrics.increment_transactions();
        Ok(id)
    }
}

} // verus!
