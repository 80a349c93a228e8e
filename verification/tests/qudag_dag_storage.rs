use synaptic_mesh::consensus::{ConsensusConfig, QRAvalanche, Vote, VoteOutcome, VoteSet};
use synaptic_mesh::dag::{DAGNetwork, DAGNode, DAGValidation};
use synaptic_mesh::error::QuDAGError;
use synaptic_mesh::node::QuDAGNode;
use synaptic_mesh::storage::{MemoryStorage, PersistentStorage};

fn new_uuid() -> u128 {
    uuid::Uuid::new_v4().as_u128()
}

fn node_at(data: &[u8], parents: Vec<u128>, ts: u64) -> DAGNode {
    DAGNode::with_timestamp(new_uuid(), data.to_vec(), parents, ts)
}

#[test]
fn test_dag_node_creation() {
    let data = b"test data".to_vec();
    let node = DAGNode::new(new_uuid(), data, Vec::new());

    assert!(node.verify_hash());
    assert!(node.is_genesis());
}

#[test]
fn test_dag_network() {
    let mut dag = DAGNetwork::new();

    // Add genesis node
    let genesis_data = b"genesis".to_vec();
    let genesis = DAGNode::genesis(genesis_data);
    let genesis_id = genesis.id;

    assert!(dag.add_node(genesis).is_ok());

    // Add child node
    let child_data = b"child".to_vec();
    let child = DAGNode::new(new_uuid(), child_data, vec![genesis_id]);
    let child_id = child.id;

    assert!(dag.add_node(child).is_ok());

    // Check relationships
    let children = dag.get_children(genesis_id);
    assert_eq!(children, vec![child_id]);

    let parents = dag.get_parents(child_id);
    assert_eq!(parents, vec![genesis_id]);

    // Check tips
    let tips = dag.get_tips();
    assert_eq!(tips, vec![child_id]);
}

#[test]
fn test_topological_ordering() {
    let mut dag = DAGNetwork::new();

    // Create a simple linear DAG: A -> B -> C
    let node_a = DAGNode::genesis(b"A".to_vec());
    let id_a = node_a.id;
    dag.add_node(node_a).unwrap();

    let node_b = DAGNode::new(new_uuid(), b"B".to_vec(), vec![id_a]);
    let id_b = node_b.id;
    dag.add_node(node_b).unwrap();

    let node_c = DAGNode::new(new_uuid(), b"C".to_vec(), vec![id_b]);
    let id_c = node_c.id;
    dag.add_node(node_c).unwrap();

    let topo_order = dag.get_topological_order().unwrap();

    let pos_a = topo_order.iter().position(|&x| x == id_a).unwrap();
    let pos_b = topo_order.iter().position(|&x| x == id_b).unwrap();
    let pos_c = topo_order.iter().position(|&x| x == id_c).unwrap();

    assert!(pos_a < pos_b);
    assert!(pos_b < pos_c);
}

#[test]
fn test_dag_validation() {
    let dag = DAGNetwork::new();
    let validator = DAGValidation::new();

    let genesis = DAGNode::genesis(b"genesis".to_vec());
    assert!(validator.validate_node(&genesis, &dag).is_ok());
}

#[test]
fn test_node_hash_verification() {
    let mut node = DAGNode::genesis(b"test".to_vec());
    assert!(node.verify_hash());

    node.data.push(42);
    assert!(!node.verify_hash());

    node.hash = node.compute_hash();
    assert!(node.verify_hash());
}

#[test]
fn dag_rejects_what_validation_rejects() {
    let mut dag = DAGNetwork::new();
    let a = node_at(b"a", Vec::new(), 100);
    let a_id = a.id;
    dag.add_node(a).unwrap();

    // a child stamped before its parent is rejected
    let too_early = node_at(b"b", vec![a_id], 99);
    match dag.add_node(too_early) {
        Err(QuDAGError::ValidationError(m)) => assert_eq!(m, "Node timestamp must be after parent timestamps"),
        other => panic!("unexpected {:?}", other),
    }

    // an unknown parent is rejected, naming it
    let missing = new_uuid();
    let orphan = node_at(b"c", vec![a_id, missing], 500);
    match dag.add_node(orphan) {
        Err(QuDAGError::ValidationError(m)) => {
            assert_eq!(m, format!("Parent {} does not exist", uuid::Uuid::from_u128(missing)))
        }
        other => panic!("unexpected {:?}", other),
    }

    // a tampered hash is rejected
    let mut tampered = node_at(b"d", vec![a_id], 500);
    tampered.data.push(1);
    match dag.add_node(tampered) {
        Err(QuDAGError::ValidationError(m)) => assert_eq!(m, "Invalid node hash"),
        other => panic!("unexpected {:?}", other),
    }

    // more than ten parents is rejected
    let many = node_at(b"e", vec![a_id; 11], 500);
    match dag.add_node(many) {
        Err(QuDAGError::ValidationError(m)) => assert_eq!(m, "Too many parents: 11 > 10"),
        other => panic!("unexpected {:?}", other),
    }

    // a node already present is rejected, naming it
    let again = node_at(b"a", Vec::new(), 100);
    let again_id = again.id;
    dag.add_node(again.clone()).unwrap();
    match dag.add_node(again) {
        Err(QuDAGError::ValidationError(m)) => {
            assert_eq!(m, format!("Node {} already exists", uuid::Uuid::from_u128(again_id)))
        }
        other => panic!("unexpected {:?}", other),
    }
    dag.add_node(node_at(b"f", vec![a_id], 100)).unwrap();

    assert_eq!(dag.get_stats().node_count, 3);
    assert!(dag.is_valid());
}

#[test]
fn a_dag_built_by_add_node_validates_as_a_whole() {
    let mut dag = DAGNetwork::new();
    let validator = DAGValidation::new();
    assert!(validator.validate_dag(&dag).is_ok());
    let a = DAGNode::genesis(b"a".to_vec());
    let a_id = a.id;
    dag.add_node(a).unwrap();
    let b = DAGNode::new(new_uuid(), b"b".to_vec(), vec![a_id]);
    let b_id = b.id;
    dag.add_node(b).unwrap();
    let c = DAGNode::new(new_uuid(), b"c".to_vec(), vec![a_id, b_id]);
    dag.add_node(c).unwrap();
    assert!(validator.validate_dag(&dag).is_ok());
}

#[test]
fn dag_ancestors_and_descendants() {
    let mut dag = DAGNetwork::new();
    let a = node_at(b"a", Vec::new(), 100);
    let a_id = a.id;
    dag.add_node(a).unwrap();
    let b = node_at(b"b", vec![a_id], 110);
    let b_id = b.id;
    dag.add_node(b).unwrap();
    let c = node_at(b"c", vec![b_id], 120);
    let c_id = c.id;
    dag.add_node(c).unwrap();

    let ancestors = dag.get_ancestors(c_id).unwrap();
    assert!(ancestors.contains(&a_id) && ancestors.contains(&b_id));
    assert_eq!(ancestors.len(), 2);
    let descendants = dag.get_descendants(a_id).unwrap();
    assert!(descendants.contains(&b_id) && descendants.contains(&c_id));
    assert_eq!(descendants.len(), 2);
    let stats = dag.get_stats();
    assert_eq!(stats.genesis_count, 1);
    assert_eq!(stats.tip_count, 1);
}

#[test]
fn test_memory_storage() {
    let mut storage = MemoryStorage::new();

    let node = DAGNode::genesis(b"test".to_vec());
    let node_id = node.id;

    assert!(storage.add_node(node).is_ok());
    assert_eq!(storage.node_count(), 1);

    let retrieved = storage.get_node(node_id);
    assert!(retrieved.is_some());
    assert_eq!(retrieved.unwrap().data, b"test");

    assert_eq!(storage.get_tips(), vec![node_id]);

    assert!(storage.remove_node(node_id));
    assert_eq!(storage.node_count(), 0);
}

#[test]
fn test_dag_relationships() {
    let mut storage = MemoryStorage::new();

    let parent = DAGNode::genesis(b"parent".to_vec());
    let parent_id = parent.id;
    storage.add_node(parent).unwrap();

    let child = DAGNode::new(new_uuid(), b"child".to_vec(), vec![parent_id]);
    let child_id = child.id;
    storage.add_node(child).unwrap();

    assert_eq!(storage.get_children(parent_id), vec![child_id]);
    assert_eq!(storage.get_parents(child_id), vec![parent_id]);
    assert_eq!(storage.get_tips(), vec![child_id]);
}

#[test]
fn storage_refuses_duplicates_and_reopens_tips() {
    let mut storage = MemoryStorage::new();
    let parent = DAGNode::genesis(b"p".to_vec());
    let parent_id = parent.id;
    storage.add_node(parent.clone()).unwrap();
    assert!(matches!(storage.add_node(parent), Err(QuDAGError::StorageError(_))));

    let child = DAGNode::new(new_uuid(), b"c".to_vec(), vec![parent_id]);
    let child_id = child.id;
    storage.add_node(child).unwrap();
    assert_eq!(storage.get_tips(), vec![child_id]);

    // removing the only child makes the parent a tip again
    assert!(storage.remove_node(child_id));
    assert_eq!(storage.get_tips(), vec![parent_id]);
    assert!(storage.get_children(parent_id).is_empty());
    assert!(!storage.remove_node(child_id));
    assert!(storage.contains_node(parent_id));
    assert!(!storage.contains_node(child_id));
}

#[test]
fn test_backup_restore() {
    let mut storage = MemoryStorage::new();

    let node1 = DAGNode::genesis(b"node1".to_vec());
    let node2 = DAGNode::genesis(b"node2".to_vec());
    storage.add_node(node1.clone()).unwrap();
    storage.add_node(node2.clone()).unwrap();

    let backup = storage.get_all_nodes();

    let mut new_storage = MemoryStorage::new();
    new_storage.restore_nodes(backup).unwrap();

    assert_eq!(new_storage.node_count(), 2);
    assert!(new_storage.get_node(node1.id).is_some());
    assert!(new_storage.get_node(node2.id).is_some());
}

#[test]
fn restore_stops_at_a_repeated_node() {
    let node1 = DAGNode::genesis(b"node1".to_vec());
    let node2 = DAGNode::genesis(b"node2".to_vec());
    let mut storage = MemoryStorage::new();
    let result = storage.restore_nodes(vec![node1.clone(), node1.clone(), node2.clone()]);
    assert!(matches!(result, Err(QuDAGError::StorageError(_))));
    assert_eq!(storage.node_count(), 1);
    assert!(storage.get_node(node2.id).is_none());
}

#[test]
fn test_persistent_storage() {
    let mut storage = PersistentStorage::new();

    let node = DAGNode::genesis(b"persistent test".to_vec());
    let node_id = node.id;

    storage.add_node(node).unwrap();

    let retrieved = storage.get_node(node_id);
    assert!(retrieved.is_some());
    assert_eq!(retrieved.unwrap().data, b"persistent test");
}

#[test]
fn persistent_storage_flushes_at_threshold() {
    let mut storage = PersistentStorage::new();
    for i in 0..99u8 {
        let flushed = storage.add_node(DAGNode::genesis(vec![i])).unwrap();
        assert!(!flushed);
    }
    assert_eq!(storage.memory_cache().node_count(), 0);
    let flushed = storage.add_node(DAGNode::genesis(vec![200])).unwrap();
    assert!(flushed);
    assert_eq!(storage.memory_cache().node_count(), 100);
    assert_eq!(storage.get_stats().node_count, 100);
    assert_eq!(storage.get_stats().storage_type, "persistent");
    assert_eq!(storage.get_all_nodes().len(), 100);
}

#[test]
fn test_storage_stats() {
    let mut storage = MemoryStorage::new();

    let stats = storage.get_stats();
    assert_eq!(stats.node_count, 0);
    assert_eq!(stats.tip_count, 0);

    let node = DAGNode::genesis(b"stats test".to_vec());
    storage.add_node(node).unwrap();

    let stats = storage.get_stats();
    assert_eq!(stats.node_count, 1);
    assert_eq!(stats.tip_count, 1);
    assert!(stats.total_size_bytes > 0);
    assert_eq!(stats.storage_type, "memory");
}

fn vote(voter: &str, preference: bool) -> Vote {
    Vote { voter: voter.to_string(), preference, timestamp: 0, signature: vec![] }
}

#[test]
fn test_vote_set() {
    let mut vote_set = VoteSet::new();
    let peer_id = "12D3KooWGzh8fZ7Mkq2Z5xS7tR4vH1nYcPqW3eX9bL6dA2uJ5kTm";

    vote_set.add_vote(vote(peer_id, true));
    assert_eq!(vote_set.positive_votes(), 1);
    assert_eq!(vote_set.total_votes(), 1);
}

#[test]
fn a_voter_counts_once() {
    let mut vote_set = VoteSet::new();
    vote_set.add_vote(vote("alice", true));
    vote_set.add_vote(vote("alice", false));
    vote_set.add_vote(vote("bob", false));
    assert_eq!(vote_set.positive_votes(), 1);
    assert_eq!(vote_set.total_votes(), 2);
}

#[test]
fn test_consensus_creation() {
    let consensus = QRAvalanche::new(ConsensusConfig::default());
    assert!(consensus.has_no_pending_votes());
}

#[test]
fn node_finalizes_at_threshold() {
    let mut consensus = QRAvalanche::new(ConsensusConfig { finalization_threshold: 3, sample_size: 20 });
    let id = new_uuid();
    assert!(consensus.is_genesis_allowed());
    assert_eq!(consensus.process_vote(id, vote("a", true)), VoteOutcome::Pending);
    assert_eq!(consensus.process_vote(id, vote("a", true)), VoteOutcome::Pending);
    assert_eq!(consensus.process_vote(id, vote("b", false)), VoteOutcome::Pending);
    assert_eq!(consensus.pending_total_votes(id), 2);
    assert_eq!(consensus.process_vote(id, vote("c", true)), VoteOutcome::Pending);
    assert!(!consensus.is_node_finalized(id));
    assert_eq!(consensus.process_vote(id, vote("d", true)), VoteOutcome::Finalized);
    assert!(consensus.is_node_finalized(id));
    assert!(consensus.has_no_pending_votes());
    assert!(!consensus.is_genesis_allowed());
}

#[test]
fn consensus_validation_rules() {
    let mut consensus = QRAvalanche::new(ConsensusConfig { finalization_threshold: 1, sample_size: 20 });
    let mut crypto = synaptic_mesh::crypto::QuDAGCrypto::new();
    crypto.generate_signing_keypair().unwrap();

    let mut genesis = DAGNode::genesis(b"g".to_vec());
    genesis.sign(crypto.sign(&genesis.data).unwrap());
    assert!(consensus.validate_node(&genesis).is_ok());

    let unsigned = DAGNode::genesis(b"u".to_vec());
    assert!(matches!(consensus.validate_node(&unsigned), Err(QuDAGError::ValidationError(_))));

    consensus.process_vote(genesis.id, vote("a", true));
    let mut late_genesis = DAGNode::genesis(b"g2".to_vec());
    late_genesis.sign(crypto.sign(&late_genesis.data).unwrap());
    assert!(matches!(consensus.validate_node(&late_genesis), Err(QuDAGError::ValidationError(_))));

    let mut child = DAGNode::new(new_uuid(), b"child".to_vec(), vec![genesis.id]);
    child.sign(crypto.sign(&child.data).unwrap());
    assert!(consensus.validate_node(&child).is_ok());

    let mut orphan = DAGNode::new(new_uuid(), b"orphan".to_vec(), vec![new_uuid()]);
    orphan.sign(crypto.sign(&orphan.data).unwrap());
    assert!(matches!(consensus.validate_node(&orphan), Err(QuDAGError::ValidationError(_))));
}

#[test]
fn removing_a_fresh_node_restores_the_store() {
    let mut storage = MemoryStorage::new();
    let root = DAGNode::genesis(b"root".to_vec());
    let root_id = root.id;
    storage.add_node(root).unwrap();
    let before: Vec<u128> = storage.get_all_nodes().iter().map(|n| n.id).collect();

    let child = DAGNode::new(new_uuid(), b"child".to_vec(), vec![root_id]);
    let child_id = child.id;
    storage.add_node(child).unwrap();
    assert_eq!(storage.get_node(child_id).map(|n| n.data), Some(b"child".to_vec()));

    assert!(storage.remove_node(child_id));
    let after: Vec<u128> = storage.get_all_nodes().iter().map(|n| n.id).collect();
    assert_eq!(before, after);
    assert!(storage.get_node(child_id).is_none());
    assert!(storage.get_tips().contains(&root_id));
}

#[test]
fn backup_lists_nodes_in_storage_order_and_restores_them() {
    let mut storage = MemoryStorage::new();
    let a = DAGNode::genesis(b"a".to_vec());
    let b = DAGNode::new(new_uuid(), b"b".to_vec(), vec![a.id]);
    let c = DAGNode::new(new_uuid(), b"c".to_vec(), vec![a.id, b.id]);
    let ids = vec![a.id, b.id, c.id];
    storage.add_nodes(vec![a, b, c]).unwrap();
    let backup = storage.get_all_nodes();
    assert_eq!(backup.iter().map(|n| n.id).collect::<Vec<_>>(), ids);

    let mut restored = MemoryStorage::new();
    restored.restore_nodes(backup).unwrap();
    assert_eq!(restored.get_all_nodes().iter().map(|n| n.id).collect::<Vec<_>>(), ids);
    assert_eq!(restored.get_tips(), storage.get_tips());
    assert_eq!(restored.get_children(ids[0]), storage.get_children(ids[0]));
    assert_eq!(restored.get_parents(ids[2]), storage.get_parents(ids[2]));
}

#[test]
fn test_node_creation() {
    let node = QuDAGNode::new(ConsensusConfig::default());
    assert!(node.get_dag_tips().is_empty());
    assert_eq!(node.metrics().counters().transactions_submitted, 0);
}

#[test]
fn test_transaction_submission() {
    let mut node = QuDAGNode::new(ConsensusConfig::default());

    let data = b"test transaction".to_vec();
    let tx_id = node.submit_transaction(data);
    assert!(tx_id.is_ok());
}

#[test]
fn transactions_build_on_finalized_tips_only() {
    let mut node = QuDAGNode::new(ConsensusConfig::default());
    let first = node.submit_transaction(b"first".to_vec()).unwrap();
    assert_eq!(node.get_dag_tips(), vec![first]);
    assert_eq!(node.metrics().counters().transactions_submitted, 1);
    // The new tip is not finalized yet, so a node on top of it is refused
    // and nothing changes.
    let second = node.submit_transaction(b"second".to_vec());
    assert!(matches!(second, Err(QuDAGError::ValidationError(_))));
    assert_eq!(node.get_dag_tips(), vec![first]);
    assert_eq!(node.metrics().counters().transactions_submitted, 1);
}

#[test]
fn ancestors_and_descendants_mirror_each_other() {
    let mut dag = DAGNetwork::new();
    let a = node_at(b"a", Vec::new(), 100);
    let a_id = a.id;
    dag.add_node(a).unwrap();
    let b = node_at(b"b", vec![a_id], 110);
    let b_id = b.id;
    dag.add_node(b).unwrap();
    let c = node_at(b"c", vec![a_id], 120);
    let c_id = c.id;
    dag.add_node(c).unwrap();
    let d = node_at(b"d", vec![b_id, c_id], 130);
    let d_id = d.id;
    dag.add_node(d).unwrap();

    let ids = [a_id, b_id, c_id, d_id];
    for &x in &ids {
        let ancestors = dag.get_ancestors(x).unwrap();
        for &y in &ids {
            let descendants = dag.get_descendants(y).unwrap();
            assert_eq!(ancestors.contains(&y), descendants.contains(&x));
        }
    }
    assert_eq!(dag.get_ancestors(d_id).unwrap().len(), 3);
    assert_eq!(dag.get_descendants(b_id).unwrap().len(), 1);
}

#[test]
fn defaults_are_empty() {
    let dag = DAGNetwork::default();
    assert_eq!(dag.get_stats().node_count, 0);
    let storage = MemoryStorage::default();
    assert_eq!(storage.node_count(), 0);
    assert!(storage.get_tips().is_empty());
}

#[test]
fn a_transaction_is_stored_under_the_given_identifier_once() {
    let mut node = QuDAGNode::new(ConsensusConfig::default());
    assert_eq!(node.submit_transaction_with(b"tx".to_vec(), 42, 1_000).unwrap(), 42);
    assert_eq!(node.get_dag_tips(), vec![42]);
    // a node on top of an unfinalized tip is refused, and the DAG is left as it was
    assert!(node.submit_transaction_with(b"again".to_vec(), 42, 1_001).is_err());
    assert_eq!(node.get_dag_tips(), vec![42]);
}
