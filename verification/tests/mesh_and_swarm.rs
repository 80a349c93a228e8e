use synaptic_mesh::agent::average_processing_millis;
use synaptic_mesh::cli::{parse_output_format, OutputFormat};
use synaptic_mesh::cognition::{AssignmentStrategy, Priority, TaskType};
use synaptic_mesh::distributed::ring_chunk;
use synaptic_mesh::coordinator::{
    adaptive_selection_size, get_assignment_strategy, load_balanced_selection_size, required_capabilities,
    select_agents_capability_based, select_agents_consensus, select_agents_round_robin, AgentInfo, AgentStatus,
    charge_agents, CoordinationStrategy, TaskQueue,
};
use synaptic_mesh::evolutionary_mesh::{isqrt, random, topology_links, MeshTopology};
use synaptic_mesh::mesh::{
    hierarchy_targets, link_present, preferential_pick, reconstruct_path, ring_lattice_targets, route_from_table,
    walk_back_ends, ConnectionType,
};
use synaptic_mesh::neural_error::NeuralMeshError;
use synaptic_mesh::p2p_integration::{
    parse_message_type, MessageType, P2PIntegration, P2PIntegrationConfig, P2PIntegrationEvent,
};
use synaptic_mesh::peer::{capability_counts, is_active, is_active_at, PeerCapabilities};
use synaptic_mesh::self_organizing::{combine_conditions, time_elapsed, LogicalOperator};
use synaptic_mesh::swarm::{ArchitectureConfig, SwarmIntelligenceConfig};
use synaptic_mesh::swarm_intelligence::OptimizationStrategy;

#[derive(Debug, Clone, PartialEq)]
struct Task {
    name: &'static str,
    task_type: TaskType,
}

#[test]
fn test_task_queue() {
    let mut queue = TaskQueue::new();

    let task = Task { name: "t", task_type: TaskType::PatternRecognition };

    queue.push(task.clone(), Priority::High);
    assert_eq!(queue.len(), 1);

    let popped = queue.pop();
    assert!(popped.is_some());
    assert_eq!(queue.len(), 0);
}

#[test]
fn task_queue_pops_by_level_then_arrival() {
    let mut queue = TaskQueue::new();
    queue.push("low", Priority::Low);
    queue.push("medium", Priority::Medium);
    queue.push("high", Priority::High);
    queue.push("critical", Priority::Critical);
    queue.push("medium2", Priority::Medium);
    assert_eq!(queue.pop(), Some("high"));
    assert_eq!(queue.pop(), Some("critical"));
    assert_eq!(queue.pop(), Some("medium"));
    assert_eq!(queue.pop(), Some("medium2"));
    assert_eq!(queue.pop(), Some("low"));
    assert_eq!(queue.pop(), None);
}

fn agent(id: u128, caps: &[&str], status: AgentStatus) -> AgentInfo {
    AgentInfo { id, capabilities: caps.iter().map(|c| c.to_string()).collect(), task_count: 0, status }
}

#[test]
fn agent_selection_rules() {
    let agents = vec![
        agent(1, &["a"], AgentStatus::Busy),
        agent(2, &["a", "b"], AgentStatus::Available),
        agent(3, &["b"], AgentStatus::Available),
        agent(4, &["a", "b", "c"], AgentStatus::Available),
        agent(5, &["x"], AgentStatus::Available),
    ];
    assert_eq!(select_agents_round_robin(&agents).unwrap(), vec![2]);
    assert_eq!(select_agents_consensus(&agents, 3).unwrap(), vec![2, 3, 4]);
    assert!(matches!(select_agents_consensus(&agents, 5), Err(NeuralMeshError::InvalidInput(_))));
    let required = vec!["a".to_string(), "b".to_string()];
    assert_eq!(select_agents_capability_based(&agents, &required).unwrap(), vec![2, 4]);
    let required = vec!["b".to_string()];
    assert_eq!(select_agents_capability_based(&agents, &required).unwrap(), vec![2, 3]);
    let required = vec!["zzz".to_string()];
    assert_eq!(select_agents_capability_based(&agents, &required).unwrap(), vec![2]);
    let nobody = vec![agent(9, &["a"], AgentStatus::Offline)];
    assert!(matches!(select_agents_round_robin(&nobody), Err(NeuralMeshError::NotFound(_))));
    assert_eq!(get_assignment_strategy(CoordinationStrategy::Consensus { min_agents: 2 }), AssignmentStrategy::LoadBalanced);
    assert_eq!(get_assignment_strategy(CoordinationStrategy::RoundRobin), AssignmentStrategy::RoundRobin);
    assert_eq!(adaptive_selection_size(Priority::Critical, 4), 4);
    assert_eq!(adaptive_selection_size(Priority::High, 4), 3);
    assert_eq!(load_balanced_selection_size(Priority::Low, 4), 1);
    assert_eq!(load_balanced_selection_size(Priority::Critical, 2), 2);
}

#[test]
fn capability_keys_are_stripped() {
    let keys = vec!["capability:vision".to_string(), "other".to_string(), "capability:".to_string()];
    assert_eq!(required_capabilities(&keys), vec!["vision".to_string(), "".to_string()]);
}

#[test]
fn ring_lattice_and_hierarchy() {
    assert_eq!(ring_lattice_targets(5, 4), vec![1, 4, 2, 3]);
    assert_eq!(ring_lattice_targets(4, 4), vec![1, 3, 2]);
    assert_eq!(ring_lattice_targets(3, 1), Vec::<usize>::new());
    let levels = vec![Some(0), Some(1), Some(2), Some(1), None, Some(2)];
    assert_eq!(hierarchy_targets(1, 3, 1, &levels), vec![0, 2]);
    assert_eq!(hierarchy_targets(0, 3, 5, &levels), vec![1, 3]);
    assert_eq!(hierarchy_targets(2, 3, 5, &levels), vec![1]);
    assert_eq!(preferential_pick(&vec![2, 3, 1], &vec![false, false, false], 0), Some(0));
    assert_eq!(preferential_pick(&vec![2, 3, 1], &vec![true, false, false], 1), Some(1));
    assert_eq!(preferential_pick(&vec![2, 3, 1], &vec![false, false, false], 5), Some(2));
    assert_eq!(preferential_pick(&vec![2, 3, 1], &vec![false, false, true], 5), None);
}

#[test]
fn evolutionary_topologies() {
    assert_eq!(topology_links(MeshTopology::Ring, 3), vec![vec![1, 2], vec![0, 2], vec![1, 0]]);
    assert_eq!(topology_links(MeshTopology::Star, 3), vec![vec![1, 2], vec![0], vec![0]]);
    assert_eq!(topology_links(MeshTopology::FullyConnected, 3), vec![vec![1, 2], vec![0, 2], vec![0, 1]]);
    assert_eq!(topology_links(MeshTopology::SmallWorld, 3), vec![vec![1], vec![2], vec![0]]);
    assert_eq!(topology_links(MeshTopology::Adaptive, 3), vec![vec![], vec![0, 0], vec![0, 0]]);
    assert_eq!(
        topology_links(MeshTopology::ScaleFree, 4),
        vec![vec![1, 2], vec![0, 2], vec![0, 1], vec![0, 0]]
    );
    assert_eq!(
        topology_links(MeshTopology::Grid, 4),
        vec![vec![1, 2], vec![3], vec![3], vec![]]
    );
    assert_eq!(isqrt(15), 3);
    assert_eq!(isqrt(16), 4);
    let zero: usize = random();
    assert_eq!(zero, 0);
}

#[test]
fn composite_conditions() {
    assert!(combine_conditions(LogicalOperator::And, &vec![true, true]));
    assert!(!combine_conditions(LogicalOperator::And, &vec![true, false]));
    assert!(combine_conditions(LogicalOperator::Or, &vec![false, true]));
    assert!(!combine_conditions(LogicalOperator::Or, &vec![]));
    assert!(combine_conditions(LogicalOperator::Not, &vec![false]));
    assert!(!combine_conditions(LogicalOperator::Not, &vec![false, false]));
}

#[test]
fn test_capabilities() {
    let mut capabilities = PeerCapabilities::default();

    assert!(capabilities.supports_capability("dag_sync"));
    assert!(capabilities.supports_capability("consensus"));
    assert!(!capabilities.supports_capability("unknown"));

    capabilities.relay = true;
    assert!(capabilities.supports_capability("relay"));
}

#[test]
fn output_formats_parse_ignoring_case() {
    assert_eq!(parse_output_format("JSON"), Ok(OutputFormat::Json));
    assert_eq!(parse_output_format("Human"), Ok(OutputFormat::Human));
    assert_eq!("table".parse::<OutputFormat>(), Ok(OutputFormat::Table));
    assert_eq!(parse_output_format("xml"), Err("Invalid output format: xml".to_string()));
}

#[test]
fn p2p_peers_and_events() {
    let mut p2p = P2PIntegration::new(P2PIntegrationConfig::default());
    let id = p2p.connect_peer("/ip4/127.0.0.1/tcp/9000", 5);
    assert!(id.starts_with("peer-"));
    assert_eq!(p2p.peer_count(), 1);
    assert_eq!(p2p.list_peers(), vec![id.clone()]);
    match p2p.try_recv_event() {
        Some(P2PIntegrationEvent::PeerConnected { peer_id, address }) => {
            assert_eq!(peer_id, id);
            assert_eq!(address, "/ip4/127.0.0.1/tcp/9000");
        }
        other => panic!("unexpected event {:?}", other),
    }
    assert!(p2p.disconnect_peer(&id).is_ok());
    assert_eq!(p2p.peer_count(), 0);
    assert!(matches!(p2p.try_recv_event(), Some(P2PIntegrationEvent::PeerDisconnected { .. })));
    assert_eq!(p2p.disconnect_peer("nobody"), Err("Peer nobody not found".to_string()));
    assert!(p2p.try_recv_event().is_none());
    assert!(p2p.local_peer_id().starts_with("local-"));
}

#[test]
fn routes_read_back_from_predecessors() {
    let previous = vec![None, Some(0), Some(1), None, Some(2)];
    assert_eq!(reconstruct_path(&previous, 0, 4), Some(vec![0, 1, 2, 4]));
    assert_eq!(reconstruct_path(&previous, 0, 2), Some(vec![0, 1, 2]));
    // The walk stops at the first step that reaches the start.
    assert_eq!(reconstruct_path(&previous, 1, 4), Some(vec![1, 2, 4]));
    // Node 3 has no recorded predecessor: no route.
    assert_eq!(reconstruct_path(&previous, 0, 3), None);
    // A route from a node to itself is that node.
    assert_eq!(reconstruct_path(&previous, 0, 0), Some(vec![0]));
    // Nodes outside the table have no predecessor.
    assert_eq!(reconstruct_path(&previous, 9, 9), Some(vec![9]));
    assert_eq!(reconstruct_path(&previous, 0, 9), None);
    // Each node of a route has the node before it as its predecessor.
    let route = reconstruct_path(&previous, 0, 4).unwrap();
    for w in route.windows(2) {
        assert_eq!(previous[w[1]], Some(w[0]));
    }
}

#[test]
fn peer_activity_window() {
    assert!(is_active_at(100, 150, 60));
    assert!(is_active_at(100, 160, 60));
    assert!(!is_active_at(100, 161, 60));
    // A last-seen time ahead of the clock counts as just seen.
    assert!(is_active_at(200, 100, 0));
    let now = std::time::SystemTime::now().duration_since(std::time::UNIX_EPOCH).unwrap().as_secs();
    assert!(is_active(now, 3600));
    assert!(!is_active(now - 7200, 3600));
}

#[test]
fn capability_counts_list_offered_flags() {
    let mut relay = PeerCapabilities::default();
    relay.relay = true;
    relay.consensus = false;
    let caps = vec![PeerCapabilities::default(), PeerCapabilities::default(), relay];
    let counts = capability_counts(&caps);
    assert_eq!(
        counts,
        vec![
            ("dag_sync".to_string(), 3),
            ("consensus".to_string(), 2),
            ("quantum_crypto".to_string(), 3),
            ("relay".to_string(), 1),
        ]
    );
    assert!(capability_counts(&Vec::new()).is_empty());
}

#[test]
fn message_types_by_name() {
    assert_eq!(parse_message_type("thought"), MessageType::Thought);
    assert_eq!(parse_message_type("coordination"), MessageType::AgentCoordination);
    assert_eq!(parse_message_type("swarm"), MessageType::SwarmSync);
    assert_eq!(parse_message_type("Thought"), MessageType::Command);
    assert_eq!(parse_message_type(""), MessageType::Command);
}

#[test]
fn test_config_default() {
    let config = SwarmIntelligenceConfig::default();
    assert_eq!(config.initial_population_size, 50);
    assert!(matches!(config.optimization_strategy, OptimizationStrategy::HybridAdaptive));
}

#[test]
fn architecture_defaults() {
    let config = ArchitectureConfig::default();
    assert_eq!(config.max_agents, 100);
    assert!(config.auto_scale && config.fault_tolerance);
    assert_eq!(config.swarm_config, SwarmIntelligenceConfig::default());
    assert_eq!(config.swarm_config.mesh_topology, MeshTopology::Adaptive);
    assert_eq!(config.swarm_config.evolution_interval_secs, 30);
    assert_eq!(config.swarm_config.organization_interval_secs, 60);
}

#[test]
fn average_processing_time_per_thought() {
    assert_eq!(average_processing_millis(0, 0), 0);
    assert_eq!(average_processing_millis(500, 0), 0);
    assert_eq!(average_processing_millis(500, 4), 125);
    assert_eq!(average_processing_millis(10, 3), 3);
}

#[test]
fn ring_all_reduce_chunks() {
    // Four agents, ten parameters: chunks of two.
    assert_eq!(ring_chunk(3, 1, 4, 10, false), (0, 2));
    assert_eq!(ring_chunk(1, 2, 4, 10, false), (6, 8));
    assert_eq!(ring_chunk(0, 1, 4, 10, true), (6, 8));
    assert_eq!(ring_chunk(2, 0, 4, 10, true), (4, 6));
    // Fewer parameters than agents: empty chunks.
    assert_eq!(ring_chunk(3, 2, 4, 3, false), (0, 0));
    // At one step the agents' chunks do not overlap.
    for step in 0..4 {
        for gather in [false, true] {
            let mut starts: Vec<usize> = (0..4).map(|s| ring_chunk(s, step, 4, 10, gather).0).collect();
            starts.sort();
            starts.dedup();
            assert_eq!(starts.len(), 4);
        }
    }
}

#[test]
fn routes_are_read_only_off_tables_whose_walk_ends() {
    // 0 <- 1 <- 2: the walk back from 2 reaches 0
    let table = vec![None, Some(0), Some(1)];
    assert!(walk_back_ends(&table, 0, 2));
    assert_eq!(route_from_table(&table, 0, 2), Some(vec![0, 1, 2]));
    // 1 and 2 name each other: the walk back from 2 never stops
    let cycle = vec![None, Some(2), Some(1)];
    assert!(!walk_back_ends(&cycle, 0, 2));
    assert_eq!(route_from_table(&cycle, 0, 2), None);
}

#[test]
fn a_rewired_link_stands_beside_a_direct_one() {
    let links = vec![(7u128, ConnectionType::Direct)];
    assert!(link_present(&links, 7, ConnectionType::Direct));
    assert!(!link_present(&links, 7, ConnectionType::Rewired));
    assert!(!link_present(&links, 8, ConnectionType::Direct));
}

#[test]
fn elapsed_time_is_measured_from_the_last_organization() {
    assert!(time_elapsed(70_000, 10_000, 60_000));
    assert!(!time_elapsed(69_999, 10_000, 60_000));
}

#[test]
fn agents_are_charged_once_per_selection() {
    let mut agents = vec![
        AgentInfo { id: 1, capabilities: vec![], task_count: 2, status: AgentStatus::Available },
        AgentInfo { id: 2, capabilities: vec![], task_count: 0, status: AgentStatus::Busy },
    ];
    charge_agents(&mut agents, &vec![2, 9, 2]);
    assert_eq!(agents[0].task_count, 2);
    assert_eq!(agents[1].task_count, 2);
}

#[test]
fn a_peer_is_recorded_under_the_identifier_drawn_for_it() {
    let mut p2p = P2PIntegration::new(P2PIntegrationConfig::default());
    let id = p2p.connect_peer_with("/ip4/10.0.0.1/tcp/9000", 7, 1);
    assert_eq!(id, "peer-00000000-0000-0000-0000-000000000001");
    let other = p2p.connect_peer_with("/ip4/10.0.0.2/tcp/9000", 8, 2);
    assert_eq!(p2p.list_peers(), vec![id, other]);
}
