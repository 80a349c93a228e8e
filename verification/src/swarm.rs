//! Dynamic agent architecture: the error type and the kinds of agents.

use vstd::prelude::*;

use crate::error::text;
use crate::evolutionary_mesh::MeshTopology;
use crate::self_organizing::OrganizationPattern;
use crate::swarm_intelligence::OptimizationStrategy;

verus! {

/// Error type for swarm operations.
#[derive(Debug)]
pub enum SwarmError {
    CoordinationError(String),
    AgentError(String),
    AdaptationError(String),
    IoError(std::io::Error),
}

impl SwarmError {
    /// The error's message, as its `Display` form reads.
    pub fn to_string(&self) -> (s: String)
        ensures
            self matches SwarmError::CoordinationError(m) ==> s@ == "Coordination error: "@ + m@,
            self matches SwarmError::AgentError(m) ==> s@ == "Agent error: "@ + m@,
            self matches SwarmError::AdaptationError(m) ==> s@ == "Adaptation error: "@ + m@,
            self is IoError ==> s@.subrange(0, 10) == "IO error: "@,
    {
        let (prefix, detail): (String, String) = match self {
            SwarmError::CoordinationError(m) => (text("Coordination error: "), m.clone()),
            SwarmError::AgentError(m) => (text("Agent error: "), m.clone()),
            SwarmError::AdaptationError(m) => (text("Adaptation error: "), m.clone()),
            SwarmError::IoError(e) => (text("IO error: "), e.to_string()),
        };
        proof {
            reveal_strlit("IO error: ");
        }
        let s = prefix.concat(detail.as_str());
        assert(s@.subrange(0, prefix@.len() as int) =~= prefix@);
        s
    }
}

impl From<std::io::Error> for SwarmError {
    fn from(e: std::io::Error) -> (r: Self) {
        SwarmError::IoError(e)
    }
}

impl vstd::std_specs::convert::FromSpecImpl<std::io::Error> for SwarmError {
    open spec fn obeys_from_spec() -> bool {
        true
    }

    open spec fn from_spec(e: std::io::Error) -> Self {
        SwarmError::IoError(e)
    }
}

/// Swarm behaviors.
#[derive(Debug, Clone, Copy, PartialEq, Eq, Structural)]
pub enum SwarmBehavior {
    Flocking,
    Foraging,
    Exploration,
    Consensus,
    Optimization,
}

/// Agent type enumeration for the dynamic agent architecture.
#[derive(Debug, Clone)]
pub enum AgentType {
    Cognitive,
    Communication,
    Storage,
    Computation,
    Coordination,
    Custom(String),
}


/// Configuration of the swarm intelligence layer.  Intervals are in
/// seconds; the evolutionary parameters (real-valued rates) are kept by
/// the caller.
#[derive(Debug, Clone, Copy, PartialEq, Eq, Structural)]
pub struct SwarmIntelligenceConfig {
    pub optimization_strategy: OptimizationStrategy,
    pub mesh_topology: MeshTopology,
    pub organization_pattern: OrganizationPattern,
    pub initial_population_size: usize,
    pub evolution_interval_secs: u64,
    pub organization_interval_secs: u64,
}

/// The default swarm configuration: hybrid adaptive optimization on an
/// adaptive mesh organized dynamically, fifty agents, evolution every
/// thirty seconds and reorganization every minute.
pub open spec fn default_swarm_config() -> SwarmIntelligenceConfig {
    SwarmIntelligenceConfig {
        optimization_strategy: OptimizationStrategy::HybridAdaptive,
        mesh_topology: MeshTopology::Adaptive,
        organization_pattern: OrganizationPattern::Dynamic,
        initial_population_size: 50,
        evolution_interval_secs: 30,
        organization_interval_secs: 60,
    }
}

impl Default for SwarmIntelligenceConfig {
    fn default() -> (c: Self)
        ensures
            c == default_swarm_config(),
    {
        SwarmIntelligenceConfig {
            optimization_strategy: OptimizationStrategy::HybridAdaptive,
            mesh_topology: MeshTopology::Adaptive,
            organization_pattern: OrganizationPattern::Dynamic,
            initial_population_size: 50,
            evolution_interval_secs: 30,
            organization_interval_secs: 60,
        }
    }
}

/// Configuration of the dynamic agent architecture.
#[derive(Debug, Clone, Copy, PartialEq, Eq, Structural)]
pub struct ArchitectureConfig {
    pub swarm_config: SwarmIntelligenceConfig,
    pub max_agents: usize,
    pub auto_scale: bool,
    pub fault_tolerance: bool,
}

impl Default for ArchitectureConfig {
    fn default() -> (c: Self)
        ensures
            c.swarm_config == default_swarm_config(),
            c.max_agents == 100,
            c.auto_scale,
            c.fault_tolerance,
    {
        ArchitectureConfig {
            swarm_config: SwarmIntelligenceConfig::default(),
            max_agents: 100,
            auto_scale: true,
            fault_tolerance: true,
        }
    }
}

} // verus!
