//! Swarm intelligence: optimization strategies, behaviour patterns and the
//! fault-tolerance settings of the swarm.

use vstd::prelude::*;

verus! {

/// Self-organizing behavior patterns.
#[derive(Debug, Clone, Copy, PartialEq, Eq, Structural)]
pub enum BehaviorPattern {
    Exploration,
    Exploitation,
    Cooperation,
    Competition,
    Specialization,
    Generalization,
}

/// Swarm optimization strategies.
#[derive(Debug, Clone, Copy, PartialEq, Eq, Structural)]
pub enum OptimizationStrategy {
    GeneticAlgorithm,
    ParticleSwarm,
    AntColony,
    BeeAlgorithm,
    FireflyAlgorithm,
    HybridAdaptive,
}

/// Ways a failed agent can be recovered.
#[derive(Debug, Clone, Copy, PartialEq, Eq, Structural)]
pub enum RecoveryStrategy {
    Replication,
    Migration,
    Regeneration,
    Consensus,
    Checkpointing,
}

/// Fault tolerance mechanisms.
#[derive(Debug, Clone)]
pub struct FaultTolerance {
    pub redundancy_factor: u32,
    pub heartbeat_interval: u64,
    pub failure_threshold: u32,
    pub recovery_strategies: Vec<RecoveryStrategy>,
    pub self_healing_enabled: bool,
}

/// The swarm's source of random values, which yields `T::default()`.
pub fn random<T: Default>() -> (r: T)
    ensures
        call_ensures(T::default, (), r),
{
    T::default()
}

} // verus!
