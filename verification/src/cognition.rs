//! Cognition: task kinds, priorities, how thought patterns relate and how
//! tasks are assigned, and the built-in thought processors.

use vstd::prelude::*;

verus! {

/// Types of cognition tasks.
#[derive(Debug, Clone, Copy, PartialEq, Eq, Structural)]
pub enum TaskType {
    PatternRecognition,
    MemoryFormation,
    DecisionMaking,
    ProblemSolving,
    CreativeThinking,
    AnalyticalReasoning,
}

/// Priority levels for tasks, lowest first.
#[derive(Debug, Clone, Copy, PartialEq, Eq, Structural, PartialOrd, Ord)]
pub enum Priority {
    Low,
    Medium,
    High,
    Critical,
}

/// Types of connections between thought patterns.
#[derive(Debug, Clone, Copy, PartialEq, Eq, Structural)]
pub enum ConnectionType {
    Association,
    Causation,
    Similarity,
    Contrast,
    Sequence,
}

/// Strategy for assigning tasks.
#[derive(Debug, Clone, Copy, PartialEq, Eq, Structural)]
pub enum AssignmentStrategy {
    RoundRobin,
    LoadBalanced,
    CapabilityBased,
    Random,
}

/// Pattern recognition processor.
#[derive(Debug)]
pub struct PatternRecognitionProcessor;

impl PatternRecognitionProcessor {
    /// The processor.
    pub fn new() -> (p: Self)
        ensures
            p == PatternRecognitionProcessor,
    {
        PatternRecognitionProcessor
    }
}

/// Memory formation processor.
#[derive(Debug)]
pub struct MemoryFormationProcessor;

impl MemoryFormationProcessor {
    /// The processor.
    pub fn new() -> (p: Self)
        ensures
            p == MemoryFormationProcessor,
    {
        MemoryFormationProcessor
    }
}

/// Decision making processor.
#[derive(Debug)]
pub struct DecisionMakingProcessor;

impl DecisionMakingProcessor {
    /// The processor.
    pub fn new() -> (p: Self)
        ensures
            p == DecisionMakingProcessor,
    {
        DecisionMakingProcessor
    }
}

} // verus!
