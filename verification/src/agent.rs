//! Neural agents: the states an agent passes through and the average
//! time it takes per thought.

use vstd::prelude::*;

verus! {

/// Current state of a neural agent.
#[derive(Debug, Clone, Copy, PartialEq, Eq, Structural)]
pub enum AgentState {
    Idle,
    Thinking,
    Learning,
    Communicating,
    Syncing,
    Stopped,
}


/// Mean processing time per thought in whole milliseconds (0 before the
/// first thought).
pub fn average_processing_millis(total_processing_time_ms: u64, thoughts_processed: u64) -> (ms: u64)
    ensures
        ms == if thoughts_processed > 0 { total_processing_time_ms / thoughts_processed } else { 0 },
{
    if thoughts_processed > 0 {
        total_processing_time_ms / thoughts_processed
    } else {
        0
    }
}

} // verus!
