//! Self-organization: organization patterns, logical operators of
//! emergence conditions and the purposes of node clusters.

use vstd::prelude::*;

verus! {

/// Self-organizing patterns for autonomous mesh behavior.
#[derive(Debug, Clone, Copy, PartialEq, Eq, Structural)]
pub enum OrganizationPattern {
    Hierarchical,
    Flat,
    Clustered,
    Dynamic,
    Emergent,
}

/// How the conditions of a composite emergence condition combine.
#[derive(Debug, Clone, Copy, PartialEq, Eq, Structural)]
pub enum LogicalOperator {
    And,
    Or,
    Not,
}

/// What a cluster of nodes is for.
#[derive(Debug, Clone, Copy, PartialEq, Eq, Structural)]
pub enum ClusterPurpose {
    Computation,
    Storage,
    Communication,
    Monitoring,
    Learning,
    Mixed,
}

/// Combines the values of the sub-conditions of a composite condition:
/// `And` needs all, `Or` needs one, `Not` needs exactly one sub-condition
/// and negates it.
pub fn combine_conditions(operator: LogicalOperator, values: &Vec<bool>) -> (b: bool)
    ensures
        b == match operator {
            LogicalOperator::And => forall|i: int| 0 <= i < values@.len() ==> values@[i],
            LogicalOperator::Or => exists|i: int| 0 <= i < values@.len() && values@[i],
            LogicalOperator::Not => values@.len() == 1 && !values@[0],
        },
{
    match operator {
        LogicalOperator::And => {
            let mut i: usize = 0;
            while i < values.len()
                invariant
                    operator == LogicalOperator::And,
                    i <= values@.len(),
                    forall|j: int| 0 <= j < i ==> values@[j],
                decreases values@.len() - i,
            {
                if !values[i] {
                    assert(!values@[i as int]);
                    return false;
                }
                i = i + 1;
            }
            true
        },
        LogicalOperator::Or => {
            let mut i: usize = 0;
            while i < values.len()
                invariant
                    operator == LogicalOperator::Or,
                    i <= values@.len(),
                    forall|j: int| 0 <= j < i ==> !values@[j],
                decreases values@.len() - i,
            {
                if values[i] {
                    assert(values@[i as int]);
                    return true;
                }
                i = i + 1;
            }
            false
        },
        LogicalOperator::Not => values.len() == 1 && !values[0],
    }
}

/// Whether at least `duration_ms` milliseconds have passed between the
/// last organization at `last_ms` and `now_ms`.
pub fn time_elapsed(now_ms: u64, last_ms: u64, duration_ms: u64) -> (b: bool)
    requires
        last_ms <= now_ms,
    ensures
        b == (now_ms - last_ms >= duration_ms),
{
    now_ms - last_ms >= duration_ms
}

} // verus!
