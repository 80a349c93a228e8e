//! Mesh coordination: the priority task queue and the agent-selection
//! rules that do not depend on load figures.

use vstd::prelude::*;

use crate::cognition::{AssignmentStrategy, Priority};
use crate::dag::count_val;
use crate::neural_error::NeuralMeshError;
use vstd::math::min;
use std::collections::VecDeque;

verus! {

/// Coordination strategies.
#[derive(Debug, Clone, Copy, PartialEq, Eq, Structural)]
pub enum CoordinationStrategy {
    /// Adaptive strategy based on task type and agent performance.
    Adaptive,
    /// Simple round-robin assignment.
    RoundRobin,
    /// Load-balanced assignment.
    LoadBalanced,
    /// Capability-based assignment.
    CapabilityBased,
    /// Consensus-based processing.
    Consensus { min_agents: usize },
}

/// Agent status.
#[derive(Debug, Clone, Copy, PartialEq, Eq, Structural)]
pub enum AgentStatus {
    Available,
    Busy,
    Offline,
}

/// What the coordinator knows of an agent for selection.
#[derive(Debug)]
pub struct AgentInfo {
    pub id: u128,
    pub capabilities: Vec<String>,
    pub task_count: usize,
    pub status: AgentStatus,
}

/// The assignment strategy recorded for tasks under a coordination strategy.
pub fn get_assignment_strategy(strategy: CoordinationStrategy) -> (a: AssignmentStrategy)
    ensures
        a == match strategy {
            CoordinationStrategy::RoundRobin => AssignmentStrategy::RoundRobin,
            CoordinationStrategy::CapabilityBased => AssignmentStrategy::CapabilityBased,
            _ => AssignmentStrategy::LoadBalanced,
        },
{
    match strategy {
        CoordinationStrategy::RoundRobin => AssignmentStrategy::RoundRobin,
        CoordinationStrategy::LoadBalanced => AssignmentStrategy::LoadBalanced,
        CoordinationStrategy::CapabilityBased => AssignmentStrategy::CapabilityBased,
        _ => AssignmentStrategy::LoadBalanced,
    }
}

/// How many of the best-scored candidates the adaptive strategy takes.
pub fn adaptive_selection_size(priority: Priority, candidates: usize) -> (n: usize)
    ensures
        n == min(
            candidates as int,
            match priority {
                Priority::Critical => 5int,
                Priority::High => 3int,
                Priority::Medium => 2int,
                Priority::Low => 1int,
            },
        ),
{
    let cap: usize = match priority {
        Priority::Critical => 5,
        Priority::High => 3,
        Priority::Medium => 2,
        Priority::Low => 1,
    };
    if cap < candidates {
        cap
    } else {
        candidates
    }
}

/// How many of the least-loaded agents the load-balanced strategy takes.
pub fn load_balanced_selection_size(priority: Priority, available: usize) -> (n: usize)
    ensures
        n == match priority {
            Priority::Critical => min(available as int, 3),
            Priority::High => min(available as int, 2),
            _ => 1,
        },
{
    match priority {
        Priority::Critical => if available < 3 {
            available
        } else {
            3
        },
        Priority::High => if available < 2 {
            available
        } else {
            2
        },
        _ => 1,
    }
}

/// Identifiers of the available agents, in order.
pub open spec fn available_ids(agents: Seq<AgentInfo>) -> Seq<u128>
    decreases agents.len(),
{
    if agents.len() == 0 {
        Seq::empty()
    } else {
        let r = available_ids(agents.drop_last());
        if agents.last().status == AgentStatus::Available {
            r.push(agents.last().id)
        } else {
            r
        }
    }
}

/// The identifiers of the available agents, in order.
pub fn available_agents(agents: &Vec<AgentInfo>) -> (r: Vec<u128>)
    ensures
        r@ == available_ids(agents@),
{
    let mut r: Vec<u128> = Vec::new();
    let mut i: usize = 0;
    while i < agents.len()
        invariant
            i <= agents@.len(),
            r@ == available_ids(agents@.subrange(0, i as int)),
        decreases agents@.len() - i,
    {
        assert(agents@.subrange(0, i + 1).drop_last() =~= agents@.subrange(0, i as int));
        if agents[i].status == AgentStatus::Available {
            r.push(agents[i].id);
        }
        i = i + 1;
    }
    assert(agents@.subrange(0, agents@.len() as int) =~= agents@);
    r
}

/// Round-robin selection: the first available agent.
pub fn select_agents_round_robin(agents: &Vec<AgentInfo>) -> (r: Result<Vec<u128>, NeuralMeshError>)
    ensures
        available_ids(agents@).len() == 0 ==> (r matches Err(e) && e is NotFound),
        available_ids(agents@).len() > 0 ==> (r matches Ok(v) && v@ == seq![available_ids(agents@)[0]]),
{
    let available = available_agents(agents);
    if available.len() == 0 {
        return Err(NeuralMeshError::not_found("No available agents"));
    }
    let mut v: Vec<u128> = Vec::new();
    v.push(available[0]);
    assert(v@ =~= seq![available_ids(agents@)[0]]);
    Ok(v)
}

/// Consensus selection: the first `min_agents` available agents, or an
/// error when there are fewer.
pub fn select_agents_consensus(agents: &Vec<AgentInfo>, min_agents: usize) -> (r: Result<
    Vec<u128>,
    NeuralMeshError,
>)
    ensures
        available_ids(agents@).len() < min_agents ==> (r matches Err(e) && e is InvalidInput),
        available_ids(agents@).len() >= min_agents ==> (r matches Ok(v) && v@ == available_ids(agents@).take(
            min_agents as int,
        )),
{
    let available = available_agents(agents);
    if available.len() < min_agents {
        return Err(NeuralMeshError::invalid_input("Not enough agents for consensus"));
    }
    let mut v: Vec<u128> = Vec::new();
    let mut i: usize = 0;
    while i < min_agents
        invariant
            i <= min_agents,
            min_agents <= available@.len(),
            v@ == available@.take(i as int),
        decreases min_agents - i,
    {
        v.push(available[i]);
        i = i + 1;
        assert(v@ =~= available@.take(i as int));
    }
    Ok(v)
}

/// The text of a string list.
pub open spec fn texts(v: Seq<String>) -> Seq<Seq<char>> {
    v.map_values(|s: String| s@)
}

/// Number of the agent's capabilities that are required.
pub open spec fn match_count(caps: Seq<String>, required: Seq<String>) -> nat
    decreases caps.len(),
{
    if caps.len() == 0 {
        0
    } else {
        match_count(caps.drop_last(), required) + if texts(required).contains(caps.last()@) {
            1nat
        } else {
            0nat
        }
    }
}

/// The available agents with at least one required capability, with
/// their match counts, in order.
pub open spec fn matching_agents(agents: Seq<AgentInfo>, required: Seq<String>) -> Seq<(u128, nat)>
    decreases agents.len(),
{
    if agents.len() == 0 {
        Seq::empty()
    } else {
        let r = matching_agents(agents.drop_last(), required);
        let a = agents.last();
        let c = match_count(a.capabilities@, required);
        if a.status == AgentStatus::Available && c > 0 {
            r.push((a.id, c))
        } else {
            r
        }
    }
}

/// Position `a` holds the first highest count among the positions other
/// than `skip`.
pub open spec fn first_best(m: Seq<(u128, nat)>, a: int, skip: int) -> bool {
    &&& 0 <= a < m.len()
    &&& a != skip
    &&& forall|j: int| 0 <= j < m.len() && j != skip ==> m[j].1 <= m[a].1
    &&& forall|j: int| 0 <= j < a && j != skip ==> m[j].1 < m[a].1
}

/// Whether `s` is one of `list`.
pub fn contains_text(list: &Vec<String>, s: &String) -> (b: bool)
    ensures
        b == texts(list@).contains(s@),
{
    let mut i: usize = 0;
    while i < list.len()
        invariant
            i <= list@.len(),
            forall|j: int| 0 <= j < i ==> list@[j]@ != s@,
        decreases list@.len() - i,
    {
        if list[i] == *s {
            assert(texts(list@)[i as int] == s@);
            return true;
        }
        i = i + 1;
    }
    assert(!texts(list@).contains(s@)) by {
        if texts(list@).contains(s@) {
            let k = choose|k: int| 0 <= k < texts(list@).len() && texts(list@)[k] == s@;
            assert(list@[k]@ == s@);
        }
    }
    false
}

fn count_matches(caps: &Vec<String>, required: &Vec<String>) -> (n: usize)
    ensures
        n == match_count(caps@, required@),
{
    let mut n: usize = 0;
    let mut i: usize = 0;
    while i < caps.len()
        invariant
            i <= caps@.len(),
            n == match_count(caps@.subrange(0, i as int), required@),
            n <= i,
        decreases caps@.len() - i,
    {
        assert(caps@.subrange(0, i + 1).drop_last() =~= caps@.subrange(0, i as int));
        if contains_text(required, &caps[i]) {
            n = n + 1;
        }
        i = i + 1;
    }
    assert(caps@.subrange(0, caps@.len() as int) =~= caps@);
    n
}

fn matching_list(agents: &Vec<AgentInfo>, required: &Vec<String>) -> (m: Vec<(u128, usize)>)
    ensures
        m@.len() == matching_agents(agents@, required@).len(),
        forall|k: int|
            0 <= k < m@.len() ==> (#[trigger] m@[k]).0 == matching_agents(agents@, required@)[k].0
                && m@[k].1 == matching_agents(agents@, required@)[k].1,
{
    let mut m: Vec<(u128, usize)> = Vec::new();
    let mut i: usize = 0;
    while i < agents.len()
        invariant
            i <= agents@.len(),
            m@.len() == matching_agents(agents@.subrange(0, i as int), required@).len(),
            forall|k: int|
                0 <= k < m@.len() ==> (#[trigger] m@[k]).0 == matching_agents(
                    agents@.subrange(0, i as int),
                    required@,
                )[k].0 && m@[k].1 == matching_agents(agents@.subrange(0, i as int), required@)[k].1,
        decreases agents@.len() - i,
    {
        assert(agents@.subrange(0, i + 1).drop_last() =~= agents@.subrange(0, i as int));
        let c = count_matches(&agents[i].capabilities, required);
        if agents[i].status == AgentStatus::Available && c > 0 {
            m.push((agents[i].id, c));
        }
        i = i + 1;
    }
    assert(agents@.subrange(0, agents@.len() as int) =~= agents@);
    m
}

/// Position of the first highest count, skipping position `skip`.
fn best_position(m: &Vec<(u128, usize)>, skip: usize) -> (a: usize)
    requires
        m@.len() >= 1,
        skip < m@.len() ==> m@.len() >= 2,
    ensures
        a < m@.len(),
        a != skip,
        forall|j: int| 0 <= j < m@.len() && j != skip ==> m@[j].1 <= m@[a as int].1,
        forall|j: int| 0 <= j < a && j != skip ==> m@[j].1 < m@[a as int].1,
{
    let mut best: usize = if skip == 0 {
        1
    } else {
        0
    };
    let mut i: usize = best + 1;
    while i < m.len()
        invariant
            best < m@.len(),
            best != skip,
            best < i <= m@.len(),
            forall|j: int| 0 <= j < i && j != skip ==> m@[j].1 <= m@[best as int].1,
            forall|j: int| 0 <= j < best && j != skip ==> m@[j].1 < m@[best as int].1,
        decreases m@.len() - i,
    {
        if i != skip && m[i].1 > m[best].1 {
            best = i;
        }
        i = i + 1;
    }
    best
}

/// Capability-based selection: among the available agents with a
/// required capability, the two with most matches (earlier agents first
/// on ties); with none, the first available agent.
pub fn select_agents_capability_based(agents: &Vec<AgentInfo>, required: &Vec<String>) -> (r: Result<
    Vec<u128>,
    NeuralMeshError,
>)
    ensures
        ({
            let m = matching_agents(agents@, required@);
            &&& m.len() == 0 && available_ids(agents@).len() == 0 ==> (r matches Err(e) && e is NotFound)
            &&& m.len() == 0 && available_ids(agents@).len() > 0 ==> (r matches Ok(v) && v@ == seq![
                available_ids(agents@)[0],
            ])
            &&& m.len() > 0 ==> (r matches Ok(v) && v@.len() == min(2, m.len() as int) && exists|a: int|
                #[trigger] first_best(m, a, -1) && v@[0] == m[a].0 && (m.len() >= 2 ==> exists|b: int|
                    #[trigger] first_best(m, b, a) && v@[1] == m[b].0))
        }),
{
    let m = matching_list(agents, required);
    let ghost ms = matching_agents(agents@, required@);
    if m.len() == 0 {
        let available = available_agents(agents);
        if available.len() == 0 {
            return Err(NeuralMeshError::not_found("No available agents"));
        }
        let mut v: Vec<u128> = Vec::new();
        v.push(available[0]);
        assert(v@ =~= seq![available_ids(agents@)[0]]);
        return Ok(v);
    }
    let a = best_position(&m, usize::MAX);
    let mut v: Vec<u128> = Vec::new();
    v.push(m[a].0);
    proof {
        assert(m@[a as int].1 == ms[a as int].1);
        assert forall|j: int| 0 <= j < ms.len() && j != -1 implies ms[j].1 <= ms[a as int].1 by {
            assert(m@[j].1 == ms[j].1);
        }
        assert forall|j: int| 0 <= j < a && j != -1 implies ms[j].1 < ms[a as int].1 by {
            assert(m@[j].1 == ms[j].1);
        }
        assert(first_best(ms, a as int, -1));
    }
    if m.len() >= 2 {
        let b = best_position(&m, a);
        v.push(m[b].0);
        proof {
            assert(m@[b as int].1 == ms[b as int].1);
            assert forall|j: int| 0 <= j < ms.len() && j != a implies ms[j].1 <= ms[b as int].1 by {
                assert(m@[j].1 == ms[j].1);
            }
            assert forall|j: int| 0 <= j < b && j != a implies ms[j].1 < ms[b as int].1 by {
                assert(m@[j].1 == ms[j].1);
            }
            assert(first_best(ms, b as int, a as int));
        }
    }
    Ok(v)
}

/// The capabilities a task asks for: the context keys that start with
/// `capability:`, without that prefix.
pub open spec fn required_from_keys(keys: Seq<Seq<char>>) -> Seq<Seq<char>>
    decreases keys.len(),
{
    if keys.len() == 0 {
        Seq::empty()
    } else {
        let r = required_from_keys(keys.drop_last());
        let k = keys.last();
        if k.len() >= 11 && k.subrange(0, 11) == "capability:"@ {
            r.push(k.subrange(11, k.len() as int))
        } else {
            r
        }
    }
}

/// The capabilities named by a task's context keys.
pub fn required_capabilities(keys: &Vec<String>) -> (r: Vec<String>)
    ensures
        texts(r@) == required_from_keys(texts(keys@)),
{
    let mut r: Vec<String> = Vec::new();
    let mut i: usize = 0;
    proof {
        reveal_strlit("capability:");
    }
    while i < keys.len()
        invariant
            i <= keys@.len(),
            texts(r@) == required_from_keys(texts(keys@.subrange(0, i as int))),
            "capability:"@ == seq!['c', 'a', 'p', 'a', 'b', 'i', 'l', 'i', 't', 'y', ':'],
        decreases keys@.len() - i,
    {
        assert(texts(keys@.subrange(0, i + 1)).drop_last() =~= texts(keys@.subrange(0, i as int)));
        let key = keys[i].as_str();
        let n = key.unicode_len();
        let mut starts = n >= 11;
        let mut j: usize = 0;
        let prefix = "capability:";
        while starts && j < 11
            invariant
                n == key@.len(),
                j <= 11,
                starts ==> n >= 11,
                starts ==> forall|q: int| 0 <= q < j ==> key@[q] == "capability:"@[q],
                !starts ==> !(n >= 11 && key@.subrange(0, 11) == "capability:"@),
                "capability:"@ == seq!['c', 'a', 'p', 'a', 'b', 'i', 'l', 'i', 't', 'y', ':'],
                prefix@ == "capability:"@,
            decreases 11 - j,
        {
            if key.get_char(j) != prefix.get_char(j) {
                starts = false;
                proof {
                    if n >= 11 && key@.subrange(0, 11) == "capability:"@ {
                        assert(key@.subrange(0, 11)[j as int] == key@[j as int]);
                    }
                }
            }
            j = j + 1;
        }
        let ghost kv = key@;
        if starts {
            assert(kv.subrange(0, 11) =~= "capability:"@);
            let rest = key.substring_char(11, n);
            let ghost before = texts(r@);
            r.push(rest.to_owned());
            assert(texts(r@) =~= before.push(kv.subrange(11, kv.len() as int)));
        }
        assert(texts(keys@.subrange(0, i + 1)).last() == kv);
        i = i + 1;
    }
    assert(keys@.subrange(0, keys@.len() as int) =~= keys@);
    r
}

/// Pending tasks in three priority levels: critical and high together,
/// medium, and low.
#[derive(Debug)]
pub struct TaskQueue<T> {
    high_priority: VecDeque<T>,
    medium_priority: VecDeque<T>,
    low_priority: VecDeque<T>,
}

/// The level a priority is queued in: 0 for critical and high, 1 for
/// medium, 2 for low.
pub open spec fn queue_level(p: Priority) -> int {
    match p {
        Priority::Critical | Priority::High => 0,
        Priority::Medium => 1,
        Priority::Low => 2,
    }
}

impl<T> TaskQueue<T> {
    /// The three levels, highest first.
    pub closed spec fn spec_levels(&self) -> (Seq<T>, Seq<T>, Seq<T>) {
        (self.high_priority@, self.medium_priority@, self.low_priority@)
    }

    /// All queued tasks in the order they will be popped.
    pub open spec fn spec_order(&self) -> Seq<T> {
        self.spec_levels().0 + self.spec_levels().1 + self.spec_levels().2
    }

    /// An empty queue.
    pub fn new() -> (q: Self)
        ensures
            q.spec_levels() == (Seq::<T>::empty(), Seq::<T>::empty(), Seq::<T>::empty()),
    {
        TaskQueue { high_priority: VecDeque::new(), medium_priority: VecDeque::new(), low_priority: VecDeque::new() }
    }

    /// Queues a task at the end of its priority's level.
    pub fn push(&mut self, task: T, priority: Priority)
        ensures
            ({
                let (h, m, l) = old(self).spec_levels();
                final(self).spec_levels() == match priority {
                    Priority::Critical | Priority::High => (h.push(task), m, l),
                    Priority::Medium => (h, m.push(task), l),
                    Priority::Low => (h, m, l.push(task)),
                }
            }),
    {
        match priority {
            Priority::Critical | Priority::High => self.high_priority.push_back(task),
            Priority::Medium => self.medium_priority.push_back(task),
            Priority::Low => self.low_priority.push_back(task),
        }
    }

    /// Takes the oldest task of the highest non-empty level.
    pub fn pop(&mut self) -> (r: Option<T>)
        ensures
            old(self).spec_order().len() == 0 ==> r is None && final(self).spec_levels() == old(self).spec_levels(),
            old(self).spec_order().len() > 0 ==> r == Some(old(self).spec_order()[0]) && final(self).spec_order()
                == old(self).spec_order().drop_first(),
            ({
                let (h, m, l) = old(self).spec_levels();
                final(self).spec_levels() == if h.len() > 0 {
                    (h.drop_first(), m, l)
                } else if m.len() > 0 {
                    (h, m.drop_first(), l)
                } else if l.len() > 0 {
                    (h, m, l.drop_first())
                } else {
                    (h, m, l)
                }
            }),
    {
        let ghost (h, m, l) = self.spec_levels();
        match self.high_priority.pop_front() {
            Some(t) => {
                assert(self.spec_order() =~= old(self).spec_order().drop_first());
                return Some(t);
            },
            None => {},
        }
        match self.medium_priority.pop_front() {
            Some(t) => {
                assert(h.len() == 0);
                assert(self.spec_order() =~= old(self).spec_order().drop_first());
                return Some(t);
            },
            None => {},
        }
        match self.low_priority.pop_front() {
            Some(t) => {
                assert(self.spec_order() =~= old(self).spec_order().drop_first());
                Some(t)
            },
            None => {
                assert(old(self).spec_order() =~= Seq::<T>::empty());
                None
            },
        }
    }

    /// Number of queued tasks.
    pub fn len(&self) -> (n: usize)
        requires
            self.spec_order().len() <= usize::MAX,
        ensures
            n == self.spec_order().len(),
    {
        self.high_priority.len() + self.medium_priority.len() + self.low_priority.len()
    }
}

/// Tasks come out highest level first, and in arrival order within a
/// level: a task queued at a strictly higher level than another queued
/// task is popped first.
pub proof fn lemma_queue_pop_order<T>(q: TaskQueue<T>, task: T, p: Priority)
    ensures
        ({
            let (h, m, l) = q.spec_levels();
            let order_after = match p {
                Priority::Critical | Priority::High => h.push(task) + m + l,
                Priority::Medium => h + m.push(task) + l,
                Priority::Low => h + m + l.push(task),
            };
            &&& order_after.len() == q.spec_order().len() + 1
            &&& queue_level(p) == 0 ==> order_after[h.len() as int] == task
            &&& queue_level(p) == 2 ==> order_after.last() == task
        }),
{
}

/// Agent identifiers are listed once each.
pub open spec fn agent_ids_unique(agents: Seq<AgentInfo>) -> bool {
    forall|i: int, j: int| 0 <= i < j < agents.len() ==> agents[i].id != agents[j].id
}

/// `agent` charged with the `n` tasks just assigned to it.
pub open spec fn charged(agent: AgentInfo, n: nat) -> AgentInfo {
    AgentInfo { task_count: (agent.task_count + n) as usize, ..agent }
}

proof fn lemma_count_prefix(s: Seq<u128>, k: int, x: u128)
    requires
        0 <= k <= s.len(),
    ensures
        count_val(s.subrange(0, k), x) <= count_val(s, x),
    decreases s.len() - k,
{
    if k < s.len() {
        lemma_count_prefix(s, k + 1, x);
        assert(s.subrange(0, k + 1).drop_last() =~= s.subrange(0, k));
    } else {
        assert(s.subrange(0, k) =~= s);
    }
}

/// Position of the agent identified by `id`, if any.
fn find_agent(agents: &Vec<AgentInfo>, id: u128) -> (r: Option<usize>)
    ensures
        match r {
            Some(j) => j < agents@.len() && agents@[j as int].id == id,
            None => forall|t: int| 0 <= t < agents@.len() ==> agents@[t].id != id,
        },
{
    let mut j: usize = 0;
    while j < agents.len()
        invariant
            j <= agents@.len(),
            forall|t: int| 0 <= t < j ==> agents@[t].id != id,
        decreases agents@.len() - j,
    {
        if agents[j].id == id {
            return Some(j);
        }
        j = j + 1;
    }
    None
}

/// Charges each selected agent with one more task per time it was
/// selected; identifiers that name no agent are passed over.
pub fn charge_agents(agents: &mut Vec<AgentInfo>, selected: &Vec<u128>)
    requires
        agent_ids_unique(old(agents)@),
        forall|i: int|
            0 <= i < old(agents)@.len() ==> (#[trigger] old(agents)@[i]).task_count + count_val(selected@, old(agents)@[i].id)
                <= usize::MAX,
    ensures
        final(agents)@.len() == old(agents)@.len(),
        forall|i: int|
            0 <= i < old(agents)@.len() ==> (#[trigger] final(agents)@[i]) == charged(
                old(agents)@[i],
                count_val(selected@, old(agents)@[i].id),
            ),
{
    let ghost before = agents@;
    let mut k: usize = 0;
    while k < selected.len()
        invariant
            k <= selected@.len(),
            agents@.len() == before.len(),
            agent_ids_unique(before),
            forall|i: int|
                0 <= i < before.len() ==> (#[trigger] before[i]).task_count + count_val(selected@, before[i].id)
                    <= usize::MAX,
            forall|i: int|
                0 <= i < before.len() ==> (#[trigger] agents@[i]) == charged(
                    before[i],
                    count_val(selected@.subrange(0, k as int), before[i].id),
                ),
        decreases selected@.len() - k,
    {
        let id = selected[k];
        let ghost cur = agents@;
        proof {
            assert(selected@.subrange(0, k + 1).drop_last() =~= selected@.subrange(0, k as int));
            assert(selected@.subrange(0, k + 1).last() == id);
        }
        let pos = find_agent(agents, id);
        if let Some(j) = pos {
            proof {
                assert(cur[j as int].id == before[j as int].id);
                lemma_count_prefix(selected@, k + 1, id);
                assert(count_val(selected@.subrange(0, k + 1), id) == count_val(selected@.subrange(0, k as int), id) + 1);
            }
            proof {
                assert(before[j as int].task_count + count_val(selected@, before[j as int].id) <= usize::MAX);
                assert(cur[j as int] == charged(before[j as int], count_val(selected@.subrange(0, k as int), id)));
                assert(cur[j as int].task_count == before[j as int].task_count + count_val(
                    selected@.subrange(0, k as int),
                    id,
                ));
            }
            let mut a = agents.remove(j);
            a.task_count = a.task_count + 1;
            let ghost updated = a;
            agents.insert(j, a);
            proof {
                assert(agents@ =~= cur.update(j as int, updated));
                assert(updated == charged(before[j as int], count_val(selected@.subrange(0, k + 1), id)));
                assert forall|i: int| 0 <= i < before.len() implies (#[trigger] agents@[i]) == charged(
                    before[i],
                    count_val(selected@.subrange(0, k + 1), before[i].id),
                ) by {
                    if i != j {
                        assert(agents@[i] == cur[i]);
                        assert(before[i].id != before[j as int].id);
                    }
                }
            }
        } else {
            proof {
                assert forall|i: int| 0 <= i < before.len() implies (#[trigger] agents@[i]) == charged(
                    before[i],
                    count_val(selected@.subrange(0, k + 1), before[i].id),
                ) by {
                    assert(cur[i].id == before[i].id);
                }
            }
        }
        k = k + 1;
    }
    assert(selected@.subrange(0, selected@.len() as int) =~= selected@);
}

/// A required capability is matched by text, wherever it stands in the
/// list of required capabilities: an agent's match count is the number of
/// its capabilities (counted at each position) equal to some required one.
pub proof fn lemma_match_count_counts_required(caps: Seq<String>, required: Seq<String>)
    ensures
        match_count(caps, required) == caps.filter(
            |c: String| exists|j: int| 0 <= j < required.len() && (#[trigger] required[j])@ == c@,
        ).len(),
        match_count(caps, required) > 0 <==> exists|i: int, j: int|
            0 <= i < caps.len() && 0 <= j < required.len() && (#[trigger] caps[i])@ == (#[trigger] required[j])@,
    decreases caps.len(),
{
    reveal(Seq::filter);
    let pred = |c: String| exists|j: int| 0 <= j < required.len() && (#[trigger] required[j])@ == c@;
    if caps.len() > 0 {
        let init = caps.drop_last();
        lemma_match_count_counts_required(init, required);
        let last = caps.last();
        assert(texts(required).contains(last@) <==> pred(last)) by {
            if texts(required).contains(last@) {
                let j = choose|j: int| 0 <= j < texts(required).len() && texts(required)[j] == last@;
                assert(required[j]@ == last@);
            }
            if pred(last) {
                let j = choose|j: int| 0 <= j < required.len() && (#[trigger] required[j])@ == last@;
                assert(texts(required)[j] == last@);
            }
        }
        assert((exists|i: int, j: int|
            0 <= i < caps.len() && 0 <= j < required.len() && (#[trigger] caps[i])@ == (#[trigger] required[j])@)
            <==> ((exists|i: int, j: int|
            0 <= i < init.len() && 0 <= j < required.len() && (#[trigger] init[i])@ == (#[trigger] required[j])@)
            || pred(last))) by {
            if exists|i: int, j: int|
                0 <= i < caps.len() && 0 <= j < required.len() && (#[trigger] caps[i])@ == (#[trigger] required[j])@ {
                let (i, j) = choose|i: int, j: int|
                    0 <= i < caps.len() && 0 <= j < required.len() && (#[trigger] caps[i])@ == (#[trigger] required[j])@;
                if i < init.len() {
                    assert(init[i] == caps[i]);
                } else {
                    assert(required[j]@ == last@);
                }
            }
            if exists|i: int, j: int|
                0 <= i < init.len() && 0 <= j < required.len() && (#[trigger] init[i])@ == (#[trigger] required[j])@ {
                let (i, j) = choose|i: int, j: int|
                    0 <= i < init.len() && 0 <= j < required.len() && (#[trigger] init[i])@ == (#[trigger] required[j])@;
                assert(caps[i] == init[i]);
            }
            if pred(last) {
                let j = choose|j: int| 0 <= j < required.len() && (#[trigger] required[j])@ == last@;
                assert(caps[caps.len() - 1] == last);
            }
        }
    }
}

} // verus!
