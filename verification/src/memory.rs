//! Bounded stores: histories that keep their newest entries, and the
//! capacity-limited memory of cognition results with its learned patterns.

use vstd::prelude::*;

verus! {

/// `s` with `x` appended, dropping the oldest entry when that makes more
/// than `max` entries.
pub open spec fn recent_push<T>(s: Seq<T>, x: T, max: nat) -> Seq<T> {
    let t = s.push(x);
    if t.len() > max {
        t.drop_first()
    } else {
        t
    }
}

/// Appends `x` to a history that keeps its newest `max` entries: when the
/// history grows past `max`, its oldest entry goes.
pub fn push_recent<T>(history: &mut Vec<T>, x: T, max: usize)
    ensures
        final(history)@ == recent_push(old(history)@, x, max as nat),
{
    history.push(x);
    if history.len() > max {
        let ghost before = history@;
        history.remove(0);
        assert(history@ =~= before.drop_first());
    }
}

/// Longest learning history kept.
pub const LEARNING_HISTORY_LIMIT: usize = 10000;

/// Entries dropped at once when the learning history overflows.
pub const LEARNING_HISTORY_TRIM: usize = 1000;

/// A learning history after `event`: appended, and when that makes it
/// longer than the limit, its oldest entries are trimmed.
pub open spec fn history_push<T>(s: Seq<T>, event: T) -> Seq<T> {
    let t = s.push(event);
    if t.len() > LEARNING_HISTORY_LIMIT {
        t.subrange(LEARNING_HISTORY_TRIM as int, t.len() as int)
    } else {
        t
    }
}

/// Records a learning event, keeping the history bounded.
pub fn record_learning_event<T>(history: &mut Vec<T>, event: T)
    ensures
        final(history)@ == history_push(old(history)@, event),
{
    history.push(event);
    if history.len() > LEARNING_HISTORY_LIMIT {
        let rest = history.split_off(LEARNING_HISTORY_TRIM);
        *history = rest;
    }
}

/// Identifiers are listed once.
pub open spec fn keys_distinct<R>(s: Seq<(u128, R)>) -> bool {
    forall|i: int, j: int| 0 <= i < j < s.len() ==> s[i].0 != s[j].0
}

/// Some entry of `s` has identifier `id`.
pub open spec fn has_key<R>(s: Seq<(u128, R)>, id: u128) -> bool {
    exists|i: int| 0 <= i < s.len() && #[trigger] s[i].0 == id
}

/// The position of the entry with identifier `id`.
pub open spec fn key_index<R>(s: Seq<(u128, R)>, id: u128) -> int {
    choose|i: int| 0 <= i < s.len() && #[trigger] s[i].0 == id
}

/// `s` with the value of `id` set to `r`: in place when `id` is listed,
/// appended otherwise.
pub open spec fn put<R>(s: Seq<(u128, R)>, id: u128, r: R) -> Seq<(u128, R)> {
    if has_key(s, id) {
        s.update(key_index(s, id), (id, r))
    } else {
        s.push((id, r))
    }
}

/// The memories after storing `r` under `id` with room for `capacity`:
/// a full store first forgets its oldest memory.
pub open spec fn stored_memory<R>(s: Seq<(u128, R)>, capacity: nat, id: u128, r: R) -> Seq<(u128, R)> {
    let room = if s.len() >= capacity && s.len() > 0 {
        s.drop_first()
    } else {
        s
    };
    put(room, id, r)
}

/// Memory of cognition results, by task identifier, holding at most its
/// capacity (at least one), and the patterns it has learned.
#[derive(Debug)]
pub struct MemoryStore<R, P> {
    capacity: usize,
    memories: Vec<(u128, R)>,
    patterns: Vec<P>,
}

impl<R, P> MemoryStore<R, P> {
    /// The memories, oldest first.
    pub closed spec fn spec_memories(&self) -> Seq<(u128, R)> {
        self.memories@
    }

    /// The learned patterns, in order.
    pub closed spec fn spec_patterns(&self) -> Seq<P> {
        self.patterns@
    }

    /// The capacity.
    pub closed spec fn spec_capacity(&self) -> usize {
        self.capacity
    }

    /// Each identifier is remembered once.
    pub closed spec fn wf(&self) -> bool {
        keys_distinct(self.memories@)
    }

    /// An empty store with room for `capacity` memories.
    pub fn new(capacity: usize) -> (m: Self)
        ensures
            m.wf(),
            m.spec_capacity() == capacity,
            m.spec_memories().len() == 0,
            m.spec_patterns().len() == 0,
    {
        MemoryStore { capacity, memories: Vec::new(), patterns: Vec::new() }
    }

    /// Number of memories held.
    pub fn len(&self) -> (n: usize)
        ensures
            n == self.spec_memories().len(),
    {
        self.memories.len()
    }

    fn find(&self, id: u128) -> (r: Option<usize>)
        ensures
            match r {
                Some(i) => i < self.memories@.len() && self.memories@[i as int].0 == id,
                None => !has_key(self.memories@, id),
            },
    {
        let mut i: usize = 0;
        while i < self.memories.len()
            invariant
                i <= self.memories@.len(),
                forall|j: int| 0 <= j < i ==> self.memories@[j].0 != id,
            decreases self.memories@.len() - i,
        {
            if self.memories[i].0 == id {
                return Some(i);
            }
            i = i + 1;
        }
        None
    }

    /// Stores `result` under `id`; a full store first forgets its oldest
    /// memory.  Storing under a remembered identifier replaces its value.
    pub fn store(&mut self, id: u128, result: R)
        requires
            old(self).wf(),
        ensures
            final(self).wf(),
            final(self).spec_memories() == stored_memory(
                old(self).spec_memories(),
                old(self).spec_capacity() as nat,
                id,
                result,
            ),
            final(self).spec_capacity() == old(self).spec_capacity(),
            final(self).spec_patterns() == old(self).spec_patterns(),
    {
        if self.memories.len() >= self.capacity && self.memories.len() > 0 {
            let ghost before = self.memories@;
            self.memories.remove(0);
            assert(self.memories@ =~= before.drop_first());
            assert(keys_distinct(self.memories@)) by {
                assert forall|i: int, j: int| 0 <= i < j < self.memories@.len() implies self.memories@[i].0
                    != self.memories@[j].0 by {
                    assert(self.memories@[i] == before[i + 1] && self.memories@[j] == before[j + 1]);
                }
            }
        }
        let ghost room = self.memories@;
        match self.find(id) {
            Some(i) => {
                proof {
                    let k = key_index(room, id);
                    assert(0 <= k < room.len() && room[k].0 == id);
                    assert(k == i as int);
                }
                self.memories.set(i, (id, result));
                assert(keys_distinct(self.memories@)) by {
                    assert forall|a: int, b: int| 0 <= a < b < self.memories@.len() implies self.memories@[a].0
                        != self.memories@[b].0 by {
                        assert(self.memories@[a].0 == room[a].0 && self.memories@[b].0 == room[b].0);
                    }
                }
            },
            None => {
                self.memories.push((id, result));
                assert(keys_distinct(self.memories@)) by {
                    assert forall|a: int, b: int| 0 <= a < b < self.memories@.len() implies self.memories@[a].0
                        != self.memories@[b].0 by {
                        if b == room.len() {
                            assert(room[a].0 == self.memories@[a].0);
                        } else {
                            assert(self.memories@[a] == room[a] && self.memories@[b] == room[b]);
                        }
                    }
                }
            },
        }
    }

    /// The result remembered under `id`, if any.
    pub fn recall(&self, id: u128) -> (r: Option<&R>)
        requires
            self.wf(),
        ensures
            match r {
                Some(x) => has_key(self.spec_memories(), id) && *x == self.spec_memories()[key_index(
                    self.spec_memories(),
                    id,
                )].1,
                None => !has_key(self.spec_memories(), id),
            },
    {
        match self.find(id) {
            Some(i) => {
                proof {
                    let k = key_index(self.memories@, id);
                    assert(self.memories@[k].0 == id);
                    assert(k == i as int);
                }
                Some(&self.memories[i].1)
            },
            None => None,
        }
    }

    /// Learns a pattern.
    pub fn learn(&mut self, pattern: P)
        ensures
            final(self).spec_patterns() == old(self).spec_patterns().push(pattern),
            final(self).spec_memories() == old(self).spec_memories(),
            final(self).spec_capacity() == old(self).spec_capacity(),
            final(self).wf() == old(self).wf(),
    {
        self.patterns.push(pattern);
    }
}

/// A memory just stored reads back as stored, and a store within its
/// capacity stays within it (a store without room keeps one memory).
pub proof fn lemma_recall_after_store<R>(s: Seq<(u128, R)>, capacity: nat, id: u128, r: R)
    requires
        keys_distinct(s),
    ensures
        has_key(stored_memory(s, capacity, id, r), id),
        stored_memory(s, capacity, id, r)[key_index(stored_memory(s, capacity, id, r), id)].1 == r,
        s.len() <= capacity ==> stored_memory(s, capacity, id, r).len() <= if capacity > 0 { capacity } else { 1 },
{
    let room = if s.len() >= capacity && s.len() > 0 {
        s.drop_first()
    } else {
        s
    };
    assert(keys_distinct(room)) by {
        if s.len() >= capacity && s.len() > 0 {
            assert forall|i: int, j: int| 0 <= i < j < room.len() implies room[i].0 != room[j].0 by {
                assert(room[i] == s[i + 1] && room[j] == s[j + 1]);
            }
        }
    }
    let t = put(room, id, r);
    if has_key(room, id) {
        let k = key_index(room, id);
        assert(t[k].0 == id);
        let k2 = key_index(t, id);
        assert(t[k2].0 == id);
        assert(k2 == k) by {
            if k2 != k {
                assert(room[k2].0 == t[k2].0);
            }
        }
    } else {
        let last = room.len() as int;
        assert(t[last].0 == id);
        let k2 = key_index(t, id);
        assert(k2 == last) by {
            if k2 != last {
                assert(t[k2] == room[k2]);
            }
        }
    }
}

} // verus!
