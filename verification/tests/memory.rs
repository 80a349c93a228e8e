use synaptic_mesh::memory::{push_recent, record_learning_event, MemoryStore};

#[test]
fn recent_history_keeps_the_newest_entries() {
    let mut h: Vec<u32> = Vec::new();
    for i in 0..5 {
        push_recent(&mut h, i, 3);
    }
    assert_eq!(h, vec![2, 3, 4]);
    let mut none: Vec<u32> = Vec::new();
    push_recent(&mut none, 7, 0);
    assert!(none.is_empty());
}

#[test]
fn learning_history_is_trimmed_by_a_thousand() {
    let mut h: Vec<usize> = (0..10000).collect();
    record_learning_event(&mut h, 10000);
    assert_eq!(h.len(), 9001);
    assert_eq!(h[0], 1000);
    assert_eq!(*h.last().unwrap(), 10000);
    record_learning_event(&mut h, 10001);
    assert_eq!(h.len(), 9002);
}

#[test]
fn memory_store_evicts_the_oldest_when_full() {
    let mut m: MemoryStore<&str, u8> = MemoryStore::new(2);
    m.store(1, "one");
    m.store(2, "two");
    assert_eq!(m.len(), 2);
    m.store(3, "three");
    assert_eq!(m.len(), 2);
    assert_eq!(m.recall(1), None);
    assert_eq!(m.recall(2), Some(&"two"));
    assert_eq!(m.recall(3), Some(&"three"));
    // Storing under a remembered identifier replaces its value; the full
    // store still forgets its oldest memory first.
    m.store(3, "THREE");
    assert_eq!(m.recall(3), Some(&"THREE"));
    assert_eq!(m.recall(2), None);
    assert_eq!(m.len(), 1);
    m.learn(9);
    assert_eq!(m.len(), 1);
}

#[test]
fn memory_store_without_room_keeps_one() {
    let mut m: MemoryStore<u32, u8> = MemoryStore::new(0);
    m.store(1, 10);
    m.store(2, 20);
    assert_eq!(m.len(), 1);
    assert_eq!(m.recall(2), Some(&20));
    assert_eq!(m.recall(1), None);
}
