use concurrent_index::entry::Entry;
use concurrent_index::lockfree_queue::Queue;

#[test]
fn test_single() {
    let mut q = Queue::new();
    let entry = Entry::new(1, 2);
    q.push(entry);
    let nodes = q.walk_nodes();
    assert_eq!(nodes.len(), q.size() + 1);
}

#[test]
fn queue_is_first_in_first_out() {
    let mut q: Queue<u32> = Queue::default();
    assert!(q.is_empty());
    assert_eq!(q.pop(), None);
    q.push(1);
    q.push(2);
    q.push(3);
    assert_eq!(q.size(), 3);
    assert_eq!(q.pop(), Some(1));
    q.push(4);
    assert_eq!(q.pop(), Some(2));
    assert_eq!(q.pop(), Some(3));
    assert_eq!(q.pop(), Some(4));
    assert_eq!(q.pop(), None);
    assert!(q.is_empty());
}

#[test]
fn entry_holds_its_pair() {
    let e = Entry::new("k", 7);
    assert_eq!(e.key, "k");
    assert_eq!(e.value, 7);
}
