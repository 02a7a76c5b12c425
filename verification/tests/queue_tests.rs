use kernel_ds::queue::{dequeue, enqueue, queue_new, queue_node_remove, queue_remove, Queue};

fn traverse(queue: &Queue) -> Vec<usize> {
    let mut out = Vec::new();
    let mut it = queue.iter();
    while let Some(node) = it.next() {
        out.push(node.value);
    }
    out
}

#[test]
fn empty_queue_has_no_nodes() {
    let q = Queue::empty();
    assert_eq!(q.count, 0);
    assert_eq!(q.head, None);
    assert_eq!(q.tail, None);
    assert_eq!(q.flags, 0);
    assert_eq!(traverse(&q), Vec::<usize>::new());
}

#[test]
fn dequeue_returns_values_in_fifo_order() {
    let mut q = queue_new();
    for v in [10usize, 20, 30, 40] {
        assert!(enqueue(&mut q, v).is_some());
    }
    assert_eq!(q.count, 4);
    assert_eq!(dequeue(&mut q), Some(10));
    assert_eq!(dequeue(&mut q), Some(20));
    assert!(enqueue(&mut q, 50).is_some());
    assert_eq!(dequeue(&mut q), Some(30));
    assert_eq!(dequeue(&mut q), Some(40));
    assert_eq!(dequeue(&mut q), Some(50));
    assert_eq!(dequeue(&mut q), None);
    assert_eq!(q.count, 0);
    assert_eq!(q.head, None);
    assert_eq!(q.tail, None);
}

#[test]
fn node_remove_keeps_linkage() {
    let mut q = queue_new();
    let a = enqueue(&mut q, 1).unwrap();
    let b = enqueue(&mut q, 2).unwrap();
    let c = enqueue(&mut q, 3).unwrap();
    queue_node_remove(&mut q, b);
    assert_eq!(traverse(&q), vec![1, 3]);
    assert_eq!(q.head, Some(a));
    assert_eq!(q.tail, Some(c));
    queue_node_remove(&mut q, c);
    assert_eq!(traverse(&q), vec![1]);
    assert_eq!(q.tail, Some(a));
    queue_node_remove(&mut q, a);
    assert_eq!(traverse(&q), Vec::<usize>::new());
    assert_eq!(q.head, None);
    assert_eq!(q.tail, None);
    assert_eq!(q.count, 0);
    queue_remove(&mut q, 7);
    assert_eq!(q.count, 0);
}

#[test]
fn default_queue_is_empty() {
    let q = Queue::default();
    assert_eq!(q.count, 0);
    assert_eq!(q.head, None);
    assert_eq!(q.tail, None);
    assert_eq!(q.flags, 0);
}

#[test]
fn enqueue_links_at_the_tail() {
    let mut q = Queue::empty();
    let a = enqueue(&mut q, 100).unwrap();
    assert_eq!(q.head, Some(a));
    assert_eq!(q.tail, Some(a));
    let b = enqueue(&mut q, 200).unwrap();
    let c = enqueue(&mut q, 300).unwrap();
    assert_eq!(q.head, Some(a));
    assert_eq!(q.tail, Some(c));
    assert_eq!(q.count, 3);
    let mut it = q.iter();
    let n = it.next().unwrap();
    assert_eq!((n.value, n.prev, n.next), (100, None, Some(b)));
    let n = it.next().unwrap();
    assert_eq!((n.value, n.prev, n.next), (200, Some(a), Some(c)));
    let n = it.next().unwrap();
    assert_eq!((n.value, n.prev, n.next), (300, Some(b), None));
    assert!(it.next().is_none());
    assert!(it.next().is_none());
    // iterating changes nothing and can be started again
    assert_eq!(traverse(&q), vec![100, 200, 300]);
    assert_eq!(traverse(&q), vec![100, 200, 300]);
}

#[test]
fn remove_by_value_takes_the_first_match_only() {
    let mut q = queue_new();
    for v in [5usize, 7, 5, 9, 7] {
        enqueue(&mut q, v);
    }
    queue_remove(&mut q, 7);
    assert_eq!(traverse(&q), vec![5, 5, 9, 7]);
    queue_remove(&mut q, 5);
    assert_eq!(traverse(&q), vec![5, 9, 7]);
    queue_remove(&mut q, 7);
    assert_eq!(traverse(&q), vec![5, 9]);
    queue_remove(&mut q, 42);
    assert_eq!(traverse(&q), vec![5, 9]);
    assert_eq!(q.count, 2);
    queue_remove(&mut q, 5);
    queue_remove(&mut q, 9);
    assert_eq!(q.count, 0);
    assert_eq!(q.head, None);
    assert_eq!(q.tail, None);
}

#[test]
fn count_is_enqueues_less_removals() {
    let mut q = queue_new();
    let mut handles = Vec::new();
    for v in 0usize..10 {
        handles.push(enqueue(&mut q, v).unwrap());
    }
    assert_eq!(dequeue(&mut q), Some(0));
    queue_remove(&mut q, 4);
    queue_node_remove(&mut q, handles[9]);
    queue_node_remove(&mut q, handles[9]);
    queue_remove(&mut q, 4);
    assert_eq!(q.count, 7);
    assert_eq!(traverse(&q), vec![1, 2, 3, 5, 6, 7, 8]);
    assert_eq!(q.head, Some(handles[1]));
    assert_eq!(q.tail, Some(handles[8]));
}

#[test]
fn stale_handle_changes_nothing() {
    let mut q = queue_new();
    let a = enqueue(&mut q, 1).unwrap();
    queue_node_remove(&mut q, a + 100);
    assert_eq!(traverse(&q), vec![1]);
    assert_eq!(dequeue(&mut q), Some(1));
    queue_node_remove(&mut q, a);
    assert_eq!(q.count, 0);
    let b = enqueue(&mut q, 2).unwrap();
    assert_eq!(q.head, Some(b));
    assert_eq!(traverse(&q), vec![2]);
}

#[test]
fn freed_slots_are_used_again() {
    let mut q = queue_new();
    for round in 0usize..5 {
        for v in 0usize..8 {
            assert!(enqueue(&mut q, round * 10 + v).is_some());
        }
        for v in 0usize..8 {
            assert_eq!(dequeue(&mut q), Some(round * 10 + v));
        }
    }
    assert_eq!(q.nodes.slots.len(), 8);
    assert_eq!(q.count, 0);
}
