use dytas::queue_set::QueueSet;

#[test]
fn new_queue_set_has_empty_queues() {
    let mut qs: QueueSet<usize> = QueueSet::new(3);
    assert_eq!(qs.queue_len(0), 0);
    assert_eq!(qs.queue_len(2), 0);
    assert_eq!(qs.get_element(3, 0), None);
}

#[test]
fn add_queues_appends_empty_queues() {
    let mut qs: QueueSet<usize> = QueueSet::new(0);
    assert_eq!(qs.get_element(0, 0), None);
    qs.add_queues(2);
    qs.enqueue(1, 7);
    assert_eq!(qs.queue_len(0), 0);
    assert_eq!(qs.queue_len(1), 1);
    qs.add_queues(1);
    assert_eq!(qs.queue_len(2), 0);
    assert_eq!(qs.get_element(1, 0), Some(&7));
}

#[test]
fn enqueue_appends_at_the_back() {
    let mut qs: QueueSet<usize> = QueueSet::new(2);
    qs.enqueue(0, 10);
    qs.enqueue(0, 11);
    qs.enqueue(1, 20);
    assert_eq!(qs.queue_len(0), 2);
    assert_eq!(qs.get_element(0, 0), Some(&10));
    assert_eq!(qs.get_element(0, 1), Some(&11));
    assert_eq!(qs.get_element(1, 0), Some(&20));
}

#[test]
fn get_element_mut_reads_and_writes_in_place() {
    let mut qs: QueueSet<usize> = QueueSet::new(1);
    qs.enqueue(0, 1);
    qs.enqueue(0, 2);
    if let Some(x) = qs.get_element_mut(0, 1) {
        assert_eq!(*x, 2);
        *x = 42;
    }
    assert_eq!(qs.get_element(0, 1), Some(&42));
    assert_eq!(qs.queue_len(0), 2);
    assert!(qs.get_element_mut(0, 2).is_none());
    assert!(qs.get_element_mut(1, 0).is_none());
}

#[test]
fn remove_element_takes_it_out() {
    let mut qs: QueueSet<usize> = QueueSet::new(1);
    qs.enqueue(0, 1);
    qs.enqueue(0, 2);
    qs.enqueue(0, 3);
    assert_eq!(qs.remove_element(0, 1), Some(2));
    assert_eq!(qs.queue_len(0), 2);
    assert_eq!(qs.get_element(0, 1), Some(&3));
    assert_eq!(qs.remove_element(0, 5), None);
    assert_eq!(qs.remove_element(4, 0), None);
    assert_eq!(qs.queue_len(0), 2);
}

#[test]
fn duplicate_copies_every_queue() {
    let mut qs: QueueSet<usize> = QueueSet::new(2);
    qs.enqueue(0, 3);
    qs.enqueue(0, 4);
    qs.enqueue(1, 5);
    let mut copy = qs.duplicate();
    assert_eq!(copy.num_queues(), 2);
    assert_eq!(copy.get_element(0, 0), Some(&3));
    assert_eq!(copy.get_element(0, 1), Some(&4));
    assert_eq!(copy.get_element(1, 0), Some(&5));
    // The copy is apart from the original.
    copy.remove_element(0, 0);
    assert_eq!(copy.queue_len(0), 1);
    assert_eq!(qs.queue_len(0), 2);
}
