use rudo_gc::marker::{create_worker_queues, init_parallel_marking, ParallelMarkConfig, ParallelMarkCoordinator, PerThreadMarkQueue};

#[test]
fn mark_queue_push_pop_steal() {
    let mut q = PerThreadMarkQueue::new_with_index(2);
    assert!(q.is_empty());
    assert!(q.push(0x10));
    assert!(q.push(0x20));
    assert!(q.push_non_null(0x30));
    assert_eq!(q.len(), 3);
    assert_eq!(q.pop(), Some(0x30));
    assert_eq!(q.pop(), Some(0x20));
    assert_eq!(q.steal(), Some(0x10));
    assert_eq!(q.pop(), None);
    assert_eq!(q.worker_idx(), 2);
}

#[test]
fn pending_work_is_received_before_stealing() {
    let mut qs = create_worker_queues(3);
    assert!(qs[2].push(0x300));
    let mut me = PerThreadMarkQueue::new_with_index(0);
    PerThreadMarkQueue::push_remote(&mut me, 0x111);
    PerThreadMarkQueue::push_remote(&mut me, 0x222);
    assert!(me.has_pending_work());
    assert_eq!(me.pending_work_len(), 2);
    assert_eq!(me.work_steal(&mut qs), Some(0x222));
    // Receiving drained the buffer: the other item went to the local queue.
    assert!(!me.has_pending_work());
    assert_eq!(me.pop(), Some(0x111));
    assert_eq!(me.work_steal(&mut qs), Some(0x300));
    assert_eq!(me.work_steal(&mut qs), None);
}

#[test]
fn receiving_pending_work_drains_the_buffer() {
    let mut me = PerThreadMarkQueue::new_with_index(0);
    assert_eq!(me.receive_pending_work(), None);
    PerThreadMarkQueue::push_remote(&mut me, 0x1);
    PerThreadMarkQueue::push_remote(&mut me, 0x2);
    PerThreadMarkQueue::push_remote(&mut me, 0x3);
    assert_eq!(me.receive_pending_work(), Some(0x3));
    assert_eq!(me.pending_work_len(), 0);
    assert!(!me.has_pending_work());
    assert_eq!(me.len(), 2);
    assert_eq!(me.steal(), Some(0x1));
    assert_eq!(me.steal(), Some(0x2));
}

#[test]
fn owned_pages_and_counts() {
    let mut a = PerThreadMarkQueue::new_with_index(0);
    let mut b = PerThreadMarkQueue::new_with_index(1);
    a.add_owned_page(0x1000);
    b.add_owned_page(0x1000);
    assert!(a.has_overlapping_ownership(&b));
    assert_eq!(a.owned_page_count(), 1);
    a.inc_marked_count(5);
    assert_eq!(a.marked_count(), 5);
    PerThreadMarkQueue::push_remote(&mut a, 7);
    assert_eq!(a.drain_pending_work(), vec![7]);
    assert!(!a.has_pending_work());
}

#[test]
fn coordinator_round() {
    let (mut c, qs) = init_parallel_marking(4);
    assert_eq!(c.num_workers(), 4);
    assert!(!c.is_single_threaded());
    c.start_marking(&qs, &vec![1, 2, 3]);
    assert_eq!(c.pages_remaining(), 3);
    assert_eq!(c.distribute_dirty_pages(&vec![9, 9, 9, 9, 9], &qs), vec![0, 1, 2, 3, 0]);
    c.record_marked(10);
    c.record_marked(5);
    assert_eq!(c.total_marked(), 15);
    for _ in 0..4 {
        assert!(!c.is_complete());
        c.worker_completed();
    }
    assert!(c.is_complete());
    let single = ParallelMarkCoordinator::new(0);
    assert!(single.is_single_threaded());
    let config = ParallelMarkConfig::new(1);
    assert!(!config.use_parallel());
    assert_eq!(ParallelMarkCoordinator::with_config(&config).num_workers(), 1);
}
