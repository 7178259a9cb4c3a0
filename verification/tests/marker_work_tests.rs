use rudo_gc::collect::VisitorKind;
use rudo_gc::marker::{try_steal_work, PerThreadMarkQueue, MARK_QUEUE_SIZE};
use rudo_gc::page::PageHeader;

#[test]
fn idle_worker_steals_oldest_object_of_first_busy_peer() {
    let mut me = PerThreadMarkQueue::new_with_index(0);
    let mut all = vec![
        PerThreadMarkQueue::new_with_index(0),
        PerThreadMarkQueue::new_with_index(1),
        PerThreadMarkQueue::new_with_index(2),
    ];
    all[0].push(0x100);
    all[2].push(0x300);
    all[2].push(0x308);
    assert!(try_steal_work(&mut me, &mut all));
    assert_eq!(me.pop(), Some(0x300));
    assert_eq!(all[2].len(), 1);
    assert_eq!(all[0].len(), 1);
    let mut empty = vec![PerThreadMarkQueue::new_with_index(0), PerThreadMarkQueue::new_with_index(1)];
    assert!(!try_steal_work(&mut me, &mut empty));
}

#[test]
fn stolen_work_goes_elsewhere_when_thief_is_full() {
    let mut me = PerThreadMarkQueue::new_with_index(0);
    for k in 0..MARK_QUEUE_SIZE {
        assert!(me.push(0x1000 + k));
    }
    let mut all = vec![PerThreadMarkQueue::new_with_index(1)];
    all[0].push(0x10);
    all[0].push(0x18);
    assert!(try_steal_work(&mut me, &mut all));
    assert_eq!(me.len(), MARK_QUEUE_SIZE);
    // The robbed queue takes the object back at its local end.
    assert_eq!(all[0].pop(), Some(0x10));
    assert_eq!(all[0].pop(), Some(0x18));
}

#[test]
fn owned_page_objects_are_marked_and_queued() {
    let mut h = PageHeader::new(64, 8, 1600, 0, 0);
    h.set_allocated(1);
    h.set_allocated(3);
    h.set_allocated(5);
    h.set_mark(3);
    let mut q = PerThreadMarkQueue::new_with_index(0);
    assert_eq!(q.process_owned_page(&mut h, 0x10000, VisitorKind::Major), 2);
    assert!(h.is_marked(1) && h.is_marked(3) && h.is_marked(5));
    assert_eq!(q.pop(), Some(0x10000 + 1600 + 5 * 64));
    assert_eq!(q.pop(), Some(0x10000 + 1600 + 64));
    assert_eq!(q.pop(), None);
    // A minor collection leaves old pages alone.
    let mut old = PageHeader::new(64, 8, 1600, 0, 0);
    old.generation = 1;
    old.set_allocated(0);
    assert_eq!(q.process_owned_page(&mut old, 0x20000, VisitorKind::Minor), 0);
    assert!(!old.is_marked(0));
}
