use rudo_gc::barrier::barrier_page;
use rudo_gc::collect::{GcVisitor, VisitorKind};
use rudo_gc::large::LargeObjectMap;
use rudo_gc::page::PageHeader;

#[test]
fn snapshot_roots_are_queued_even_when_already_marked() {
    let mut h = PageHeader::new(64, 8, 1600, 0, 0);
    h.set_allocated(2);
    let mut v = GcVisitor::new(VisitorKind::Major);
    v.mark_root_for_snapshot(&mut h, Some(2), 0x10680);
    assert!(h.is_marked(2));
    assert_eq!(v.objects_marked(), 1);
    v.mark_root_for_snapshot(&mut h, Some(2), 0x10680);
    assert_eq!(v.objects_marked(), 1);
    assert_eq!(v.worklist, vec![0x10680, 0x10680]);
    v.mark_root_for_snapshot(&mut h, None, 0x10000);
    let mut bogus = PageHeader::new(64, 8, 1600, 0, 0);
    bogus.magic = 7;
    v.mark_root_for_snapshot(&mut bogus, Some(1), 0x20000);
    assert_eq!(v.worklist.len(), 2);
    assert!(!bogus.is_marked(1));
}

#[test]
fn barrier_works_on_the_span_head_of_large_objects() {
    let mut local = LargeObjectMap::new();
    local.register(0x40000, 9000, 1584, 3, 4096);
    assert_eq!(barrier_page(&local, 0x42010, !0xfff), 0x40000);
    assert_eq!(barrier_page(&local, 0x50010, !0xfff), 0x50000);
}
