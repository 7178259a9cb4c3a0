use rudo_gc::collect::{
    classify_dirty_pages, clear_test_roots, collection_metrics, collection_type_for, default_collect_condition,
    dirty_slot_indices, is_collecting, iter_test_roots, notify_created_gc, notify_dropped_gc,
    old_generation_pages, parallel_mark_workers, register_test_root, root_worker_index, CollectInfo,
    CollectorState, GcVisitor, TestRoots, VisitorKind, MAJOR_THRESHOLD,
};
use rudo_gc::marker::ParallelMarkConfig;
use rudo_gc::metrics::CollectionType;
use rudo_gc::page::{PageHeader, MAGIC_GC_PAGE, PAGE_FLAG_ALL_DEAD, PAGE_FLAG_LARGE, PAGE_FLAG_NEEDS_SWEEP};

#[test]
fn gc_test_collect_info() {
    let info = CollectInfo {
        n_gcs_dropped: 5,
        n_gcs_existing: 10,
        heap_size: 1024,
        young_size: 512,
        old_size: 512,
    };

    assert_eq!(info.n_gcs_dropped_since_last_collect(), 5);
    assert_eq!(info.n_gcs_existing(), 10);
    assert_eq!(info.heap_size(), 1024);
    assert_eq!(info.young_size(), 512);
    assert_eq!(info.old_size(), 512);
}

#[test]
fn gc_test_default_collect_condition() {
    let info = CollectInfo {
        n_gcs_dropped: 5,
        n_gcs_existing: 10,
        heap_size: 1024,
        young_size: 0,
        old_size: 1024,
    };
    assert!(!default_collect_condition(&info));

    let info = CollectInfo {
        n_gcs_dropped: 15,
        n_gcs_existing: 10,
        heap_size: 1024,
        young_size: 0,
        old_size: 1024,
    };
    assert!(default_collect_condition(&info));
}

#[test]
fn default_condition_collects_large_young_generation() {
    let info = CollectInfo { n_gcs_dropped: 0, n_gcs_existing: 10, heap_size: 0, young_size: 1024 * 1024 + 1, old_size: 0 };
    assert!(default_collect_condition(&info));
    let info = CollectInfo { n_gcs_dropped: 0, n_gcs_existing: 10, heap_size: 0, young_size: 1024 * 1024, old_size: 0 };
    assert!(!default_collect_condition(&info));
}

#[test]
fn collector_state_counts_and_reports() {
    let mut st = CollectorState::new();
    notify_created_gc(&mut st);
    notify_created_gc(&mut st);
    assert_eq!(st.n_existing, 2);
    let info = notify_dropped_gc(&mut st, Some((100, 60, 40))).unwrap();
    assert_eq!(info.n_gcs_dropped, 1);
    assert_eq!(info.n_gcs_existing, 2);
    assert_eq!(info.heap_size, 100);
    assert_eq!(info.young_size, 60);
    assert_eq!(info.old_size, 40);
    assert!(notify_dropped_gc(&mut st, None).is_none());
    assert_eq!(st.n_drops, 2);
    assert!(st.begin_collection());
    assert!(is_collecting(&st));
    assert_eq!(st.n_drops, 0);
    assert!(!st.begin_collection());
    assert!(notify_dropped_gc(&mut st, Some((1, 1, 0))).is_none());
    st.end_collection();
    assert!(!is_collecting(&st));
}

#[test]
fn collection_kind_and_metrics() {
    assert_eq!(collection_type_for(MAJOR_THRESHOLD), CollectionType::Minor);
    assert_eq!(collection_type_for(MAJOR_THRESHOLD + 1), CollectionType::Major);
    let m = collection_metrics(500, 4096, 1024, 3, 7, CollectionType::Major);
    assert_eq!(m.bytes_reclaimed, 3072);
    assert_eq!(m.bytes_surviving, 1024);
    assert_eq!(m.duration, 500);
    assert_eq!(m.objects_surviving, 7);
    let grew = collection_metrics(1, 10, 20, 0, 0, CollectionType::Minor);
    assert_eq!(grew.bytes_reclaimed, 0);
}

#[test]
fn test_roots_register_and_clear() {
    let mut roots = TestRoots::new();
    register_test_root(&mut roots, 0x10);
    register_test_root(&mut roots, 0x20);
    assert_eq!(iter_test_roots(&roots), &vec![0x10, 0x20]);
    clear_test_roots(&mut roots);
    assert!(iter_test_roots(&roots).is_empty());
}

fn header(generation: u8, flags: u8) -> PageHeader {
    let mut h = PageHeader::new(64, 32, 1600, flags, 0);
    h.generation = generation;
    h
}

#[test]
fn visitor_marks_each_object_once() {
    let mut h = header(0, 0);
    let mut v = GcVisitor::new(VisitorKind::Minor);
    v.visit(&mut h, Some(3), 0x1000);
    v.visit(&mut h, Some(3), 0x1000);
    v.visit(&mut h, None, 0x2000);
    v.visit(&mut h, Some(4), 0);
    assert_eq!(v.objects_marked(), 1);
    assert_eq!(v.worklist, vec![0x1000]);
    assert!(h.is_marked(3));
    assert!(!h.is_marked(4));
    let mut old = header(1, 0);
    v.visit(&mut old, Some(1), 0x3000);
    assert_eq!(v.objects_marked(), 1);
    let mut major = GcVisitor::new(VisitorKind::Major);
    major.visit(&mut old, Some(1), 0x3000);
    assert_eq!(major.objects_marked(), 1);
    let mut bogus = header(0, 0);
    bogus.magic = MAGIC_GC_PAGE ^ 1;
    major.visit(&mut bogus, Some(0), 0x4000);
    assert_eq!(major.objects_marked(), 1);
}

#[test]
fn prepare_lazy_sweep_small_page() {
    let mut h = header(1, 0);
    h.set_allocated(0);
    h.set_allocated(1);
    h.set_allocated(2);
    h.set_mark(1);
    assert!(!h.prepare_lazy_sweep());
    assert_eq!(h.dead_count(), 2);
    assert!(h.needs_sweep());
    assert!(!h.all_dead());
    assert!(!h.is_marked(1));

    let mut all = header(1, 0);
    all.set_allocated(5);
    assert!(!all.prepare_lazy_sweep());
    assert!(all.all_dead());
    assert_eq!(all.flags() & PAGE_FLAG_NEEDS_SWEEP, PAGE_FLAG_NEEDS_SWEEP);

    let mut empty = header(1, 0);
    empty.set_mark(7);
    assert!(!empty.prepare_lazy_sweep());
    assert!(!empty.needs_sweep());
    assert!(empty.is_marked(7));
}

#[test]
fn prepare_lazy_sweep_large_page() {
    let mut h = header(1, PAGE_FLAG_LARGE | PAGE_FLAG_ALL_DEAD | PAGE_FLAG_NEEDS_SWEEP);
    h.set_allocated(0);
    h.set_dead_count(3);
    assert!(h.prepare_lazy_sweep());
    assert!(!h.needs_sweep());
    assert!(!h.all_dead());
    assert_eq!(h.dead_count(), 0);
    let mut live = header(1, PAGE_FLAG_LARGE);
    live.set_allocated(0);
    live.set_mark(0);
    assert!(!live.prepare_lazy_sweep());
    assert!(!live.is_marked(0));
}

#[test]
fn marking_workers_and_roots() {
    assert_eq!(root_worker_index(10, 4), 2);
    let mut config = ParallelMarkConfig::new(4);
    config.set_parallel_minor_gc(true);
    config.set_parallel_major_gc(false);
    assert_eq!(parallel_mark_workers(&config, 2, false), Some(2));
    assert_eq!(parallel_mark_workers(&config, 8, false), Some(4));
    assert_eq!(parallel_mark_workers(&config, 8, true), None);
    config.set_max_workers(1);
    assert_eq!(parallel_mark_workers(&config, 8, false), None);
}

#[test]
fn dirty_pages_are_classified() {
    let mut small = header(1, 0);
    small.set_dirty(2);
    small.set_dirty(9);
    assert_eq!(dirty_slot_indices(&small), vec![2, 9]);
    let pages = vec![header(0, 0), small, header(1, PAGE_FLAG_LARGE), header(1, 0)];
    let (large, smalls) = classify_dirty_pages(&pages);
    assert_eq!(large, vec![2]);
    assert_eq!(smalls, vec![1, 3]);
    assert_eq!(old_generation_pages(&pages), vec![1, 2, 3]);
}
