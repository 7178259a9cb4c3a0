use rudo_gc::incremental::{FallbackReason, IncrementalMarkState};
use rudo_gc::local_heap::{
    clear_local_heap, dedup, final_mark_roots, flush_cross_thread_satb_buffer, heap_end, heap_start, HeapBuffers,
    LocalHeap,
};
use rudo_gc::page::PageHeader;

#[test]
fn dirty_pages_listed_once_and_snapshotted() {
    let mut heap = HeapBuffers::new();
    let mut h = PageHeader::new(64, 8, 1600, 0, 0);
    heap.add_to_dirty_pages(&mut h, 0x1000);
    heap.add_to_dirty_pages(&mut h, 0x1000);
    assert!(h.is_dirty_listed());
    assert_eq!(heap.dirty_pages_count(), 1);
    assert_eq!(heap.take_dirty_pages_snapshot(), 1);
    assert_eq!(heap.dirty_pages_iter(), &vec![0x1000]);
    assert_eq!(heap.dirty_pages_count(), 0);
    heap.clear_dirty_pages_snapshot();
    assert_eq!(heap.dirty_page_history, [1, 16, 16, 16]);
    assert_eq!(heap.avg_dirty_pages, 12);
    assert!(heap.dirty_pages_iter().is_empty());
}

#[test]
fn remembered_buffer_merges_without_repeats() {
    let mut heap = HeapBuffers::new();
    heap.set_remembered_buffer_capacity(3);
    assert_eq!(heap.remembered_buffer_capacity(), 3);
    heap.dirty_pages.push(0x20);
    heap.record_in_remembered_buffer(0x10);
    heap.record_in_remembered_buffer(0x20);
    assert_eq!(heap.dirty_pages_count(), 1);
    heap.record_in_remembered_buffer(0x10);
    assert!(heap.remembered_buffer.is_empty());
    assert_eq!(heap.dirty_pages, vec![0x20, 0x10]);
    heap.record_in_remembered_buffer(0x30);
    heap.clear_remembered_buffer();
    heap.flush_remembered_buffer();
    assert_eq!(heap.dirty_pages, vec![0x20, 0x10]);
    assert_eq!(dedup(&vec![3, 1, 3, 2, 1]), vec![3, 1, 2]);
}

#[test]
fn satb_buffer_overflow_requests_fallback() {
    let mut heap = HeapBuffers::new();
    heap.satb_buffer_capacity = 3;
    let mut cross: Vec<usize> = Vec::new();
    let mut st = IncrementalMarkState::new();
    assert!(heap.record_satb_old_value(0x100, 1, 2, &mut cross, &mut st));
    assert_eq!(cross, vec![0x100]);
    assert!(heap.record_satb_old_value(0x200, 1, 1, &mut cross, &mut st));
    assert!(heap.record_satb_old_value(0x300, 1, 0, &mut cross, &mut st));
    assert!(!st.fallback_requested());
    assert!(!heap.record_satb_old_value(0x400, 1, 1, &mut cross, &mut st));
    assert!(st.fallback_requested());
    assert_eq!(st.stats().fallback_reason(), FallbackReason::SatbBufferOverflow);
    assert!(heap.satb_old_values.is_empty());
    assert!(heap.record_satb_old_value(0x500, 1, 1, &mut cross, &mut st));
    assert_eq!(final_mark_roots(&mut heap), vec![0x200, 0x300, 0x400, 0x500]);
    cross.push(0);
    assert_eq!(flush_cross_thread_satb_buffer(&mut cross), vec![0x100]);
    assert!(cross.is_empty());
}

#[test]
fn address_range_tracking() {
    let mut heap = HeapBuffers::new();
    assert!(!heap.is_in_range(0x1000));
    heap.update_range(0x2000, 0x1000);
    heap.update_range(0x1000, 0x100);
    assert!(heap.is_in_range(0x1000));
    assert!(heap.is_in_range(0x2fff));
    assert!(!heap.is_in_range(0x3000));
    heap.clear_satb_buffer();
    assert!(heap.flush_satb_buffer().is_empty());
    assert!(heap.flush_satb_overflow_buffer().is_empty());
}

#[test]
fn heap_counts_bytes_per_generation() {
    let mut heap = LocalHeap::new();
    assert_eq!(heap.total_allocated(), 0);
    heap.update_allocated_bytes(300, 1200);
    assert_eq!(heap.young_allocated(), 300);
    assert_eq!(heap.old_allocated(), 1200);
    assert_eq!(heap.total_allocated(), 1500);
    assert!(heap.all_pages().is_empty());
    assert!(heap.large_object_pages().is_empty());
    assert_eq!(heap.try_adopt_orphan_page(64), None);
    assert_eq!(heap_start(&heap), usize::MAX);
    assert_eq!(heap_end(&heap), 0);
    heap.buffers.update_range(0x10000, 0x2000);
    heap.buffers.update_range(0x8000, 0x1000);
    assert_eq!(heap_start(&heap), 0x8000);
    assert_eq!(heap_end(&heap), 0x12000);
    heap.small_pages.insert(0x8000);
    heap.buffers.dirty_pages.push(0x8000);
    clear_local_heap(&mut heap);
    assert!(heap.small_pages.is_empty());
    assert!(heap.buffers.dirty_pages.is_empty());
    assert_eq!(heap.total_allocated(), 0);
    assert_eq!(heap_start(&heap), usize::MAX);
    assert_eq!(heap_end(&heap), 0);
}
