use rudo_gc::barrier::{
    cell_incremental_write_barrier, incremental_write_barrier, is_gc_heap_pointer, simple_write_barrier,
    thread_affinity_ok,
};
use rudo_gc::local_heap::HeapBuffers;
use rudo_gc::page::{PageHeader, MAGIC_GC_PAGE};

fn old_page() -> PageHeader {
    let mut h = PageHeader::new(64, 8, 1600, 0, 0);
    h.generation = 1;
    h
}

#[test]
fn generational_barrier_dirties_old_objects_once() {
    let page = 0x100000usize;
    let mut h = old_page();
    let mut heap = HeapBuffers::new();
    simple_write_barrier(page + 1600 + 130, 0, usize::MAX, &mut h, page, &mut heap);
    assert!(h.is_dirty(2));
    assert!(h.is_dirty_listed());
    assert_eq!(heap.dirty_pages, vec![page]);
    simple_write_barrier(page + 1600 + 10, 0, usize::MAX, &mut h, page, &mut heap);
    assert!(h.is_dirty(0));
    assert_eq!(heap.dirty_pages, vec![page]);
}

#[test]
fn generational_barrier_ignores_young_header_and_outside() {
    let page = 0x100000usize;
    let mut young = PageHeader::new(64, 8, 1600, 0, 0);
    let mut heap = HeapBuffers::new();
    simple_write_barrier(page + 1700, 0, usize::MAX, &mut young, page, &mut heap);
    assert!(!young.is_dirty(1));
    let mut h = old_page();
    simple_write_barrier(page + 10, 0, usize::MAX, &mut h, page, &mut heap);
    simple_write_barrier(page + 1600 + 64 * 8, 0, usize::MAX, &mut h, page, &mut heap);
    simple_write_barrier(0, 0, usize::MAX, &mut h, page, &mut heap);
    simple_write_barrier(page + 1700, 0, page, &mut h, page, &mut heap);
    assert!(heap.dirty_pages.is_empty());
    let mut bogus = old_page();
    bogus.magic = MAGIC_GC_PAGE ^ 1;
    simple_write_barrier(page + 1700, 0, usize::MAX, &mut bogus, page, &mut heap);
    assert!(heap.dirty_pages.is_empty());
}

#[test]
fn incremental_barriers_record_old_pages() {
    let page = 0x200000usize;
    let h = old_page();
    let young = PageHeader::new(64, 8, 1600, 0, 0);
    let mut heap = HeapBuffers::new();
    assert!(incremental_write_barrier(page + 1700, 0, usize::MAX, &h, page, &mut heap));
    assert!(!incremental_write_barrier(page + 1700, 0, usize::MAX, &young, page, &mut heap));
    assert!(!incremental_write_barrier(0, 0, usize::MAX, &h, page, &mut heap));
    assert_eq!(heap.remembered_buffer, vec![page]);
    assert!(!cell_incremental_write_barrier(page + 1700, 0, usize::MAX, &h, page, false, false, &mut heap));
    assert!(!cell_incremental_write_barrier(page + 1700, 0, usize::MAX, &h, page, true, true, &mut heap));
    assert!(cell_incremental_write_barrier(page + 1700, 0, usize::MAX, &h, page, true, false, &mut heap));
    assert_eq!(heap.remembered_buffer, vec![page, page]);
    assert!(is_gc_heap_pointer(page, 0, usize::MAX, &h));
    assert!(!is_gc_heap_pointer(page, page + 1, usize::MAX, &h));
}

#[test]
fn thread_affinity_rules() {
    assert!(thread_affinity_ok(0x10, 0x100, 0x200, 5, 6));
    assert!(thread_affinity_ok(0x150, 0x100, 0x200, 0, 6));
    assert!(thread_affinity_ok(0x150, 0x100, 0x200, 6, 6));
    assert!(!thread_affinity_ok(0x150, 0x100, 0x200, 5, 6));
}
