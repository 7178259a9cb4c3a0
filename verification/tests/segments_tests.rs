use std::collections::HashSet;

use rudo_gc::class_alloc::{install_fresh_page, new_small_page, ClassPages};
use rudo_gc::local_heap::HeapBuffers;
use rudo_gc::lookup::{is_gc_pointer, mark_page_dirty_for_ptr, ptr_to_object_index, PageAt};
use rudo_gc::page::{PageHeader, MAGIC_GC_PAGE};
use rudo_gc::segments::{calculate_masked_range, check_stack_conflict, StackWord};
use rudo_gc::size_class::debug_size_class;
use rudo_gc::sweep::{GcSlot, Page};
use rudo_gc::threads::Tlab;

const MASK: usize = 0x5555_5555;

#[test]
fn masked_range_round_trips() {
    let (s, e) = calculate_masked_range(0x10000, 0x1000, MASK);
    assert_eq!(s ^ MASK, 0x10000);
    assert_eq!(e ^ MASK, 0x11000);
}

#[test]
fn stack_conflict_counts_registers_and_frames_above_boundary() {
    let (s, e) = calculate_masked_range(0x10000, 0x1000, MASK);
    let below = StackWord { value: 0x10010, slot_addr: 0x100, is_reg: false };
    assert!(!check_stack_conflict(&vec![below], s, e, MASK, 0x200));
    let reg = StackWord { value: 0x10ff0, slot_addr: 0, is_reg: true };
    assert!(check_stack_conflict(&vec![below, reg], s, e, MASK, 0x200));
    let above = StackWord { value: 0x10000, slot_addr: 0x300, is_reg: false };
    assert!(check_stack_conflict(&vec![above], s, e, MASK, 0x200));
    let outside = StackWord { value: 0x11000, slot_addr: 0x300, is_reg: false };
    assert!(!check_stack_conflict(&vec![outside], s, e, MASK, 0x200));
}

#[test]
fn size_class_names() {
    assert_eq!(debug_size_class(8), (16, "16-byte"));
    assert_eq!(debug_size_class(100), (128, "128-byte"));
    assert_eq!(debug_size_class(2048), (2048, "2048-byte"));
}

#[test]
fn object_index_of_pointers() {
    let h = PageHeader::new(64, 10, 1600, 0, 0);
    assert!(is_gc_pointer(&h));
    assert_eq!(ptr_to_object_index(&h, 0x10000, 0x10000 + 1600 + 130), Some(2));
    assert_eq!(ptr_to_object_index(&h, 0x10000, 0x10000 + 10), None);
    assert_eq!(ptr_to_object_index(&h, 0x10000, 0x10000 + 1600 + 640), None);
    let mut bad = PageHeader::new(64, 10, 1600, 0, 0);
    bad.magic = 0;
    assert!(!is_gc_pointer(&bad));
    assert_eq!(ptr_to_object_index(&bad, 0x10000, 0x10000 + 1600), None);
    assert_eq!(MAGIC_GC_PAGE, 0x5255_4447);
}

#[test]
fn marking_page_dirty_for_pointer() {
    let header = PageHeader::new(64, 4, 1600, 0, 0);
    let slot = GcSlot { weak_count: 0, value_dead: false, next_free: None };
    let mut pages = vec![PageAt { addr: 0x20000, page: Page { header, slots: vec![slot; 4] } }];
    let mut small = HashSet::new();
    small.insert(0x20000usize);
    let mut buffers = HeapBuffers::new();
    mark_page_dirty_for_ptr(&mut buffers, &small, &mut pages, 0, !0xfff);
    mark_page_dirty_for_ptr(&mut buffers, &small, &mut pages, 0x30010, !0xfff);
    assert!(buffers.dirty_pages.is_empty());
    mark_page_dirty_for_ptr(&mut buffers, &small, &mut pages, 0x20010, !0xfff);
    mark_page_dirty_for_ptr(&mut buffers, &small, &mut pages, 0x20ff0, !0xfff);
    assert_eq!(buffers.dirty_pages, vec![0x20000]);
    assert!(pages[0].page.header.is_dirty_listed());
}

#[test]
fn fresh_page_serves_first_object_from_tlab() {
    let p = new_small_page(64, 3, 4096);
    assert_eq!(p.header.obj_count, 39);
    assert_eq!(p.header.header_size, 1600);
    assert_eq!(p.slots.len(), 39);
    let mut pages = Vec::new();
    let mut class = ClassPages { preferred: None, with_free: Vec::new(), by_class: Vec::new() };
    let mut small = HashSet::new();
    let mut tlab = Tlab::new();
    let obj = install_fresh_page(&mut pages, &mut class, &mut small, &mut tlab, 0x40000, 64, 3, 4096);
    assert_eq!(obj, 0x40000 + 1600);
    assert_eq!(class.by_class, vec![0]);
    assert!(small.contains(&0x40000));
    assert!(pages[0].header.is_allocated(0));
    assert!(!pages[0].header.is_allocated(1));
    assert_eq!(tlab.bump_ptr, 0x40000 + 1600 + 64);
    assert_eq!(tlab.bump_end, 0x40000 + 1600 + 39 * 64);
    let next = tlab.bump_alloc(64, &mut pages[0].header);
    assert_eq!(next, Some(0x40000 + 1600 + 64));
    assert!(pages[0].header.is_allocated(1));
}
