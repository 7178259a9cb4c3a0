use rudo_gc::class_alloc::{alloc_small, ClassPages};
use rudo_gc::threads::Tlab;
use rudo_gc::page::PageHeader;
use rudo_gc::sweep::{GcSlot, Page};

fn page(block_size: u32, obj_count: u16, free: &[u16]) -> Page {
    let mut header = PageHeader::new(block_size, obj_count, 1600, 0, 0);
    let slot = GcSlot { weak_count: 0, value_dead: false, next_free: None };
    let mut slots: Vec<GcSlot> = (0..obj_count).map(|_| slot).collect();
    for (k, &s) in free.iter().enumerate() {
        slots[s as usize].next_free = free.get(k + 1).copied();
    }
    header.set_free_list_head(free.first().copied());
    Page { header, slots }
}

#[test]
fn preferred_page_serves_first() {
    let mut pages = vec![page(64, 8, &[2, 5]), page(64, 8, &[1])];
    let mut class = ClassPages { preferred: Some(1), with_free: vec![0, 1], by_class: vec![0, 1] };
    assert_eq!(class.alloc_from_free_list(&mut pages, 64), Some((1, 1)));
    // The preferred page ran out: it is forgotten and leaves the free-slots list.
    assert_eq!(class.preferred, None);
    assert_eq!(class.with_free, vec![0]);
    assert!(pages[1].header.is_allocated(1));
    assert_eq!(class.alloc_from_free_list(&mut pages, 64), Some((0, 2)));
    assert_eq!(class.preferred, Some(0));
    assert_eq!(class.with_free, vec![0]);
    assert_eq!(class.alloc_from_free_list(&mut pages, 64), Some((0, 5)));
    assert_eq!(class.preferred, None);
    assert_eq!(class.with_free, Vec::<usize>::new());
    assert_eq!(class.alloc_from_free_list(&mut pages, 64), None);
}

#[test]
fn free_slots_scan_swaps_in_the_last_entry() {
    let mut pages = vec![page(64, 4, &[]), page(64, 4, &[]), page(64, 4, &[3]), page(64, 4, &[0, 1])];
    let mut class = ClassPages { preferred: None, with_free: vec![0, 1, 3, 2], by_class: vec![0, 1, 2, 3] };
    // Page 0 fails and page 2 (the last entry) takes its place; page 2 serves and runs out.
    assert_eq!(class.alloc_from_free_list(&mut pages, 64), Some((2, 3)));
    assert_eq!(class.with_free, vec![3, 1]);
    assert_eq!(class.preferred, None);
}

#[test]
fn class_pages_are_the_last_resort() {
    let mut pages = vec![page(32, 4, &[1]), page(64, 4, &[2, 3])];
    let mut class = ClassPages { preferred: None, with_free: vec![0], by_class: vec![0, 1] };
    assert_eq!(class.alloc_from_free_list(&mut pages, 64), Some((1, 2)));
    assert_eq!(class.preferred, Some(1));
    assert_eq!(class.with_free, vec![1]);
}

#[test]
fn batch_allocation_takes_several_slots() {
    let mut pages = vec![page(64, 8, &[4, 6, 7])];
    let mut class = ClassPages { preferred: Some(0), with_free: vec![0], by_class: vec![0] };
    let mut out = Vec::new();
    assert!(class.alloc_from_free_list_batch(&mut pages, 64, &mut out, 2));
    assert_eq!(out, vec![(0, 4), (0, 6)]);
    assert_eq!(class.preferred, Some(0));
    assert!(class.alloc_from_free_list_batch(&mut pages, 64, &mut out, 8));
    assert_eq!(out, vec![(0, 4), (0, 6), (0, 7)]);
    assert_eq!(class.preferred, None);
    assert_eq!(class.with_free, Vec::<usize>::new());
    assert!(!class.alloc_from_free_list_batch(&mut pages, 64, &mut out, 8));
}

#[test]
fn empty_batch_drops_the_lists_it_tries() {
    let mut pages = vec![page(64, 8, &[1, 2])];
    let mut class = ClassPages { preferred: Some(0), with_free: vec![0], by_class: vec![0] };
    let mut out = Vec::new();
    assert!(!class.alloc_from_free_list_batch(&mut pages, 64, &mut out, 0));
    assert!(out.is_empty());
    assert_eq!(pages[0].header.free_list_head(), None);
}

#[test]
fn freed_slot_is_the_next_one_handed_out() {
    let mut p = page(64, 8, &[3, 6]);
    assert_eq!(p.try_pop_from_page(64, false), Some((3, false)));
    assert!(!p.header.is_allocated(6));
    assert!(p.free_slot(3));
    assert_eq!(p.try_pop_from_page(64, false), Some((3, false)));
    assert_eq!(p.try_pop_from_page(64, false), Some((6, true)));
    assert_eq!(p.try_pop_from_page(64, false), None);
}

#[test]
fn small_allocation_uses_tlab_then_buffer_then_batch() {
    // Page 0 backs the TLAB; page 1 has a free list of ten slots.
    let tlab_page = page(64, 8, &[]);
    let list: Vec<u16> = (0..10).collect();
    let free_page = page(64, 16, &list);
    let mut pages = vec![tlab_page, free_page];
    let addrs = vec![0x10000usize, 0x20000];
    let mut class = ClassPages { preferred: None, with_free: vec![1], by_class: vec![0, 1] };
    let mut tlab = Tlab { bump_ptr: 0x10000 + 1600 + 6 * 64, bump_end: 0x10000 + 1600 + 8 * 64, current_page: Some(0x10000) };
    let mut buffer: Vec<usize> = Vec::new();
    assert_eq!(alloc_small(&mut class, &mut pages, &addrs, &mut tlab, &mut buffer, 64), Some(0x10000 + 1600 + 6 * 64));
    assert!(pages[0].header.is_allocated(6));
    assert_eq!(alloc_small(&mut class, &mut pages, &addrs, &mut tlab, &mut buffer, 64), Some(0x10000 + 1600 + 7 * 64));
    // The TLAB is used up: a batch of eight comes from page 1.
    assert_eq!(alloc_small(&mut class, &mut pages, &addrs, &mut tlab, &mut buffer, 64), Some(0x20000 + 1600));
    assert_eq!(buffer.len(), 7);
    assert_eq!(buffer[0], 0x20000 + 1600 + 64);
    assert_eq!(class.preferred, Some(1));
    // The buffer serves its last entry next.
    assert_eq!(alloc_small(&mut class, &mut pages, &addrs, &mut tlab, &mut buffer, 64), Some(0x20000 + 1600 + 7 * 64));
    for _ in 0..6 {
        assert!(alloc_small(&mut class, &mut pages, &addrs, &mut tlab, &mut buffer, 64).is_some());
    }
    // Two slots are left on page 1.
    assert_eq!(alloc_small(&mut class, &mut pages, &addrs, &mut tlab, &mut buffer, 64), Some(0x20000 + 1600 + 8 * 64));
    assert_eq!(alloc_small(&mut class, &mut pages, &addrs, &mut tlab, &mut buffer, 64), Some(0x20000 + 1600 + 9 * 64));
    assert_eq!(alloc_small(&mut class, &mut pages, &addrs, &mut tlab, &mut buffer, 64), None);
}
