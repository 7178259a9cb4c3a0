use std::collections::HashSet;

use rudo_gc::large::{large_object_layout, new_large_header, LargeObjectMap};
use rudo_gc::local_heap::{HeapBuffers, LocalHeap};
use rudo_gc::lookup::{free_object_at, find_gc_box_in, find_gc_box_in_orphans, Dealloc, OrphanEntry, OrphanPage, PageAt};
use rudo_gc::page::PageHeader;
use rudo_gc::sweep::{GcSlot, Page};

const MASK: usize = !0xfff;

fn small_page(obj_count: u16, block_size: u32) -> Page {
    let header = PageHeader::new(block_size, obj_count, PageHeader::header_size(block_size as usize) as u16, 0, 0);
    let slot = GcSlot { weak_count: 0, value_dead: false, next_free: None };
    let slots = (0..obj_count).map(|_| slot).collect();
    Page { header, slots }
}

#[test]
fn small_page_interior_pointers_resolve_to_object_start() {
    let mut page = small_page(10, 64);
    page.header.set_allocated(2);
    let pages = vec![PageAt { addr: 0x10000, page }];
    let mut small = HashSet::new();
    small.insert(0x10000usize);
    let mut buffers = HeapBuffers::new();
    buffers.update_range(0x10000, 0x1000);
    let local = LargeObjectMap::new();
    let global = LargeObjectMap::new();
    let orphans: Vec<OrphanEntry> = Vec::new();
    let hs = PageHeader::header_size(64);
    assert_eq!(hs, 1600);
    let start = 0x10000 + hs + 2 * 64;
    for off in [0usize, 1, 17, 63] {
        assert_eq!(find_gc_box_in(&buffers, &local, &small, &pages, &global, &orphans, start + off, MASK), Some(start));
    }
    // Unallocated slot, header area, past the last object, outside the heap.
    assert_eq!(find_gc_box_in(&buffers, &local, &small, &pages, &global, &orphans, start + 64, MASK), None);
    assert_eq!(find_gc_box_in(&buffers, &local, &small, &pages, &global, &orphans, 0x10000 + 8, MASK), None);
    assert_eq!(find_gc_box_in(&buffers, &local, &small, &pages, &global, &orphans, 0x10000 + hs + 10 * 64, MASK), None);
    assert_eq!(find_gc_box_in(&buffers, &local, &small, &pages, &global, &orphans, 0x20000, MASK), None);
}

#[test]
fn large_span_pointers_resolve_to_object() {
    let l = large_object_layout(9000, 8, 4096);
    let header = new_large_header(9000, l.header_size, 0);
    let slot = GcSlot { weak_count: 0, value_dead: false, next_free: None };
    let pages = vec![PageAt { addr: 0x40000, page: Page { header, slots: vec![slot] } }];
    let mut local = LargeObjectMap::new();
    local.register(0x40000, 9000, l.header_size, l.pages_needed, 4096);
    let small = HashSet::new();
    let mut buffers = HeapBuffers::new();
    buffers.update_range(0x40000, l.alloc_size);
    let global = LargeObjectMap::new();
    let orphans: Vec<OrphanEntry> = Vec::new();
    let obj = 0x40000 + l.header_size;
    assert_eq!(find_gc_box_in(&buffers, &local, &small, &pages, &global, &orphans, obj, MASK), Some(obj));
    assert_eq!(find_gc_box_in(&buffers, &local, &small, &pages, &global, &orphans, 0x42000 + 5, MASK), Some(obj));
    assert_eq!(find_gc_box_in(&buffers, &local, &small, &pages, &global, &orphans, obj + 9000, MASK), None);
    assert_eq!(find_gc_box_in(&buffers, &local, &small, &pages, &global, &orphans, 0x40010, MASK), None);
}

#[test]
fn orphan_pages_answer_for_foreign_addresses() {
    let mut page = small_page(4, 128);
    page.header.set_allocated(1);
    let orphans = vec![OrphanEntry {
        info: OrphanPage { addr: 0x50000, size: 4096, is_large: false, original_owner: 3 },
        page,
    }];
    let mut global = LargeObjectMap::new();
    global.register(0x60000, 5000, 1584, 2, 4096);
    let hs = PageHeader::header_size(128);
    let obj = 0x50000 + hs + 128;
    assert_eq!(find_gc_box_in_orphans(&global, &orphans, obj + 100, MASK), Some(obj));
    assert_eq!(find_gc_box_in_orphans(&global, &orphans, obj + 128, MASK), None);
    assert_eq!(find_gc_box_in_orphans(&global, &orphans, 0x61000, MASK), Some(0x60000 + 1584));
    assert_eq!(find_gc_box_in_orphans(&global, &orphans, 0x60000 + 1584 + 5000, MASK), None);
    assert_eq!(find_gc_box_in_orphans(&global, &orphans, 0x100, MASK), None);
    // Heap lookups outside the heap range fall back to the orphans.
    let buffers = HeapBuffers::new();
    let local = LargeObjectMap::new();
    let small = HashSet::new();
    let pages: Vec<PageAt> = Vec::new();
    assert_eq!(find_gc_box_in(&buffers, &local, &small, &pages, &global, &orphans, obj + 1, MASK), Some(obj));
}

#[test]
fn dealloc_frees_small_slot_or_large_span() {
    let mut page = small_page(10, 64);
    page.header.set_allocated(3);
    page.header.set_allocated(4);
    let hs = PageHeader::header_size(64);
    let l = large_object_layout(9000, 8, 4096);
    let header = new_large_header(9000, l.header_size, 0);
    let slot = GcSlot { weak_count: 0, value_dead: false, next_free: None };
    let mut heap = LocalHeap::new();
    heap.pages.push(PageAt { addr: 0x10000, page });
    heap.pages.push(PageAt { addr: 0x40000, page: Page { header, slots: vec![slot] } });
    heap.small_pages.insert(0x10000usize);
    heap.large_object_map.register(0x40000, 9000, l.header_size, l.pages_needed, 4096);
    let mut global = LargeObjectMap::new();
    global.register(0x40000, 9000, l.header_size, l.pages_needed, 4096);
    assert_eq!(heap.large_object_pages(), vec![0x40000]);

    let obj = 0x10000 + hs + 3 * 64;
    assert_eq!(heap.dealloc(&mut global, obj, 4096), Dealloc::Small { must_drop: true });
    assert!(!heap.pages[0].page.header.is_allocated(3));
    assert!(heap.pages[0].page.header.is_allocated(4));
    assert_eq!(heap.pages[0].page.header.free_list_head(), Some(3));

    let big = 0x40000 + l.header_size;
    assert_eq!(heap.dealloc(&mut global, big, 4096), Dealloc::Large { header_addr: 0x40000, bytes: l.alloc_size });
    assert_eq!(heap.large_object_map.len(), 0);
    assert_eq!(global.len(), 0);
    assert_eq!(heap.dealloc(&mut global, 0x90000, 4096), Dealloc::Untouched);

    // The same outcome straight from the page list, small set and maps.
    let mut pages = vec![PageAt { addr: 0x10000, page: small_page(10, 64) }];
    pages[0].page.header.set_allocated(0);
    let mut small = HashSet::new();
    small.insert(0x10000usize);
    let mut local = LargeObjectMap::new();
    let mut global = LargeObjectMap::new();
    assert_eq!(
        free_object_at(&mut pages, &small, &mut local, &mut global, 0x10000 + hs, 4096),
        Dealloc::Small { must_drop: true }
    );
    assert!(!pages[0].page.header.is_allocated(0));
}
