use rudo_gc::large::{new_large_header, LargeObjectMap};
use rudo_gc::lookup::{OrphanEntry, OrphanPage, PageAt};
use rudo_gc::orphan::{orphan_heap_pages, record_orphan, sweep_orphan_pages};
use rudo_gc::page::{PageHeader, PAGE_FLAG_ORPHAN};
use rudo_gc::sweep::{GcSlot, Page};

const PS: usize = 4096;

fn small_page(obj_count: u16, block_size: u32) -> Page {
    let header = PageHeader::new(block_size, obj_count, PageHeader::header_size(block_size as usize) as u16, 0, 0);
    let slot = GcSlot { weak_count: 0, value_dead: false, next_free: None };
    let slots = (0..obj_count).map(|_| slot).collect();
    Page { header, slots }
}

fn large_page(size: usize) -> Page {
    let header = new_large_header(size, 1584, 0);
    Page { header, slots: vec![GcSlot { weak_count: 0, value_dead: false, next_free: None }] }
}

#[test]
fn heap_pages_become_orphans() {
    let mut bogus = small_page(2, 64);
    bogus.header.magic = 0;
    let mut pages = vec![
        PageAt { addr: 0x10000, page: small_page(4, 64) },
        PageAt { addr: 0x20000, page: bogus },
        PageAt { addr: 0x30000, page: large_page(9000) },
    ];
    let mut orphans = Vec::new();
    orphan_heap_pages(&mut pages, &mut orphans, 9, PS);
    assert!(pages.is_empty());
    assert_eq!(orphans.len(), 2);
    assert_eq!(orphans[0].info.addr, 0x10000);
    assert_eq!(orphans[0].info.size, PS);
    assert!(!orphans[0].info.is_large);
    assert_eq!(orphans[0].info.original_owner, 9);
    assert!(orphans[0].page.header.flags & PAGE_FLAG_ORPHAN != 0);
    assert_eq!(orphans[1].info.addr, 0x30000);
    assert_eq!(orphans[1].info.size, 3 * PS);
    assert!(orphans[1].info.is_large);
}

#[test]
fn recording_an_orphan_twice_replaces_it() {
    let mut orphans = Vec::new();
    let info = OrphanPage { addr: 0x10000, size: PS, is_large: false, original_owner: 1 };
    record_orphan(&mut orphans, OrphanEntry { info, page: small_page(1, 64) });
    let info2 = OrphanPage { original_owner: 2, ..info };
    record_orphan(&mut orphans, OrphanEntry { info: info2, page: small_page(1, 64) });
    assert_eq!(orphans.len(), 1);
    assert_eq!(orphans[0].info.original_owner, 2);
}

#[test]
fn orphan_sweep_keeps_marked_and_weakly_named_pages() {
    let mut marked = small_page(4, 64);
    marked.header.set_allocated(0);
    marked.header.set_mark(0);
    let mut weak = small_page(4, 64);
    weak.header.set_allocated(1);
    weak.slots[1].weak_count = 1;
    let mut dead = small_page(4, 64);
    dead.header.set_allocated(0);
    dead.header.set_allocated(3);
    dead.slots[3].value_dead = true;
    let big = large_page(9000);
    let entry = |addr: usize, size: usize, is_large: bool, page: Page| OrphanEntry {
        info: OrphanPage { addr, size, is_large, original_owner: 0 },
        page,
    };
    let mut orphans = vec![
        entry(0x10000, PS, false, marked),
        entry(0x20000, PS, false, weak),
        entry(0x30000, PS, false, dead),
        entry(0x40000, 3 * PS, true, big),
    ];
    let mut global = LargeObjectMap::new();
    global.register(0x40000, 9000, 1584, 3, PS);
    global.register(0x90000, 9000, 1584, 3, PS);
    let r = sweep_orphan_pages(&mut orphans, &mut global, PS);
    assert_eq!(orphans.len(), 2);
    assert_eq!(orphans[0].info.addr, 0x10000);
    assert!(!orphans[0].page.header.is_marked(0));
    assert!(orphans[0].page.header.is_allocated(0));
    assert_eq!(orphans[1].info.addr, 0x20000);
    let hs = PageHeader::header_size(64);
    assert_eq!(r.dropped, vec![0x30000 + hs, 0x40000 + 1584]);
    assert_eq!(r.released, vec![(0x30000, PS, false), (0x40000, 3 * PS, true)]);
    assert_eq!(global.len(), 3);
    assert_eq!(global.lookup(0x41000), None);
    assert_eq!(global.lookup(0x91000), Some((0x90000, 9000, 1584)));
}
