use rudo_gc::large::{
    install_large_span, large_object_layout, new_large_header, release_large_span, sweep_large_objects, LargeObjectMap,
    LargePage,
};
use rudo_gc::local_heap::HeapBuffers;
use rudo_gc::page::PAGE_FLAG_LARGE;

const PS: usize = 4096;

#[test]
fn layout_rounds_header_and_pages() {
    let l = large_object_layout(5000, 8, PS);
    assert_eq!(l.header_size, 1584);
    assert_eq!(l.total_size, 6584);
    assert_eq!(l.pages_needed, 2);
    assert_eq!(l.alloc_size, 8192);
    let l = large_object_layout(4096 - 1584, 16, PS);
    assert_eq!(l.total_size, 4096);
    assert_eq!(l.pages_needed, 1);
    let l = large_object_layout(3000, 4096, PS);
    assert_eq!(l.header_size, 4096);
    assert_eq!(l.alloc_size, 8192);
}

#[test]
fn large_header_is_flagged_and_allocated() {
    let h = new_large_header(5000, 1584, 7);
    assert_eq!(h.flags, PAGE_FLAG_LARGE);
    assert_eq!(h.obj_count, 1);
    assert_eq!(h.block_size, 5000);
    assert_eq!(h.header_size, 1584);
    assert!(h.is_allocated(0));
    assert!(h.is_large_object());
}

#[test]
fn install_then_release_span() {
    let mut pages = vec![0x1000usize];
    let mut local = LargeObjectMap::new();
    let mut global = LargeObjectMap::new();
    let mut buffers = HeapBuffers::new();
    let l = large_object_layout(9000, 8, PS);
    assert_eq!(l.pages_needed, 3);
    let obj = install_large_span(&mut pages, &mut local, &mut global, &mut buffers, 0x10000, 9000, l, PS);
    assert_eq!(obj, 0x10000 + 1584);
    assert_eq!(pages, vec![0x1000, 0x10000]);
    assert_eq!(local.len(), 3);
    assert_eq!(global.len(), 3);
    assert_eq!(local.lookup(0x12000), Some((0x10000, 9000, 1584)));
    assert_eq!(local.lookup(0x13000), None);
    assert_eq!(buffers.min_addr, 0x10000);
    assert_eq!(buffers.max_addr, 0x13000);
    assert_eq!(release_large_span(&mut local, &mut global, 0x13000, PS), None);
    assert_eq!(release_large_span(&mut local, &mut global, 0x11000, PS), Some((0x10000, 0x3000)));
    assert_eq!(local.len(), 0);
    assert_eq!(global.len(), 0);
}

fn lp(addr: usize, generation: u8, marked: bool, weak_count: usize, value_dead: bool) -> LargePage {
    LargePage { addr, block_size: 5000, header_size: 1584, generation, marked, weak_count, value_dead }
}

#[test]
fn large_sweep_drops_and_releases_unreachable() {
    let mut pages = vec![0x1000, 0x10000, 0x20000, 0x30000, 0x40000];
    let mut large = vec![
        lp(0x10000, 0, true, 0, false),
        lp(0x20000, 0, false, 0, false),
        lp(0x30000, 0, false, 2, false),
        lp(0x40000, 1, false, 0, false),
    ];
    let mut local = LargeObjectMap::new();
    let mut global = LargeObjectMap::new();
    let mut buffers = HeapBuffers::new();
    for &a in &[0x10000usize, 0x20000, 0x30000, 0x40000] {
        let l = large_object_layout(5000, 8, PS);
        let mut scratch = Vec::new();
        install_large_span(&mut scratch, &mut local, &mut global, &mut buffers, a, 5000, l, PS);
    }
    assert_eq!(local.len(), 8);
    let r = sweep_large_objects(&mut pages, &mut large, &mut local, &mut global, true, PS);
    assert_eq!(r.dropped, vec![0x20000 + 1584, 0x30000 + 1584]);
    assert_eq!(r.released, vec![(0x20000, 8192, 2)]);
    assert_eq!(pages, vec![0x1000, 0x10000, 0x30000, 0x40000]);
    assert_eq!(large.len(), 3);
    assert!(large[1].value_dead);
    assert!(!large[2].value_dead);
    assert_eq!(local.len(), 6);
    assert_eq!(global.lookup(0x21000), None);
    assert_eq!(global.lookup(0x31000), Some((0x30000, 5000, 1584)));
    // A full sweep now reclaims the old page too, and drops nothing twice.
    let r = sweep_large_objects(&mut pages, &mut large, &mut local, &mut global, false, PS);
    assert_eq!(r.dropped, vec![0x40000 + 1584]);
    assert_eq!(r.released, vec![(0x40000, 8192, 2)]);
    assert_eq!(large.len(), 2);
    assert_eq!(local.len(), 4);
}
