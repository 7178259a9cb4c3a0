use rudo_gc::collect::{collector_step, CollectAction, CollectEvent, CollectPhase, CollectorState, MAJOR_THRESHOLD};
use rudo_gc::collector::{collect_heaps, collect_major, collect_major_heaps, collect_minor};
use rudo_gc::large::LargeObjectMap;
use rudo_gc::local_heap::LocalHeap;
use rudo_gc::lookup::{OrphanEntry, PageAt};
use rudo_gc::metrics::CollectionType;
use rudo_gc::page::PageHeader;
use rudo_gc::sweep::{GcSlot, Page};

const MASK: usize = !0xfff;

fn page_at(addr: usize, generation: u8) -> PageAt {
    let mut header = PageHeader::new(64, 8, PageHeader::header_size(64) as u16, 0, 0);
    header.generation = generation;
    for i in 0..8 {
        header.set_allocated(i);
    }
    let slot = GcSlot { weak_count: 0, value_dead: false, next_free: None };
    PageAt { addr, page: Page { header, slots: vec![slot; 8] } }
}

fn obj(page: usize, slot: usize) -> usize {
    page + PageHeader::header_size(64) + slot * 64
}

fn two_page_heap(first_generation: u8, second_generation: u8) -> LocalHeap {
    let mut heap = LocalHeap::new();
    heap.pages.push(page_at(0x10000, first_generation));
    heap.pages.push(page_at(0x20000, second_generation));
    heap.small_pages.insert(0x10000);
    heap.small_pages.insert(0x20000);
    heap.buffers.update_range(0x10000, 0x11000);
    heap
}

#[test]
fn major_collection_keeps_reachable_and_frees_the_rest() {
    let mut heap = two_page_heap(0, 1);
    // A stale mark from an earlier cycle must not keep slot 6 alive.
    heap.pages[0].page.header.set_mark(6);
    // Slot 7 is unreachable but a weak reference still names it.
    heap.pages[0].page.slots[7].weak_count = 1;
    let a = obj(0x10000, 0);
    let b = obj(0x20000, 3);
    let c = obj(0x10000, 4);
    let trace = |p: usize| if p == a { vec![b] } else if p == b { vec![c] } else { vec![] };
    let global = LargeObjectMap::new();
    let orphans: Vec<OrphanEntry> = Vec::new();
    let (m, drops) = collect_major(&mut heap, &global, &orphans, &vec![a + 1], MASK, &trace);
    assert_eq!(m.collection_type, CollectionType::Major);
    // Page 0 keeps 0, 4 and the weakly named 7; page 1 keeps 3.
    assert_eq!(m.objects_reclaimed, 5 + 7);
    assert_eq!(m.objects_surviving, 3);
    for (k, page) in heap.pages.iter().enumerate() {
        assert_eq!(page.page.header.generation, 1);
        for i in 0..8 {
            assert!(!page.page.header.is_marked(i));
            let kept = (k == 0 && (i == 0 || i == 4 || i == 7)) || (k == 1 && i == 3);
            assert_eq!(page.page.header.is_allocated(i), kept, "page {} slot {}", k, i);
        }
    }
    // Every unreachable object's value is dropped, the weakly named one too.
    assert_eq!(drops.len(), 13);
    assert!(drops.contains(&(0, 7)));
    assert!(!drops.contains(&(0, 0)));
    assert!(heap.pages[0].page.slots[7].value_dead);
}

#[test]
fn minor_collection_sweeps_young_and_promotes_survivors() {
    let mut heap = two_page_heap(0, 1);
    heap.young_allocated = 8 * 64;
    heap.old_allocated = 8 * 64;
    let young = obj(0x10000, 2);
    let trace = |_p: usize| vec![];
    let global = LargeObjectMap::new();
    let orphans: Vec<OrphanEntry> = Vec::new();
    let (m, drops) = collect_minor(&mut heap, &global, &orphans, &vec![young], MASK, &trace);
    assert_eq!(m.collection_type, CollectionType::Minor);
    assert_eq!(m.objects_reclaimed, 7);
    assert_eq!(drops.len(), 7);
    // The young page kept one object and is now old; the old page is untouched.
    assert!(heap.pages[0].page.header.is_allocated(2));
    assert!(!heap.pages[0].page.header.is_allocated(3));
    assert_eq!(heap.pages[0].page.header.generation, 1);
    for i in 0..8 {
        assert!(heap.pages[1].page.header.is_allocated(i));
    }
    assert_eq!(heap.young_allocated, 0);
    assert_eq!(heap.old_allocated, 8 * 64 + 64);
    assert_eq!(m.bytes_surviving, 8 * 64 + 64);
    assert_eq!(m.bytes_reclaimed, 7 * 64);
}

#[test]
fn minor_collection_of_a_dead_young_page_leaves_it_young() {
    let mut heap = two_page_heap(0, 1);
    let trace = |_p: usize| vec![];
    let global = LargeObjectMap::new();
    let orphans: Vec<OrphanEntry> = Vec::new();
    let (m, _drops) = collect_minor(&mut heap, &global, &orphans, &vec![], MASK, &trace);
    assert_eq!(m.objects_reclaimed, 8);
    assert_eq!(heap.pages[0].page.header.generation, 0);
    assert_eq!(heap.old_allocated, 0);
}

#[test]
fn collecting_every_heap_sums_the_metrics() {
    let mut heaps = vec![two_page_heap(0, 0), two_page_heap(0, 0)];
    let root = obj(0x10000, 1);
    let trace = |_p: usize| vec![];
    let global = LargeObjectMap::new();
    let orphans: Vec<OrphanEntry> = Vec::new();
    let (m, drops) = collect_heaps(&mut heaps, &global, &orphans, &vec![root], CollectionType::Minor, MASK, &trace);
    assert_eq!(m.collection_type, CollectionType::Minor);
    assert_eq!(m.objects_reclaimed, 2 * 15);
    assert_eq!(m.objects_surviving, 2);
    assert_eq!(drops.len(), 2);
    for heap in &heaps {
        assert!(heap.pages[0].page.header.is_allocated(1));
        assert!(!heap.pages[1].page.header.is_allocated(1));
        assert_eq!(heap.pages[0].page.header.generation, 1);
        assert_eq!(heap.pages[1].page.header.generation, 0);
    }
}

#[test]
fn collector_step_runs_a_whole_cycle() {
    let s = CollectorState::new();
    let (s, a) = collector_step(s, CollectEvent::Requested { full: false });
    assert_eq!(a, CollectAction::RequestHandshake);
    assert_eq!(s.phase, CollectPhase::Handshaking { full: false });
    assert!(!s.in_collect);
    let (s, a) = collector_step(s, CollectEvent::HandshakeDone { is_collector: true, total_size: 100 });
    assert_eq!(a, CollectAction::RunCollection { kind: CollectionType::Minor, all_heaps: true });
    assert!(s.in_collect);
    // A request while collecting is ignored.
    let (s, a) = collector_step(s, CollectEvent::Requested { full: true });
    assert_eq!(a, CollectAction::Ignore);
    let (s, a) = collector_step(s, CollectEvent::CollectionDone);
    assert_eq!(a, CollectAction::ResumeThreads);
    assert_eq!(s.phase, CollectPhase::Resuming);
    let (s, a) = collector_step(s, CollectEvent::ThreadsResumed);
    assert_eq!(a, CollectAction::Finished);
    assert_eq!(s.phase, CollectPhase::Idle);
    assert!(!s.in_collect);
}

#[test]
fn collector_step_picks_major_for_big_heaps_and_full_requests() {
    let (s, _) = collector_step(CollectorState::new(), CollectEvent::Requested { full: false });
    let (_, a) = collector_step(s, CollectEvent::HandshakeDone { is_collector: false, total_size: MAJOR_THRESHOLD + 1 });
    assert_eq!(a, CollectAction::RunCollection { kind: CollectionType::Major, all_heaps: false });
    let (s, _) = collector_step(CollectorState::new(), CollectEvent::Requested { full: true });
    let (_, a) = collector_step(s, CollectEvent::HandshakeDone { is_collector: true, total_size: 0 });
    assert_eq!(a, CollectAction::RunCollection { kind: CollectionType::Major, all_heaps: true });
    // Events out of turn change nothing.
    let (s, a) = collector_step(CollectorState::new(), CollectEvent::CollectionDone);
    assert_eq!(a, CollectAction::Ignore);
    assert_eq!(s.phase, CollectPhase::Idle);
}

#[test]
fn major_collection_of_all_heaps_follows_pointers_across_heaps() {
    let mut first = LocalHeap::new();
    first.pages.push(page_at(0x10000, 0));
    first.small_pages.insert(0x10000);
    first.buffers.update_range(0x10000, 0x11000);
    let mut second = LocalHeap::new();
    second.pages.push(page_at(0x30000, 0));
    second.small_pages.insert(0x30000);
    second.buffers.update_range(0x30000, 0x31000);
    let a = obj(0x10000, 0);
    let b = obj(0x30000, 5);
    let trace = |p: usize| if p == a { vec![b] } else { vec![] };
    let global = LargeObjectMap::new();
    let orphans: Vec<OrphanEntry> = Vec::new();
    let mut heaps = vec![first, second];
    let (m, drops) = collect_major_heaps(&mut heaps, &global, &orphans, &vec![a], MASK, &trace);
    assert_eq!(m.collection_type, CollectionType::Major);
    assert_eq!(m.objects_surviving, 2);
    assert_eq!(m.objects_reclaimed, 14);
    assert_eq!(drops.len(), 14);
    // The object of the second heap that only the first heap points to survives.
    assert!(heaps[0].pages[0].page.header.is_allocated(0));
    assert!(heaps[1].pages[0].page.header.is_allocated(5));
    assert!(!heaps[1].pages[0].page.header.is_allocated(4));
    assert_eq!(heaps[1].pages[0].page.header.generation, 1);
    // Positions run over both heaps' pages: the second heap's page is at 1.
    assert!(drops.contains(&(1, 4)));
    assert!(!drops.contains(&(1, 5)));
}

#[test]
fn minor_collection_marks_each_heap_through_its_own_pages() {
    let mut first = LocalHeap::new();
    first.pages.push(page_at(0x10000, 0));
    first.small_pages.insert(0x10000);
    first.buffers.update_range(0x10000, 0x11000);
    let mut second = LocalHeap::new();
    second.pages.push(page_at(0x30000, 0));
    second.small_pages.insert(0x30000);
    second.buffers.update_range(0x30000, 0x31000);
    let a = obj(0x10000, 0);
    let b = obj(0x30000, 5);
    let trace = |p: usize| if p == a { vec![b] } else { vec![] };
    let global = LargeObjectMap::new();
    let orphans: Vec<OrphanEntry> = Vec::new();
    let mut heaps = vec![first, second];
    let (m, _drops) = collect_heaps(&mut heaps, &global, &orphans, &vec![a], CollectionType::Minor, MASK, &trace);
    assert_eq!(m.objects_surviving, 1);
    assert!(!heaps[1].pages[0].page.header.is_allocated(5));
}

#[test]
fn major_collection_through_collect_heaps_marks_all_heaps_together() {
    let mut first = LocalHeap::new();
    first.pages.push(page_at(0x10000, 0));
    first.small_pages.insert(0x10000);
    first.buffers.update_range(0x10000, 0x11000);
    let mut second = LocalHeap::new();
    second.pages.push(page_at(0x30000, 0));
    second.small_pages.insert(0x30000);
    second.buffers.update_range(0x30000, 0x31000);
    let a = obj(0x10000, 0);
    let b = obj(0x30000, 5);
    let trace = |p: usize| if p == a { vec![b] } else { vec![] };
    let global = LargeObjectMap::new();
    let orphans: Vec<OrphanEntry> = Vec::new();
    let mut heaps = vec![first, second];
    let (m, drops) = collect_heaps(&mut heaps, &global, &orphans, &vec![a], CollectionType::Major, MASK, &trace);
    assert_eq!(m.collection_type, CollectionType::Major);
    assert_eq!(m.objects_surviving, 2);
    assert_eq!(drops.len(), 1);
    assert_eq!(drops[0].len(), 14);
    assert!(heaps[1].pages[0].page.header.is_allocated(5));
}
