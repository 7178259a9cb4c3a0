use std::collections::HashMap;

use rudo_gc::collect::{GcVisitor, VisitorKind};
use rudo_gc::large::LargeObjectMap;
use rudo_gc::local_heap::LocalHeap;
use rudo_gc::lookup::{OrphanEntry, PageAt};
use rudo_gc::mark::{mark_major_roots, mark_minor_roots, mark_object, mark_object_minor};
use rudo_gc::page::PageHeader;
use rudo_gc::sweep::{GcSlot, Page};

const MASK: usize = !0xfff;

fn page_at(addr: usize, generation: u8) -> PageAt {
    let mut header = PageHeader::new(64, 8, PageHeader::header_size(64) as u16, 0, 0);
    header.generation = generation;
    for i in 0..8 {
        header.set_allocated(i);
    }
    let slot = GcSlot { weak_count: 0, value_dead: false, next_free: None };
    PageAt { addr, page: Page { header, slots: vec![slot; 8] } }
}

fn obj(page: usize, slot: usize) -> usize {
    page + PageHeader::header_size(64) + slot * 64
}

#[test]
fn visit_marks_once_and_queues() {
    let mut pages = vec![page_at(0x10000, 0)];
    let mut v = GcVisitor::new(VisitorKind::Major);
    let a = obj(0x10000, 2);
    v.visit_ptr(&mut pages, a, MASK);
    assert!(pages[0].page.header.is_marked(2));
    assert_eq!(v.worklist, vec![a]);
    assert_eq!(v.objects_marked(), 1);
    // Already marked, null, and outside the heap: nothing happens.
    v.visit_ptr(&mut pages, a, MASK);
    v.visit_ptr(&mut pages, 0, MASK);
    v.visit_ptr(&mut pages, 0x90000, MASK);
    assert_eq!(v.worklist, vec![a]);
    assert_eq!(v.objects_marked(), 1);
}

#[test]
fn minor_visit_skips_old_pages() {
    let mut pages = vec![page_at(0x10000, 1)];
    let mut v = GcVisitor::new(VisitorKind::Minor);
    v.visit_ptr(&mut pages, obj(0x10000, 0), MASK);
    assert!(!pages[0].page.header.is_marked(0));
    assert!(v.worklist.is_empty());
}

#[test]
fn draining_the_worklist_marks_everything_reachable() {
    let mut pages = vec![page_at(0x10000, 0), page_at(0x20000, 0)];
    let a = obj(0x10000, 0);
    let b = obj(0x10000, 1);
    let c = obj(0x20000, 5);
    let d = obj(0x20000, 6);
    let unreachable = obj(0x10000, 7);
    let mut graph: HashMap<usize, Vec<usize>> = HashMap::new();
    graph.insert(a, vec![b, c, 0x90000]);
    graph.insert(b, vec![a]);
    graph.insert(c, vec![d, b]);
    graph.insert(d, vec![]);
    graph.insert(unreachable, vec![a]);
    let trace = |p: usize| graph.get(&p).cloned().unwrap_or_default();

    let mut v = GcVisitor::new(VisitorKind::Major);
    v.visit_ptr(&mut pages, a, MASK);
    v.process_worklist(&mut pages, MASK, &trace);
    assert!(v.worklist.is_empty());
    assert_eq!(v.objects_marked(), 4);
    assert!(pages[0].page.header.is_marked(0));
    assert!(pages[0].page.header.is_marked(1));
    assert!(pages[1].page.header.is_marked(5));
    assert!(pages[1].page.header.is_marked(6));
    assert!(!pages[0].page.header.is_marked(7));
}

#[test]
fn queued_root_is_marked_when_traced() {
    let mut pages = vec![page_at(0x10000, 0)];
    let root = obj(0x10000, 3);
    let child = obj(0x10000, 4);
    let trace = |p: usize| if p == root { vec![child] } else { vec![] };
    let mut v = GcVisitor::new(VisitorKind::Major);
    v.worklist.push(root);
    v.process_worklist(&mut pages, MASK, &trace);
    assert!(pages[0].page.header.is_marked(3));
    assert!(pages[0].page.header.is_marked(4));
    assert_eq!(v.objects_marked(), 1);
}

#[test]
fn mark_object_ignores_generation_and_marked_slots() {
    let mut pages = vec![page_at(0x10000, 1)];
    let mut v = GcVisitor::new(VisitorKind::Minor);
    let a = obj(0x10000, 1);
    mark_object(&mut pages, &mut v, a, MASK);
    assert!(pages[0].page.header.is_marked(1));
    assert_eq!(v.worklist, vec![a]);
    mark_object(&mut pages, &mut v, a, MASK);
    assert_eq!(v.objects_marked(), 1);
}

#[test]
fn mark_object_minor_marks_young_slots_only() {
    let mut pages = vec![page_at(0x10000, 0), page_at(0x20000, 1)];
    let mut v = GcVisitor::new(VisitorKind::Minor);
    mark_object_minor(&mut pages, &mut v, obj(0x10000, 2) + 5, MASK);
    assert!(pages[0].page.header.is_marked(2));
    mark_object_minor(&mut pages, &mut v, obj(0x20000, 2), MASK);
    assert!(!pages[1].page.header.is_marked(2));
    assert_eq!(v.objects_marked(), 1);
}

#[test]
fn major_roots_mark_reachable_objects() {
    let mut heap = LocalHeap::new();
    heap.pages.push(page_at(0x10000, 0));
    heap.pages.push(page_at(0x20000, 1));
    heap.small_pages.insert(0x10000);
    heap.small_pages.insert(0x20000);
    heap.buffers.update_range(0x10000, 0x11000);
    let a = obj(0x10000, 0);
    let b = obj(0x20000, 3);
    let c = obj(0x10000, 4);
    let trace = |p: usize| if p == a { vec![b] } else if p == b { vec![c] } else { vec![] };
    let global = LargeObjectMap::new();
    let orphans: Vec<OrphanEntry> = Vec::new();
    // An interior pointer to `a`, a word that names nothing, and a word outside the heap.
    let roots = vec![a + 10, 0x10008, 0x5];
    let n = mark_major_roots(&mut heap, &global, &orphans, &roots, MASK, &trace);
    assert_eq!(n, 3);
    assert!(heap.pages[0].page.header.is_marked(0));
    assert!(heap.pages[1].page.header.is_marked(3));
    assert!(heap.pages[0].page.header.is_marked(4));
    assert!(!heap.pages[0].page.header.is_marked(1));
}

#[test]
fn minor_roots_follow_roots_and_remembered_set() {
    let mut heap = LocalHeap::new();
    heap.pages.push(page_at(0x10000, 0));
    heap.pages.push(page_at(0x20000, 1));
    heap.small_pages.insert(0x10000);
    heap.small_pages.insert(0x20000);
    heap.buffers.update_range(0x10000, 0x11000);
    let young_root = obj(0x10000, 0);
    let young_child = obj(0x10000, 1);
    let old_obj = obj(0x20000, 2);
    let remembered_child = obj(0x10000, 5);
    // The old object is dirty: it was written to point at a young object.
    heap.pages[1].page.header.set_dirty(2);
    heap.pages[1].page.header.set_dirty_listed();
    heap.buffers.dirty_pages.push(0x20000);
    let trace = |p: usize| {
        if p == young_root {
            vec![young_child, old_obj]
        } else if p == old_obj {
            vec![remembered_child]
        } else {
            vec![]
        }
    };
    let global = LargeObjectMap::new();
    let orphans: Vec<OrphanEntry> = Vec::new();
    let n = mark_minor_roots(&mut heap, &global, &orphans, &vec![young_root + 3], MASK, &trace);
    assert_eq!(n, 3);
    assert!(heap.pages[0].page.header.is_marked(0));
    assert!(heap.pages[0].page.header.is_marked(1));
    assert!(heap.pages[0].page.header.is_marked(5));
    // Old objects are not marked by a young collection.
    assert!(!heap.pages[1].page.header.is_marked(2));
    assert!(!heap.pages[1].page.header.is_dirty(2));
    assert!(!heap.pages[1].page.header.is_dirty_listed());
    assert!(heap.buffers.dirty_pages.is_empty());
    assert!(heap.buffers.dirty_pages_snapshot.is_empty());
    assert_eq!(heap.buffers.dirty_page_history[0], 1);
}
