use rudo_gc::generations::{
    clear_all_marks_and_dirty, clear_dirty_page_states, promote_all_pages, promote_young_pages, sweep_phase1_finalize,
    sweep_phase2_reclaim, sweep_segment_pages,
};
use rudo_gc::page::{PageHeader, PAGE_FLAG_DIRTY_LISTED};
use rudo_gc::sweep::{GcSlot, Page};

fn page(block_size: u32, obj_count: u16) -> Page {
    let header = PageHeader::new(block_size, obj_count, 1600, 0, 0);
    let slot = GcSlot { weak_count: 0, value_dead: false, next_free: None };
    Page { header, slots: (0..obj_count).map(|_| slot).collect() }
}

#[test]
fn minor_promotion_moves_young_survivors() {
    let mut young = page(64, 8);
    young.header.set_allocated(1);
    young.header.set_allocated(4);
    let empty = page(64, 8);
    let mut old = page(128, 8);
    old.header.generation = 1;
    old.header.set_allocated(0);
    let mut pages = vec![young, empty, old];
    assert_eq!(promote_young_pages(&mut pages, 1000), (0, 1000 + 2 * 64));
    assert_eq!(pages[0].header.generation, 1);
    assert_eq!(pages[1].header.generation, 0);
    assert_eq!(pages[2].header.generation, 1);
    // A second pass finds nothing young left to promote.
    assert_eq!(promote_young_pages(&mut pages, 1128), (0, 1128));
}

#[test]
fn collection_start_clears_marks_dirt_and_dead_counts() {
    let mut p = page(64, 8);
    p.header.set_allocated(3);
    p.header.set_mark(3);
    p.header.set_dirty(3);
    p.header.set_dead_count(5);
    let mut pages = vec![p];
    clear_all_marks_and_dirty(&mut pages);
    assert!(!pages[0].header.is_marked(3));
    assert!(!pages[0].header.is_dirty(3));
    assert!(pages[0].header.is_allocated(3));
    assert_eq!(pages[0].header.dead_count(), 0);
}

#[test]
fn dirty_state_cleared_only_where_asked() {
    let mut a = page(64, 8);
    a.header.set_dirty(1);
    a.header.set_dirty_listed();
    let mut b = page(64, 8);
    b.header.set_dirty(2);
    b.header.set_dirty_listed();
    let mut pages = vec![a, b];
    clear_dirty_page_states(&mut pages, &vec![1, 1]);
    assert!(pages[0].header.is_dirty(1));
    assert!(pages[0].header.flags & PAGE_FLAG_DIRTY_LISTED != 0);
    assert!(!pages[1].header.is_dirty(2));
    assert!(!pages[1].header.is_dirty_listed());
}

#[test]
fn promote_all_moves_every_page() {
    let mut pages = vec![page(64, 2), page(32, 2)];
    promote_all_pages(&mut pages);
    assert!(pages.iter().all(|p| p.header.generation == 1));
}

#[test]
fn heap_sweep_drops_and_reclaims_across_pages() {
    let mut young = page(64, 4);
    young.header.set_allocated(0);
    young.header.set_allocated(1);
    young.header.set_mark(1);
    let mut old = page(64, 4);
    old.header.generation = 1;
    old.header.set_allocated(2);
    let mut weak = page(32, 2);
    weak.header.set_allocated(1);
    weak.slots[1].weak_count = 1;
    let mut pages = vec![young, old, weak];

    // A young-only sweep leaves the old page alone.
    let drops = sweep_phase1_finalize(&mut pages, true);
    assert_eq!(drops, vec![(0, 0), (2, 1)]);
    assert!(pages[1].header.is_allocated(2));
    assert!(!pages[0].header.is_marked(1));
    let reclaimed = sweep_phase2_reclaim(&mut pages, true);
    // The weakly referenced slot keeps its memory.
    assert_eq!(reclaimed, 1);
    assert!(!pages[0].header.is_allocated(0));
    assert!(pages[0].header.is_allocated(1));
    assert!(pages[2].header.is_allocated(1));
    assert!(pages[1].header.is_allocated(2));

    // A full sweep now also takes the old page's unreachable object.
    let drops = sweep_phase1_finalize(&mut pages, false);
    assert_eq!(drops, vec![(0, 1), (1, 2)]);
    assert_eq!(sweep_phase2_reclaim(&mut pages, false), 2);
    assert!(!pages[1].header.is_allocated(2));
}

#[test]
fn segment_sweep_runs_both_phases() {
    let mut p = page(64, 4);
    p.header.set_allocated(0);
    p.header.set_allocated(3);
    p.header.set_mark(3);
    let mut q = page(64, 2);
    q.header.set_allocated(1);
    let mut pages = vec![p, q];
    let (drops, reclaimed) = sweep_segment_pages(&mut pages, false);
    assert_eq!(drops, vec![(0, 0), (1, 1)]);
    assert_eq!(reclaimed, 2);
    assert!(!pages[0].header.is_allocated(0));
    assert!(pages[0].header.is_allocated(3));
    assert!(!pages[0].header.is_marked(3));
    assert!(!pages[1].header.is_allocated(1));
}
