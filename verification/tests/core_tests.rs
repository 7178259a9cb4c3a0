use rudo_gc::incremental::{
    get_incremental_config, is_generational_barrier_active, is_incremental_gc_enabled,
    is_incremental_marking_active, is_write_barrier_active, set_incremental_config, write_barrier_needed, yield_now,
    FallbackReason, IncrementalConfig, IncrementalMarkState, MarkPhase, MarkSliceResult, MarkStats,
};
use rudo_gc::incremental::{mark_new_object_black, mark_object_black};
use rudo_gc::page::{PageHeader, PAGE_FLAG_ALL_DEAD, PAGE_FLAG_NEEDS_SWEEP};
use rudo_gc::size_class::{compute_class_index, compute_size_class, size_class_for};
use rudo_gc::sweep::{pending_sweep_count, sweep_pending, GcSlot, Page};

fn page(obj_count: u16, flags: u8) -> Page {
    let header = PageHeader::new(64, obj_count, 1600, flags, 0);
    let slot = GcSlot { weak_count: 1, value_dead: false, next_free: None };
    let mut slots = Vec::new();
    for _ in 0..obj_count {
        slots.push(slot);
    }
    Page { header, slots }
}

#[test]
fn mark_phase_cycle() {
    let mut st = IncrementalMarkState::new();
    assert_eq!(st.phase(), MarkPhase::Idle);
    assert!(!st.transition_to(MarkPhase::Marking));
    assert!(st.transition_to(MarkPhase::Snapshot));
    assert!(st.transition_to(MarkPhase::Marking));
    assert!(st.transition_to(MarkPhase::FinalMark));
    assert!(st.transition_to(MarkPhase::Sweeping));
    assert!(!st.transition_to(MarkPhase::Marking));
    assert!(st.transition_to(MarkPhase::Idle));
    assert_eq!(MarkPhase::from_usize(3), Some(MarkPhase::FinalMark));
    assert_eq!(MarkPhase::from_usize(9), None);
    assert_eq!(FallbackReason::from_u32(FallbackReason::SliceTimeout.to_u32()), FallbackReason::SliceTimeout);
}

#[test]
fn snapshot_then_slices_complete() {
    let mut st = IncrementalMarkState::new();
    let count = st.install_snapshot(vec![0x10, 0x20, 0x30], 5);
    assert_eq!(count, 3);
    assert_eq!(st.phase(), MarkPhase::Marking);
    assert_eq!(st.root_count(), 3);
    assert_eq!(st.pop_work(), Some(0x30));
    assert_eq!(st.pop_work(), Some(0x20));
    assert_eq!(st.pop_work(), Some(0x10));
    assert_eq!(st.pop_work(), None);
    let r = st.conclude_slice(3, 0, 0, 1, 0);
    assert_eq!(r, MarkSliceResult::Complete { total_objects_marked: 3, total_slices: 1 });
    st.finish_final_mark();
    assert_eq!(st.phase(), MarkPhase::Sweeping);
}

#[test]
fn slice_falls_back_on_limits() {
    let mut st = IncrementalMarkState::new();
    st.install_snapshot(vec![0x10], 0);
    let r = st.conclude_slice(1, 0, 5000, 0, 0);
    assert_eq!(r, MarkSliceResult::Fallback { reason: FallbackReason::DirtyPagesExceeded });
    assert!(st.fallback_requested());
    assert_eq!(st.stats().fallback_reason(), FallbackReason::DirtyPagesExceeded);
    assert_eq!(
        st.pending_fallback(FallbackReason::SliceTimeout),
        Some(MarkSliceResult::Fallback { reason: FallbackReason::DirtyPagesExceeded })
    );

    let mut st = IncrementalMarkState::new();
    st.install_snapshot(vec![0x10], 0);
    let r = st.conclude_slice(1, 0, 0, 51, 0);
    assert_eq!(r, MarkSliceResult::Fallback { reason: FallbackReason::SliceTimeout });

    let mut st = IncrementalMarkState::new();
    st.install_snapshot(vec![0x10], 0);
    let r = st.conclude_slice(1, 2, 0, 0, 4);
    assert_eq!(r, MarkSliceResult::Pending { objects_marked: 1, dirty_pages_remaining: 4 });
    assert_eq!(st.pending_fallback(FallbackReason::SliceTimeout), None);
}

#[test]
fn barrier_predicates_follow_phase() {
    let mut st = IncrementalMarkState::new();
    let mut cfg = IncrementalConfig::default();
    cfg.enabled = true;
    set_incremental_config(&mut st, cfg);
    assert!(is_incremental_gc_enabled(&st));
    assert_eq!(get_incremental_config(&st).increment_size, cfg.increment_size);
    assert!(!is_incremental_marking_active(&st));
    assert_eq!(yield_now(&st), None);
    st.set_phase(MarkPhase::Marking);
    assert!(is_write_barrier_active(&st));
    assert!(write_barrier_needed(&st));
    assert!(is_generational_barrier_active(&st));
    assert_eq!(yield_now(&st), Some(cfg.increment_size));
    st.request_fallback(FallbackReason::SatbBufferOverflow);
    assert!(!write_barrier_needed(&st));
    st.set_phase(MarkPhase::FinalMark);
    assert!(!is_write_barrier_active(&st));
    assert!(is_incremental_marking_active(&st));
}

#[test]
fn mark_stats_record_and_reset() {
    let mut stats = MarkStats::new();
    stats.record_fallback(FallbackReason::WorklistUnbounded);
    assert!(stats.fallback_occurred);
    assert_eq!(stats.fallback_reason(), FallbackReason::WorklistUnbounded);
    stats.reset();
    assert_eq!(stats.fallback_reason(), FallbackReason::NoFallback);
}

#[test]
fn size_classes_route_small_objects() {
    assert_eq!(compute_size_class(1), 16);
    assert_eq!(compute_size_class(17), 32);
    assert_eq!(compute_size_class(2048), 2048);
    assert_eq!(compute_class_index(100), 3);
    assert_eq!(size_class_for(2049), None);
    assert_eq!(size_class_for(16), Some(0));
}

#[test]
fn page_mark_bits_and_free_list() {
    let mut h = PageHeader::new(64, 32, 1600, 0, 0);
    assert!(h.set_mark(5));
    assert!(!h.set_mark(5));
    assert_eq!(h.try_mark(6), Ok(true));
    assert_eq!(h.try_mark(6), Ok(false));
    h.clear_mark(5);
    assert!(!h.is_marked(5));
    h.set_allocated(6);
    assert!(h.is_fully_marked());
    h.set_allocated(7);
    assert!(!h.is_fully_marked());
    h.set_free_list_head(Some(3));
    assert_eq!(h.free_list_head(), Some(3));
    assert_eq!(h.compare_exchange_free_list(Some(4), None), Err(Some(3)));
    assert_eq!(h.compare_exchange_free_list(Some(3), None), Ok(Some(3)));
    assert_eq!(h.free_list_head(), None);
    h.set_dead_count(0xffff);
    h.increment_dead_count();
    assert_eq!(h.dead_count(), 0);
}

#[test]
fn lazy_sweep_drops_weakly_held_dead_objects() {
    let mut p = page(4, PAGE_FLAG_NEEDS_SWEEP);
    p.header.set_allocated(0);
    p.header.set_allocated(1);
    p.header.set_mark(1);
    p.header.set_mark(3);
    let (reclaimed, all_dead) = p.lazy_sweep_page();
    assert_eq!(reclaimed, 0);
    assert!(!all_dead);
    assert!(p.slots[0].value_dead);
    assert!(!p.slots[1].value_dead);
    assert!(!p.header.is_marked(1));
    assert!(!p.header.is_marked(3));
    assert!(p.header.is_allocated(0));
}

#[test]
fn lazy_sweep_all_dead_page() {
    let mut p = page(4, PAGE_FLAG_NEEDS_SWEEP | PAGE_FLAG_ALL_DEAD);
    p.header.set_allocated(2);
    p.header.set_mark(2);
    p.header.set_dead_count(1);
    assert_eq!(p.sweep_specific_page(), 4);
    assert!(!p.header.all_dead());
    assert!(!p.header.needs_sweep());
    assert_eq!(p.header.dead_count(), 0);
    assert!(p.slots[2].value_dead);
    assert!(!p.header.is_marked(2));
}

#[test]
fn sweep_pending_takes_the_first_waiting_pages() {
    let mut pages = vec![
        page(2, 0),
        page(2, PAGE_FLAG_NEEDS_SWEEP | PAGE_FLAG_ALL_DEAD),
        page(2, PAGE_FLAG_NEEDS_SWEEP),
        page(2, PAGE_FLAG_NEEDS_SWEEP | PAGE_FLAG_ALL_DEAD),
    ];
    assert_eq!(pending_sweep_count(&pages), 3);
    let swept = sweep_pending(&mut pages, 2);
    assert_eq!(swept, 1);
    assert!(!pages[1].header.needs_sweep());
    assert!(!pages[2].header.needs_sweep());
    assert!(pages[3].header.needs_sweep());
    assert_eq!(pending_sweep_count(&pages), 1);
}

#[test]
fn sweep_phases_rebuild_free_list() {
    let mut p = page(4, 0);
    for s in p.slots.iter_mut() {
        s.weak_count = 0;
    }
    p.header.set_allocated(0);
    p.header.set_allocated(2);
    p.header.set_mark(2);
    let (dropped, pending) = p.sweep_phase1_finalize(false);
    assert_eq!(dropped, vec![0]);
    assert_eq!(pending, vec![0]);
    let reclaimed = p.sweep_phase2_reclaim(false);
    assert_eq!(reclaimed, 1);
    assert!(!p.header.is_allocated(0));
    assert!(p.header.is_allocated(2));
    assert_eq!(p.header.free_list_head(), Some(0));
    assert_eq!(p.slots[0].next_free, Some(1));
    assert_eq!(p.slots[1].next_free, Some(3));
    assert_eq!(p.slots[3].next_free, None);
}

#[test]
fn allocation_pops_free_list_and_free_pushes() {
    let mut p = page(4, 0);
    p.header.set_free_list_head(Some(1));
    p.slots[1].next_free = Some(3);
    assert_eq!(p.try_pop_from_page(64, false), Some((1, false)));
    assert!(p.header.is_allocated(1));
    assert_eq!(p.header.free_list_head(), Some(3));
    assert!(p.free_slot(1));
    assert_eq!(p.header.free_list_head(), Some(1));
    assert_eq!(p.slots[1].next_free, Some(3));
    assert_eq!(p.try_pop_from_page(32, false), None);
}

#[test]
fn young_page_promotion() {
    let mut p = page(4, 0);
    assert_eq!(p.promote_if_young(), 0);
    p.header.set_allocated(0);
    p.header.set_allocated(3);
    assert_eq!(p.promote_if_young(), 128);
    assert_eq!(p.header.generation, 1);
    assert_eq!(p.promote_if_young(), 0);
}

#[test]
fn slice_work_and_page_scans() {
    let mut st = IncrementalMarkState::new();
    st.install_snapshot(vec![0x10, 0x20, 0x30], 0);
    assert_eq!(st.take_slice_work(2), vec![0x30, 0x20]);
    assert_eq!(st.take_slice_work(5), vec![0x10]);
    assert!(st.worklist_is_empty());

    let hs = PageHeader::header_size(64);
    let mut h = PageHeader::new(64, 8, hs as u16, 0, 0);
    h.set_allocated(1);
    h.set_allocated(4);
    h.set_mark(4);
    let page = 0x40000usize;
    assert_eq!(st.scan_page_for_marked_refs(&mut h, page), 1);
    assert!(h.is_marked(1));
    assert_eq!(st.pop_work(), Some(page + hs + 64));
    h.set_allocated(2);
    st.scan_page_for_unmarked_refs(&mut h, page);
    assert_eq!(st.stats().dirty_pages_scanned, 1);
    assert_eq!(st.pop_work(), Some(page + hs + 128));

    assert!(mark_new_object_black(&mut h, Some(6)));
    assert!(!mark_new_object_black(&mut h, Some(6)));
    assert!(!mark_new_object_black(&mut h, None));
    assert_eq!(mark_object_black(&mut h, Some(7)), Some(7));
    assert_eq!(mark_object_black(&mut h, Some(7)), None);
}

#[test]
fn batch_pop_takes_slots_in_list_order() {
    let mut p = page(6, 0);
    p.header.set_free_list_head(Some(1));
    p.slots[1].next_free = Some(3);
    p.slots[3].next_free = Some(4);
    assert_eq!(p.try_pop_batch_from_page(64, 2, false), Some((vec![1, 3], false)));
    assert!(p.header.is_allocated(1));
    assert!(p.header.is_allocated(3));
    assert!(!p.header.is_allocated(4));
    assert_eq!(p.header.free_list_head(), Some(4));
    assert_eq!(p.try_pop_batch_from_page(64, 5, false), Some((vec![4], true)));
    assert_eq!(p.header.free_list_head(), None);
    assert_eq!(p.try_pop_batch_from_page(64, 5, false), None);
}

#[test]
fn batch_pop_stops_at_an_allocated_slot() {
    let mut p = page(6, 0);
    p.header.set_free_list_head(Some(0));
    p.slots[0].next_free = Some(2);
    p.slots[2].next_free = Some(5);
    p.header.set_allocated(2);
    assert_eq!(p.try_pop_batch_from_page(64, 4, false), Some((vec![0], true)));
    assert_eq!(p.header.free_list_head(), None);
    assert_eq!(p.try_pop_batch_from_page(32, 4, false), None);
}

#[test]
fn lazy_sweep_reclaims_unreferenced_dead_objects() {
    let mut p = page(4, PAGE_FLAG_NEEDS_SWEEP);
    for s in p.slots.iter_mut() {
        s.weak_count = 0;
    }
    p.header.set_allocated(0);
    p.header.set_allocated(1);
    p.header.set_allocated(2);
    p.header.set_mark(1);
    let (reclaimed, all_dead) = p.lazy_sweep_page();
    assert_eq!(reclaimed, 2);
    assert!(!all_dead);
    assert!(!p.header.is_allocated(0));
    assert!(p.header.is_allocated(1));
    assert!(!p.header.is_allocated(2));
    assert!(!p.header.is_marked(1));
    // Pushed in ascending order: 2 heads the list and links to 0.
    assert_eq!(p.header.free_list_head(), Some(2));
    assert_eq!(p.slots[2].next_free, Some(0));
    assert_eq!(p.slots[0].next_free, None);
    assert!(p.slots[0].value_dead && p.slots[2].value_dead);
}

#[test]
fn lazy_sweep_of_dead_page_reclaims_every_slot() {
    let mut p = page(3, PAGE_FLAG_NEEDS_SWEEP);
    for s in p.slots.iter_mut() {
        s.weak_count = 0;
    }
    for i in 0..3 {
        p.header.set_allocated(i);
    }
    p.header.set_dead_count(3);
    assert_eq!(p.sweep_specific_page(), 3);
    assert!(!p.header.needs_sweep());
    assert!(!p.header.all_dead());
    assert_eq!(p.header.dead_count(), 0);
    assert_eq!(p.header.free_list_head(), Some(2));
    let mut q = page(3, PAGE_FLAG_NEEDS_SWEEP | PAGE_FLAG_ALL_DEAD);
    q.slots[1].weak_count = 0;
    q.header.set_allocated(0);
    q.header.set_allocated(1);
    assert_eq!(q.lazy_sweep_page_all_dead(), 1);
    assert!(q.header.is_allocated(0));
    assert!(!q.header.is_allocated(1));
    assert_eq!(q.header.free_list_head(), Some(1));
}

#[test]
fn page_mask_for_keeps_page_bits() {
    assert_eq!(rudo_gc::page::page_mask_for(4096), !0xfffusize);
    assert_eq!(rudo_gc::page::page_mask_for(65536), !0xffffusize);
    assert_eq!(rudo_gc::page::page_mask_for(0), 0);
}
