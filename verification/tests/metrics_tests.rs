use rudo_gc::incremental::FallbackReason;
use rudo_gc::metrics::{
    last_gc_metrics, record_metrics, CollectionType, GcHistory, GcMetrics, GlobalMetrics, PhaseTimer,
    ThreadMetrics, HISTORY_SIZE,
};

fn snapshot(duration: u64, kind: CollectionType) -> GcMetrics {
    let mut m = GcMetrics::new();
    m.duration = duration;
    m.collection_type = kind;
    m
}

#[test]
fn test_gc_metrics_new_fields_default_to_zero() {
    let metrics = GcMetrics::new();

    assert_eq!(metrics.clear_duration, 0);
    assert_eq!(metrics.mark_duration, 0);
    assert_eq!(metrics.sweep_duration, 0);
    assert_eq!(metrics.objects_marked, 0);
    assert_eq!(metrics.dirty_pages_scanned, 0);
    assert_eq!(metrics.slices_executed, 0);
    assert!(!metrics.fallback_occurred);
    assert_eq!(metrics.fallback_reason, FallbackReason::NoFallback);
}

#[test]
fn test_global_metrics_new() {
    let metrics = GlobalMetrics::new();

    assert_eq!(metrics.total_collections(), 0);
    assert_eq!(metrics.total_minor_collections(), 0);
    assert_eq!(metrics.total_major_collections(), 0);
    assert_eq!(metrics.total_incremental_collections(), 0);
    assert_eq!(metrics.total_bytes_reclaimed(), 0);
    assert_eq!(metrics.total_objects_reclaimed(), 0);
    assert_eq!(metrics.total_pause_ns(), 0);
    assert_eq!(metrics.total_fallbacks(), 0);
}

#[test]
fn test_gc_history_new() {
    let history = GcHistory::new();

    assert_eq!(history.total_recorded(), 0);
    assert!(history.recent(10).is_empty());
    assert_eq!(history.average_pause_time(10), 0);
    assert_eq!(history.max_pause_time(10), 0);
}

#[test]
fn phase_timer_records_elapsed() {
    let mut timer = PhaseTimer::new();
    assert_eq!(timer.clear, 0);
    assert!(timer.current_start.is_none());
    timer.start(100);
    assert!(timer.current_start.is_some());
    timer.end_clear(250);
    assert_eq!(timer.clear, 150);
    assert!(timer.current_start.is_none());
    timer.start(300);
    timer.end_mark(310);
    timer.start(400);
    timer.end_sweep(390);
    assert_eq!(timer.mark, 10);
    assert_eq!(timer.sweep, 0);
    timer.end_mark(1000);
    assert_eq!(timer.mark, 10);
}

#[test]
fn record_metrics_counts_by_kind() {
    let mut local = ThreadMetrics::new();
    let mut global = GlobalMetrics::new();
    let mut history = GcHistory::new();
    let mut m = snapshot(1000, CollectionType::Major);
    m.bytes_reclaimed = 64;
    m.objects_reclaimed = 2;
    record_metrics(&mut local, &mut global, &mut history, m);
    record_metrics(&mut local, &mut global, &mut history, snapshot(10, CollectionType::Minor));
    let mut inc = snapshot(5, CollectionType::IncrementalMajor);
    inc.fallback_occurred = true;
    record_metrics(&mut local, &mut global, &mut history, inc);
    record_metrics(&mut local, &mut global, &mut history, snapshot(7, CollectionType::NoCollection));

    assert_eq!(global.total_collections(), 4);
    assert_eq!(global.total_major_collections(), 1);
    assert_eq!(global.total_minor_collections(), 1);
    assert_eq!(global.total_incremental_collections(), 1);
    assert_eq!(global.total_fallbacks(), 1);
    assert_eq!(global.total_bytes_reclaimed(), 64);
    assert_eq!(global.total_objects_reclaimed(), 2);
    assert_eq!(global.total_pause_ns(), 1022);
    assert_eq!(last_gc_metrics(&local).total_collections, 4);
    assert_eq!(last_gc_metrics(&local).duration, 7);
    assert_eq!(history.total_recorded(), 4);
}

#[test]
fn history_recent_is_newest_first() {
    let mut local = ThreadMetrics::new();
    let mut global = GlobalMetrics::new();
    let mut history = GcHistory::new();
    for d in [10u64, 20, 30] {
        record_metrics(&mut local, &mut global, &mut history, snapshot(d, CollectionType::Minor));
    }
    let recent = history.recent(2);
    assert_eq!(recent.len(), 2);
    assert_eq!(recent[0].duration, 30);
    assert_eq!(recent[1].duration, 20);
    assert_eq!(history.recent(1)[0].duration, 30);
    assert_eq!(history.recent(10).len(), 3);
    assert_eq!(history.average_pause_time(10), 20);
    assert_eq!(history.average_pause_time(2), 25);
    assert_eq!(history.max_pause_time(10), 30);
    assert!(history.average_pause_time(3) <= history.max_pause_time(3));
}

#[test]
fn history_ring_keeps_last_sixty_four() {
    let mut local = ThreadMetrics::new();
    let mut global = GlobalMetrics::new();
    let mut history = GcHistory::new();
    for d in 0..100u64 {
        record_metrics(&mut local, &mut global, &mut history, snapshot(d, CollectionType::Minor));
    }
    assert_eq!(history.total_recorded(), 100);
    let recent = history.recent(1000);
    assert_eq!(recent.len(), HISTORY_SIZE);
    assert_eq!(recent[0].duration, 99);
    assert_eq!(recent[HISTORY_SIZE - 1].duration, 36);
    assert_eq!(history.max_pause_time(1000), 99);
}

#[test]
fn collection_type_default_is_no_collection() {
    assert_eq!(CollectionType::default(), CollectionType::NoCollection);
    assert_eq!(GcMetrics::default().collection_type, CollectionType::NoCollection);
}

#[test]
fn recent_after_many_records_is_the_last_ones_newest_first() {
    let mut local = ThreadMetrics::new();
    let mut global = GlobalMetrics::new();
    let mut history = GcHistory::new();
    for d in 1..=(HISTORY_SIZE as u64 + 5) {
        record_metrics(&mut local, &mut global, &mut history, snapshot(d, CollectionType::Minor));
    }
    let recent = history.recent(3);
    assert_eq!(recent.len(), 3);
    assert_eq!(recent[0].duration, HISTORY_SIZE as u64 + 5);
    assert_eq!(recent[1].duration, HISTORY_SIZE as u64 + 4);
    assert_eq!(recent[2].duration, HISTORY_SIZE as u64 + 3);
}
