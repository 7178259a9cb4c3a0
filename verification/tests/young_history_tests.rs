use rudo_gc::young_history::{
    clear_history, current_gc_cycle_id, get_gc_cycle_id, is_detection_enabled, is_suspicious_sweep,
    record_young_object, set_detection_enabled, GcCycleCounter, YoungObjectHistory,
};

#[test]
fn test_is_suspicious_young_object() {
    let mut history = YoungObjectHistory::with_capacity(16);
    history.set_enabled(true);

    let ptr = 0x1000usize;

    history.record(ptr, 1);

    assert!(history.is_suspicious(ptr, 2));
    assert!(history.is_suspicious(ptr, 3));
    assert!(!history.is_suspicious(ptr, 4));
}

#[test]
fn test_is_suspicious_not_recorded() {
    let mut history = YoungObjectHistory::with_capacity(16);
    history.set_enabled(true);

    let ptr = 0x1000usize;

    assert!(!history.is_suspicious(ptr, 5));
}

#[test]
fn test_is_suspicious_disabled() {
    let mut history = YoungObjectHistory::with_capacity(16);
    history.set_enabled(false);

    let ptr = 0x1000usize;
    history.record(ptr, 1);

    assert!(!history.is_suspicious(ptr, 2));
}

#[test]
fn test_is_suspicious_null_ptr() {
    let mut history = YoungObjectHistory::with_capacity(16);
    history.set_enabled(true);

    assert!(!history.is_suspicious(0, 5));
}

#[test]
fn test_is_suspicious_initial_gc_id_zero() {
    let mut history = YoungObjectHistory::new();
    history.set_enabled(true);

    let ptr = 0x1000usize;

    assert!(!history.is_suspicious(ptr, 0));
}

#[test]
fn young_history_same_cycle_is_not_suspicious() {
    let mut history = YoungObjectHistory::with_capacity(4);
    history.record(0x2000, 7);
    assert!(!history.is_suspicious(0x2000, 7));
    assert!(history.is_suspicious(0x2000, 9));
}

#[test]
fn young_history_ring_overwrites_oldest() {
    let mut history = YoungObjectHistory::with_capacity(2);
    history.record(0x10, 1);
    history.record(0x20, 1);
    history.record(0x30, 1);
    assert!(!history.is_suspicious(0x10, 2));
    assert!(history.is_suspicious(0x20, 2));
    assert!(history.is_suspicious(0x30, 2));
}

#[test]
fn young_history_clear_forgets() {
    let mut history = YoungObjectHistory::with_capacity(8);
    history.record(0x10, 3);
    clear_history(&mut history);
    assert!(!history.is_suspicious(0x10, 4));
}

#[test]
fn young_history_cycle_counter() {
    let mut counter = GcCycleCounter::new();
    assert_eq!(current_gc_cycle_id(&counter), 1);
    assert_eq!(get_gc_cycle_id(&mut counter), 1);
    assert_eq!(get_gc_cycle_id(&mut counter), 2);
    assert_eq!(current_gc_cycle_id(&counter), 3);
}

#[test]
fn young_history_global_style_helpers() {
    let mut counter = GcCycleCounter::new();
    let mut history = YoungObjectHistory::with_capacity(8);
    assert!(is_detection_enabled(&history));
    record_young_object(&mut history, &counter, 0x40);
    get_gc_cycle_id(&mut counter);
    assert!(is_suspicious_sweep(&history, &counter, 0x40));
    set_detection_enabled(&mut history, false);
    assert!(!is_detection_enabled(&history));
    assert!(!is_suspicious_sweep(&history, &counter, 0x40));
}

#[test]
fn young_history_capacity_is_the_ring_size() {
    assert_eq!(YoungObjectHistory::with_capacity(16).capacity(), 16);
    assert!(YoungObjectHistory::new().capacity() > 0);
}
