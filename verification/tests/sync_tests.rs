use rudo_gc::sync::{
    acquire_lock, enter_thread_shutdown, get_min_lock_order, lock_order_allowed, set_min_lock_order,
    validate_lock_order, LockGuard, LockOrder, LockOrderState,
};

#[test]
fn test_lock_order_values() {
    assert_eq!(LockOrder::LocalHeap.order_value(), 1);
    assert_eq!(LockOrder::SegmentManager.order_value(), 2);
    assert_eq!(LockOrder::GlobalMarkState.order_value(), 3);
    assert_eq!(LockOrder::GcRequest.order_value(), 4);
}

#[test]
fn test_lock_order_levels() {
    assert_eq!(LockOrder::LocalHeap.level(), 1);
    assert_eq!(LockOrder::SegmentManager.level(), 1);
    assert_eq!(LockOrder::GlobalMarkState.level(), 2);
    assert_eq!(LockOrder::GcRequest.level(), 3);
}

#[test]
fn test_lock_order_comparison() {
    assert!(LockOrder::LocalHeap.level() < LockOrder::GlobalMarkState.level());
    assert!(LockOrder::GlobalMarkState.level() < LockOrder::GcRequest.level());
}

#[test]
fn test_lock_guard_valid_order_local_heap() {
    let mut st = LockOrderState::new();
    let g1 = LockGuard::new(&mut st, LockOrder::LocalHeap);
    let g2 = LockGuard::new(&mut st, LockOrder::SegmentManager);
    let g3 = LockGuard::new(&mut st, LockOrder::GlobalMarkState);
    let g4 = LockGuard::new(&mut st, LockOrder::GcRequest);
    g4.release(&mut st);
    g3.release(&mut st);
    g2.release(&mut st);
    g1.release(&mut st);
    assert!(st.stack.is_empty());
}

#[test]
fn test_lock_guard_valid_order_segment_manager() {
    let mut st = LockOrderState::new();
    let g1 = LockGuard::new(&mut st, LockOrder::SegmentManager);
    let g2 = LockGuard::new(&mut st, LockOrder::GlobalMarkState);
    let g3 = LockGuard::new(&mut st, LockOrder::GcRequest);
    g3.release(&mut st);
    g2.release(&mut st);
    g1.release(&mut st);
}

#[test]
fn test_lock_guard_mixed_level_1_order() {
    let mut st = LockOrderState::new();
    let g1 = LockGuard::new(&mut st, LockOrder::SegmentManager);
    assert!(lock_order_allowed(LockOrder::LocalHeap, get_min_lock_order(&st)));
    let g2 = LockGuard::new(&mut st, LockOrder::LocalHeap);
    g2.release(&mut st);
    g1.release(&mut st);
}

#[test]
fn test_lock_guard_acquire_in_order() {
    let mut st = LockOrderState::new();
    let g1 = LockGuard::new(&mut st, LockOrder::LocalHeap);
    let g2 = LockGuard::new(&mut st, LockOrder::SegmentManager);
    let g3 = LockGuard::new(&mut st, LockOrder::GlobalMarkState);
    let g4 = LockGuard::new(&mut st, LockOrder::GcRequest);
    assert_eq!(st.stack, vec![1, 1, 2, 3]);
    g4.release(&mut st);
    g3.release(&mut st);
    g2.release(&mut st);
    g1.release(&mut st);
}

#[test]
fn test_lock_guard_state_restoration_after_drop() {
    let mut st = LockOrderState::new();
    {
        let g1 = LockGuard::new(&mut st, LockOrder::GlobalMarkState);
        {
            let g2 = LockGuard::new(&mut st, LockOrder::GcRequest);
            g2.release(&mut st);
        }
        g1.release(&mut st);
    }
    assert_eq!(get_min_lock_order(&st), LockOrder::LocalHeap);
    let g3 = LockGuard::new(&mut st, LockOrder::LocalHeap);
    g3.release(&mut st);
}

#[test]
fn test_lock_guard_bug_outer_drops_incorrectly() {
    let mut st = LockOrderState::new();
    let g1 = LockGuard::new(&mut st, LockOrder::LocalHeap);
    {
        let g2 = LockGuard::new(&mut st, LockOrder::SegmentManager);
        {
            let g3 = LockGuard::new(&mut st, LockOrder::GlobalMarkState);
            g3.release(&mut st);
        }
        g2.release(&mut st);
    }
    let g4 = LockGuard::new(&mut st, LockOrder::GlobalMarkState);
    g4.release(&mut st);
    g1.release(&mut st);
}

#[test]
fn test_lock_guard_multiple_nested_scopes() {
    let mut st = LockOrderState::new();
    {
        let g1 = LockGuard::new(&mut st, LockOrder::LocalHeap);
        {
            let g2 = LockGuard::new(&mut st, LockOrder::SegmentManager);
            {
                let g3 = LockGuard::new(&mut st, LockOrder::GlobalMarkState);
                g3.release(&mut st);
            }
            g2.release(&mut st);
        }
        g1.release(&mut st);
    }
    let g4 = LockGuard::new(&mut st, LockOrder::LocalHeap);
    let g5 = LockGuard::new(&mut st, LockOrder::SegmentManager);
    let g6 = LockGuard::new(&mut st, LockOrder::GlobalMarkState);
    g6.release(&mut st);
    g5.release(&mut st);
    g4.release(&mut st);
}

#[test]
fn test_segment_manager_after_local_heap() {
    let mut st = LockOrderState::new();
    let g1 = LockGuard::new(&mut st, LockOrder::LocalHeap);
    let g2 = LockGuard::new(&mut st, LockOrder::SegmentManager);
    g2.release(&mut st);
    g1.release(&mut st);
}

#[test]
fn test_segment_manager_then_gc_request() {
    let mut st = LockOrderState::new();
    let g1 = LockGuard::new(&mut st, LockOrder::SegmentManager);
    let g2 = LockGuard::new(&mut st, LockOrder::GcRequest);
    g2.release(&mut st);
    g1.release(&mut st);
}

#[test]
fn test_lock_guard_mixed_order_1() {
    let mut st = LockOrderState::new();
    let g1 = LockGuard::new(&mut st, LockOrder::SegmentManager);
    let g2 = LockGuard::new(&mut st, LockOrder::LocalHeap);
    let g3 = LockGuard::new(&mut st, LockOrder::GlobalMarkState);
    g3.release(&mut st);
    g2.release(&mut st);
    g1.release(&mut st);
}

#[test]
fn test_lock_guard_mixed_order_2() {
    let mut st = LockOrderState::new();
    let g1 = LockGuard::new(&mut st, LockOrder::LocalHeap);
    let g2 = LockGuard::new(&mut st, LockOrder::SegmentManager);
    let g3 = LockGuard::new(&mut st, LockOrder::GcRequest);
    g3.release(&mut st);
    g2.release(&mut st);
    g1.release(&mut st);
}

#[test]
fn lock_order_rejects_downgrades() {
    assert!(!lock_order_allowed(LockOrder::LocalHeap, LockOrder::GlobalMarkState));
    assert!(!lock_order_allowed(LockOrder::SegmentManager, LockOrder::GcRequest));
    assert!(!lock_order_allowed(LockOrder::GlobalMarkState, LockOrder::GcRequest));
    assert!(lock_order_allowed(LockOrder::GcRequest, LockOrder::LocalHeap));
    assert!(lock_order_allowed(LockOrder::SegmentManager, LockOrder::LocalHeap));
    assert!(lock_order_allowed(LockOrder::GlobalMarkState, LockOrder::GlobalMarkState));
}

#[test]
fn lock_order_min_is_lowest_level_held() {
    let mut st = LockOrderState::new();
    assert_eq!(get_min_lock_order(&st), LockOrder::LocalHeap);
    set_min_lock_order(&mut st, LockOrder::GcRequest);
    assert_eq!(get_min_lock_order(&st), LockOrder::GcRequest);
    set_min_lock_order(&mut st, LockOrder::GlobalMarkState);
    assert_eq!(get_min_lock_order(&st), LockOrder::GlobalMarkState);
    set_min_lock_order(&mut st, LockOrder::GcRequest);
    assert_eq!(get_min_lock_order(&st), LockOrder::GlobalMarkState);
    acquire_lock(LockOrder::GcRequest, get_min_lock_order(&st));
    validate_lock_order(LockOrder::GlobalMarkState, get_min_lock_order(&st));
}

#[test]
fn lock_order_guard_round_trip_restores_stack() {
    let mut st = LockOrderState::new();
    let g1 = LockGuard::new(&mut st, LockOrder::SegmentManager);
    let before = st.stack.clone();
    let g2 = LockGuard::new(&mut st, LockOrder::GlobalMarkState);
    assert_eq!(st.stack, vec![1, 2]);
    g2.release(&mut st);
    assert_eq!(st.stack, before);
    g1.release(&mut st);
}

#[test]
fn lock_order_shutdown_stops_tracking() {
    let mut st = LockOrderState::new();
    let g1 = LockGuard::new(&mut st, LockOrder::GcRequest);
    enter_thread_shutdown(&mut st);
    assert_eq!(get_min_lock_order(&st), LockOrder::LocalHeap);
    set_min_lock_order(&mut st, LockOrder::GlobalMarkState);
    assert_eq!(st.stack, vec![3]);
    g1.release(&mut st);
    assert_eq!(st.stack, vec![3]);
}
