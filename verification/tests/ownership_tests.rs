use rudo_gc::marker::{get_owned_pages_tracker, OwnedPagesTracker};

#[test]
fn test_owned_pages_tracker_new() {
    let tracker = OwnedPagesTracker::new(1);
    assert_eq!(tracker.owned_count(), 0);
}

#[test]
fn test_owned_pages_tracker_add_remove() {
    let mut tracker = OwnedPagesTracker::new(1);
    assert_eq!(tracker.owned_count(), 0);

    let dummy_ptr = 8usize;
    tracker.add_owned_page(dummy_ptr);
    assert_eq!(tracker.owned_count(), 1);
    assert!(tracker.owns_page(dummy_ptr));

    tracker.remove_owned_page(dummy_ptr);
    assert_eq!(tracker.owned_count(), 0);
    assert!(!tracker.owns_page(dummy_ptr));
}

#[test]
fn tracker_belongs_to_its_thread() {
    let mut t = get_owned_pages_tracker(42);
    assert_eq!(t.owner_thread(), 42);
    t.add_owned_page(0x1000);
    t.add_owned_page(0x1000);
    assert_eq!(t.owned_count(), 1);
}
