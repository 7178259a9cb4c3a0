use rudo_gc::bitmap::MarkBitmap;
use rudo_gc::worklist::StealQueue;

#[test]
fn test_mark_bitmap_new() {
    let bitmap = MarkBitmap::new(512);
    assert_eq!(bitmap.capacity(), 512);
    assert_eq!(bitmap.marked_count(), 0);
}

#[test]
fn test_mark_bitmap_mark_is_marked() {
    let mut bitmap = MarkBitmap::new(512);

    assert!(!bitmap.is_marked(0));
    assert!(!bitmap.is_marked(63));

    bitmap.mark(0);
    bitmap.mark(63);

    assert!(bitmap.is_marked(0));
    assert!(bitmap.is_marked(63));
    assert!(!bitmap.is_marked(1));
}

#[test]
fn test_mark_bitmap_clear() {
    let mut bitmap = MarkBitmap::new(512);

    bitmap.mark(0);
    bitmap.mark(100);
    assert_eq!(bitmap.marked_count(), 2);

    bitmap.clear();
    assert_eq!(bitmap.marked_count(), 0);
    assert!(!bitmap.is_marked(0));
}

#[test]
fn test_mark_bitmap_idempotent() {
    let mut bitmap = MarkBitmap::new(512);

    bitmap.mark(0);
    bitmap.mark(0);
    bitmap.mark(0);

    assert_eq!(bitmap.marked_count(), 1);
}

#[test]
fn mark_bitmap_marks_every_slot_once() {
    let mut bitmap = MarkBitmap::new(512);
    for i in 0..512 {
        bitmap.mark(i);
    }
    for i in 0..512 {
        bitmap.mark(i);
    }
    assert_eq!(bitmap.marked_count(), 512);
    assert!(bitmap.is_marked(511));
}

#[test]
fn test_steal_queue_basic() {
    let mut queue: StealQueue<i32, 1024> = StealQueue::new();
    let mut bottom: usize = 0;

    assert!(queue.is_empty(&bottom));

    assert!(queue.push(&mut bottom, 42));
    assert!(!queue.is_empty(&bottom));

    assert_eq!(queue.pop(&mut bottom), Some(42));
    assert!(queue.is_empty(&bottom));

    assert_eq!(queue.pop(&mut bottom), None);
}

#[test]
fn test_steal_queue_fifo() {
    let mut queue: StealQueue<i32, 1024> = StealQueue::new();
    let mut bottom: usize = 0;

    queue.push(&mut bottom, 1);
    queue.push(&mut bottom, 2);
    queue.push(&mut bottom, 3);

    assert_eq!(queue.steal(&bottom), Some(1));
    assert_eq!(queue.steal(&bottom), Some(2));
    assert_eq!(queue.steal(&bottom), Some(3));
    assert_eq!(queue.steal(&bottom), None);
}

#[test]
fn test_steal_queue_lifo() {
    let mut queue: StealQueue<i32, 1024> = StealQueue::new();
    let mut bottom: usize = 0;

    queue.push(&mut bottom, 1);
    queue.push(&mut bottom, 2);
    queue.push(&mut bottom, 3);

    assert_eq!(queue.pop(&mut bottom), Some(3));
    assert_eq!(queue.pop(&mut bottom), Some(2));
    assert_eq!(queue.pop(&mut bottom), Some(1));
}

#[test]
fn test_steal_queue_bounds() {
    let mut queue: StealQueue<i32, 16> = StealQueue::new();
    let mut bottom: usize = 0;

    for i in 0..16 {
        assert!(queue.push(&mut bottom, i));
    }

    assert!(!queue.push(&mut bottom, 999));

    assert_eq!(queue.len(&bottom), 16);
}

#[test]
fn steal_queue_mixed_ends() {
    let mut queue: StealQueue<u64, 8> = StealQueue::new();
    let mut bottom: usize = 0;
    for i in 1..=5u64 {
        assert!(queue.push(&mut bottom, i));
    }
    assert_eq!(queue.steal(&bottom), Some(1));
    assert_eq!(queue.pop(&mut bottom), Some(5));
    assert_eq!(queue.len(&bottom), 3);
    assert!(!queue.is_full(&bottom));
    for i in 6..=10u64 {
        assert!(queue.push(&mut bottom, i));
    }
    assert!(queue.is_full(&bottom));
    assert_eq!(queue.steal(&bottom), Some(2));
}
