use rudo_gc::async_scope::AsyncScopeEntry;
use rudo_gc::tcb::{take_stack_roots, wait_for_gc_complete, ThreadControlBlock, ThreadLocalHeap, TCB_REMEMBERED_CAPACITY};
use rudo_gc::threads::{ThreadRegistry, ThreadSlot, THREAD_STATE_EXECUTING, THREAD_STATE_INACTIVE, THREAD_STATE_SAFEPOINT};

#[test]
fn new_block_is_empty_and_stealable() {
    let tcb = ThreadControlBlock::new();
    assert!(tcb.local_mark_queue().is_empty());
    assert_eq!(tcb.marked_this_slice(), 0);
    assert!(tcb.stealing_allowed());
    assert_eq!(tcb.remembered_buffer_capacity, TCB_REMEMBERED_CAPACITY);
    assert!(tcb.iterate_all_handles().is_empty());
}

#[test]
fn local_mark_queue_is_last_in_first_out() {
    let mut tcb = ThreadControlBlock::new();
    assert_eq!(tcb.pop_local_mark_work(), None);
    tcb.push_local_mark_work(0x10);
    tcb.push_local_mark_work(0x20);
    assert_eq!(tcb.local_mark_queue(), &vec![0x10, 0x20]);
    assert_eq!(tcb.pop_local_mark_work(), Some(0x20));
    assert_eq!(tcb.pop_local_mark_work(), Some(0x10));
    assert_eq!(tcb.pop_local_mark_work(), None);
}

#[test]
fn slice_counters_reset() {
    let mut tcb = ThreadControlBlock::new();
    tcb.inc_marked_this_slice(3);
    tcb.inc_marked_this_slice(4);
    assert_eq!(tcb.marked_this_slice(), 7);
    tcb.remembered_buffer.push(0x4000);
    tcb.reset_slice_counters();
    assert_eq!(tcb.marked_this_slice(), 0);
    assert!(tcb.remembered_buffer.is_empty());
    tcb.set_stealing_allowed(false);
    assert!(!tcb.stealing_allowed());
}

#[test]
fn async_scopes_register_and_unregister() {
    let mut tcb = ThreadControlBlock::new();
    let mut counter = 0u64;
    let mut a = AsyncScopeEntry::new(&mut counter);
    let mut b = AsyncScopeEntry::new(&mut counter);
    a.handle(0x100);
    b.handle(0x200);
    b.handle(0x300);
    tcb.register_async_scope(a);
    tcb.register_async_scope(b);
    assert!(tcb.is_scope_active(0));
    assert!(tcb.is_scope_active(1));
    assert_eq!(tcb.iterate_all_handles(), vec![0x100, 0x200, 0x300]);
    tcb.unregister_async_scope(0);
    assert!(!tcb.is_scope_active(0));
    assert!(tcb.is_scope_active(1));
    assert_eq!(tcb.async_scopes.len(), 1);
    assert_eq!(tcb.iterate_all_handles(), vec![0x200, 0x300]);
}

#[test]
fn waiting_thread_publishes_roots_and_leaves_active_count() {
    let mut reg = ThreadRegistry::new();
    reg.register_thread(ThreadSlot { id: 1, state: THREAD_STATE_EXECUTING, gc_requested: true });
    reg.register_thread(ThreadSlot { id: 2, state: THREAD_STATE_INACTIVE, gc_requested: true });
    reg.active_count = 1;
    let mut tcb = ThreadControlBlock::new();
    assert!(wait_for_gc_complete(&mut reg, 0, &mut tcb, vec![0xa0, 0xb0]));
    assert_eq!(reg.threads[0].state, THREAD_STATE_SAFEPOINT);
    assert_eq!(reg.active_count, 0);
    assert!(!wait_for_gc_complete(&mut reg, 1, &mut tcb, vec![0xc0]));
    assert_eq!(reg.active_count, 0);
    assert_eq!(take_stack_roots(&mut tcb), vec![0xa0, 0xb0]);
    assert!(take_stack_roots(&mut tcb).is_empty());
}

#[test]
fn thread_heap_joins_and_leaves_registry() {
    let mut reg = ThreadRegistry::new();
    let a = ThreadLocalHeap::new(&mut reg, 1);
    assert_eq!(reg.active_count, 1);
    assert!(!reg.threads[0].gc_requested);
    // A collection was requested but has not started: the new thread joins it.
    reg.gc_requested = true;
    let b = ThreadLocalHeap::new(&mut reg, 2);
    assert!(reg.threads[1].gc_requested);
    // A collection is running: the new thread is not asked to stop.
    reg.set_gc_in_progress(true);
    let c = ThreadLocalHeap::new(&mut reg, 3);
    assert!(!reg.threads[2].gc_requested);
    assert_eq!(reg.active_count, 3);
    assert_eq!(c.id, 3);
    assert!(c.heap.pages.is_empty());

    // A parked thread that ends does not leave the active count twice.
    assert!(wait_for_gc_complete(&mut reg, 1, &mut ThreadControlBlock::new(), vec![]));
    assert_eq!(reg.active_count, 2);
    b.release(&mut reg);
    assert_eq!(reg.active_count, 2);
    a.release(&mut reg);
    assert_eq!(reg.active_count, 1);
    assert_eq!(reg.threads.len(), 1);
    assert_eq!(reg.threads[0].id, 3);
    c.release(&mut reg);
    assert_eq!(reg.active_count, 0);
    assert!(reg.threads.is_empty());
}
