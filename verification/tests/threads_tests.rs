use rudo_gc::async_scope::{AsyncScopeData, AsyncScopeEntry, GcScope};
use rudo_gc::page::PageHeader;
use rudo_gc::threads::{
    check_safepoint, enter_rendezvous, BoxState, GcHandle, CrossThreadRootTable, Downgrade, HandleId,
    ThreadRegistry, ThreadSlot, Tlab, INVALID_HANDLE_ID, THREAD_STATE_EXECUTING, THREAD_STATE_INACTIVE,
    THREAD_STATE_SAFEPOINT,
};
use std::any::TypeId;
use std::collections::HashMap;

fn registry() -> ThreadRegistry {
    ThreadRegistry {
        threads: vec![
            ThreadSlot { id: 1, state: THREAD_STATE_EXECUTING, gc_requested: false },
            ThreadSlot { id: 2, state: THREAD_STATE_EXECUTING, gc_requested: false },
            ThreadSlot { id: 3, state: THREAD_STATE_INACTIVE, gc_requested: false },
        ],
        active_count: 2,
        gc_requested: false,
        gc_in_progress: false,
    }
}

#[test]
fn handshake_parks_and_resumes() {
    let mut reg = registry();
    assert!(!reg.request_gc_handshake());
    assert!(reg.gc_requested);
    assert!(reg.threads.iter().all(|t| t.gc_requested));
    assert!(check_safepoint(reg.gc_requested, false));
    assert!(!check_safepoint(reg.gc_requested, true));
    let global = reg.gc_requested;
    assert!(enter_rendezvous(&mut reg.threads[1], global));
    assert_eq!(reg.threads[1].state, THREAD_STATE_SAFEPOINT);
    assert!(!enter_rendezvous(&mut reg.threads[2], global));
    reg.active_count -= 1;
    reg.resume_all_threads();
    assert!(!reg.gc_requested);
    assert_eq!(reg.active_count, 2);
    assert_eq!(reg.threads[1].state, THREAD_STATE_EXECUTING);
    assert!(!reg.threads[1].gc_requested);
    assert!(reg.threads[0].gc_requested);
    reg.clear_gc_request();
    assert!(reg.threads.iter().all(|t| !t.gc_requested));
}

#[test]
fn sole_active_thread_collects_alone() {
    let mut reg = registry();
    reg.active_count = 1;
    assert!(reg.request_gc_handshake());
}

#[test]
fn rendezvous_without_request_does_nothing() {
    let mut t = ThreadSlot { id: 9, state: THREAD_STATE_EXECUTING, gc_requested: false };
    assert!(!enter_rendezvous(&mut t, false));
    assert_eq!(t.state, THREAD_STATE_EXECUTING);
    t.gc_requested = true;
    assert!(enter_rendezvous(&mut t, false));
}

#[test]
fn root_table_ids_and_roots() {
    let mut table = CrossThreadRootTable::new();
    let a = table.allocate_id();
    let b = table.allocate_id();
    assert_eq!(a, HandleId(0));
    assert_eq!(b, HandleId(1));
    table.register(a, 0x100);
    assert!(table.is_registered(a));
    assert!(!table.is_registered(b));
    assert_eq!(table.unregister(a), Some(0x100));
    assert_eq!(table.unregister(a), None);
    assert!(!table.is_registered(a));
    assert_eq!(HandleId::invalid(), HandleId(INVALID_HANDLE_ID));
}

fn live_box() -> BoxState {
    BoxState { ref_count: 1, weak_count: 0, dead: false, dropping_state: 0, under_construction: false }
}

#[test]
fn downgrade_raises_weak_count_or_yields_null() {
    let mut table = CrossThreadRootTable::new();
    let id = table.allocate_id();
    table.register(id, 0x100);
    let orphans: HashMap<u64, usize> = HashMap::new();
    let h = GcHandle { ptr: 0x100, handle_id: id, origin_thread: 7 };
    let mut st = live_box();
    assert_eq!(h.downgrade(true, &table, &orphans, &mut st, Some(true)), Downgrade::Weak);
    assert_eq!(st.weak_count, 1);
    assert_eq!(h.downgrade(true, &table, &orphans, &mut st, None), Downgrade::Weak);
    assert_eq!(st.weak_count, 2);
    let mut freed = BoxState { ref_count: 0, weak_count: 0, dead: true, dropping_state: 1, under_construction: false };
    assert_eq!(h.downgrade(true, &table, &orphans, &mut freed, Some(false)), Downgrade::Null);
    assert_eq!(freed.weak_count, 0);
}

#[test]
fn cross_handle_resolve_and_unregister() {
    let mut table = CrossThreadRootTable::new();
    let id = table.allocate_id();
    table.register(id, 0x100);
    let mut orphans: HashMap<u64, usize> = HashMap::new();
    let mut h = GcHandle { ptr: 0x100, handle_id: id, origin_thread: 7 };
    let mut obj = live_box();
    assert!(h.is_valid(true, &table, &orphans));
    assert!(!h.try_resolve(8, true, &table, &orphans, &mut obj, Some(true)));
    assert!(h.try_resolve(7, true, &table, &orphans, &mut obj, Some(true)));
    assert_eq!(obj.ref_count, 2);
    assert!(!h.try_resolve(7, true, &table, &orphans, &mut obj, Some(false)));
    h.resolve(7, true, &table, &orphans, &mut obj, None);
    assert_eq!(obj.ref_count, 3);
    assert!(!h.is_valid(false, &table, &orphans));
    h.unregister(true, &mut table, &mut orphans, &mut obj);
    assert_eq!(obj.ref_count, 2);
    assert!(!h.is_valid(true, &table, &orphans));
    assert!(!table.is_registered(id));
    h.unregister(true, &mut table, &mut orphans, &mut obj);
    assert_eq!(obj.ref_count, 2);
}

#[test]
fn cross_handle_release_from_orphan_table() {
    let mut table = CrossThreadRootTable::new();
    let mut orphans: HashMap<u64, usize> = HashMap::new();
    orphans.insert(5, 0x200);
    let mut h = GcHandle { ptr: 0x200, handle_id: HandleId(5), origin_thread: 1 };
    let mut obj = live_box();
    assert!(h.is_valid(false, &table, &orphans));
    h.release(false, &mut table, &mut orphans, &mut obj, Some(false));
    assert!(orphans.is_empty());
    assert_eq!(obj.ref_count, 1);
    assert_eq!(h.handle_id, HandleId(INVALID_HANDLE_ID));
}

#[test]
fn tlab_bumps_and_marks_allocated() {
    let page_start = 0x10000usize;
    let hs = PageHeader::header_size(64);
    let mut header = PageHeader::new(64, 32, hs as u16, 0, 0);
    let mut tlab = Tlab { bump_ptr: page_start + hs, bump_end: page_start + hs + 128, current_page: Some(page_start) };
    assert_eq!(tlab.bump_alloc(64, &mut header), Some(page_start + hs));
    assert!(header.is_allocated(0));
    assert_eq!(tlab.bump_alloc(64, &mut header), Some(page_start + hs + 64));
    assert!(header.is_allocated(1));
    assert_eq!(tlab.bump_alloc(64, &mut header), None);
    let mut empty = Tlab::new();
    assert_eq!(empty.bump_alloc(64, &mut header), None);
}

#[test]
fn async_scope_roots_in_order() {
    let mut counter = 1u64;
    let mut entry = AsyncScopeEntry::new(&mut counter);
    assert_eq!(entry.id, 1);
    assert_eq!(counter, 2);
    let h = entry.handle(0x500);
    assert_eq!(h.slot, 0);
    assert_eq!(h.scope_id, 1);
    entry.handle(0);
    entry.handle(0x600);
    assert_eq!(entry.data.iterate(), vec![0x500, 0x600]);
}

#[test]
fn gc_scope_tracks_and_roots() {
    let mut scope = GcScope::new();
    assert!(scope.is_empty());
    scope.track(0x10, TypeId::of::<u32>()).track(0x20, TypeId::of::<u64>());
    let mut other = GcScope::new();
    other.track_slice(&[0x30, 0x40], TypeId::of::<u8>());
    scope.track_from(&other);
    assert_eq!(scope.len(), 4);
    let mut data = AsyncScopeData::new();
    let handles = scope.root_in(&mut data);
    assert_eq!(handles.len(), 4);
    assert_eq!(handles[1].slot, 1);
    assert_eq!(handles[1].type_id(), TypeId::of::<u64>());
    assert_eq!(handles[3].type_id(), TypeId::of::<u8>());
    assert_eq!(data.iterate(), vec![0x10, 0x20, 0x30, 0x40]);
}

#[test]
fn cross_thread_roots_are_all_visited() {
    let mut t = CrossThreadRootTable::new();
    let a = t.allocate_id();
    let b = t.allocate_id();
    t.register(a, 0x100);
    t.register(b, 0x200);
    let mut roots = t.iterate_cross_thread_roots();
    roots.sort();
    assert_eq!(roots, vec![0x100, 0x200]);
    t.unregister(a);
    assert_eq!(t.iterate_cross_thread_roots(), vec![0x200]);
}

#[test]
fn registry_registers_and_unregisters_by_identity() {
    let mut reg = ThreadRegistry::new();
    assert!(reg.threads.is_empty());
    assert!(!reg.is_gc_in_progress());
    reg.register_thread(ThreadSlot { id: 4, state: THREAD_STATE_EXECUTING, gc_requested: false });
    reg.register_thread(ThreadSlot { id: 5, state: THREAD_STATE_INACTIVE, gc_requested: false });
    reg.register_thread(ThreadSlot { id: 6, state: THREAD_STATE_EXECUTING, gc_requested: true });
    reg.unregister_thread(5);
    assert_eq!(reg.threads.iter().map(|t| t.id).collect::<Vec<_>>(), vec![4, 6]);
    // An identity not registered changes nothing.
    reg.unregister_thread(42);
    assert_eq!(reg.threads.len(), 2);
    reg.set_gc_in_progress(true);
    assert!(reg.is_gc_in_progress());
    reg.set_gc_in_progress(false);
    assert!(!reg.is_gc_in_progress());
}

#[test]
fn clone_on_origin_registers_a_new_root() {
    let mut table = CrossThreadRootTable::new();
    let id = table.allocate_id();
    table.register(id, 0x100);
    let mut orphans: HashMap<u64, usize> = HashMap::new();
    let h = GcHandle { ptr: 0x100, handle_id: id, origin_thread: 7 };
    let mut obj = live_box();
    let mut c = h.clone(7, true, &mut table, &orphans, &mut obj, Some(true));
    assert_eq!(c.ptr, 0x100);
    assert_eq!(c.origin_thread, 7);
    assert_eq!(c.handle_id, HandleId(1));
    assert_eq!(obj.ref_count, 2);
    assert!(table.is_registered(id));
    assert!(table.is_registered(c.handle_id));
    // Each handle holds its own root.
    c.unregister(true, &mut table, &mut orphans, &mut obj);
    assert!(h.is_valid(true, &table, &orphans));
    assert_eq!(obj.ref_count, 1);
}
