use rudo_gc::async_scope::{AsyncScopeData, AsyncScopeEntry};
use rudo_gc::handles::{EscapeableHandleScope, HandleScope, LocalHandles};
use rudo_gc::lookup::get_allocating_thread_id;
use rudo_gc::page::PageHeader;
use rudo_gc::tcb::ThreadControlBlock;

#[test]
fn escaped_handle_survives_inner_scope() {
    let mut handles = LocalHandles::new();
    let parent = HandleScope::new(&mut handles);
    let mut esc = EscapeableHandleScope::new(&mut handles);
    assert_eq!(handles.scope_data().level, 2);
    let inner = esc.handle(&mut handles, 0xabc0);
    let _other = esc.handle(&mut handles, 0xdef0);
    let out = esc.escape(&mut handles, &parent, inner);
    assert!(esc.escaped);
    assert_eq!(out.slot, esc.escape_slot);
    assert_eq!(out.as_ptr(&handles), 0xabc0);
    let slot = esc.escape_slot;
    esc.exit(&mut handles);
    assert_eq!(handles.scope_data().level, 1);
    assert_eq!(handles.scope_data().next, slot + 1);
    assert_eq!(out.as_ptr(&handles), 0xabc0);
    parent.exit(&mut handles);
    assert_eq!(handles.scope_data().level, 0);
}

#[test]
fn all_handles_are_roots() {
    use_all_handles();
}

fn use_all_handles() {
    let mut tcb = ThreadControlBlock::new();
    let scope = HandleScope::new(&mut tcb.local_handles);
    scope.handle(&mut tcb.local_handles, 0x100);
    scope.handle(&mut tcb.local_handles, 0x200);
    let mut counter = 7;
    let mut entry = AsyncScopeEntry::new(&mut counter);
    entry.data.root(0x300);
    tcb.register_async_scope(entry);
    let roots = tcb.iterate_all_handles();
    assert_eq!(roots, vec![0x100, 0x200, 0x300]);
    let _unused = AsyncScopeData::new();
    let h = PageHeader::new(64, 4, 1600, 0, 9);
    assert_eq!(get_allocating_thread_id(0x5000, 0x1000, 0x9000, &h), 9);
    assert_eq!(get_allocating_thread_id(0x9001, 0x1000, 0x9000, &h), 0);
}
