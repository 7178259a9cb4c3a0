use rudo_gc::handles::{
    HandleBlock, HandleScope, HandleScopeData, HandleSlot, LocalHandles, MaybeHandle, SealedHandleScope,
    HANDLE_BLOCK_SIZE,
};

#[test]
fn test_handle_slot_null() {
    let slot = HandleSlot::null();
    assert!(slot.is_null());
    assert!(slot.as_ptr() == 0);
}

#[test]
fn test_handle_slot_new() {
    let fake_ptr = 0x1000usize;
    let slot = HandleSlot::new(fake_ptr);
    assert!(!slot.is_null());
    assert_eq!(slot.as_ptr(), fake_ptr);
}

#[test]
fn test_handle_slot_set() {
    let mut slot = HandleSlot::null();
    assert!(slot.is_null());

    let fake_ptr = 0x2000usize;
    slot.set(fake_ptr);
    assert!(!slot.is_null());
    assert_eq!(slot.as_ptr(), fake_ptr);
}

#[test]
fn test_handle_block_new() {
    let block = HandleBlock::new();
    assert!(block.next().is_none());
}

#[test]
fn test_handle_block_set_next() {
    let mut block1 = HandleBlock::new();
    let block2_index = 1usize;

    assert!(block1.next().is_none());
    block1.set_next(Some(block2_index));
    assert!(block1.next().is_some());
    assert_eq!(block1.next().unwrap(), block2_index);
}

#[test]
fn test_handle_scope_data_new() {
    let data = HandleScopeData::new();
    assert!(data.next == 0);
    assert!(data.limit == 0);
    assert_eq!(data.level, 0);
    assert!(!data.is_active());
}

#[test]
fn test_handle_scope_data_is_active() {
    let mut data = HandleScopeData::new();
    assert!(!data.is_active());

    data.level = 1;
    assert!(data.is_active());

    data.level = 5;
    assert!(data.is_active());
}

#[test]
fn test_handle_scope_data_is_sealed() {
    let mut data = HandleScopeData::new();
    data.level = 2;
    data.sealed_level = 0;
    assert!(!data.is_sealed());

    data.sealed_level = 2;
    assert!(data.is_sealed());

    data.sealed_level = 3;
    assert!(data.is_sealed());

    data.level = 4;
    assert!(!data.is_sealed());
}

#[test]
fn test_local_handles_new() {
    let handles = LocalHandles::new();
    assert!(!handles.scope_data().is_active());
}

#[test]
fn test_local_handles_add_block() {
    let mut handles = LocalHandles::new();
    let (start, end) = handles.add_block();

    assert!(start != 0);
    assert!(end != 0);
    assert!(start < end);

    let diff = end - start;
    let expected = HANDLE_BLOCK_SIZE;
    assert_eq!(diff, expected);
}

#[test]
fn test_local_handles_allocate() {
    let mut handles = LocalHandles::new();

    let slot1 = handles.allocate();
    assert!(slot1 != 0);

    let slot2 = handles.allocate();
    assert!(slot2 != 0);
    assert_ne!(slot1, slot2);

    let diff = slot2 - slot1;
    assert_eq!(diff, 1);
}

#[test]
fn test_local_handles_allocate_multiple_blocks() {
    let mut handles = LocalHandles::new();

    for _ in 0..(HANDLE_BLOCK_SIZE + 10) {
        let slot = handles.allocate();
        assert!(slot != 0);
    }
}

#[test]
fn test_local_handles_iterate_empty() {
    let handles = LocalHandles::new();
    let visited = handles.iterate();
    assert_eq!(visited.len(), 0);
}

#[test]
fn test_local_handles_iterate() {
    let mut handles = LocalHandles::new();

    let fake_ptr1 = 0x1000usize;
    let fake_ptr2 = 0x2000usize;
    let fake_ptr3 = 0x3000usize;

    let slot1 = handles.allocate();
    handles.set_slot(slot1, fake_ptr1);

    let slot2 = handles.allocate();
    handles.set_slot(slot2, fake_ptr2);

    let slot3 = handles.allocate();
    handles.set_slot(slot3, fake_ptr3);

    let visited = handles.iterate();

    assert_eq!(visited.len(), 3);
    assert!(visited.contains(&fake_ptr1));
    assert!(visited.contains(&fake_ptr2));
    assert!(visited.contains(&fake_ptr3));
}

#[test]
fn test_local_handles_iterate_skips_null() {
    let mut handles = LocalHandles::new();

    let fake_ptr = 0x1000usize;

    let slot1 = handles.allocate();
    handles.set_slot(slot1, fake_ptr);

    let _slot2 = handles.allocate();

    let slot3 = handles.allocate();
    handles.set_slot(slot3, fake_ptr);

    let count = handles.iterate().len();
    assert_eq!(count, 2);
}

#[test]
fn test_local_handles_scope_data_mut() {
    let mut handles = LocalHandles::new();

    {
        let data = handles.scope_data_mut();
        data.level = 5;
    }

    assert_eq!(handles.scope_data().level, 5);
}

#[test]
fn handle_scope_exit_restores_and_reuses_slots() {
    let mut handles = LocalHandles::new();
    let outer = HandleScope::new(&mut handles);
    let h0 = outer.handle(&mut handles, 0x10);
    {
        let inner = HandleScope::new(&mut handles);
        assert_eq!(inner.level(&handles), 2);
        for k in 0..10usize {
            inner.handle(&mut handles, 0x100 + k);
        }
        inner.exit(&mut handles);
    }
    assert_eq!(handles.scope_data().level, 1);
    assert_eq!(handles.scope_data().next, h0.slot + 1);
    let h1 = outer.handle(&mut handles, 0x20);
    assert_eq!(h1.slot, h0.slot + 1);
    assert_eq!(h1.as_ptr(&handles), 0x20);
    outer.exit(&mut handles);
    assert_eq!(handles.scope_data().level, 0);
    assert_eq!(handles.scope_data().next, 0);
}

#[test]
fn handle_iterate_follows_next_free_slot() {
    let mut handles = LocalHandles::new();
    let scope = HandleScope::new(&mut handles);
    scope.handle(&mut handles, 0x10);
    {
        let inner = HandleScope::new(&mut handles);
        inner.handle(&mut handles, 0x20);
        assert_eq!(handles.iterate(), vec![0x10, 0x20]);
        inner.exit(&mut handles);
    }
    assert_eq!(handles.iterate(), vec![0x10]);
    scope.exit(&mut handles);
}

#[test]
fn handle_blocks_chain_in_order() {
    let mut handles = LocalHandles::new();
    let scope = HandleScope::new(&mut handles);
    for k in 0..(HANDLE_BLOCK_SIZE + 1) {
        scope.handle(&mut handles, k + 1);
    }
    let all = handles.iterate();
    assert_eq!(all.len(), HANDLE_BLOCK_SIZE + 1);
    assert_eq!(all[0], 1);
    assert_eq!(all[HANDLE_BLOCK_SIZE], HANDLE_BLOCK_SIZE + 1);
    scope.exit(&mut handles);
}

#[test]
fn sealed_scope_seals_and_restores() {
    let mut handles = LocalHandles::new();
    let scope = HandleScope::new(&mut handles);
    let sealed = SealedHandleScope::new(&mut handles);
    assert!(handles.scope_data().is_sealed());
    let inner = HandleScope::new(&mut handles);
    assert!(!handles.scope_data().is_sealed());
    inner.exit(&mut handles);
    sealed.exit(&mut handles);
    assert!(!handles.scope_data().is_sealed());
    scope.exit(&mut handles);
}

#[test]
fn maybe_handle_round_trip() {
    let empty = MaybeHandle::empty();
    assert!(empty.is_empty());
    assert!(empty.to_handle().is_none());
    let mut handles = LocalHandles::new();
    let scope = HandleScope::new(&mut handles);
    let h = scope.handle(&mut handles, 0x77);
    let m = MaybeHandle::from_handle(h);
    assert!(!m.is_empty());
    assert_eq!(m.to_handle().unwrap().slot, h.slot);
    scope.exit(&mut handles);
}

#[test]
fn test_handle_scope_block_reuse_after_drop() {
    let mut h = LocalHandles::new();
    let scope1 = HandleScope::new(&mut h);
    let mut first = Vec::new();
    for _ in 0..10 {
        first.push(scope1.handle(&mut h, 0x1000).slot);
    }
    scope1.exit(&mut h);
    // The second scope reuses the first scope's block.
    let scope2 = HandleScope::new(&mut h);
    for i in 0..10 {
        assert_eq!(scope2.handle(&mut h, 0x2000).slot, first[i]);
    }
    scope2.exit(&mut h);
}

#[test]
fn test_nested_scopes_share_blocks() {
    let mut h = LocalHandles::new();
    let outer_scope = HandleScope::new(&mut h);
    let inner_scope1 = HandleScope::new(&mut h);
    let mut first: usize = 0;
    for i in 0..50 {
        let s = inner_scope1.handle(&mut h, 0x1000).slot;
        if i == 0 {
            first = s;
        }
    }
    inner_scope1.exit(&mut h);
    let inner_scope2 = HandleScope::new(&mut h);
    for i in 0..50 {
        let s = inner_scope2.handle(&mut h, 0x2000).slot;
        if i == 0 {
            assert_eq!(s, first);
        }
    }
    inner_scope2.exit(&mut h);
    outer_scope.exit(&mut h);
}

#[test]
fn test_many_scope_cycles_no_block_leak() {
    let mut h = LocalHandles::new();
    let mut slots = Vec::new();
    for _ in 0..100 {
        let scope = HandleScope::new(&mut h);
        slots.push(scope.handle(&mut h, 0x1000).slot);
        scope.exit(&mut h);
    }
    // Every cycle used the same slot of the same block.
    assert!(slots.iter().all(|&s| s == slots[0]));
    let scope = HandleScope::new(&mut h);
    assert_eq!(scope.handle(&mut h, 0x1000).slot, slots[0]);
    scope.exit(&mut h);
}

#[test]
fn test_empty_scopes_preserve_blocks() {
    let mut h = LocalHandles::new();
    let scope = HandleScope::new(&mut h);
    let first = scope.handle(&mut h, 0x1000).slot;
    scope.exit(&mut h);
    for _ in 0..50 {
        let s = HandleScope::new(&mut h);
        s.exit(&mut h);
    }
    let scope = HandleScope::new(&mut h);
    assert_eq!(scope.handle(&mut h, 0x1000).slot, first);
    scope.exit(&mut h);
}
