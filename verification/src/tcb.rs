//! The thread control block: what each mutator thread keeps for the
//! collector besides its heap. Its handle scopes and async scopes (the
//! roots its handles hold), the stack roots it published at its last
//! safepoint, its local queue of marking work with the count of objects it
//! marked in the current slice, its remembered buffer, whether other
//! workers may steal its work, and its table of cross-thread roots.

use vstd::prelude::*;
use std::collections::HashSet;
use crate::handles::{LocalHandles, HANDLE_BLOCK_SIZE};
use crate::async_scope::{AsyncScopeData, AsyncScopeEntry, async_roots};
use crate::threads::{CrossThreadRootTable, ThreadRegistry, ThreadSlot, threads_without, lemma_threads_without_absent, THREAD_STATE_EXECUTING, THREAD_STATE_SAFEPOINT};
use crate::local_heap::LocalHeap;

verus! {

broadcast use vstd::std_specs::hash::group_hash_axioms;

/// Initial capacity of a thread's remembered buffer.
pub const TCB_REMEMBERED_CAPACITY: usize = 32;

/// One mutator thread's state that the collector reads.
pub struct ThreadControlBlock {
    /// The thread's handle scopes.
    pub local_handles: LocalHandles,
    /// The thread's registered async scopes, oldest first.
    pub async_scopes: Vec<AsyncScopeEntry>,
    /// Ids of the async scopes still alive.
    pub active_scope_ids: HashSet<u64>,
    /// Roots found on the thread's stack at its last safepoint.
    pub stack_roots: Vec<usize>,
    /// The thread's own queue of objects to mark.
    pub local_mark_queue: Vec<usize>,
    /// Objects the thread marked in the current slice.
    pub marked_this_slice: usize,
    /// Dirty pages recorded by the thread's barrier, not yet merged.
    pub remembered_buffer: Vec<usize>,
    /// Length at which the remembered buffer is merged.
    pub remembered_buffer_capacity: usize,
    /// Other workers may steal the thread's marking work.
    pub stealing_allowed: bool,
    /// Roots held by the thread's cross-thread handles.
    pub cross_thread_roots: CrossThreadRootTable,
}

/// The data of a list of async scopes, in order.
pub open spec fn scope_datas(s: Seq<AsyncScopeEntry>) -> Seq<AsyncScopeData> {
    s.map_values(|e: AsyncScopeEntry| e.data)
}

/// The async scopes of `s` other than the one with id `id`, in order.
pub open spec fn scopes_without(s: Seq<AsyncScopeEntry>, id: u64) -> Seq<AsyncScopeEntry>
    decreases s.len(),
{
    if s.len() == 0 {
        s
    } else if s.last().id == id {
        scopes_without(s.drop_last(), id)
    } else {
        scopes_without(s.drop_last(), id).push(s.last())
    }
}

impl ThreadControlBlock {
    /// A block for a thread that has no handle, scope, root or marking work
    /// yet, whose work may be stolen.
    pub fn new() -> (t: Self)
        ensures
            t.local_handles.wf(),
            t.local_handles.n_blocks() == 0,
            t.async_scopes@ == Seq::<AsyncScopeEntry>::empty(),
            t.active_scope_ids@ == Set::<u64>::empty(),
            t.stack_roots@ == Seq::<usize>::empty(),
            t.local_mark_queue@ == Seq::<usize>::empty(),
            t.marked_this_slice == 0,
            t.remembered_buffer@ == Seq::<usize>::empty(),
            t.remembered_buffer_capacity == TCB_REMEMBERED_CAPACITY,
            t.stealing_allowed,
            t.cross_thread_roots.next_id == 0,
            t.cross_thread_roots.strong@ == Map::<u64, usize>::empty(),
    {
        ThreadControlBlock {
            local_handles: LocalHandles::new(),
            async_scopes: Vec::new(),
            active_scope_ids: HashSet::new(),
            stack_roots: Vec::new(),
            local_mark_queue: Vec::new(),
            marked_this_slice: 0,
            remembered_buffer: Vec::new(),
            remembered_buffer_capacity: TCB_REMEMBERED_CAPACITY,
            stealing_allowed: true,
            cross_thread_roots: CrossThreadRootTable::new(),
        }
    }

    /// Registers an async scope: its slots become roots of this thread and
    /// its id counts as alive.
    pub fn register_async_scope(&mut self, entry: AsyncScopeEntry)
        ensures
            final(self).async_scopes@ == old(self).async_scopes@.push(entry),
            final(self).active_scope_ids@ == old(self).active_scope_ids@.insert(entry.id),
            final(self).local_mark_queue@ == old(self).local_mark_queue@,
            final(self).stack_roots@ == old(self).stack_roots@,
    {
        let id = entry.id;
        self.async_scopes.push(entry);
        self.active_scope_ids.insert(id);
    }

    /// Unregisters every async scope with id `id`; the id no longer counts
    /// as alive.
    pub fn unregister_async_scope(&mut self, id: u64)
        ensures
            final(self).async_scopes@ == scopes_without(old(self).async_scopes@, id),
            final(self).active_scope_ids@ == old(self).active_scope_ids@.remove(id),
            final(self).local_mark_queue@ == old(self).local_mark_queue@,
            final(self).stack_roots@ == old(self).stack_roots@,
    {
        let ghost pre = self.async_scopes@;
        let mut k: usize = 0;
        let ghost mut j: int = 0;
        while k < self.async_scopes.len()
            invariant
                0 <= j <= pre.len(),
                k == scopes_without(pre.take(j), id).len(),
                self.async_scopes@ == scopes_without(pre.take(j), id) + pre.skip(j),
                self.active_scope_ids@ == old(self).active_scope_ids@,
                self.local_mark_queue@ == old(self).local_mark_queue@,
                self.stack_roots@ == old(self).stack_roots@,
            decreases pre.len() - j,
        {
            proof {
                assert(pre.take(j + 1).drop_last() =~= pre.take(j));
                assert(pre.take(j + 1).last() == pre[j]);
                assert(self.async_scopes@[k as int] == pre[j]);
            }
            if self.async_scopes[k].id == id {
                let _gone = self.async_scopes.remove(k);
                proof {
                    assert(self.async_scopes@ =~= scopes_without(pre.take(j + 1), id) + pre.skip(j + 1));
                    j = j + 1;
                }
            } else {
                proof {
                    assert(self.async_scopes@ =~= scopes_without(pre.take(j + 1), id) + pre.skip(j + 1));
                    j = j + 1;
                }
                k = k + 1;
            }
        }
        proof {
            assert(j == pre.len());
            assert(pre.take(j) =~= pre);
            assert(self.async_scopes@ =~= scopes_without(pre, id));
        }
        self.active_scope_ids.remove(&id);
    }

    /// Whether the async scope with id `id` is still alive.
    pub fn is_scope_active(&self, id: u64) -> (r: bool)
        ensures
            r == self.active_scope_ids@.contains(id),
    {
        self.active_scope_ids.contains(&id)
    }

    /// Every root the thread's handles hold: the handle scopes' handles
    /// first, then each async scope's in registration order, empty slots
    /// skipped.
    pub fn iterate_all_handles(&self) -> (r: Vec<usize>)
        requires
            self.local_handles.wf(),
            forall|k: int| 0 <= k < self.async_scopes.len() ==> (#[trigger] self.async_scopes@[k]).data.wf(),
        ensures
            r@ == self.local_handles.visits(self.local_handles.n_blocks() * HANDLE_BLOCK_SIZE) + async_roots(
                scope_datas(self.async_scopes@),
            ),
    {
        let mut r = self.local_handles.iterate();
        let ghost base = r@;
        let ghost all = scope_datas(self.async_scopes@);
        let mut k: usize = 0;
        while k < self.async_scopes.len()
            invariant
                k <= self.async_scopes.len(),
                all == scope_datas(self.async_scopes@),
                forall|q: int| 0 <= q < self.async_scopes.len() ==> (#[trigger] self.async_scopes@[q]).data.wf(),
                r@ == base + async_roots(all.take(k as int)),
            decreases self.async_scopes.len() - k,
        {
            let mut part = self.async_scopes[k].data.iterate();
            proof {
                assert(all.take(k + 1).drop_last() =~= all.take(k as int));
                assert(all.take(k + 1).last() == self.async_scopes@[k as int].data);
            }
            r.append(&mut part);
            proof {
                assert(r@ =~= base + async_roots(all.take(k + 1)));
            }
            k = k + 1;
        }
        proof {
            assert(all.take(self.async_scopes.len() as int) =~= all);
        }
        r
    }

    /// Queues `ptr` for marking by this thread.
    pub fn push_local_mark_work(&mut self, ptr: usize)
        ensures
            final(self).local_mark_queue@ == old(self).local_mark_queue@.push(ptr),
            final(self).marked_this_slice == old(self).marked_this_slice,
    {
        self.local_mark_queue.push(ptr);
    }

    /// Takes the most recently queued object, if any.
    pub fn pop_local_mark_work(&mut self) -> (r: Option<usize>)
        ensures
            old(self).local_mark_queue@.len() == 0 ==> r is None && final(self).local_mark_queue@ == old(
                self,
            ).local_mark_queue@,
            old(self).local_mark_queue@.len() > 0 ==> r == Some(old(self).local_mark_queue@.last())
                && final(self).local_mark_queue@ == old(self).local_mark_queue@.drop_last(),
            final(self).marked_this_slice == old(self).marked_this_slice,
    {
        self.local_mark_queue.pop()
    }

    /// The thread's queue of objects to mark.
    pub fn local_mark_queue(&self) -> (q: &Vec<usize>)
        ensures
            q@ == self.local_mark_queue@,
    {
        &self.local_mark_queue
    }

    /// Objects the thread marked in the current slice.
    pub fn marked_this_slice(&self) -> (n: usize)
        ensures
            n == self.marked_this_slice,
    {
        self.marked_this_slice
    }

    /// Counts `count` more objects marked in the current slice.
    pub fn inc_marked_this_slice(&mut self, count: usize)
        requires
            old(self).marked_this_slice + count <= usize::MAX,
        ensures
            final(self).marked_this_slice == old(self).marked_this_slice + count,
            final(self).local_mark_queue@ == old(self).local_mark_queue@,
    {
        self.marked_this_slice = self.marked_this_slice + count;
    }

    /// Starts a new slice: nothing marked yet and the remembered buffer
    /// emptied.
    pub fn reset_slice_counters(&mut self)
        ensures
            final(self).marked_this_slice == 0,
            final(self).remembered_buffer@ == Seq::<usize>::empty(),
            final(self).local_mark_queue@ == old(self).local_mark_queue@,
            final(self).stealing_allowed == old(self).stealing_allowed,
    {
        self.marked_this_slice = 0;
        self.remembered_buffer.clear();
    }

    /// Whether other workers may steal this thread's work.
    pub fn stealing_allowed(&self) -> (r: bool)
        ensures
            r == self.stealing_allowed,
    {
        self.stealing_allowed
    }

    /// Allows or forbids other workers to steal this thread's work.
    pub fn set_stealing_allowed(&mut self, allowed: bool)
        ensures
            final(self).stealing_allowed == allowed,
            final(self).local_mark_queue@ == old(self).local_mark_queue@,
            final(self).marked_this_slice == old(self).marked_this_slice,
    {
        self.stealing_allowed = allowed;
    }
}

/// Hands the stack roots the thread published to the collector, leaving
/// none behind.
pub fn take_stack_roots(tcb: &mut ThreadControlBlock) -> (r: Vec<usize>)
    ensures
        r@ == old(tcb).stack_roots@,
        final(tcb).stack_roots@ == Seq::<usize>::empty(),
        final(tcb).local_mark_queue@ == old(tcb).local_mark_queue@,
{
    let mut r: Vec<usize> = Vec::new();
    std::mem::swap(&mut r, &mut tcb.stack_roots);
    r
}

/// A thread waiting for a running collection: when it is executing it
/// moves to the safepoint state, publishes the stack roots it found and
/// leaves the active count (which wraps as the shared counter does), and
/// returns true: it must then park until its request flag is cleared.
/// A thread not executing changes nothing. `idx` is the thread's place in
/// the registry.
pub fn wait_for_gc_complete(
    registry: &mut ThreadRegistry,
    idx: usize,
    tcb: &mut ThreadControlBlock,
    roots: Vec<usize>,
) -> (parks: bool)
    requires
        idx < old(registry).threads.len(),
    ensures
        parks == (old(registry).threads@[idx as int].state == THREAD_STATE_EXECUTING),
        parks ==> {
            &&& final(registry).threads@ == old(registry).threads@.update(
                idx as int,
                ThreadSlot { state: THREAD_STATE_SAFEPOINT, ..old(registry).threads@[idx as int] },
            )
            &&& final(registry).active_count == old(registry).active_count.wrapping_sub(1)
            &&& final(tcb).stack_roots@ == roots@
        },
        !parks ==> final(registry).threads@ == old(registry).threads@ && final(registry).active_count == old(
            registry,
        ).active_count && final(tcb).stack_roots@ == old(tcb).stack_roots@,
        final(registry).gc_requested == old(registry).gc_requested,
        final(registry).gc_in_progress == old(registry).gc_in_progress,
        final(tcb).local_mark_queue@ == old(tcb).local_mark_queue@,
{
    let t = registry.threads[idx];
    if t.state != THREAD_STATE_EXECUTING {
        return false;
    }
    registry.threads.set(idx, ThreadSlot { state: THREAD_STATE_SAFEPOINT, ..t });
    tcb.stack_roots = roots;
    registry.active_count = registry.active_count.wrapping_sub(1);
    true
}


/// The state of the first registered thread with identity `id`, if any.
pub open spec fn state_of(s: Seq<ThreadSlot>, id: u64) -> Option<usize>
    decreases s.len(),
{
    if s.len() == 0 {
        None
    } else if s[0].id == id {
        Some(s[0].state)
    } else {
        state_of(s.drop_first(), id)
    }
}

/// A thread's heap together with its control block and its identity in
/// the thread registry.
pub struct ThreadLocalHeap {
    /// Identity of the thread in the registry.
    pub id: u64,
    /// The thread's control block.
    pub tcb: ThreadControlBlock,
    /// The thread's heap.
    pub heap: LocalHeap,
}

impl ThreadLocalHeap {
    /// Sets up the heap of a starting thread and registers the thread as
    /// executing and active. When a collection was requested and has not
    /// started yet, the thread is asked to stop as well; a thread that
    /// starts while a collection runs is not, since that collection never
    /// scans it.
    pub fn new(registry: &mut ThreadRegistry, id: u64) -> (t: Self)
        ensures
            t.id == id,
            t.heap.pages@ == Seq::<crate::lookup::PageAt>::empty(),
            t.tcb.local_mark_queue@ == Seq::<usize>::empty(),
            t.tcb.stack_roots@ == Seq::<usize>::empty(),
            final(registry).threads@ == old(registry).threads@.push(
                ThreadSlot {
                    id,
                    state: THREAD_STATE_EXECUTING,
                    gc_requested: !old(registry).gc_in_progress && old(registry).gc_requested,
                },
            ),
            final(registry).active_count == old(registry).active_count.wrapping_add(1),
            final(registry).gc_requested == old(registry).gc_requested,
            final(registry).gc_in_progress == old(registry).gc_in_progress,
    {
        let requested = !registry.is_gc_in_progress() && registry.gc_requested;
        registry.register_thread(ThreadSlot { id, state: THREAD_STATE_EXECUTING, gc_requested: requested });
        registry.active_count = registry.active_count.wrapping_add(1);
        ThreadLocalHeap { id, tcb: ThreadControlBlock::new(), heap: LocalHeap::new() }
    }

    /// The end of the thread: if it is executing it leaves the active
    /// count, and it leaves the registry.
    pub fn release(self, registry: &mut ThreadRegistry)
        ensures
            final(registry).active_count == (if state_of(old(registry).threads@, self.id) == Some(THREAD_STATE_EXECUTING) {
                old(registry).active_count.wrapping_sub(1)
            } else {
                old(registry).active_count
            }),
            final(registry).threads@ == threads_without(old(registry).threads@, self.id),
            final(registry).gc_requested == old(registry).gc_requested,
            final(registry).gc_in_progress == old(registry).gc_in_progress,
    {
        let ghost all = registry.threads@;
        let mut k: usize = 0;
        let mut executing = false;
        proof {
            assert(all.skip(0) =~= all);
        }
        while k < registry.threads.len()
            invariant_except_break
                state_of(all, self.id) == state_of(all.skip(k as int), self.id),
                !executing,
            invariant
                k <= registry.threads.len(),
                registry.threads@ == all,
                all == old(registry).threads@,
                registry.active_count == old(registry).active_count,
                registry.gc_requested == old(registry).gc_requested,
                registry.gc_in_progress == old(registry).gc_in_progress,
            ensures
                registry.threads@ == all,
                registry.active_count == old(registry).active_count,
                registry.gc_requested == old(registry).gc_requested,
                registry.gc_in_progress == old(registry).gc_in_progress,
                executing == (state_of(all, self.id) == Some(THREAD_STATE_EXECUTING)),
            decreases registry.threads.len() - k,
        {
            proof {
                assert(all.skip(k as int).drop_first() =~= all.skip(k + 1));
                assert(all.skip(k as int)[0] == all[k as int]);
            }
            let t = registry.threads[k];
            if t.id == self.id {
                executing = t.state == THREAD_STATE_EXECUTING;
                break;
            }
            k = k + 1;
        }
        if executing {
            registry.active_count = registry.active_count.wrapping_sub(1);
        }
        registry.unregister_thread(self.id);
    }
}


/// A thread appended after threads of other identities is found with its
/// own state.
proof fn lemma_state_of_pushed(s: Seq<ThreadSlot>, t: ThreadSlot)
    requires
        forall|k: int| 0 <= k < s.len() ==> (#[trigger] s[k]).id != t.id,
    ensures
        state_of(s.push(t), t.id) == Some(t.state),
    decreases s.len(),
{
    if s.len() > 0 {
        assert(s[0].id != t.id);
        assert(s.push(t)[0] == s[0]);
        assert(s.push(t).drop_first() =~= s.drop_first().push(t));
        assert forall|k: int| 0 <= k < s.drop_first().len() implies (#[trigger] s.drop_first()[k]).id != t.id by {
            assert(s.drop_first()[k] == s[k + 1]);
        }
        lemma_state_of_pushed(s.drop_first(), t);
    } else {
        assert(s.push(t)[0] == t);
    }
}

/// A thread that starts and then ends, while no other registered thread
/// has its identity, leaves the registered threads and the active count as
/// they were: it was registered executing, so its end takes it out of the
/// count again.
pub proof fn law_thread_start_end(threads: Seq<ThreadSlot>, active: usize, id: u64, requested: bool)
    requires
        forall|k: int| 0 <= k < threads.len() ==> (#[trigger] threads[k]).id != id,
    ensures
        ({
            let t = ThreadSlot { id, state: THREAD_STATE_EXECUTING, gc_requested: requested };
            &&& state_of(threads.push(t), id) == Some(THREAD_STATE_EXECUTING)
            &&& threads_without(threads.push(t), id) == threads
        }),
        active.wrapping_add(1).wrapping_sub(1) == active,
{
    let t = ThreadSlot { id, state: THREAD_STATE_EXECUTING, gc_requested: requested };
    lemma_state_of_pushed(threads, t);
    assert(threads.push(t).drop_last() =~= threads);
    lemma_threads_without_absent(threads, id);
}

} // verus!
