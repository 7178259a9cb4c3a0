//! Coordination between mutator threads and the collector: the safepoint
//! handshake over the thread registry, the table of cross-thread handle
//! roots, downgrading a cross-thread handle to a weak one, and bump
//! allocation from a thread-local allocation buffer.

use vstd::prelude::*;
use std::collections::HashMap;
use crate::page::{PageHeader, spec_header_size, same_scalars, PAGE_SLOTS};

verus! {

broadcast use vstd::std_specs::hash::group_hash_axioms;

/// Thread state: running mutator code.
pub const THREAD_STATE_EXECUTING: usize = 0;
/// Thread state: parked at a safepoint for a collection.
pub const THREAD_STATE_SAFEPOINT: usize = 1;
/// Thread state: blocked outside the collector's reach.
pub const THREAD_STATE_INACTIVE: usize = 2;

/// What the collector knows of one mutator thread.
#[derive(Clone, Copy)]
pub struct ThreadSlot {
    /// Identity of the thread's control block.
    pub id: u64,
    /// Executing, at a safepoint, or inactive.
    pub state: usize,
    /// The collector asked this thread to stop.
    pub gc_requested: bool,
}

/// All mutator threads, how many of them run, and the global request flag.
pub struct ThreadRegistry {
    /// Registered threads.
    pub threads: Vec<ThreadSlot>,
    /// Threads not parked.
    pub active_count: usize,
    /// A collection was requested.
    pub gc_requested: bool,
    /// A collection is running (seen by threads that start meanwhile).
    pub gc_in_progress: bool,
}

/// Whether a thread at an allocation or explicit safepoint must join the
/// rendezvous: a collection was requested and this thread is not the
/// collector.
pub fn check_safepoint(gc_requested: bool, collecting: bool) -> (r: bool)
    ensures
        r == (gc_requested && !collecting),
{
    gc_requested && !collecting
}

/// A thread reaching a safepoint: when a collection was requested
/// (globally or of this thread) and the thread is executing, it moves to
/// the safepoint state and returns true: it must publish its roots, leave
/// the active count and park until released. Otherwise nothing changes.
pub fn enter_rendezvous(thread: &mut ThreadSlot, global_requested: bool) -> (parks: bool)
    ensures
        parks == ((global_requested || old(thread).gc_requested) && old(thread).state == THREAD_STATE_EXECUTING),
        parks ==> *final(thread) == (ThreadSlot { state: THREAD_STATE_SAFEPOINT, ..*old(thread) }),
        !parks ==> *final(thread) == *old(thread),
{
    if !global_requested && !thread.gc_requested {
        return false;
    }
    if thread.state != THREAD_STATE_EXECUTING {
        return false;
    }
    thread.state = THREAD_STATE_SAFEPOINT;
    true
}

/// The number of threads of `s` at a safepoint.
pub open spec fn parked_count(s: Seq<ThreadSlot>) -> int
    decreases s.len(),
{
    if s.len() == 0 {
        0
    } else {
        parked_count(s.drop_last()) + if s.last().state == THREAD_STATE_SAFEPOINT { 1int } else { 0 }
    }
}

/// At most every thread is parked.
pub proof fn lemma_parked_count_bound(s: Seq<ThreadSlot>)
    ensures
        0 <= parked_count(s) <= s.len(),
    decreases s.len(),
{
    if s.len() > 0 {
        lemma_parked_count_bound(s.drop_last());
    }
}

/// The threads of `s` other than the one with identity `id`, in order.
pub open spec fn threads_without(s: Seq<ThreadSlot>, id: u64) -> Seq<ThreadSlot>
    decreases s.len(),
{
    if s.len() == 0 {
        s
    } else if s.last().id == id {
        threads_without(s.drop_last(), id)
    } else {
        threads_without(s.drop_last(), id).push(s.last())
    }
}

impl ThreadRegistry {
    /// No thread, nothing active, no collection requested or running.
    pub fn new() -> (r: Self)
        ensures
            r.threads@ == Seq::<ThreadSlot>::empty(),
            r.active_count == 0,
            !r.gc_requested,
            !r.gc_in_progress,
    {
        ThreadRegistry { threads: Vec::new(), active_count: 0, gc_requested: false, gc_in_progress: false }
    }

    /// Adds a thread at the end of the registry.
    pub fn register_thread(&mut self, thread: ThreadSlot)
        ensures
            final(self).threads@ == old(self).threads@.push(thread),
            final(self).active_count == old(self).active_count,
            final(self).gc_requested == old(self).gc_requested,
            final(self).gc_in_progress == old(self).gc_in_progress,
    {
        self.threads.push(thread);
    }

    /// Removes the thread with identity `id`, keeping the others in order.
    pub fn unregister_thread(&mut self, id: u64)
        ensures
            final(self).threads@ == threads_without(old(self).threads@, id),
            final(self).active_count == old(self).active_count,
            final(self).gc_requested == old(self).gc_requested,
            final(self).gc_in_progress == old(self).gc_in_progress,
    {
        let mut kept: Vec<ThreadSlot> = Vec::new();
        let mut k: usize = 0;
        while k < self.threads.len()
            invariant
                self.threads@ == old(self).threads@,
                k <= self.threads.len(),
                kept@ == threads_without(old(self).threads@.take(k as int), id),
            decreases self.threads.len() - k,
        {
            let t = self.threads[k];
            proof {
                assert(old(self).threads@.take(k + 1).drop_last() =~= old(self).threads@.take(k as int));
            }
            if t.id != id {
                kept.push(t);
            }
            k = k + 1;
        }
        proof {
            assert(old(self).threads@.take(self.threads.len() as int) =~= old(self).threads@);
        }
        self.threads = kept;
    }

    /// Records whether a collection is running.
    pub fn set_gc_in_progress(&mut self, in_progress: bool)
        ensures
            final(self).gc_in_progress == in_progress,
            final(self).threads@ == old(self).threads@,
            final(self).active_count == old(self).active_count,
            final(self).gc_requested == old(self).gc_requested,
    {
        self.gc_in_progress = in_progress;
    }

    /// Whether a collection is running.
    pub fn is_gc_in_progress(&self) -> (r: bool)
        ensures
            r == self.gc_in_progress,
    {
        self.gc_in_progress
    }

    /// Asks every thread to stop at its next safepoint; returns whether the
    /// caller is the only active thread and so collects on its own.
    pub fn request_gc_handshake(&mut self) -> (sole: bool)
        ensures
            final(self).gc_requested,
            final(self).active_count == old(self).active_count,
            final(self).threads.len() == old(self).threads.len(),
            forall|k: int| 0 <= k < old(self).threads.len() ==> #[trigger] final(self).threads@[k] == (ThreadSlot {
                gc_requested: true,
                ..old(self).threads@[k]
            }),
            sole == (old(self).active_count == 1),
    {
        self.gc_requested = true;
        let n = self.threads.len();
        let mut k: usize = 0;
        while k < n
            invariant
                n == self.threads.len(),
                n == old(self).threads.len(),
                k <= n,
                self.gc_requested,
                self.active_count == old(self).active_count,
                forall|j: int| 0 <= j < n ==> #[trigger] self.threads@[j] == (if j < k {
                    ThreadSlot { gc_requested: true, ..old(self).threads@[j] }
                } else {
                    old(self).threads@[j]
                }),
            decreases n - k,
        {
            let t = self.threads[k];
            self.threads.set(k, ThreadSlot { gc_requested: true, ..t });
            k = k + 1;
        }
        self.active_count == 1
    }

    /// Releases every parked thread: it is no longer asked to stop, runs
    /// again and counts as active; then the global request is cleared.
    pub fn resume_all_threads(&mut self)
        ensures
            !final(self).gc_requested,
            final(self).threads.len() == old(self).threads.len(),
            forall|k: int| 0 <= k < old(self).threads.len() ==> #[trigger] final(self).threads@[k] == (if old(
                self,
            ).threads@[k].state == THREAD_STATE_SAFEPOINT {
                ThreadSlot { state: THREAD_STATE_EXECUTING, gc_requested: false, ..old(self).threads@[k] }
            } else {
                old(self).threads@[k]
            }),
            final(self).active_count == old(self).active_count.wrapping_add(parked_count(old(self).threads@) as usize),
    {
        let n = self.threads.len();
        let mut woken: usize = 0;
        let mut k: usize = 0;
        while k < n
            invariant
                n == self.threads.len(),
                n == old(self).threads.len(),
                k <= n,
                self.active_count == old(self).active_count,
                woken == parked_count(old(self).threads@.subrange(0, k as int)),
                woken <= k,
                forall|j: int| 0 <= j < n ==> #[trigger] self.threads@[j] == (if j < k && old(self).threads@[j].state
                    == THREAD_STATE_SAFEPOINT {
                    ThreadSlot { state: THREAD_STATE_EXECUTING, gc_requested: false, ..old(self).threads@[j] }
                } else {
                    old(self).threads@[j]
                }),
            decreases n - k,
        {
            proof {
                assert(old(self).threads@.subrange(0, k + 1).drop_last() =~= old(self).threads@.subrange(0, k as int));
            }
            let t = self.threads[k];
            if t.state == THREAD_STATE_SAFEPOINT {
                self.threads.set(k, ThreadSlot { state: THREAD_STATE_EXECUTING, gc_requested: false, ..t });
                woken = woken + 1;
            }
            k = k + 1;
        }
        proof {
            assert(old(self).threads@.subrange(0, n as int) =~= old(self).threads@);
        }
        self.active_count = self.active_count.wrapping_add(woken);
        self.gc_requested = false;
    }

    /// Withdraws the request from every thread and globally.
    pub fn clear_gc_request(&mut self)
        ensures
            !final(self).gc_requested,
            final(self).active_count == old(self).active_count,
            final(self).threads.len() == old(self).threads.len(),
            forall|k: int| 0 <= k < old(self).threads.len() ==> #[trigger] final(self).threads@[k] == (ThreadSlot {
                gc_requested: false,
                ..old(self).threads@[k]
            }),
    {
        let n = self.threads.len();
        let mut k: usize = 0;
        while k < n
            invariant
                n == self.threads.len(),
                n == old(self).threads.len(),
                k <= n,
                self.active_count == old(self).active_count,
                forall|j: int| 0 <= j < n ==> #[trigger] self.threads@[j] == (if j < k {
                    ThreadSlot { gc_requested: false, ..old(self).threads@[j] }
                } else {
                    old(self).threads@[j]
                }),
            decreases n - k,
        {
            let t = self.threads[k];
            self.threads.set(k, ThreadSlot { gc_requested: false, ..t });
            k = k + 1;
        }
        self.gc_requested = false;
    }
}

/// Identifier of a registered cross-thread handle.
#[derive(Clone, Copy, Debug, PartialEq, Eq, Structural, Hash)]
pub struct HandleId(pub u64);

/// The identifier of a handle that was never registered.
pub const INVALID_HANDLE_ID: u64 = 0xffff_ffff_ffff_ffff;

impl HandleId {
    /// The identifier of a handle that was never registered.
    pub fn invalid() -> (h: Self)
        ensures
            h.0 == INVALID_HANDLE_ID,
    {
        HandleId(INVALID_HANDLE_ID)
    }
}

/// Roots held by cross-thread handles of one thread: handle id to object
/// address, and the next id to hand out.
pub struct CrossThreadRootTable {
    /// The next id to hand out.
    pub next_id: u64,
    /// Registered strong roots, by handle id.
    pub strong: HashMap<u64, usize>,
}

impl CrossThreadRootTable {
    /// No root, ids from 0.
    pub fn new() -> (t: Self)
        ensures
            t.next_id == 0,
            t.strong@ == Map::<u64, usize>::empty(),
    {
        CrossThreadRootTable { next_id: 0, strong: HashMap::new() }
    }

    /// Hands out the next id. Running out of ids is excluded.
    pub fn allocate_id(&mut self) -> (id: HandleId)
        requires
            old(self).next_id < u64::MAX,
        ensures
            id.0 == old(self).next_id,
            final(self).next_id == old(self).next_id + 1,
            final(self).strong@ == old(self).strong@,
    {
        let id = HandleId(self.next_id);
        self.next_id = self.next_id + 1;
        id
    }

    /// Registers a root for `id`.
    pub fn register(&mut self, id: HandleId, gc_box_ptr: usize)
        ensures
            final(self).strong@ == old(self).strong@.insert(id.0, gc_box_ptr),
            final(self).next_id == old(self).next_id,
    {
        self.strong.insert(id.0, gc_box_ptr);
    }

    /// Removes the root of `id`; returns it if there was one.
    pub fn unregister(&mut self, id: HandleId) -> (r: Option<usize>)
        ensures
            final(self).strong@ == old(self).strong@.remove(id.0),
            final(self).next_id == old(self).next_id,
            r == (if old(self).strong@.contains_key(id.0) { Some(old(self).strong@[id.0]) } else { None }),
    {
        self.strong.remove(&id.0)
    }

    /// Every object the table roots, one entry per registered handle, in
    /// the map's own order.
    pub fn iterate_cross_thread_roots(&self) -> (r: Vec<usize>)
        ensures
            r@.to_set() == self.strong@.values(),
            r@.len() == self.strong@.dom().len(),
    {
        let mut r: Vec<usize> = Vec::new();
        for v in it: self.strong.values()
            invariant
                r@ == it.seq().take(it.index() as int).map_values(|x: &usize| *x),
                it.seq().unref().to_set() == self.strong@.values(),
                it.seq().len() == self.strong@.dom().len(),
                it.index() == it.seq().len() ==> r@.to_set() == self.strong@.values() && r@.len()
                    == self.strong@.dom().len(),
        {
            let ghost before = r@;
            r.push(*v);
            proof {
                assert(it.seq().take(it.index() + 1).map_values(|x: &usize| *x) =~= before.push(*v));
                assert(it.index() + 1 == it.seq().len() ==> it.seq().take(it.index() + 1) =~= it.seq());
                assert(it.index() + 1 == it.seq().len() ==> r@ =~= it.seq().unref());
            }
        }
        r
    }

    /// Whether `id` holds a root.
    pub fn is_registered(&self, id: HandleId) -> (r: bool)
        ensures
            r == self.strong@.contains_key(id.0),
    {
        self.strong.contains_key(&id.0)
    }
}

/// Lifecycle state of a managed object, as the downgrade reads it.
#[derive(Clone, Copy)]
pub struct BoxState {
    /// Strong references to the object.
    pub ref_count: usize,
    /// Weak references to the object.
    pub weak_count: usize,
    /// The object was already finalised.
    pub dead: bool,
    /// Non-zero while its destructor runs.
    pub dropping_state: usize,
    /// The object is still being built.
    pub under_construction: bool,
}

/// What downgrading a cross-thread handle yields.
#[derive(Clone, Copy, Debug, PartialEq, Eq, Structural)]
pub enum Downgrade {
    /// A weak handle to the object (its weak count was raised).
    Weak,
    /// A null weak handle: the object's slot no longer holds it.
    Null,
}

/// Downgrading is a bug: the object is dead, being dropped or not built
/// yet while its slot still holds it.
pub open spec fn downgrade_refused(state: BoxState, allocated: Option<bool>) -> bool {
    allocated != Some(false) && (state.dead || state.dropping_state != 0 || state.under_construction)
}

/// Bump-allocation buffer over the page allocation currently draws from:
/// the next free address, the end of the free region and the page's
/// address (0 for none).
pub struct Tlab {
    /// Next free address, 0 when there is none.
    pub bump_ptr: usize,
    /// End of the free region.
    pub bump_end: usize,
    /// Address of the current page, if any.
    pub current_page: Option<usize>,
}

impl Tlab {
    /// No page, nothing to allocate from.
    pub fn new() -> (t: Self)
        ensures
            t.bump_ptr == 0 && t.bump_end == 0 && t.current_page is None,
    {
        Tlab { bump_ptr: 0, bump_end: 0, current_page: None }
    }

    /// The free region lies in the object area of the current page, block
    /// aligned.
    pub open spec fn wf(&self, block_size: usize) -> bool {
        self.bump_ptr != 0 ==> match self.current_page {
            Some(ps) => {
                &&& block_size > 0
                &&& ps + spec_header_size(block_size as int) <= self.bump_ptr
                &&& self.bump_end <= ps + spec_header_size(block_size as int) + PAGE_SLOTS * block_size
            },
            None => true,
        }
    }

    /// Allocates one block: takes the next free address when the region
    /// holds a block, and marks its slot allocated in the current page's
    /// header. `None` when the region is used up.
    pub fn bump_alloc(&mut self, block_size: usize, header: &mut PageHeader) -> (r: Option<usize>)
        requires
            old(self).wf(block_size),
            old(header).wf(),
        ensures
            final(header).wf(),
            same_scalars(*final(header), *old(header)),
            final(self).bump_end == old(self).bump_end,
            final(self).current_page == old(self).current_page,
            (old(self).bump_ptr == 0 || old(self).bump_ptr + block_size > old(self).bump_end) ==> {
                &&& r is None
                &&& *final(self) == *old(self)
                &&& *final(header) == *old(header)
            },
            !(old(self).bump_ptr == 0 || old(self).bump_ptr + block_size > old(self).bump_end) ==> {
                &&& r == Some(old(self).bump_ptr)
                &&& final(self).bump_ptr == old(self).bump_ptr + block_size
                &&& match old(self).current_page {
                    Some(ps) => final(header).allocated() == old(header).allocated().insert(
                        (old(self).bump_ptr - (ps + spec_header_size(block_size as int))) / (block_size as int),
                    ) && final(header).marked() == old(header).marked()
                        && final(header).dirty() == old(header).dirty(),
                    None => *final(header) == *old(header),
                }
            },
    {
        let ptr = self.bump_ptr;
        if ptr == 0 || ptr as u128 + block_size as u128 > self.bump_end as u128 {
            return None;
        }
        self.bump_ptr = ptr + block_size;
        if let Some(page_start) = self.current_page {
            let header_size = PageHeader::header_size(block_size);
            let offset = ptr - (page_start + header_size);
            let idx = offset / block_size;
            proof {
                assert(idx < PAGE_SLOTS) by (nonlinear_arith)
                    requires
                        idx == offset / block_size,
                        offset + block_size <= PAGE_SLOTS * block_size,
                        block_size > 0,
                ;
            }
            header.set_allocated(idx);
        }
        Some(ptr)
    }
}

/// A handshake asks every thread; clearing the request afterwards leaves
/// no thread asked and the global flag down.
pub proof fn law_request_then_clear(before: Seq<ThreadSlot>, requested: Seq<ThreadSlot>, cleared: Seq<ThreadSlot>)
    requires
        requested.len() == before.len(),
        cleared.len() == before.len(),
        forall|k: int| 0 <= k < before.len() ==> #[trigger] requested[k] == (ThreadSlot { gc_requested: true, ..before[k] }),
        forall|k: int| 0 <= k < before.len() ==> #[trigger] cleared[k] == (ThreadSlot { gc_requested: false, ..requested[k] }),
    ensures
        forall|k: int| 0 <= k < before.len() ==> !(#[trigger] cleared[k]).gc_requested && cleared[k].state == before[k].state,
{
}

/// Resuming releases exactly the parked threads: none is left parked and
/// none is left asked to stop among those released.
pub proof fn law_resume_releases_parked(before: Seq<ThreadSlot>, after: Seq<ThreadSlot>)
    requires
        after.len() == before.len(),
        forall|k: int| 0 <= k < before.len() ==> #[trigger] after[k] == (if before[k].state == THREAD_STATE_SAFEPOINT {
            ThreadSlot { state: THREAD_STATE_EXECUTING, gc_requested: false, ..before[k] }
        } else {
            before[k]
        }),
    ensures
        forall|k: int| 0 <= k < after.len() ==> (#[trigger] after[k]).state != THREAD_STATE_SAFEPOINT,
        parked_count(after) == 0,
    decreases before.len(),
{
    if before.len() > 0 {
        let b = before.drop_last();
        let a = after.drop_last();
        assert forall|k: int| 0 <= k < b.len() implies #[trigger] a[k] == (if b[k].state == THREAD_STATE_SAFEPOINT {
            ThreadSlot { state: THREAD_STATE_EXECUTING, gc_requested: false, ..b[k] }
        } else {
            b[k]
        }) by {
            assert(a[k] == after[k]);
            assert(b[k] == before[k]);
        }
        law_resume_releases_parked(b, a);
    }
}

/// Without any thread of identity `id`, removing `id` changes nothing.
pub proof fn lemma_threads_without_absent(s: Seq<ThreadSlot>, id: u64)
    requires
        forall|k: int| 0 <= k < s.len() ==> (#[trigger] s[k]).id != id,
    ensures
        threads_without(s, id) == s,
    decreases s.len(),
{
    if s.len() > 0 {
        assert forall|k: int| 0 <= k < s.drop_last().len() implies (#[trigger] s.drop_last()[k]).id != id by {
            assert(s.drop_last()[k] == s[k]);
        }
        lemma_threads_without_absent(s.drop_last(), id);
        assert(s.last().id != id) by {
            assert(s[s.len() - 1].id != id);
        }
        assert(s.drop_last().push(s.last()) =~= s);
    }
}

/// Registering a thread whose identity no registered thread has, and then
/// unregistering that identity, leaves the registered threads as they were.
pub proof fn law_register_unregister_thread(threads: Seq<ThreadSlot>, t: ThreadSlot)
    requires
        forall|k: int| 0 <= k < threads.len() ==> (#[trigger] threads[k]).id != t.id,
    ensures
        threads_without(threads.push(t), t.id) == threads,
{
    assert(threads.push(t).drop_last() =~= threads);
    lemma_threads_without_absent(threads, t.id);
}

/// Registering a root and then removing it leaves the table's roots as
/// they were, when the id held no root before.
pub proof fn law_register_unregister(roots: Map<u64, usize>, id: u64, ptr: usize)
    requires
        !roots.contains_key(id),
    ensures
        roots.insert(id, ptr).remove(id) == roots,
{
    assert(roots.insert(id, ptr).remove(id) =~= roots);
}

/// The object may be handed out: it is not finalised, not being dropped
/// and fully built.
pub open spec fn box_alive(state: BoxState) -> bool {
    !state.dead && state.dropping_state == 0 && !state.under_construction
}

/// A handle that roots an object for other threads: the object's address,
/// the handle's id in its origin thread's root table and that thread's id.
pub struct GcHandle {
    /// Address of the rooted object.
    pub ptr: usize,
    /// Id in the origin thread's table (`INVALID_HANDLE_ID` once unregistered).
    pub handle_id: HandleId,
    /// The origin thread.
    pub origin_thread: u64,
}

/// The handle is registered: in its origin thread's table while that
/// thread lives, or else in the table of roots its origin thread left
/// behind when it ended.
pub open spec fn handle_registered(
    id: u64,
    origin_alive: bool,
    tcb_roots: Map<u64, usize>,
    orphan_roots: Map<u64, usize>,
) -> bool {
    (origin_alive && tcb_roots.contains_key(id)) || orphan_roots.contains_key(id)
}

impl GcHandle {
    /// Whether the handle still roots its object. `tcb_roots` is the origin
    /// thread's table (consulted while `origin_alive`), `orphan_roots` the
    /// roots it left.
    pub fn is_valid(
        &self,
        origin_alive: bool,
        tcb_roots: &CrossThreadRootTable,
        orphan_roots: &HashMap<u64, usize>,
    ) -> (r: bool)
        ensures
            r == (self.handle_id.0 != INVALID_HANDLE_ID && handle_registered(
                self.handle_id.0,
                origin_alive,
                tcb_roots.strong@,
                orphan_roots@,
            )),
    {
        if self.handle_id.0 == INVALID_HANDLE_ID {
            return false;
        }
        if origin_alive && tcb_roots.is_registered(self.handle_id) {
            return true;
        }
        orphan_roots.contains_key(&self.handle_id.0)
    }

    /// Unregisters the handle: its root leaves the live origin table (or the
    /// orphan table when the origin ended), its id becomes invalid and the
    /// object loses one strong reference. Nothing for an unregistered handle.
    pub fn unregister(
        &mut self,
        origin_alive: bool,
        tcb_roots: &mut CrossThreadRootTable,
        orphan_roots: &mut HashMap<u64, usize>,
        object: &mut BoxState,
    )
        requires
            old(self).handle_id.0 != INVALID_HANDLE_ID ==> old(object).ref_count > 0,
        ensures
            old(self).handle_id.0 == INVALID_HANDLE_ID ==> {
                &&& *final(self) == *old(self)
                &&& *final(object) == *old(object)
                &&& final(orphan_roots)@ == old(orphan_roots)@
                &&& final(tcb_roots).strong@ == old(tcb_roots).strong@
            },
            old(self).handle_id.0 != INVALID_HANDLE_ID ==> {
                &&& final(self).handle_id.0 == INVALID_HANDLE_ID
                &&& final(self).ptr == old(self).ptr
                &&& *final(object) == (BoxState { ref_count: (old(object).ref_count - 1) as usize, ..*old(object) })
                &&& origin_alive ==> final(tcb_roots).strong@ == old(tcb_roots).strong@.remove(old(self).handle_id.0)
                    && final(orphan_roots)@ == old(orphan_roots)@
                &&& !origin_alive ==> final(orphan_roots)@ == old(orphan_roots)@.remove(old(self).handle_id.0)
                    && final(tcb_roots).strong@ == old(tcb_roots).strong@
            },
    {
        if self.handle_id.0 == INVALID_HANDLE_ID {
            return;
        }
        if origin_alive {
            let _ = tcb_roots.unregister(self.handle_id);
        } else {
            let _ = orphan_roots.remove(&self.handle_id.0);
        }
        self.handle_id = HandleId::invalid();
        object.ref_count = object.ref_count - 1;
    }

    /// Drops the handle: like `unregister`, except that the strong reference
    /// is kept when the object's slot was already swept (`allocated` is
    /// `Some(false)`).
    pub fn release(
        &mut self,
        origin_alive: bool,
        tcb_roots: &mut CrossThreadRootTable,
        orphan_roots: &mut HashMap<u64, usize>,
        object: &mut BoxState,
        allocated: Option<bool>,
    )
        requires
            old(self).handle_id.0 != INVALID_HANDLE_ID && allocated != Some(false) ==> old(object).ref_count > 0,
        ensures
            old(self).handle_id.0 == INVALID_HANDLE_ID ==> {
                &&& *final(self) == *old(self)
                &&& *final(object) == *old(object)
                &&& final(orphan_roots)@ == old(orphan_roots)@
                &&& final(tcb_roots).strong@ == old(tcb_roots).strong@
            },
            old(self).handle_id.0 != INVALID_HANDLE_ID ==> {
                &&& final(self).handle_id.0 == INVALID_HANDLE_ID
                &&& *final(object) == (if allocated == Some(false) {
                    *old(object)
                } else {
                    BoxState { ref_count: (old(object).ref_count - 1) as usize, ..*old(object) }
                })
                &&& origin_alive ==> final(tcb_roots).strong@ == old(tcb_roots).strong@.remove(old(self).handle_id.0)
                    && final(orphan_roots)@ == old(orphan_roots)@
                &&& !origin_alive ==> final(orphan_roots)@ == old(orphan_roots)@.remove(old(self).handle_id.0)
                    && final(tcb_roots).strong@ == old(tcb_roots).strong@
            },
    {
        if self.handle_id.0 == INVALID_HANDLE_ID {
            return;
        }
        if origin_alive {
            let _ = tcb_roots.unregister(self.handle_id);
        } else {
            let _ = orphan_roots.remove(&self.handle_id.0);
        }
        self.handle_id = HandleId::invalid();
        if let Some(is_allocated) = allocated {
            if !is_allocated {
                return;
            }
        }
        object.ref_count = object.ref_count - 1;
    }

    /// Resolves the handle to a new strong reference, if it can be had: the
    /// handle is registered, resolved on its origin thread, its object's slot
    /// is not swept and the object is alive. Returns whether it resolved; the
    /// object then has one more strong reference.
    pub fn try_resolve(
        &self,
        current_thread: u64,
        origin_alive: bool,
        tcb_roots: &CrossThreadRootTable,
        orphan_roots: &HashMap<u64, usize>,
        object: &mut BoxState,
        allocated: Option<bool>,
    ) -> (resolved: bool)
        requires
            old(object).ref_count < usize::MAX,
        ensures
            resolved == (self.handle_id.0 != INVALID_HANDLE_ID && current_thread == self.origin_thread
                && handle_registered(self.handle_id.0, origin_alive, tcb_roots.strong@, orphan_roots@)
                && allocated != Some(false) && box_alive(*old(object))),
            resolved ==> *final(object) == (BoxState { ref_count: (old(object).ref_count + 1) as usize, ..*old(object) }),
            !resolved ==> *final(object) == *old(object),
    {
        if self.handle_id.0 == INVALID_HANDLE_ID {
            return false;
        }
        if current_thread != self.origin_thread {
            return false;
        }
        if !self.is_valid(origin_alive, tcb_roots, orphan_roots) {
            return false;
        }
        if let Some(is_allocated) = allocated {
            if !is_allocated {
                return false;
            }
        }
        if object.under_construction || object.dead || object.dropping_state != 0 {
            return false;
        }
        object.ref_count = object.ref_count + 1;
        true
    }

    /// Resolves the handle to a new strong reference: the object gains one.
    /// Resolving an unregistered handle, off the origin thread, or to a
    /// swept or dead object is a bug and is excluded here.
    pub fn resolve(
        &self,
        current_thread: u64,
        origin_alive: bool,
        tcb_roots: &CrossThreadRootTable,
        orphan_roots: &HashMap<u64, usize>,
        object: &mut BoxState,
        allocated: Option<bool>,
    )
        requires
            self.handle_id.0 != INVALID_HANDLE_ID,
            current_thread == self.origin_thread,
            handle_registered(self.handle_id.0, origin_alive, tcb_roots.strong@, orphan_roots@),
            allocated != Some(false),
            box_alive(*old(object)),
            old(object).ref_count < usize::MAX,
        ensures
            *final(object) == (BoxState { ref_count: (old(object).ref_count + 1) as usize, ..*old(object) }),
    {
        let ok = self.try_resolve(current_thread, origin_alive, tcb_roots, orphan_roots, object, allocated);
        assert(ok);
    }
}

impl GcHandle {
    /// Clones the handle on its origin thread: the object gains one strong
    /// reference and a new root, under the next id of the origin thread's
    /// table, which the clone carries. Cloning an unregistered handle, off
    /// the origin thread or after the origin thread ended, or a handle whose
    /// object's slot was swept or whose object is dead, being dropped or not
    /// built yet, is a bug and is excluded here; so is a handle whose root
    /// has moved to the table of roots left by ended threads.
    pub fn clone(
        &self,
        current_thread: u64,
        origin_alive: bool,
        tcb_roots: &mut CrossThreadRootTable,
        orphan_roots: &HashMap<u64, usize>,
        object: &mut BoxState,
        allocated: Option<bool>,
    ) -> (h: GcHandle)
        requires
            self.handle_id.0 != INVALID_HANDLE_ID,
            !orphan_roots@.contains_key(self.handle_id.0),
            origin_alive,
            current_thread == self.origin_thread,
            old(tcb_roots).strong@.contains_key(self.handle_id.0),
            allocated != Some(false),
            box_alive(*old(object)),
            old(object).ref_count < usize::MAX,
            old(tcb_roots).next_id < u64::MAX,
        ensures
            h.ptr == self.ptr,
            h.origin_thread == self.origin_thread,
            h.handle_id.0 == old(tcb_roots).next_id,
            handle_registered(h.handle_id.0, origin_alive, final(tcb_roots).strong@, orphan_roots@),
            final(tcb_roots).next_id == old(tcb_roots).next_id + 1,
            final(tcb_roots).strong@ == old(tcb_roots).strong@.insert(h.handle_id.0, self.ptr),
            *final(object) == (BoxState { ref_count: (old(object).ref_count + 1) as usize, ..*old(object) }),
    {
        object.ref_count = object.ref_count + 1;
        let new_id = tcb_roots.allocate_id();
        tcb_roots.register(new_id, self.ptr);
        GcHandle { ptr: self.ptr, handle_id: new_id, origin_thread: self.origin_thread }
    }
}

impl GcHandle {
    /// Downgrades the handle to a weak one. `allocated` is whether the
    /// object's slot is still allocated (`None` when the address lies
    /// outside any slot). A swept slot yields a null weak handle and leaves
    /// the weak count as it was; otherwise the weak count rises by one.
    /// Downgrading an unregistered handle, or a dead, dropping or unbuilt
    /// object whose slot is not swept, is a bug and is excluded here, as is
    /// a weak count at its maximum.
    pub fn downgrade(
        &self,
        origin_alive: bool,
        tcb_roots: &CrossThreadRootTable,
        orphan_roots: &HashMap<u64, usize>,
        state: &mut BoxState,
        allocated: Option<bool>,
    ) -> (r: Downgrade)
        requires
            self.handle_id.0 != INVALID_HANDLE_ID,
            handle_registered(self.handle_id.0, origin_alive, tcb_roots.strong@, orphan_roots@),
            old(state).weak_count < usize::MAX,
            !downgrade_refused(*old(state), allocated),
        ensures
            allocated == Some(false) ==> r == Downgrade::Null && *final(state) == *old(state),
            allocated != Some(false) ==> r == Downgrade::Weak && *final(state) == (BoxState {
                weak_count: (old(state).weak_count + 1) as usize,
                ..*old(state)
            }),
    {
        let registered = self.is_valid(origin_alive, tcb_roots, orphan_roots);
        assert(registered);
        state.weak_count = state.weak_count + 1;
        if let Some(is_allocated) = allocated {
            if !is_allocated {
                state.weak_count = state.weak_count - 1;
                return Downgrade::Null;
            }
        }
        Downgrade::Weak
    }
}

} // verus!
