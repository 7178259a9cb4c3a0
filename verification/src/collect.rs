//! Collection policy and bookkeeping: when to collect, what kind of
//! collection to run, the marking visitor, preparing pages for a lazy
//! sweep, and how roots and dirty pages are shared among marking workers.

use vstd::prelude::*;
use crate::page::{PageHeader, flag_set, same_page, PAGE_FLAG_LARGE, PAGE_FLAG_NEEDS_SWEEP, PAGE_FLAG_ALL_DEAD, PAGE_SLOTS, MAGIC_GC_PAGE};
use crate::sweep::indices_where;
use crate::metrics::{GcMetrics, CollectionType};
use crate::marker::ParallelMarkConfig;
use crate::incremental::FallbackReason;

verus! {

/// Heap size above which a collection is a major one.
pub const MAJOR_THRESHOLD: usize = 10 * 1024 * 1024;

/// Young-generation size above which the default condition collects.
pub const YOUNG_LIMIT: usize = 1024 * 1024;

/// Heap statistics a collection condition decides on.
#[derive(Clone, Copy, Debug)]
pub struct CollectInfo {
    /// Handles dropped since the last collection.
    pub n_gcs_dropped: usize,
    /// Handles alive.
    pub n_gcs_existing: usize,
    /// Bytes allocated in the heap.
    pub heap_size: usize,
    /// Bytes in the young generation.
    pub young_size: usize,
    /// Bytes in the old generation.
    pub old_size: usize,
}

impl CollectInfo {
    /// Handles dropped since the last collection.
    pub fn n_gcs_dropped_since_last_collect(&self) -> (n: usize)
        ensures
            n == self.n_gcs_dropped,
    {
        self.n_gcs_dropped
    }

    /// Handles alive.
    pub fn n_gcs_existing(&self) -> (n: usize)
        ensures
            n == self.n_gcs_existing,
    {
        self.n_gcs_existing
    }

    /// Bytes allocated in the heap.
    pub fn heap_size(&self) -> (n: usize)
        ensures
            n == self.heap_size,
    {
        self.heap_size
    }

    /// Bytes in the young generation.
    pub fn young_size(&self) -> (n: usize)
        ensures
            n == self.young_size,
    {
        self.young_size
    }

    /// Bytes in the old generation.
    pub fn old_size(&self) -> (n: usize)
        ensures
            n == self.old_size,
    {
        self.old_size
    }
}

/// The default condition: more handles dropped than alive, or a young
/// generation above `YOUNG_LIMIT`.
pub open spec fn spec_default_collect(info: CollectInfo) -> bool {
    info.n_gcs_dropped > info.n_gcs_existing || info.young_size > YOUNG_LIMIT
}

/// Whether the default condition asks for a collection.
pub fn default_collect_condition(info: &CollectInfo) -> (r: bool)
    ensures
        r == spec_default_collect(*info),
        info.young_size > 1024 * 1024 ==> r,
        info.n_gcs_dropped > info.n_gcs_existing ==> r,
        r ==> info.young_size > 1024 * 1024 || info.n_gcs_dropped > info.n_gcs_existing,
{
    info.n_gcs_dropped > info.n_gcs_existing || info.young_size > YOUNG_LIMIT
}

/// The kind of collection for a heap of `total_size` bytes.
pub open spec fn spec_collection_type(total_size: usize) -> CollectionType {
    if total_size > MAJOR_THRESHOLD { CollectionType::Major } else { CollectionType::Minor }
}

/// Major when the heap exceeds `MAJOR_THRESHOLD`, minor otherwise.
pub fn collection_type_for(total_size: usize) -> (t: CollectionType)
    ensures
        t == spec_collection_type(total_size),
        total_size > 10 * 1024 * 1024 ==> t == CollectionType::Major,
        total_size <= 10 * 1024 * 1024 ==> t == CollectionType::Minor,
{
    if total_size > MAJOR_THRESHOLD {
        CollectionType::Major
    } else {
        CollectionType::Minor
    }
}

/// The snapshot a collection records: what was reclaimed is the drop in
/// allocated bytes (zero if it grew), what survives is what is allocated
/// after.
pub fn collection_metrics(
    duration_ns: u64,
    before_bytes: usize,
    after_bytes: usize,
    objects_reclaimed: usize,
    objects_surviving: usize,
    collection_type: CollectionType,
) -> (m: GcMetrics)
    ensures
        m.duration == duration_ns,
        m.bytes_reclaimed == (if before_bytes >= after_bytes { (before_bytes - after_bytes) as usize } else { 0 }),
        m.bytes_surviving == after_bytes,
        m.objects_reclaimed == objects_reclaimed,
        m.objects_surviving == objects_surviving,
        m.collection_type == collection_type,
        m.total_collections == 0,
        m.clear_duration == 0 && m.mark_duration == 0 && m.sweep_duration == 0,
        m.objects_marked == 0 && m.dirty_pages_scanned == 0 && m.slices_executed == 0,
        !m.fallback_occurred,
        m.fallback_reason == FallbackReason::NoFallback,
{
    let mut m = GcMetrics::new();
    m.duration = duration_ns;
    m.bytes_reclaimed = before_bytes.saturating_sub(after_bytes);
    m.bytes_surviving = after_bytes;
    m.objects_reclaimed = objects_reclaimed;
    m.objects_surviving = objects_surviving;
    m.collection_type = collection_type;
    m
}

/// Where a collection request stands.
#[derive(Clone, Copy, Debug, PartialEq, Eq, Structural)]
pub enum CollectPhase {
    /// No collection asked for.
    Idle,
    /// The other threads were asked to stop; `full` asks for a major
    /// collection whatever the heap's size.
    Handshaking { full: bool },
    /// A collection of the given kind runs.
    Collecting { kind: CollectionType },
    /// The collection is done and the stopped threads are being resumed.
    Resuming,
}

/// What happened outside since the last step.
#[derive(Clone, Copy, Debug)]
pub enum CollectEvent {
    /// A collection was asked for (`full` for a major one).
    Requested { full: bool },
    /// Every other thread stopped; `is_collector` says whether this thread
    /// won the handshake, `total_size` is its heap's size.
    HandshakeDone { is_collector: bool, total_size: usize },
    /// The collection finished.
    CollectionDone,
    /// The stopped threads run again.
    ThreadsResumed,
}

/// What the caller must do next.
#[derive(Clone, Copy, Debug, PartialEq, Eq, Structural)]
pub enum CollectAction {
    /// Nothing: the event does not apply in this phase.
    Ignore,
    /// Ask every other thread to stop at a safepoint.
    RequestHandshake,
    /// Run a collection of this kind, over every thread's heap when this
    /// thread is the collector, over its own heap otherwise.
    RunCollection { kind: CollectionType, all_heaps: bool },
    /// Resume the stopped threads.
    ResumeThreads,
    /// The cycle is over.
    Finished,
}

/// Per-thread collector state: handle counts, whether a collection is
/// running, and where the current request stands.
#[derive(Clone, Copy)]
pub struct CollectorState {
    /// Handles dropped since the last collection.
    pub n_drops: usize,
    /// Handles alive.
    pub n_existing: usize,
    /// A collection is running.
    pub in_collect: bool,
    /// Where the current request stands.
    pub phase: CollectPhase,
}

/// The next state and action of the collection handshake. A request made
/// while a collection runs is ignored; a request starts the handshake;
/// once it is done the collection starts (major when asked for or when the
/// heap exceeds `MAJOR_THRESHOLD`), marking the thread as collecting and
/// resetting its drop count; when it is done the threads are resumed, and
/// when they run again the cycle ends. Any other event changes nothing.
pub open spec fn spec_collector_step(s: CollectorState, e: CollectEvent) -> (CollectorState, CollectAction) {
    match (s.phase, e) {
        (CollectPhase::Idle, CollectEvent::Requested { full }) => if s.in_collect {
            (s, CollectAction::Ignore)
        } else {
            (CollectorState { phase: CollectPhase::Handshaking { full }, ..s }, CollectAction::RequestHandshake)
        },
        (CollectPhase::Handshaking { full }, CollectEvent::HandshakeDone { is_collector, total_size }) => {
            let kind = if full { CollectionType::Major } else { spec_collection_type(total_size) };
            (
                CollectorState { in_collect: true, n_drops: 0, phase: CollectPhase::Collecting { kind }, ..s },
                CollectAction::RunCollection { kind, all_heaps: is_collector },
            )
        },
        (CollectPhase::Collecting { .. }, CollectEvent::CollectionDone) => (
            CollectorState { phase: CollectPhase::Resuming, ..s },
            CollectAction::ResumeThreads,
        ),
        (CollectPhase::Resuming, CollectEvent::ThreadsResumed) => (
            CollectorState { in_collect: false, phase: CollectPhase::Idle, ..s },
            CollectAction::Finished,
        ),
        _ => (s, CollectAction::Ignore),
    }
}

/// One step of the collection handshake: from the state and what happened,
/// the next state and what to do.
pub fn collector_step(state: CollectorState, event: CollectEvent) -> (r: (CollectorState, CollectAction))
    ensures
        r == spec_collector_step(state, event),
{
    match (state.phase, event) {
        (CollectPhase::Idle, CollectEvent::Requested { full }) => {
            if state.in_collect {
                (state, CollectAction::Ignore)
            } else {
                (CollectorState { phase: CollectPhase::Handshaking { full }, ..state }, CollectAction::RequestHandshake)
            }
        },
        (CollectPhase::Handshaking { full }, CollectEvent::HandshakeDone { is_collector, total_size }) => {
            let kind = if full { CollectionType::Major } else { collection_type_for(total_size) };
            (
                CollectorState { in_collect: true, n_drops: 0, phase: CollectPhase::Collecting { kind }, ..state },
                CollectAction::RunCollection { kind, all_heaps: is_collector },
            )
        },
        (CollectPhase::Collecting { .. }, CollectEvent::CollectionDone) => (
            CollectorState { phase: CollectPhase::Resuming, ..state },
            CollectAction::ResumeThreads,
        ),
        (CollectPhase::Resuming, CollectEvent::ThreadsResumed) => (
            CollectorState { in_collect: false, phase: CollectPhase::Idle, ..state },
            CollectAction::Finished,
        ),
        _ => (state, CollectAction::Ignore),
    }
}

/// A whole cycle: from an idle thread that is not collecting, a request,
/// the handshake, the end of the collection and the resumed threads ask in
/// turn for the handshake, the collection of the right kind, the resume and
/// the end, and leave the thread idle, not collecting, with no drop
/// counted and its live handles as they were.
pub proof fn law_collection_cycle(s: CollectorState, full: bool, is_collector: bool, total_size: usize)
    requires
        s.phase == CollectPhase::Idle,
        !s.in_collect,
    ensures
        ({
            let (s1, a1) = spec_collector_step(s, CollectEvent::Requested { full });
            let (s2, a2) = spec_collector_step(s1, CollectEvent::HandshakeDone { is_collector, total_size });
            let (s3, a3) = spec_collector_step(s2, CollectEvent::CollectionDone);
            let (s4, a4) = spec_collector_step(s3, CollectEvent::ThreadsResumed);
            &&& a1 == CollectAction::RequestHandshake
            &&& a2 == CollectAction::RunCollection {
                kind: if full { CollectionType::Major } else { spec_collection_type(total_size) },
                all_heaps: is_collector,
            }
            &&& s2.in_collect
            &&& a3 == CollectAction::ResumeThreads
            &&& a4 == CollectAction::Finished
            &&& s4.phase == CollectPhase::Idle
            &&& !s4.in_collect
            &&& s4.n_drops == 0
            &&& s4.n_existing == s.n_existing
        }),
{
}

/// A request made while a collection runs changes nothing and asks for
/// nothing.
pub proof fn law_reentrant_request_ignored(s: CollectorState, full: bool)
    requires
        s.in_collect,
    ensures
        spec_collector_step(s, CollectEvent::Requested { full }) == (s, CollectAction::Ignore),
{
}

impl CollectorState {
    /// No handle, no collection.
    pub fn new() -> (s: Self)
        ensures
            s.n_drops == 0 && s.n_existing == 0 && !s.in_collect,
            s.phase == CollectPhase::Idle,
    {
        CollectorState { n_drops: 0, n_existing: 0, in_collect: false, phase: CollectPhase::Idle }
    }

    /// Starts a collection: returns false, changing nothing, when one is
    /// already running; otherwise marks it running and resets the drop
    /// count.
    pub fn begin_collection(&mut self) -> (started: bool)
        ensures
            started == !old(self).in_collect,
            started ==> final(self).in_collect && final(self).n_drops == 0
                && final(self).n_existing == old(self).n_existing && final(self).phase == old(self).phase,
            !started ==> *final(self) == *old(self),
    {
        if self.in_collect {
            return false;
        }
        self.in_collect = true;
        self.n_drops = 0;
        true
    }

    /// Ends the running collection.
    pub fn end_collection(&mut self)
        ensures
            !final(self).in_collect,
            final(self).n_drops == old(self).n_drops,
            final(self).n_existing == old(self).n_existing,
            final(self).phase == old(self).phase,
    {
        self.in_collect = false;
    }
}

/// Counts a created handle. More handles than a machine word counts is
/// excluded.
pub fn notify_created_gc(state: &mut CollectorState)
    requires
        old(state).n_existing < usize::MAX,
    ensures
        final(state).n_existing == old(state).n_existing + 1,
        final(state).n_drops == old(state).n_drops,
        final(state).in_collect == old(state).in_collect,
{
    state.n_existing = state.n_existing + 1;
}

/// Counts a dropped handle and returns the statistics the collection
/// condition must judge; `None` when no check is due: a collection is
/// running or the thread has no heap (`heap` gives total, young and old
/// bytes when it has one).
pub fn notify_dropped_gc(state: &mut CollectorState, heap: Option<(usize, usize, usize)>) -> (r: Option<CollectInfo>)
    requires
        old(state).n_drops < usize::MAX,
    ensures
        final(state).n_drops == old(state).n_drops + 1,
        final(state).n_existing == old(state).n_existing,
        final(state).in_collect == old(state).in_collect,
        old(state).in_collect || heap is None ==> r is None,
        !old(state).in_collect && heap is Some ==> r == Some(CollectInfo {
            n_gcs_dropped: final(state).n_drops,
            n_gcs_existing: final(state).n_existing,
            heap_size: heap->Some_0.0,
            young_size: heap->Some_0.1,
            old_size: heap->Some_0.2,
        }),
{
    state.n_drops = state.n_drops + 1;
    if state.in_collect {
        return None;
    }
    match heap {
        Some((total, young, old)) => Some(CollectInfo {
            n_gcs_dropped: state.n_drops,
            n_gcs_existing: state.n_existing,
            heap_size: total,
            young_size: young,
            old_size: old,
        }),
        None => None,
    }
}

/// Whether a collection is running.
pub fn is_collecting(state: &CollectorState) -> (r: bool)
    ensures
        r == state.in_collect,
{
    state.in_collect
}

/// Roots registered by hand, for tests that cannot rely on stack scanning.
pub struct TestRoots {
    /// The registered addresses, in order.
    pub roots: Vec<usize>,
}

impl TestRoots {
    /// No root.
    pub fn new() -> (t: Self)
        ensures
            t.roots@ == Seq::<usize>::empty(),
    {
        TestRoots { roots: Vec::new() }
    }
}

/// Registers a root.
pub fn register_test_root(roots: &mut TestRoots, ptr: usize)
    ensures
        final(roots).roots@ == old(roots).roots@.push(ptr),
{
    roots.roots.push(ptr);
}

/// Forgets every registered root.
pub fn clear_test_roots(roots: &mut TestRoots)
    ensures
        final(roots).roots@ == Seq::<usize>::empty(),
{
    roots.roots.clear();
}

/// The registered roots, in order.
pub fn iter_test_roots(roots: &TestRoots) -> (r: &Vec<usize>)
    ensures
        r@ == roots.roots@,
{
    &roots.roots
}

/// Which generation a marking visitor traces.
#[derive(Clone, Copy, Debug, PartialEq, Eq, Structural)]
pub enum VisitorKind {
    /// Young objects only.
    Minor,
    /// Every object.
    Major,
}

/// Marks objects as they are found and keeps those still to trace.
pub struct GcVisitor {
    /// Generation traced.
    pub kind: VisitorKind,
    /// Objects marked but not yet traced.
    pub worklist: Vec<usize>,
    /// Objects this visitor marked.
    pub objects_marked: usize,
}

/// Whether visiting the object at `ptr`, slot `index` of the page with
/// `header`, marks it: a real page, a slot, in the traced generation and
/// not yet marked.
pub open spec fn visit_marks(kind: VisitorKind, header: PageHeader, index: Option<usize>, ptr: usize) -> bool {
    &&& ptr != 0
    &&& header.magic == MAGIC_GC_PAGE
    &&& index is Some
    &&& !(kind == VisitorKind::Minor && header.generation > 0)
    &&& !header.marked().contains(index->Some_0 as int)
}

impl GcVisitor {
    /// A visitor with nothing found yet.
    pub fn new(kind: VisitorKind) -> (v: Self)
        ensures
            v.kind == kind,
            v.worklist@ == Seq::<usize>::empty(),
            v.objects_marked == 0,
    {
        GcVisitor { kind, worklist: Vec::new(), objects_marked: 0 }
    }

    /// Objects this visitor marked.
    pub fn objects_marked(&self) -> (n: usize)
        ensures
            n == self.objects_marked,
    {
        self.objects_marked
    }

    /// Visits the object at `ptr`, slot `index` of the page with `header`
    /// (`None` when the address names no slot): marks it and queues it for
    /// tracing when `visit_marks` holds; otherwise changes nothing.
    pub fn visit(&mut self, header: &mut PageHeader, index: Option<usize>, ptr: usize)
        requires
            old(header).wf(),
            index matches Some(i) ==> i < PAGE_SLOTS,
            visit_marks(old(self).kind, *old(header), index, ptr) ==> old(self).objects_marked < usize::MAX,
        ensures
            final(header).wf(),
            final(self).kind == old(self).kind,
            visit_marks(old(self).kind, *old(header), index, ptr) ==> {
                &&& final(header).marked() == old(header).marked().insert(index->Some_0 as int)
                &&& final(header).allocated() == old(header).allocated()
                &&& final(header).dirty() == old(header).dirty()
                &&& crate::page::same_scalars(*final(header), *old(header))
                &&& final(self).objects_marked == old(self).objects_marked + 1
                &&& final(self).worklist@ == old(self).worklist@.push(ptr)
            },
            !visit_marks(old(self).kind, *old(header), index, ptr) ==> {
                &&& *final(header) == *old(header)
                &&& final(self).objects_marked == old(self).objects_marked
                &&& final(self).worklist@ == old(self).worklist@
            },
    {
        if ptr == 0 {
            return;
        }
        if header.magic != MAGIC_GC_PAGE {
            return;
        }
        let idx = match index {
            Some(i) => i,
            None => {
                return;
            },
        };
        if self.kind == VisitorKind::Minor && header.generation > 0 {
            return;
        }
        if header.is_marked(idx) {
            return;
        }
        header.set_mark(idx);
        self.objects_marked = self.objects_marked + 1;
        self.worklist.push(ptr);
    }
}

impl GcVisitor {
    /// Takes the object at `ptr`, slot `index` of the page with `header`, as
    /// a root of an incremental snapshot: on a real page with a slot, the
    /// object is marked (and counted) unless it already was, and queued
    /// either way; otherwise nothing changes.
    pub fn mark_root_for_snapshot(&mut self, header: &mut PageHeader, index: Option<usize>, ptr: usize)
        requires
            old(header).wf(),
            index matches Some(i) ==> i < PAGE_SLOTS,
            old(self).objects_marked < usize::MAX,
        ensures
            final(header).wf(),
            final(self).kind == old(self).kind,
            old(header).magic == MAGIC_GC_PAGE && index is Some ==> {
                let i = index->Some_0 as int;
                &&& final(header).marked() == old(header).marked().insert(i)
                &&& final(header).allocated() == old(header).allocated()
                &&& final(header).dirty() == old(header).dirty()
                &&& crate::page::same_scalars(*final(header), *old(header))
                &&& final(self).objects_marked == old(self).objects_marked + (if old(header).marked().contains(i) { 0int } else { 1int })
                &&& final(self).worklist@ == old(self).worklist@.push(ptr)
            },
            !(old(header).magic == MAGIC_GC_PAGE && index is Some) ==> {
                &&& same_page(*final(header), *old(header))
                &&& final(self).objects_marked == old(self).objects_marked
                &&& final(self).worklist@ == old(self).worklist@
            },
    {
        if header.magic != MAGIC_GC_PAGE {
            return;
        }
        if let Some(idx) = index {
            let was_marked = header.is_marked(idx);
            if !was_marked {
                header.set_mark(idx);
                self.objects_marked = self.objects_marked + 1;
            } else {
                proof {
                    assert(header.marked() =~= old(header).marked().insert(idx as int));
                }
            }
            self.worklist.push(ptr);
        }
    }
}

/// The slot holds an allocated object.
pub open spec fn slot_allocated(h: PageHeader, i: int) -> bool {
    h.allocated().contains(i)
}

/// The slot holds an allocated object that was not marked.
pub open spec fn slot_dead(h: PageHeader, i: int) -> bool {
    h.allocated().contains(i) && !h.marked().contains(i)
}

/// The header after a small-object page with `allocated` objects, `dead`
/// of them unmarked, was prepared for a lazy sweep.
pub open spec fn prepared_flags(flags: u8, dead_total: int, allocated: int) -> u8 {
    if dead_total == allocated {
        flags | PAGE_FLAG_ALL_DEAD | PAGE_FLAG_NEEDS_SWEEP
    } else {
        flags | PAGE_FLAG_NEEDS_SWEEP
    }
}

impl PageHeader {
    /// Prepares the page, after marking, for a lazy sweep at allocation
    /// time. A small-object page with allocated objects adds its unmarked
    /// ones to the dead count, is flagged as needing a sweep (and as all
    /// dead when every allocated object is dead) and loses its marks; marks
    /// of live objects are cleared either way. A large-object page drops
    /// its sweep flags and dead count; it returns whether its object is
    /// unmarked and must be swept now, and otherwise loses its marks.
    pub fn prepare_lazy_sweep(&mut self) -> (sweep_large: bool)
        requires
            old(self).wf(),
            old(self).obj_count <= PAGE_SLOTS,
            old(self).dead_count + old(self).obj_count <= 0xffff,
        ensures
            final(self).wf(),
            final(self).allocated() == old(self).allocated(),
            final(self).dirty() == old(self).dirty(),
            final(self).free_list_head == old(self).free_list_head,
            final(self).obj_count == old(self).obj_count,
            final(self).generation == old(self).generation,
            flag_set(old(self).flags, PAGE_FLAG_LARGE) ==> {
                &&& sweep_large == !old(self).allocated().subset_of(old(self).marked())
                &&& final(self).flags == old(self).flags & !PAGE_FLAG_NEEDS_SWEEP & !PAGE_FLAG_ALL_DEAD
                &&& final(self).dead_count == 0
                &&& final(self).marked() == (if sweep_large { old(self).marked() } else { Set::<int>::empty() })
            },
            !flag_set(old(self).flags, PAGE_FLAG_LARGE) ==> {
                let n = old(self).obj_count as int;
                let allocated = indices_where(n, |i: int| slot_allocated(*old(self), i)).len() as int;
                let dead = indices_where(n, |i: int| slot_dead(*old(self), i)).len() as int;
                &&& !sweep_large
                &&& allocated == 0 ==> {
                    &&& final(self).flags == old(self).flags
                    &&& final(self).dead_count == old(self).dead_count
                    &&& final(self).marked() == old(self).marked().difference(
                        Set::new(|k: int| 0 <= k < n && slot_allocated(*old(self), k)),
                    )
                }
                &&& allocated > 0 ==> {
                    &&& final(self).dead_count == old(self).dead_count + dead
                    &&& final(self).flags == prepared_flags(old(self).flags, old(self).dead_count + dead, allocated)
                    &&& final(self).marked() == Set::<int>::empty()
                }
            },
    {
        if self.is_large_object() {
            self.clear_needs_sweep();
            self.clear_all_dead();
            self.set_dead_count(0);
            if !self.is_fully_marked() {
                return true;
            }
            self.clear_all_marks();
            return false;
        }
        let ghost pre = *self;
        let n: usize = self.obj_count as usize;
        let mut dead: u16 = 0;
        let mut allocated: u16 = 0;
        let mut i: usize = 0;
        while i < n
            invariant
                pre.wf(),
                self.wf(),
                n == pre.obj_count,
                n <= PAGE_SLOTS,
                i <= n,
                crate::page::same_scalars(*self, pre),
                self.allocated() == pre.allocated(),
                self.dirty() == pre.dirty(),
                self.marked() == pre.marked().difference(Set::new(|k: int| 0 <= k < i && slot_allocated(pre, k))),
                allocated as int == indices_where(i as int, |k: int| slot_allocated(pre, k)).len(),
                dead as int == indices_where(i as int, |k: int| slot_dead(pre, k)).len(),
                allocated <= i,
                dead <= allocated,
            decreases n - i,
        {
            proof {
                crate::sweep::lemma_indices_where_len(i as int, |k: int| slot_allocated(pre, k));
            }
            if self.is_allocated(i) {
                allocated = allocated + 1;
                if !self.is_marked(i) {
                    dead = dead + 1;
                } else {
                    self.clear_mark(i);
                }
            }
            proof {
                assert(self.marked() =~= pre.marked().difference(Set::new(|k: int| 0 <= k < i + 1 && slot_allocated(pre, k))));
            }
            i = i + 1;
        }
        if allocated > 0 {
            let total_dead = self.dead_count() + dead;
            if total_dead == allocated {
                self.set_all_dead();
            }
            self.set_needs_sweep();
            self.set_dead_count(total_dead);
            self.clear_all_marks();
        }
        false
    }
}

/// The marking worker a root is handed to.
pub fn root_worker_index(ptr: usize, num_workers: usize) -> (w: usize)
    requires
        num_workers > 0,
    ensures
        w == ptr % num_workers,
        w < num_workers,
{
    ptr % num_workers
}

/// The number of parallel marking workers, or `None` when marking stays on
/// one thread: fewer than two workers allowed, or parallel marking off for
/// this kind of collection. Otherwise as many workers as allowed and
/// available.
pub fn parallel_mark_workers(config: &ParallelMarkConfig, available: usize, major: bool) -> (r: Option<usize>)
    ensures
        (config.max_workers < 2 || !(if major { config.parallel_major_gc } else { config.parallel_minor_gc }))
            ==> r is None,
        !(config.max_workers < 2 || !(if major { config.parallel_major_gc } else { config.parallel_minor_gc }))
            ==> r == Some(if config.max_workers < available { config.max_workers } else { available }),
{
    let enabled = if major { config.parallel_major_gc } else { config.parallel_minor_gc };
    if config.max_workers < 2 || !enabled {
        return None;
    }
    Some(if config.max_workers < available { config.max_workers } else { available })
}

/// The dirty objects of a small-object page, ascending.
pub fn dirty_slot_indices(header: &PageHeader) -> (r: Vec<usize>)
    requires
        header.wf(),
        header.obj_count <= PAGE_SLOTS,
    ensures
        r@ == indices_where(header.obj_count as int, |i: int| header.dirty().contains(i)),
{
    let n: usize = header.obj_count as usize;
    let mut r: Vec<usize> = Vec::new();
    let mut i: usize = 0;
    while i < n
        invariant
            header.wf(),
            n == header.obj_count,
            n <= PAGE_SLOTS,
            i <= n,
            r@ == indices_where(i as int, |k: int| header.dirty().contains(k)),
        decreases n - i,
    {
        if header.is_dirty(i) {
            r.push(i);
        }
        i = i + 1;
    }
    r
}

/// How the dirty pages of a minor collection are scanned: young pages are
/// skipped, a large-object page's object is traced whole, a small-object
/// page object by object. Returns the positions in `dirty` of the large
/// and of the small pages, in order.
pub fn classify_dirty_pages(pages: &Vec<PageHeader>) -> (r: (Vec<usize>, Vec<usize>))
    ensures
        r.0@ == indices_where(pages.len() as int, |k: int| pages@[k].generation != 0 && flag_set(pages@[k].flags, PAGE_FLAG_LARGE)),
        r.1@ == indices_where(pages.len() as int, |k: int| pages@[k].generation != 0 && !flag_set(pages@[k].flags, PAGE_FLAG_LARGE)),
{
    let mut large: Vec<usize> = Vec::new();
    let mut small: Vec<usize> = Vec::new();
    let mut k: usize = 0;
    while k < pages.len()
        invariant
            k <= pages.len(),
            large@ == indices_where(k as int, |j: int| pages@[j].generation != 0 && flag_set(pages@[j].flags, PAGE_FLAG_LARGE)),
            small@ == indices_where(k as int, |j: int| pages@[j].generation != 0 && !flag_set(pages@[j].flags, PAGE_FLAG_LARGE)),
        decreases pages.len() - k,
    {
        if pages[k].generation != 0 {
            if pages[k].is_large_object() {
                large.push(k);
            } else {
                small.push(k);
            }
        }
        k = k + 1;
    }
    (large, small)
}

/// The old pages a parallel major collection starts from, in order.
pub fn old_generation_pages(pages: &Vec<PageHeader>) -> (r: Vec<usize>)
    ensures
        r@ == indices_where(pages.len() as int, |k: int| pages@[k].generation == 1),
{
    let mut r: Vec<usize> = Vec::new();
    let mut k: usize = 0;
    while k < pages.len()
        invariant
            k <= pages.len(),
            r@ == indices_where(k as int, |j: int| pages@[j].generation == 1),
        decreases pages.len() - k,
    {
        if pages[k].generation == 1 {
            r.push(k);
        }
        k = k + 1;
    }
    r
}

/// The default condition always collects once more handles were dropped
/// than are alive, whatever the heap sizes.
pub proof fn law_default_collects_on_drops(info: CollectInfo)
    requires
        info.n_gcs_dropped > info.n_gcs_existing,
    ensures
        spec_default_collect(info),
{
}

/// The kind of collection follows the heap's size alone: every heap above
/// 10 MiB gets a major collection, every heap of at most 10 MiB a minor
/// one; so a larger heap never gets a lighter collection than a smaller
/// one.
pub proof fn law_collection_kind_by_size(total_size: usize, other: usize)
    ensures
        MAJOR_THRESHOLD == 10 * 1024 * 1024,
        total_size > 10 * 1024 * 1024 ==> spec_collection_type(total_size) == CollectionType::Major,
        total_size <= 10 * 1024 * 1024 ==> spec_collection_type(total_size) == CollectionType::Minor,
        total_size <= other && spec_collection_type(total_size) == CollectionType::Major ==> spec_collection_type(other)
            == CollectionType::Major,
{
}

/// The default condition asks for a collection exactly when more handles
/// were dropped than are alive or the young generation exceeds 1 MiB,
/// whatever the heap, old-generation or other sizes are.
pub proof fn law_default_condition(info: CollectInfo, other: CollectInfo)
    ensures
        YOUNG_LIMIT == 1024 * 1024,
        info.young_size > 1024 * 1024 ==> spec_default_collect(info),
        info.n_gcs_dropped > info.n_gcs_existing ==> spec_default_collect(info),
        spec_default_collect(info) ==> info.young_size > 1024 * 1024 || info.n_gcs_dropped > info.n_gcs_existing,
        other.n_gcs_dropped == info.n_gcs_dropped && other.n_gcs_existing == info.n_gcs_existing && other.young_size
            == info.young_size ==> spec_default_collect(other) == spec_default_collect(info),
{
}

} // verus!
