//! Incremental marking: the phase state machine (idle, snapshot, marking,
//! final mark, sweeping), the global mark worklist, fallback to a
//! stop-the-world collection, slice statistics and the end-of-slice
//! decisions.

use vstd::prelude::*;
use crossbeam::queue::SegQueue;
use crate::page::{PageHeader, PAGE_SLOTS, spec_header_size};
use crate::sweep::indices_where;
use crate::lookup::PageAt;
use crate::collect::{GcVisitor, VisitorKind};
use crate::mark::{
    marking_ready, grown, marks_grew, handled, traced, locate, newly_marked, unmarked_total, lemma_grown_keeps,
    lemma_traced_grown, lemma_grown_trans, lemma_grown_refl,
};

verus! {

/// Objects traced per slice by default.
pub const DEFAULT_INCREMENT_SIZE: usize = 1000;
/// Dirty pages tolerated before falling back to stop-the-world.
pub const DEFAULT_MAX_DIRTY_PAGES: usize = 1000;
/// Default length of the remembered buffer.
pub const DEFAULT_REMEMBERED_BUFFER_LEN: usize = 32;
/// Longest slice, in milliseconds, before falling back.
pub const DEFAULT_SLICE_TIMEOUT_MS: u64 = 50;

#[verifier::external_type_specification]
#[verifier::external_body]
#[verifier::reject_recursive_types(T)]
pub struct ExSegQueue<T>(SegQueue<T>);

/// The items of a segment queue, front first.
pub uninterp spec fn seg_queue_items(q: SegQueue<usize>) -> Seq<usize>;

/// `SegQueue::new`: an empty queue.
#[verifier::external_body]
fn seg_queue_new() -> (q: SegQueue<usize>)
    ensures
        seg_queue_items(q) == Seq::<usize>::empty(),
{
    SegQueue::new()
}

/// `SegQueue::push_mut`: appends at the back.
#[verifier::external_body]
fn seg_queue_push(q: &mut SegQueue<usize>, v: usize)
    ensures
        seg_queue_items(*final(q)) == seg_queue_items(*old(q)).push(v),
{
    q.push_mut(v)
}

/// `SegQueue::pop_mut`: removes the front item, `None` when empty.
#[verifier::external_body]
fn seg_queue_pop(q: &mut SegQueue<usize>) -> (r: Option<usize>)
    ensures
        seg_queue_items(*old(q)).len() == 0 ==> r is None && seg_queue_items(*final(q)) == seg_queue_items(*old(q)),
        seg_queue_items(*old(q)).len() > 0 ==> r == Some(seg_queue_items(*old(q))[0]) && seg_queue_items(*final(q))
            == seg_queue_items(*old(q)).drop_first(),
{
    q.pop_mut()
}

/// `SegQueue::len`: the number of items.
#[verifier::external_body]
fn seg_queue_len(q: &SegQueue<usize>) -> (n: usize)
    ensures
        n == seg_queue_items(*q).len(),
{
    q.len()
}

/// `SegQueue::is_empty`: whether there is no item.
#[verifier::external_body]
fn seg_queue_is_empty(q: &SegQueue<usize>) -> (r: bool)
    ensures
        r == (seg_queue_items(*q).len() == 0),
{
    q.is_empty()
}

/// Phase of an incremental major collection.
#[derive(Debug, Clone, Copy, PartialEq, Eq, Structural)]
pub enum MarkPhase {
    /// No collection in progress.
    Idle,
    /// Roots are being captured with mutators stopped.
    Snapshot,
    /// Marking proceeds in slices between mutator runs.
    Marking,
    /// The last stop-the-world marking step.
    FinalMark,
    /// Unmarked objects are being reclaimed.
    Sweeping,
}

/// Numeric code of a phase.
pub open spec fn phase_code(p: MarkPhase) -> usize {
    match p {
        MarkPhase::Idle => 0,
        MarkPhase::Snapshot => 1,
        MarkPhase::Marking => 2,
        MarkPhase::FinalMark => 3,
        MarkPhase::Sweeping => 4,
    }
}

/// The phase a numeric code stands for.
pub open spec fn phase_of_code(v: usize) -> Option<MarkPhase> {
    if v == 0 {
        Some(MarkPhase::Idle)
    } else if v == 1 {
        Some(MarkPhase::Snapshot)
    } else if v == 2 {
        Some(MarkPhase::Marking)
    } else if v == 3 {
        Some(MarkPhase::FinalMark)
    } else if v == 4 {
        Some(MarkPhase::Sweeping)
    } else {
        None
    }
}

/// The transitions the phase machine allows.
pub open spec fn valid_transition(from: MarkPhase, to: MarkPhase) -> bool {
    ||| from == MarkPhase::Idle && to == MarkPhase::Snapshot
    ||| (from == MarkPhase::Snapshot || from == MarkPhase::Marking || from == MarkPhase::FinalMark) && to
        == MarkPhase::Marking
    ||| from == MarkPhase::Marking && to == MarkPhase::FinalMark
    ||| from == MarkPhase::FinalMark && to == MarkPhase::Sweeping
    ||| from == MarkPhase::Sweeping && to == MarkPhase::Idle
}

impl MarkPhase {
    /// The phase for a numeric code, `None` for an unknown code.
    pub fn from_usize(v: usize) -> (r: Option<Self>)
        ensures
            r == phase_of_code(v),
    {
        match v {
            0 => Some(MarkPhase::Idle),
            1 => Some(MarkPhase::Snapshot),
            2 => Some(MarkPhase::Marking),
            3 => Some(MarkPhase::FinalMark),
            4 => Some(MarkPhase::Sweeping),
            _ => None,
        }
    }

    /// The numeric code of this phase.
    pub fn to_usize(self) -> (r: usize)
        ensures
            r == phase_code(self),
    {
        match self {
            MarkPhase::Idle => 0,
            MarkPhase::Snapshot => 1,
            MarkPhase::Marking => 2,
            MarkPhase::FinalMark => 3,
            MarkPhase::Sweeping => 4,
        }
    }
}

/// Why incremental marking fell back to a stop-the-world collection.
#[derive(Debug, Clone, Copy, PartialEq, Eq, Structural)]
pub enum FallbackReason {
    /// No fallback.
    NoFallback,
    /// Too many dirty pages.
    DirtyPagesExceeded,
    /// A slice ran too long.
    SliceTimeout,
    /// The worklist grew without bound.
    WorklistUnbounded,
    /// The snapshot-at-the-beginning buffer overflowed.
    SatbBufferOverflow,
}

/// Numeric code of a fallback reason.
pub open spec fn reason_code(r: FallbackReason) -> u32 {
    match r {
        FallbackReason::NoFallback => 0,
        FallbackReason::DirtyPagesExceeded => 1,
        FallbackReason::SliceTimeout => 2,
        FallbackReason::WorklistUnbounded => 3,
        FallbackReason::SatbBufferOverflow => 4,
    }
}

/// The reason a numeric code stands for; unknown codes mean no fallback.
pub open spec fn reason_of_code(v: u32) -> FallbackReason {
    if v == 1 {
        FallbackReason::DirtyPagesExceeded
    } else if v == 2 {
        FallbackReason::SliceTimeout
    } else if v == 3 {
        FallbackReason::WorklistUnbounded
    } else if v == 4 {
        FallbackReason::SatbBufferOverflow
    } else {
        FallbackReason::NoFallback
    }
}

impl FallbackReason {
    /// The reason for a numeric code; unknown codes map to `None`.
    pub fn from_u32(v: u32) -> (r: Self)
        ensures
            r == reason_of_code(v),
    {
        match v {
            1 => FallbackReason::DirtyPagesExceeded,
            2 => FallbackReason::SliceTimeout,
            3 => FallbackReason::WorklistUnbounded,
            4 => FallbackReason::SatbBufferOverflow,
            _ => FallbackReason::NoFallback,
        }
    }

    /// The numeric code of this reason.
    pub fn to_u32(self) -> (r: u32)
        ensures
            r == reason_code(self),
    {
        match self {
            FallbackReason::NoFallback => 0,
            FallbackReason::DirtyPagesExceeded => 1,
            FallbackReason::SliceTimeout => 2,
            FallbackReason::WorklistUnbounded => 3,
            FallbackReason::SatbBufferOverflow => 4,
        }
    }
}

/// Outcome of one marking slice.
#[derive(Debug, Clone, Copy, PartialEq, Eq, Structural)]
pub enum MarkSliceResult {
    /// More work remains.
    Pending {
        /// Objects traced in this slice.
        objects_marked: usize,
        /// Dirty pages still to scan.
        dirty_pages_remaining: usize,
    },
    /// Marking is done.
    Complete {
        /// Objects marked over the whole cycle.
        total_objects_marked: usize,
        /// Slices executed over the whole cycle.
        total_slices: usize,
    },
    /// Marking must finish stop-the-world.
    Fallback {
        /// Why.
        reason: FallbackReason,
    },
}

/// Settings of incremental marking.
#[derive(Debug, Clone, Copy)]
pub struct IncrementalConfig {
    /// Whether major collections mark incrementally.
    pub enabled: bool,
    /// Objects traced per slice.
    pub increment_size: usize,
    /// Dirty pages tolerated before falling back.
    pub max_dirty_pages: usize,
    /// Length of the remembered buffer.
    pub remembered_buffer_len: usize,
    /// Longest slice in milliseconds before falling back.
    pub slice_timeout_ms: u64,
}

impl Default for IncrementalConfig {
    fn default() -> (c: Self)
        ensures
            !c.enabled,
            c.increment_size == DEFAULT_INCREMENT_SIZE,
            c.max_dirty_pages == DEFAULT_MAX_DIRTY_PAGES,
            c.remembered_buffer_len == DEFAULT_REMEMBERED_BUFFER_LEN,
            c.slice_timeout_ms == DEFAULT_SLICE_TIMEOUT_MS,
    {
        IncrementalConfig {
            enabled: false,
            increment_size: DEFAULT_INCREMENT_SIZE,
            max_dirty_pages: DEFAULT_MAX_DIRTY_PAGES,
            remembered_buffer_len: DEFAULT_REMEMBERED_BUFFER_LEN,
            slice_timeout_ms: DEFAULT_SLICE_TIMEOUT_MS,
        }
    }
}

/// Counters of one incremental marking cycle.
#[derive(Debug)]
pub struct MarkStats {
    /// Objects marked.
    pub objects_marked: usize,
    /// Dirty pages scanned.
    pub dirty_pages_scanned: usize,
    /// Slices executed.
    pub slices_executed: usize,
    /// Time spent marking, in nanoseconds.
    pub mark_time_ns: u64,
    /// Whether a fallback occurred.
    pub fallback_occurred: bool,
    /// Code of the fallback reason.
    pub fallback_reason: u32,
}

impl Default for MarkStats {
    fn default() -> (s: Self)
        ensures
            s.objects_marked == 0 && s.dirty_pages_scanned == 0 && s.slices_executed == 0 && s.mark_time_ns == 0
                && !s.fallback_occurred && s.fallback_reason == 0,
    {
        Self::new()
    }
}

impl MarkStats {
    /// All counters zero, no fallback.
    pub fn new() -> (s: Self)
        ensures
            s.objects_marked == 0 && s.dirty_pages_scanned == 0 && s.slices_executed == 0 && s.mark_time_ns == 0
                && !s.fallback_occurred && s.fallback_reason == 0,
    {
        MarkStats {
            objects_marked: 0,
            dirty_pages_scanned: 0,
            slices_executed: 0,
            mark_time_ns: 0,
            fallback_occurred: false,
            fallback_reason: 0,
        }
    }

    /// Resets every counter.
    pub fn reset(&mut self)
        ensures
            final(self).objects_marked == 0 && final(self).dirty_pages_scanned == 0 && final(self).slices_executed == 0
                && final(self).mark_time_ns == 0 && !final(self).fallback_occurred && final(self).fallback_reason == 0,
    {
        self.objects_marked = 0;
        self.dirty_pages_scanned = 0;
        self.slices_executed = 0;
        self.mark_time_ns = 0;
        self.fallback_occurred = false;
        self.fallback_reason = 0;
    }

    /// Records that a fallback occurred and why.
    pub fn record_fallback(&mut self, reason: FallbackReason)
        ensures
            final(self).fallback_occurred,
            final(self).fallback_reason == reason_code(reason),
            final(self).objects_marked == old(self).objects_marked,
            final(self).dirty_pages_scanned == old(self).dirty_pages_scanned,
            final(self).slices_executed == old(self).slices_executed,
            final(self).mark_time_ns == old(self).mark_time_ns,
    {
        self.fallback_occurred = true;
        self.fallback_reason = reason.to_u32();
    }

    /// The recorded fallback reason.
    pub fn fallback_reason(&self) -> (r: FallbackReason)
        ensures
            r == reason_of_code(self.fallback_reason),
    {
        FallbackReason::from_u32(self.fallback_reason)
    }
}

} // verus!

verus! {

/// State of incremental marking: phase, global worklist of object
/// addresses, configuration, statistics and coordination counters.
pub struct IncrementalMarkState {
    /// Numeric code of the current phase.
    pub phase: usize,
    /// Objects still to trace.
    pub worklist: SegQueue<usize>,
    /// Current configuration.
    pub config: IncrementalConfig,
    /// Whether incremental marking is enabled.
    pub enabled: bool,
    /// Statistics of the current cycle.
    pub stats: MarkStats,
    /// Whether a fallback to stop-the-world was requested.
    pub fallback_requested: bool,
    /// Number of roots found by the snapshot.
    pub root_count: usize,
    /// Largest worklist size seen this cycle.
    pub max_worklist_size: usize,
    /// Start of the current slice, in milliseconds.
    pub slice_start_ms: Option<u64>,
    /// Slices started.
    pub slice_counter: usize,
    /// Mutators that acknowledged the snapshot rendezvous.
    pub rendezvous_ack_counter: usize,
}

impl IncrementalMarkState {
    /// Every queued object address is non-null.
    pub open spec fn wf(&self) -> bool {
        forall|k: int| 0 <= k < self.work().len() ==> #[trigger] self.work()[k] != 0
    }

    /// Queued object addresses, front first.
    pub open spec fn work(&self) -> Seq<usize> {
        seg_queue_items(self.worklist)
    }

    /// The current phase (an unknown code reads as idle).
    pub open spec fn spec_phase(&self) -> MarkPhase {
        match phase_of_code(self.phase) {
            Some(p) => p,
            None => MarkPhase::Idle,
        }
    }

    /// Idle, empty worklist, default configuration, zero counters.
    pub fn new() -> (s: Self)
        ensures
            s.wf(),
            s.phase == 0,
            s.work() == Seq::<usize>::empty(),
            !s.config.enabled,
            s.config.increment_size == DEFAULT_INCREMENT_SIZE,
            s.config.max_dirty_pages == DEFAULT_MAX_DIRTY_PAGES,
            s.config.remembered_buffer_len == DEFAULT_REMEMBERED_BUFFER_LEN,
            s.config.slice_timeout_ms == DEFAULT_SLICE_TIMEOUT_MS,
            !s.enabled,
            s.stats.objects_marked == 0 && s.stats.dirty_pages_scanned == 0 && s.stats.slices_executed == 0
                && s.stats.mark_time_ns == 0 && !s.stats.fallback_occurred && s.stats.fallback_reason == 0,
            !s.fallback_requested,
            s.root_count == 0,
            s.max_worklist_size == 0,
            s.slice_start_ms is None,
            s.slice_counter == 0,
            s.rendezvous_ack_counter == 0,
    {
        IncrementalMarkState {
            phase: 0,
            worklist: seg_queue_new(),
            config: IncrementalConfig::default(),
            enabled: false,
            stats: MarkStats::new(),
            fallback_requested: false,
            root_count: 0,
            max_worklist_size: 0,
            slice_start_ms: None,
            slice_counter: 0,
            rendezvous_ack_counter: 0,
        }
    }

    /// Records the start time of a slice.
    pub fn start_slice(&mut self, now_ms: u64)
        ensures
            final(self).slice_start_ms == Some(now_ms),
            *final(self) == (IncrementalMarkState { slice_start_ms: Some(now_ms), ..*old(self) }),
    {
        self.slice_start_ms = Some(now_ms);
    }

    /// Milliseconds since the slice started, 0 when no slice started.
    pub fn slice_elapsed_ms(&self, now_ms: u64) -> (r: u64)
        ensures
            r == match self.slice_start_ms {
                Some(s) => if now_ms >= s { (now_ms - s) as u64 } else { 0 },
                None => 0,
            },
    {
        match self.slice_start_ms {
            Some(s) => now_ms.saturating_sub(s),
            None => 0,
        }
    }

    /// The current phase.
    pub fn phase(&self) -> (p: MarkPhase)
        ensures
            p == self.spec_phase(),
    {
        match MarkPhase::from_usize(self.phase) {
            Some(p) => p,
            None => MarkPhase::Idle,
        }
    }

    /// Enters a phase unconditionally.
    pub fn set_phase(&mut self, phase: MarkPhase)
        ensures
            final(self).spec_phase() == phase,
            *final(self) == (IncrementalMarkState { phase: phase_code(phase), ..*old(self) }),
    {
        self.phase = phase.to_usize();
    }

    /// Whether the phase machine allows going from `from` to `to`.
    pub fn is_valid_transition(&self, from: MarkPhase, to: MarkPhase) -> (r: bool)
        ensures
            r == valid_transition(from, to),
    {
        match (from, to) {
            (MarkPhase::Idle, MarkPhase::Snapshot) => true,
            (MarkPhase::Snapshot, MarkPhase::Marking) => true,
            (MarkPhase::Marking, MarkPhase::Marking) => true,
            (MarkPhase::FinalMark, MarkPhase::Marking) => true,
            (MarkPhase::Marking, MarkPhase::FinalMark) => true,
            (MarkPhase::FinalMark, MarkPhase::Sweeping) => true,
            (MarkPhase::Sweeping, MarkPhase::Idle) => true,
            _ => false,
        }
    }

    /// Moves to `new_phase` if the machine allows it from the current
    /// phase; returns whether it moved.
    pub fn transition_to(&mut self, new_phase: MarkPhase) -> (moved: bool)
        ensures
            moved == valid_transition(old(self).spec_phase(), new_phase),
            moved ==> final(self).spec_phase() == new_phase,
            moved ==> *final(self) == (IncrementalMarkState { phase: phase_code(new_phase), ..*old(self) }),
            !moved ==> *final(self) == *old(self),
    {
        let current = self.phase();
        if !self.is_valid_transition(current, new_phase) {
            return false;
        }
        self.set_phase(new_phase);
        true
    }

    /// Queues an object to trace.
    pub fn push_work(&mut self, ptr: usize)
        requires
            old(self).wf(),
            ptr != 0,
        ensures
            final(self).wf(),
            final(self).work() == old(self).work().push(ptr),
            *final(self) == (IncrementalMarkState { worklist: final(self).worklist, ..*old(self) }),
    {
        seg_queue_push(&mut self.worklist, ptr);
        proof {
            assert forall|k: int| 0 <= k < self.work().len() implies #[trigger] self.work()[k] != 0 by {
                if k < old(self).work().len() {
                    assert(self.work()[k] == old(self).work()[k]);
                }
            }
        }
    }

    /// Takes the oldest queued object.
    pub fn pop_work(&mut self) -> (r: Option<usize>)
        requires
            old(self).wf(),
        ensures
            final(self).wf(),
            old(self).work().len() == 0 ==> r is None && final(self).work() == old(self).work(),
            old(self).work().len() > 0 ==> r == Some(old(self).work()[0]) && final(self).work()
                == old(self).work().drop_first(),
            r matches Some(p) ==> p != 0,
            *final(self) == (IncrementalMarkState { worklist: final(self).worklist, ..*old(self) }),
    {
        let r = seg_queue_pop(&mut self.worklist);
        proof {
            assert forall|k: int| 0 <= k < self.work().len() implies #[trigger] self.work()[k] != 0 by {
                assert(self.work()[k] == old(self).work()[k + 1]);
            }
        }
        r
    }

    /// Whether nothing is queued.
    pub fn worklist_is_empty(&self) -> (r: bool)
        ensures
            r == (self.work().len() == 0),
    {
        seg_queue_is_empty(&self.worklist)
    }

    /// Number of queued objects.
    pub fn worklist_len(&self) -> (n: usize)
        ensures
            n == self.work().len(),
    {
        seg_queue_len(&self.worklist)
    }

    /// Empties the worklist.
    pub fn reset_worklist(&mut self)
        ensures
            final(self).wf(),
            final(self).work() == Seq::<usize>::empty(),
            *final(self) == (IncrementalMarkState { worklist: final(self).worklist, ..*old(self) }),
    {
        self.worklist = seg_queue_new();
    }

    /// Requests a fallback to stop-the-world and records why.
    pub fn request_fallback(&mut self, reason: FallbackReason)
        ensures
            final(self).fallback_requested,
            final(self).stats.fallback_occurred,
            final(self).stats.fallback_reason == reason_code(reason),
            final(self).stats.objects_marked == old(self).stats.objects_marked,
            final(self).stats.slices_executed == old(self).stats.slices_executed,
            final(self).stats.dirty_pages_scanned == old(self).stats.dirty_pages_scanned,
            final(self).worklist == old(self).worklist,
            final(self).phase == old(self).phase,
            final(self).root_count == old(self).root_count,
            final(self).max_worklist_size == old(self).max_worklist_size,
            final(self).config == old(self).config,
    {
        self.fallback_requested = true;
        self.stats.record_fallback(reason);
    }

    /// Whether a fallback was requested.
    pub fn fallback_requested(&self) -> (r: bool)
        ensures
            r == self.fallback_requested,
    {
        self.fallback_requested
    }

    /// Withdraws a fallback request.
    pub fn reset_fallback(&mut self)
        ensures
            *final(self) == (IncrementalMarkState { fallback_requested: false, ..*old(self) }),
    {
        self.fallback_requested = false;
    }

    /// Records the number of roots; the worklist high-water mark starts there.
    pub fn set_root_count(&mut self, count: usize)
        ensures
            final(self).root_count == count,
            final(self).max_worklist_size == count,
            *final(self) == (IncrementalMarkState { root_count: count, max_worklist_size: count, ..*old(self) }),
    {
        self.root_count = count;
        self.max_worklist_size = count;
    }

    /// Number of roots found by the snapshot.
    pub fn root_count(&self) -> (n: usize)
        ensures
            n == self.root_count,
    {
        self.root_count
    }

    /// Raises the worklist high-water mark to `size` if it is larger.
    pub fn update_max_worklist_size(&mut self, size: usize)
        ensures
            final(self).max_worklist_size == (if size > old(self).max_worklist_size { size } else { old(self).max_worklist_size }),
            *final(self) == (IncrementalMarkState { max_worklist_size: final(self).max_worklist_size, ..*old(self) }),
    {
        let current_max = self.max_worklist_size;
        if size > current_max {
            self.max_worklist_size = size;
        }
    }

    /// The worklist high-water mark.
    pub fn max_worklist_size(&self) -> (n: usize)
        ensures
            n == self.max_worklist_size,
    {
        self.max_worklist_size
    }

    /// Slices started.
    pub fn slice_counter(&self) -> (n: usize)
        ensures
            n == self.slice_counter,
    {
        self.slice_counter
    }

    /// Counts one more slice; returns the count before.
    pub fn increment_slice_counter(&mut self) -> (prev: usize)
        ensures
            prev == old(self).slice_counter,
            final(self).slice_counter == old(self).slice_counter.wrapping_add(1),
            final(self).worklist == old(self).worklist,
            final(self).phase == old(self).phase,
    {
        let prev = self.slice_counter;
        self.slice_counter = self.slice_counter.wrapping_add(1);
        prev
    }

    /// The current configuration.
    pub fn config(&self) -> (c: IncrementalConfig)
        ensures
            c == self.config,
    {
        self.config
    }

    /// Installs a configuration; `enabled` follows it.
    pub fn set_config(&mut self, config: IncrementalConfig)
        ensures
            final(self).config == config,
            final(self).enabled == config.enabled,
            final(self).worklist == old(self).worklist,
            final(self).phase == old(self).phase,
            final(self).fallback_requested == old(self).fallback_requested,
    {
        self.config = config;
        self.enabled = config.enabled;
    }

    /// Statistics of the current cycle.
    pub fn stats(&self) -> (s: &MarkStats)
        ensures
            *s == self.stats,
    {
        &self.stats
    }

    /// Back to idle: empty worklist, no fallback, zero statistics, no slice
    /// start, zero roots and acknowledgements.
    pub fn reset(&mut self)
        ensures
            final(self).wf(),
            final(self).spec_phase() == MarkPhase::Idle,
            final(self).work() == Seq::<usize>::empty(),
            !final(self).fallback_requested,
            final(self).stats.objects_marked == 0 && final(self).stats.dirty_pages_scanned == 0
                && final(self).stats.slices_executed == 0 && final(self).stats.mark_time_ns == 0
                && !final(self).stats.fallback_occurred && final(self).stats.fallback_reason == 0,
            final(self).slice_start_ms is None,
            final(self).root_count == 0,
            final(self).rendezvous_ack_counter == 0,
            final(self).config == old(self).config,
            final(self).enabled == old(self).enabled,
            final(self).slice_counter == old(self).slice_counter,
            final(self).max_worklist_size == old(self).max_worklist_size,
    {
        self.set_phase(MarkPhase::Idle);
        self.reset_worklist();
        self.reset_fallback();
        self.stats.reset();
        self.slice_start_ms = None;
        self.root_count = 0;
        self.rendezvous_ack_counter = 0;
    }

    /// Counts one more rendezvous acknowledgement; returns the count before.
    pub fn increment_rendezvous_ack(&mut self) -> (prev: usize)
        ensures
            prev == old(self).rendezvous_ack_counter,
            final(self).rendezvous_ack_counter == old(self).rendezvous_ack_counter.wrapping_add(1),
            final(self).worklist == old(self).worklist,
            final(self).phase == old(self).phase,
    {
        let prev = self.rendezvous_ack_counter;
        self.rendezvous_ack_counter = self.rendezvous_ack_counter.wrapping_add(1);
        prev
    }

    /// Rendezvous acknowledgements so far.
    pub fn rendezvous_ack_count(&self) -> (n: usize)
        ensures
            n == self.rendezvous_ack_counter,
    {
        self.rendezvous_ack_counter
    }

    /// Resets the rendezvous acknowledgements.
    pub fn reset_rendezvous_ack(&mut self)
        ensures
            final(self).rendezvous_ack_counter == 0,
            final(self).worklist == old(self).worklist,
            final(self).phase == old(self).phase,
    {
        self.rendezvous_ack_counter = 0;
    }
}

/// Marking is underway: snapshot, marking or final mark.
pub open spec fn marking_active(p: MarkPhase) -> bool {
    p == MarkPhase::Snapshot || p == MarkPhase::Marking || p == MarkPhase::FinalMark
}

/// Whether incremental marking is underway.
pub fn is_incremental_marking_active(state: &IncrementalMarkState) -> (r: bool)
    ensures
        r == marking_active(state.spec_phase()),
{
    let phase = state.phase();
    phase == MarkPhase::Snapshot || phase == MarkPhase::Marking || phase == MarkPhase::FinalMark
}

/// Whether the insertion barrier is active: the marking phase.
pub fn is_write_barrier_active(state: &IncrementalMarkState) -> (r: bool)
    ensures
        r == (state.spec_phase() == MarkPhase::Marking),
{
    let phase = state.phase();
    phase == MarkPhase::Marking
}

/// Whether mutator writes must go through the write barrier: enabled, no
/// fallback requested, marking phase.
pub fn write_barrier_needed(state: &IncrementalMarkState) -> (r: bool)
    ensures
        r == (state.enabled && !state.fallback_requested && state.spec_phase() == MarkPhase::Marking),
{
    state.enabled && !state.fallback_requested() && is_write_barrier_active(state)
}

/// Whether the generational barrier must also run: enabled, no fallback
/// requested, marking underway.
pub fn is_generational_barrier_active(state: &IncrementalMarkState) -> (r: bool)
    ensures
        r == (state.enabled && !state.fallback_requested && marking_active(state.spec_phase())),
{
    state.enabled && !state.fallback_requested() && is_incremental_marking_active(state)
}

} // verus!

verus! {

/// `n * 10`, saturating at `usize::MAX`.
pub open spec fn saturating_times_ten(n: usize) -> int {
    if n * 10 > usize::MAX { usize::MAX as int } else { n * 10 }
}

/// `a + b`, saturating at `usize::MAX`.
pub open spec fn saturating_sum(a: usize, b: usize) -> usize {
    if a + b > usize::MAX { usize::MAX } else { (a + b) as usize }
}

/// The outcome of the end-of-slice checks, in the order they are made.
pub open spec fn slice_outcome(
    config: IncrementalConfig,
    objects_marked: usize,
    dirty_pages: usize,
    slice_elapsed_ms: u64,
    worklist_len: usize,
    max_worklist: usize,
    remaining_dirty: usize,
    total_marked: usize,
    total_slices: usize,
) -> MarkSliceResult {
    if dirty_pages > config.max_dirty_pages {
        MarkSliceResult::Fallback { reason: FallbackReason::DirtyPagesExceeded }
    } else if slice_elapsed_ms > config.slice_timeout_ms {
        MarkSliceResult::Fallback { reason: FallbackReason::SliceTimeout }
    } else if max_worklist > 0 && worklist_len > saturating_times_ten(max_worklist) {
        MarkSliceResult::Fallback { reason: FallbackReason::WorklistUnbounded }
    } else if worklist_len == 0 && remaining_dirty == 0 {
        MarkSliceResult::Complete { total_objects_marked: total_marked, total_slices }
    } else {
        MarkSliceResult::Pending { objects_marked, dirty_pages_remaining: remaining_dirty }
    }
}

impl IncrementalMarkState {
    /// The fallback a slice must report before doing any work: the recorded
    /// reason, or `default_reason` when none was recorded; `None` when no
    /// fallback was requested.
    pub fn pending_fallback(&self, default_reason: FallbackReason) -> (r: Option<MarkSliceResult>)
        ensures
            !self.fallback_requested ==> r is None,
            self.fallback_requested ==> r == Some(MarkSliceResult::Fallback {
                reason: if reason_of_code(self.stats.fallback_reason) == FallbackReason::NoFallback {
                    default_reason
                } else {
                    reason_of_code(self.stats.fallback_reason)
                },
            }),
    {
        if self.fallback_requested() {
            let reason = self.stats().fallback_reason();
            return Some(MarkSliceResult::Fallback {
                reason: if reason == FallbackReason::NoFallback { default_reason } else { reason },
            });
        }
        None
    }

    /// Ends a marking slice: accounts the objects traced and the dirty pages
    /// scanned, then falls back when too many pages are dirty, the slice ran
    /// too long or the worklist grew without bound (past ten times the
    /// largest size seen in earlier slices); reports completion when
    /// the worklist is empty and no dirty page remains, pending otherwise.
    pub fn conclude_slice(
        &mut self,
        objects_marked: usize,
        dirty_scanned: usize,
        dirty_pages: usize,
        slice_elapsed_ms: u64,
        remaining_dirty: usize,
    ) -> (r: MarkSliceResult)
        requires
            old(self).wf(),
        ensures
            final(self).wf(),
            final(self).work() == old(self).work(),
            final(self).phase == old(self).phase,
            final(self).config == old(self).config,
            final(self).root_count == old(self).root_count,
            final(self).stats.dirty_pages_scanned == old(self).stats.dirty_pages_scanned.wrapping_add(dirty_scanned),
            final(self).stats.slices_executed == old(self).stats.slices_executed.wrapping_add(1),
            final(self).stats.objects_marked == old(self).stats.objects_marked.wrapping_add(
                saturating_sum(objects_marked, dirty_scanned),
            ),
            final(self).max_worklist_size == (if old(self).work().len() > old(self).max_worklist_size {
                old(self).work().len() as usize
            } else {
                old(self).max_worklist_size
            }),
            r == slice_outcome(
                old(self).config,
                objects_marked,
                dirty_pages,
                slice_elapsed_ms,
                old(self).work().len() as usize,
                old(self).max_worklist_size,
                remaining_dirty,
                final(self).stats.objects_marked,
                final(self).stats.slices_executed,
            ),
            r matches MarkSliceResult::Fallback { reason } ==> final(self).fallback_requested
                && final(self).stats.fallback_occurred && final(self).stats.fallback_reason == reason_code(reason),
            !(r is Fallback) ==> final(self).fallback_requested == old(self).fallback_requested
                && final(self).stats.fallback_occurred == old(self).stats.fallback_occurred
                && final(self).stats.fallback_reason == old(self).stats.fallback_reason,
    {
        let config = self.config;
        self.stats.dirty_pages_scanned = self.stats.dirty_pages_scanned.wrapping_add(dirty_scanned);
        let total_marked = objects_marked.saturating_add(dirty_scanned);
        self.stats.slices_executed = self.stats.slices_executed.wrapping_add(1);
        self.stats.objects_marked = self.stats.objects_marked.wrapping_add(total_marked);
        let worklist_size = self.worklist_len();
        let max_size = self.max_worklist_size();
        self.update_max_worklist_size(worklist_size);
        if dirty_pages > config.max_dirty_pages {
            self.request_fallback(FallbackReason::DirtyPagesExceeded);
            return MarkSliceResult::Fallback { reason: FallbackReason::DirtyPagesExceeded };
        }
        if slice_elapsed_ms > config.slice_timeout_ms {
            self.request_fallback(FallbackReason::SliceTimeout);
            return MarkSliceResult::Fallback { reason: FallbackReason::SliceTimeout };
        }
        let limit: usize = if max_size > usize::MAX / 10 { usize::MAX } else { max_size * 10 };
        if max_size > 0 && worklist_size > limit {
            self.request_fallback(FallbackReason::WorklistUnbounded);
            return MarkSliceResult::Fallback { reason: FallbackReason::WorklistUnbounded };
        }
        if self.worklist_is_empty() && remaining_dirty == 0 {
            MarkSliceResult::Complete {
                total_objects_marked: self.stats.objects_marked,
                total_slices: self.stats.slices_executed,
            }
        } else {
            MarkSliceResult::Pending { objects_marked, dirty_pages_remaining: remaining_dirty }
        }
    }

    /// Queues objects in the order a LIFO worklist hands them out: the last
    /// element of `work` first. Returns how many were queued.
    pub fn enqueue_popped(&mut self, work: Vec<usize>) -> (n: usize)
        requires
            old(self).wf(),
            forall|k: int| 0 <= k < work.len() ==> #[trigger] work@[k] != 0,
        ensures
            final(self).wf(),
            n == work.len(),
            final(self).work() == old(self).work() + work@.reverse(),
            *final(self) == (IncrementalMarkState { worklist: final(self).worklist, ..*old(self) }),
    {
        let mut work = work;
        let ghost orig = work@;
        let mut n: usize = 0;
        while work.len() > 0
            invariant
                self.wf(),
                n + work.len() == orig.len(),
                work@ == orig.subrange(0, work.len() as int),
                self.work() == old(self).work() + orig.subrange(work.len() as int, orig.len() as int).reverse(),
                forall|k: int| 0 <= k < orig.len() ==> #[trigger] orig[k] != 0,
                orig.len() <= usize::MAX,
                *self == (IncrementalMarkState { worklist: self.worklist, ..*old(self) }),
            decreases work.len(),
        {
            let ghost before = self.work();
            let ptr = work.pop().unwrap();
            proof {
                assert(ptr == orig[work.len() as int]);
            }
            self.push_work(ptr);
            n = n + 1;
            proof {
                assert(orig.subrange(work.len() as int, orig.len() as int).reverse() =~= orig.subrange(
                    work.len() + 1,
                    orig.len() as int,
                ).reverse().push(ptr));
                assert(self.work() =~= old(self).work() + orig.subrange(work.len() as int, orig.len() as int).reverse());
            }
        }
        proof {
            assert(orig.subrange(0, orig.len() as int) =~= orig);
        }
        n
    }

    /// Installs the roots captured with mutators stopped and starts marking:
    /// statistics and fallback are reset, the worklist holds the roots (in
    /// the order the root list hands them out), the root count is recorded
    /// and the first slice starts at `now_ms`. Returns the number of roots.
    pub fn install_snapshot(&mut self, roots: Vec<usize>, now_ms: u64) -> (count: usize)
        requires
            forall|k: int| 0 <= k < roots.len() ==> #[trigger] roots@[k] != 0,
        ensures
            final(self).wf(),
            count == roots.len(),
            final(self).work() == roots@.reverse(),
            final(self).spec_phase() == MarkPhase::Marking,
            !final(self).fallback_requested,
            final(self).root_count == count,
            final(self).max_worklist_size == count,
            final(self).slice_start_ms == Some(now_ms),
            final(self).stats.objects_marked == 0 && final(self).stats.dirty_pages_scanned == 0
                && final(self).stats.slices_executed == 0 && !final(self).stats.fallback_occurred,
            final(self).config == old(self).config,
            final(self).enabled == old(self).enabled,
    {
        self.set_phase(MarkPhase::Snapshot);
        self.stats.reset();
        self.reset_fallback();
        self.reset_worklist();
        let n = self.enqueue_popped(roots);
        let count = self.worklist_len();
        self.set_root_count(count);
        self.set_phase(MarkPhase::Marking);
        self.start_slice(now_ms);
        proof {
            assert(self.work() =~= roots@.reverse());
        }
        count
    }

    /// Ends the final mark: back to marking when work is left, on to
    /// sweeping otherwise.
    pub fn finish_final_mark(&mut self)
        ensures
            old(self).work().len() > 0 ==> final(self).spec_phase() == MarkPhase::Marking,
            old(self).work().len() == 0 ==> final(self).spec_phase() == MarkPhase::Sweeping,
            final(self).worklist == old(self).worklist,
            final(self).fallback_requested == old(self).fallback_requested,
    {
        let remaining = self.worklist_len();
        if remaining > 0 {
            self.set_phase(MarkPhase::Marking);
        } else {
            self.set_phase(MarkPhase::Sweeping);
        }
    }
}

/// The phase machine runs a collection cycle idle, snapshot, marking,
/// final mark, sweeping and back to idle; the only way out of idle is the
/// snapshot, and a fallback re-enters marking only from marking phases.
pub proof fn law_phase_cycle(to: MarkPhase)
    ensures
        valid_transition(MarkPhase::Idle, MarkPhase::Snapshot),
        valid_transition(MarkPhase::Snapshot, MarkPhase::Marking),
        valid_transition(MarkPhase::Marking, MarkPhase::FinalMark),
        valid_transition(MarkPhase::FinalMark, MarkPhase::Sweeping),
        valid_transition(MarkPhase::Sweeping, MarkPhase::Idle),
        valid_transition(MarkPhase::Idle, to) ==> to == MarkPhase::Snapshot,
        valid_transition(MarkPhase::Sweeping, to) ==> to == MarkPhase::Idle,
        !valid_transition(to, to) || to == MarkPhase::Marking,
{
}

/// Phase codes and fallback-reason codes round-trip.
pub proof fn law_codes_round_trip(p: MarkPhase, r: FallbackReason)
    ensures
        phase_of_code(phase_code(p)) == Some(p),
        reason_of_code(reason_code(r)) == r,
{
}

/// A slice reports completion only when the worklist is empty and no dirty
/// page remains.
pub proof fn law_complete_means_no_work(
    config: IncrementalConfig,
    objects_marked: usize,
    dirty_pages: usize,
    slice_elapsed_ms: u64,
    worklist_len: usize,
    max_worklist: usize,
    remaining_dirty: usize,
    total_marked: usize,
    total_slices: usize,
)
    ensures
        slice_outcome(config, objects_marked, dirty_pages, slice_elapsed_ms, worklist_len, max_worklist, remaining_dirty, total_marked, total_slices) is Complete
            ==> worklist_len == 0 && remaining_dirty == 0 && dirty_pages <= config.max_dirty_pages,
{
}

/// Installs an incremental-marking configuration.
pub fn set_incremental_config(state: &mut IncrementalMarkState, config: IncrementalConfig)
    ensures
        final(state).config == config,
        final(state).enabled == config.enabled,
        final(state).worklist == old(state).worklist,
        final(state).phase == old(state).phase,
{
    state.set_config(config);
}

/// Whether incremental marking is configured on.
pub fn is_incremental_gc_enabled(state: &IncrementalMarkState) -> (r: bool)
    ensures
        r == state.config.enabled,
{
    state.config().enabled
}

/// The current incremental-marking configuration.
pub fn get_incremental_config(state: &IncrementalMarkState) -> (c: IncrementalConfig)
    ensures
        c == state.config,
{
    state.config()
}

/// A cooperative yield: while incremental marking is underway, the budget
/// of the marking slice to run now; `None` otherwise.
pub fn yield_now(state: &IncrementalMarkState) -> (budget: Option<usize>)
    ensures
        marking_active(state.spec_phase()) ==> budget == Some(state.config.increment_size),
        !marking_active(state.spec_phase()) ==> budget is None,
{
    if is_incremental_marking_active(state) {
        let config = get_incremental_config(state);
        Some(config.increment_size)
    } else {
        None
    }
}

/// Address of object `i` of a page at `page_addr` whose objects of
/// `block_size` bytes start `header_size` bytes in.
pub open spec fn object_addr(page_addr: usize, header_size: int, block_size: u32, i: int) -> int {
    page_addr + header_size + i * block_size
}

/// The objects of a dirty page that are allocated and not yet marked.
pub open spec fn unmarked_live(h: PageHeader, i: int) -> bool {
    h.allocated().contains(i) && !h.marked().contains(i)
}

impl IncrementalMarkState {
    /// Takes up to `budget` objects to trace in this slice, oldest first,
    /// as the worklist hands them out.
    pub fn take_slice_work(&mut self, budget: usize) -> (taken: Vec<usize>)
        requires
            old(self).wf(),
        ensures
            final(self).wf(),
            taken@.len() == (if budget < old(self).work().len() { budget as int } else { old(self).work().len() as int }),
            taken@ == old(self).work().take(taken@.len() as int),
            final(self).work() == old(self).work().skip(taken@.len() as int),
            *final(self) == (IncrementalMarkState { worklist: final(self).worklist, ..*old(self) }),
    {
        let mut taken: Vec<usize> = Vec::new();
        while taken.len() < budget
            invariant
                self.wf(),
                taken@.len() <= budget,
                taken@.len() <= old(self).work().len(),
                taken@ == old(self).work().take(taken@.len() as int),
                self.work() == old(self).work().skip(taken@.len() as int),
                *self == (IncrementalMarkState { worklist: self.worklist, ..*old(self) }),
            ensures
                taken@.len() == budget || taken@.len() == old(self).work().len(),
                self.wf(),
                taken@ == old(self).work().take(taken@.len() as int),
                self.work() == old(self).work().skip(taken@.len() as int),
                *self == (IncrementalMarkState { worklist: self.worklist, ..*old(self) }),
            decreases budget - taken@.len(),
        {
            let ghost before = self.work();
            match self.pop_work() {
                Some(ptr) => {
                    taken.push(ptr);
                    proof {
                        assert(taken@ =~= old(self).work().take(taken@.len() as int));
                        assert(self.work() =~= old(self).work().skip(taken@.len() as int));
                    }
                },
                None => {
                    break;
                },
            }
        }
        taken
    }

    /// Scans a dirty page during a slice: every allocated object not yet
    /// marked is marked and queued (ascending), and counted. Returns the
    /// count.
    pub fn scan_page_for_marked_refs(&mut self, header: &mut PageHeader, page_addr: usize) -> (found: usize)
        requires
            old(self).wf(),
            old(header).wf(),
            old(header).obj_count <= PAGE_SLOTS,
            page_addr > 0,
            page_addr + spec_header_size(old(header).block_size as int) + old(header).obj_count * old(header).block_size <= usize::MAX,
        ensures
            final(self).wf(),
            final(header).wf(),
            found == indices_where(old(header).obj_count as int, |i: int| unmarked_live(*old(header), i)).len(),
            final(header).marked() == old(header).marked().union(
                Set::new(|i: int| 0 <= i < old(header).obj_count && unmarked_live(*old(header), i)),
            ),
            final(header).allocated() == old(header).allocated(),
            final(header).dirty() == old(header).dirty(),
            crate::page::same_scalars(*final(header), *old(header)),
            final(self).work() == old(self).work() + indices_where(
                old(header).obj_count as int,
                |i: int| unmarked_live(*old(header), i),
            ).map_values(|i: usize| object_addr(page_addr, spec_header_size(old(header).block_size as int), old(header).block_size, i as int) as usize),
            *final(self) == (IncrementalMarkState { worklist: final(self).worklist, ..*old(self) }),
    {
        let ghost pre = *header;
        let block_size: usize = header.block_size as usize;
        let header_size = PageHeader::header_size(block_size);
        let n: usize = header.obj_count as usize;
        let mut found: usize = 0;
        let mut i: usize = 0;
        while i < n
            invariant
                self.wf(),
                header.wf(),
                pre.wf(),
                n == pre.obj_count,
                n <= PAGE_SLOTS,
                i <= n,
                block_size == pre.block_size,
                header_size == spec_header_size(pre.block_size as int),
                page_addr > 0,
                page_addr + header_size + n * block_size <= usize::MAX,
                crate::page::same_scalars(*header, pre),
                header.allocated() == pre.allocated(),
                header.dirty() == pre.dirty(),
                header.marked() == pre.marked().union(Set::new(|k: int| 0 <= k < i && unmarked_live(pre, k))),
                found == indices_where(i as int, |k: int| unmarked_live(pre, k)).len(),
                self.work() == old(self).work() + indices_where(i as int, |k: int| unmarked_live(pre, k)).map_values(
                    |k: usize| object_addr(page_addr, header_size as int, pre.block_size, k as int) as usize,
                ),
                *self == (IncrementalMarkState { worklist: self.worklist, ..*old(self) }),
            decreases n - i,
        {
            proof {
                crate::sweep::lemma_indices_where_len(i as int, |k: int| unmarked_live(pre, k));
                assert(header.marked().contains(i as int) == pre.marked().contains(i as int));
            }
            if header.is_allocated(i) && !header.is_marked(i) {
                found = found + 1;
                header.set_mark(i);
                proof {
                    assert(i * block_size <= n * block_size) by (nonlinear_arith)
                        requires
                            i <= n,
                    ;
                }
                let obj = page_addr + header_size + i * block_size;
                self.push_work(obj);
                proof {
                    assert(self.work() =~= old(self).work() + indices_where(i + 1, |k: int| unmarked_live(pre, k)).map_values(
                        |k: usize| object_addr(page_addr, header_size as int, pre.block_size, k as int) as usize,
                    ));
                }
            }
            proof {
                assert(header.marked() =~= pre.marked().union(Set::new(|k: int| 0 <= k < i + 1 && unmarked_live(pre, k))));
            }
            i = i + 1;
        }
        found
    }

    /// Scans a dirty page during the final mark: every allocated object not
    /// yet marked is marked and queued, ascending; one more dirty page is
    /// counted as scanned.
    pub fn scan_page_for_unmarked_refs(&mut self, header: &mut PageHeader, page_addr: usize)
        requires
            old(self).wf(),
            old(header).wf(),
            old(header).obj_count <= PAGE_SLOTS,
            page_addr > 0,
            page_addr + spec_header_size(old(header).block_size as int) + old(header).obj_count * old(header).block_size <= usize::MAX,
        ensures
            final(self).wf(),
            final(header).wf(),
            final(header).marked() == old(header).marked().union(
                Set::new(|i: int| 0 <= i < old(header).obj_count && unmarked_live(*old(header), i)),
            ),
            final(header).allocated() == old(header).allocated(),
            final(self).work() == old(self).work() + indices_where(
                old(header).obj_count as int,
                |i: int| unmarked_live(*old(header), i),
            ).map_values(|i: usize| object_addr(page_addr, spec_header_size(old(header).block_size as int), old(header).block_size, i as int) as usize),
            final(self).stats.dirty_pages_scanned == old(self).stats.dirty_pages_scanned.wrapping_add(1),
            final(self).phase == old(self).phase,
            final(self).fallback_requested == old(self).fallback_requested,
    {
        let _ = self.scan_page_for_marked_refs(header, page_addr);
        self.stats.dirty_pages_scanned = self.stats.dirty_pages_scanned.wrapping_add(1);
    }
}

/// Marks a newly allocated object live at once: returns true when this
/// call set its mark, false when it was marked already or the address names
/// no slot (`index` is `None`).
pub fn mark_new_object_black(header: &mut PageHeader, index: Option<usize>) -> (newly: bool)
    requires
        old(header).wf(),
        index matches Some(i) ==> i < PAGE_SLOTS,
    ensures
        final(header).wf(),
        newly == (index matches Some(i) && !old(header).marked().contains(i as int)),
        index matches Some(i) ==> final(header).marked() == old(header).marked().insert(i as int),
        index is None ==> final(header).marked() == old(header).marked(),
        final(header).allocated() == old(header).allocated(),
{
    match index {
        Some(idx) => {
            if !header.is_marked(idx) {
                header.set_mark(idx);
                return true;
            }
            proof {
                assert(old(header).marked().insert(idx as int) =~= old(header).marked());
            }
            false
        },
        None => false,
    }
}

/// Marks an object live; returns its index when this call set the mark.
pub fn mark_object_black(header: &mut PageHeader, index: Option<usize>) -> (r: Option<usize>)
    requires
        old(header).wf(),
        index matches Some(i) ==> i < PAGE_SLOTS,
    ensures
        final(header).wf(),
        r == (if index matches Some(i) && !old(header).marked().contains(i as int) { index } else { None }),
        index matches Some(i) ==> final(header).marked() == old(header).marked().insert(i as int),
        index is None ==> final(header).marked() == old(header).marked(),
        final(header).allocated() == old(header).allocated(),
{
    if mark_new_object_black(header, index) {
        index
    } else {
        None
    }
}

} // verus!

verus! {

/// The result a slice reports when a fallback was requested before it
/// started: the recorded reason, or `default_reason` when none was recorded.
pub open spec fn requested_fallback(s: IncrementalMarkState, default_reason: FallbackReason) -> MarkSliceResult {
    MarkSliceResult::Fallback {
        reason: if reason_of_code(s.stats.fallback_reason) == FallbackReason::NoFallback {
            default_reason
        } else {
            reason_of_code(s.stats.fallback_reason)
        },
    }
}

/// The dirty pages a slice scans can be scanned: each names a page of the
/// run at a nonzero address whose objects lie in the address space.
pub open spec fn dirty_scannable(pages: Seq<PageAt>, dirty: Seq<usize>) -> bool {
    forall|j: int|
        0 <= j < dirty.len() ==> {
            let d: usize = #[trigger] dirty[j];
            &&& d < pages.len()
            &&& pages[d as int].addr > 0
            &&& pages[d as int].addr + spec_header_size(pages[d as int].page.header.block_size as int)
                + pages[d as int].page.header.obj_count * pages[d as int].page.header.block_size <= usize::MAX
        }
}

/// Every allocated object of the dirty pages is marked.
pub open spec fn dirty_marked(pages: Seq<PageAt>, dirty: Seq<usize>) -> bool {
    forall|j: int, k: int|
        0 <= j < dirty.len() && 0 <= k < pages[dirty[j] as int].page.header.obj_count
            && pages[dirty[j] as int].page.header.allocated().contains(k) ==> #[trigger] pages[dirty[j] as int].page.header.marked().contains(
            k,
        )
}

/// A slot marked by a slice: it is named by an object now queued, or it
/// is an allocated object of one of the dirty pages.
pub open spec fn slice_marked(p0: Seq<PageAt>, pages: Seq<PageAt>, work: Seq<usize>, dirty: Seq<usize>, mask: usize, i: int, k: int) -> bool {
    ||| exists|x: usize| #[trigger] locate(p0, x, mask) == Some((i, k)) && work.contains(x)
    ||| dirty.contains(i as usize) && pages[i].page.header.allocated().contains(k)
}

/// One slice of incremental marking. When a fallback was already requested
/// it reports it and changes nothing. Otherwise it takes up to `budget`
/// objects off the worklist, oldest first, and traces each: every child
/// `trace` reports that names an unmarked slot of `pages` is marked and
/// queued. Then every allocated, unmarked object of the dirty pages `dirty`
/// is marked and queued. The slice ends as `conclude_slice` ends it, with
/// `remaining_dirty` the dirty pages recorded since the snapshot.
pub fn mark_slice<F: Fn(usize) -> Vec<usize>>(
    state: &mut IncrementalMarkState,
    pages: &mut Vec<PageAt>,
    dirty: &Vec<usize>,
    budget: usize,
    mask: usize,
    trace: &F,
    slice_elapsed_ms: u64,
    remaining_dirty: usize,
) -> (r: MarkSliceResult)
    requires
        old(state).wf(),
        marking_ready(old(pages)@),
        unmarked_total(old(pages)@) <= usize::MAX,
        dirty_scannable(old(pages)@, dirty@),
        dirty.len() * PAGE_SLOTS <= usize::MAX,
        forall|q: usize| call_requires(*trace, (q,)),
    ensures
        final(state).wf(),
        old(state).fallback_requested ==> {
            &&& r == requested_fallback(*old(state), FallbackReason::DirtyPagesExceeded)
            &&& *final(state) == *old(state)
            &&& final(pages)@ == old(pages)@
        },
        !old(state).fallback_requested ==> {
            let n: int = if budget < old(state).work().len() { budget as int } else { old(state).work().len() as int };
            let rest: Seq<usize> = old(state).work().skip(n);
            &&& grown(old(pages)@, final(pages)@)
            &&& marking_ready(final(pages)@)
            &&& forall|t: int| 0 <= t < n ==> traced(VisitorKind::Major, final(pages)@, *trace, #[trigger] old(state).work()[t], mask)
            &&& dirty_marked(final(pages)@, dirty@)
            &&& final(state).work().len() >= rest.len()
            &&& final(state).work().take(rest.len() as int) == rest
            &&& forall|i: int, k: int| #[trigger] newly_marked(old(pages)@, final(pages)@, i, k) ==> slice_marked(
                old(pages)@,
                final(pages)@,
                final(state).work(),
                dirty@,
                mask,
                i,
                k,
            )
            &&& final(state).phase == old(state).phase
            &&& final(state).config == old(state).config
            &&& final(state).root_count == old(state).root_count
            &&& final(state).stats.slices_executed == old(state).stats.slices_executed.wrapping_add(1)
            &&& exists|scanned: usize|
                {
                    &&& scanned <= dirty.len() * PAGE_SLOTS
                    &&& final(state).stats.dirty_pages_scanned == old(state).stats.dirty_pages_scanned.wrapping_add(scanned)
                    &&& final(state).stats.objects_marked == old(state).stats.objects_marked.wrapping_add(
                        saturating_sum(n as usize, scanned),
                    )
                }
            &&& r == slice_outcome(
                old(state).config,
                n as usize,
                remaining_dirty,
                slice_elapsed_ms,
                final(state).work().len() as usize,
                old(state).max_worklist_size,
                remaining_dirty,
                final(state).stats.objects_marked,
                final(state).stats.slices_executed,
            )
        },
{
    if let Some(r) = state.pending_fallback(FallbackReason::DirtyPagesExceeded) {
        return r;
    }
    let ghost p0 = pages@;
    let ghost s0 = *state;
    let taken = state.take_slice_work(budget);
    let ghost n: int = taken@.len() as int;
    let ghost rest: Seq<usize> = s0.work().skip(n);
    let ghost s1 = *state;
    let mut t: usize = 0;
    while t < taken.len()
        invariant
            forall|q: usize| call_requires(*trace, (q,)),
            taken@ == s0.work().take(n),
            n == taken@.len(),
            t <= taken.len(),
            state.wf(),
            *state == (IncrementalMarkState { worklist: state.worklist, ..s1 }),
            state.work().len() >= rest.len(),
            state.work().take(rest.len() as int) == rest,
            marking_ready(pages@),
            grown(p0, pages@),
            unmarked_total(pages@) <= unmarked_total(p0),
            unmarked_total(p0) <= usize::MAX,
            forall|u: int| 0 <= u < t ==> traced(VisitorKind::Major, pages@, *trace, #[trigger] taken@[u], mask),
            forall|i: int, k: int| #[trigger] newly_marked(p0, pages@, i, k) ==> exists|x: usize|
                #[trigger] locate(p0, x, mask) == Some((i, k)) && state.work().contains(x),
        decreases taken.len() - t,
    {
        let x: usize = taken[t];
        let children = trace(x);
        let ghost pv = pages@;
        let ghost wv = state.work();
        let mut v = GcVisitor::new(VisitorKind::Major);
        proof {
            crate::mark::lemma_unmarked_nonneg(pages@);
        }
        v.visit_children(pages, &children, mask);
        let ghost pw = pages@;
        let ghost q = v.worklist@;
        proof {
            lemma_grown_trans(p0, pv, pw);
            assert forall|e: int| 0 <= e < q.len() implies #[trigger] q[e] != 0 by {
                assert(locate(pv, q[e], mask) is Some);
            }
        }
        let queued = v.worklist;
        state.enqueue_popped(queued);
        proof {
            assert(state.work() == wv + q.reverse());
            assert(state.work().take(rest.len() as int) =~= rest) by {
                assert(wv.take(rest.len() as int) == rest);
            }
            assert forall|u: int| 0 <= u < t + 1 implies traced(VisitorKind::Major, pw, *trace, #[trigger] taken@[u], mask) by {
                if u < t {
                    lemma_traced_grown(VisitorKind::Major, pv, pw, *trace, taken@[u], mask);
                } else {
                    assert(call_ensures(*trace, (x,), children));
                    assert forall|c: int| 0 <= c < children@.len() implies handled(VisitorKind::Major, pw, #[trigger] children@[c], mask) by {
                    }
                }
            }
            assert forall|i: int, k: int| #[trigger] newly_marked(p0, pw, i, k) implies exists|y: usize|
                #[trigger] locate(p0, y, mask) == Some((i, k)) && state.work().contains(y) by {
                if newly_marked(p0, pv, i, k) {
                    let y: usize = choose|y: usize| #[trigger] locate(p0, y, mask) == Some((i, k)) && wv.contains(y);
                    let e: int = choose|e: int| 0 <= e < wv.len() && wv[e] == y;
                    assert(state.work()[e] == y);
                } else {
                    assert(newly_marked(pv, pw, i, k));
                    let e: int = choose|e: int| 0 <= e < q.len() && #[trigger] locate(pv, q[e], mask) == Some((i, k));
                    lemma_grown_keeps(VisitorKind::Major, p0, pv, q[e], mask);
                    assert(q.reverse()[q.len() - 1 - e] == q[e]);
                    assert(state.work()[wv.len() + (q.len() - 1 - e)] == q[e]);
                    assert(locate(p0, q[e], mask) == Some((i, k)));
                }
            }
        }
        t = t + 1;
    }
    let ghost p1 = pages@;
    let ghost s2 = *state;
    let mut scanned: usize = 0;
    let mut j: usize = 0;
    while j < dirty.len()
        invariant
            j <= dirty.len(),
            dirty.len() * PAGE_SLOTS <= usize::MAX,
            scanned <= j * PAGE_SLOTS,
            state.wf(),
            *state == (IncrementalMarkState { worklist: state.worklist, ..s1 }),
            state.work().len() >= s2.work().len(),
            state.work().take(s2.work().len() as int) == s2.work(),
            s2.work().len() >= rest.len(),
            s2.work().take(rest.len() as int) == rest,
            marking_ready(pages@),
            grown(p0, pages@),
            grown(p1, pages@),
            dirty_scannable(pages@, dirty@),
            forall|u: int| 0 <= u < n ==> traced(VisitorKind::Major, p1, *trace, #[trigger] taken@[u], mask),
            forall|jj: int, k: int|
                0 <= jj < j && 0 <= k < pages@[dirty@[jj] as int].page.header.obj_count
                    && pages@[dirty@[jj] as int].page.header.allocated().contains(k) ==> #[trigger] pages@[dirty@[jj] as int].page.header.marked().contains(
                    k,
                ),
            forall|i: int, k: int| #[trigger] newly_marked(p0, p1, i, k) ==> exists|x: usize|
                #[trigger] locate(p0, x, mask) == Some((i, k)) && s2.work().contains(x),
            forall|i: int, k: int| #[trigger] newly_marked(p1, pages@, i, k) ==> dirty@.take(j as int).contains(i as usize)
                && pages@[i].page.header.allocated().contains(k),
        decreases dirty.len() - j,
    {
        let d: usize = dirty[j];
        let ghost pv = pages@;
        let ghost wv = state.work();
        proof {
            assert(dirty_scannable(pages@, dirty@));
            let dd: usize = dirty@[j as int];
            assert(pages@[dd as int].addr > 0);
        }
        let mut at = pages.remove(d);
        let found: usize = state.scan_page_for_marked_refs(&mut at.page.header, at.addr);
        pages.insert(d, at);
        proof {
            assert(pages@ =~= pv.update(d as int, at));
            crate::sweep::lemma_indices_where_len(pv[d as int].page.header.obj_count as int, |i: int| unmarked_live(pv[d as int].page.header, i));
            assert(grown(pv, pages@));
            lemma_grown_trans(p0, pv, pages@);
            lemma_grown_trans(p1, pv, pages@);
            assert(found <= PAGE_SLOTS);
            assert((j + 1) * PAGE_SLOTS == j * PAGE_SLOTS + PAGE_SLOTS) by (nonlinear_arith);
            assert((j + 1) * PAGE_SLOTS <= dirty.len() * PAGE_SLOTS) by (nonlinear_arith)
                requires
                    j + 1 <= dirty.len(),
            ;
            assert(state.work().take(s2.work().len() as int) =~= s2.work()) by {
                assert(wv.take(s2.work().len() as int) == s2.work());
            }
            assert forall|jj: int| 0 <= jj < dirty.len() implies {
                let dj: usize = #[trigger] dirty@[jj];
                &&& dj < pages@.len()
                &&& pages@[dj as int].addr > 0
                &&& pages@[dj as int].addr + spec_header_size(pages@[dj as int].page.header.block_size as int)
                    + pages@[dj as int].page.header.obj_count * pages@[dj as int].page.header.block_size <= usize::MAX
            } by {
                let dj: usize = dirty@[jj];
                assert(pages@[dj as int].addr == pv[dj as int].addr);
            }
            assert forall|jj: int, k: int|
                0 <= jj < j + 1 && 0 <= k < pages@[dirty@[jj] as int].page.header.obj_count
                    && pages@[dirty@[jj] as int].page.header.allocated().contains(k) implies #[trigger] pages@[dirty@[jj] as int].page.header.marked().contains(
                    k,
                ) by {
                let dj: int = dirty@[jj] as int;
                if jj < j {
                    assert(pv[dj].page.header.marked().contains(k));
                } else {
                    assert(dj == d as int);
                    if !pv[dj].page.header.marked().contains(k) {
                        assert(unmarked_live(pv[dj].page.header, k));
                        assert(Set::new(|i: int| 0 <= i < pv[dj].page.header.obj_count && unmarked_live(pv[dj].page.header, i)).contains(k));
                    }
                }
            }
            assert forall|i: int, k: int| #[trigger] newly_marked(p1, pages@, i, k) implies dirty@.take(j + 1).contains(i as usize)
                && pages@[i].page.header.allocated().contains(k) by {
                assert(dirty@.take(j + 1)[j as int] == d);
                if newly_marked(p1, pv, i, k) {
                    let w: int = choose|w: int| 0 <= w < j && dirty@.take(j as int)[w] == i as usize;
                    assert(dirty@.take(j + 1)[w] == i as usize);
                } else {
                    assert(i == d as int);
                }
            }
        }
        scanned = scanned + found;
        j = j + 1;
    }
    let ghost p2 = pages@;
    let ghost s3 = *state;
    let r = state.conclude_slice(taken.len(), scanned, remaining_dirty, slice_elapsed_ms, remaining_dirty);
    proof {
        assert(dirty@.take(dirty.len() as int) =~= dirty@);
        lemma_grown_trans(p0, p1, p2);
        assert forall|u: int| 0 <= u < n implies traced(VisitorKind::Major, p2, *trace, #[trigger] s0.work()[u], mask) by {
            assert(taken@[u] == s0.work()[u]);
            lemma_traced_grown(VisitorKind::Major, p1, p2, *trace, taken@[u], mask);
        }
        assert(state.work().take(rest.len() as int) =~= rest) by {
            assert(s3.work().take(rest.len() as int) =~= s2.work().take(rest.len() as int));
        }
        assert forall|i: int, k: int| #[trigger] newly_marked(p0, p2, i, k) implies slice_marked(p0, p2, state.work(), dirty@, mask, i, k) by {
            if newly_marked(p0, p1, i, k) {
                let x: usize = choose|x: usize| #[trigger] locate(p0, x, mask) == Some((i, k)) && s2.work().contains(x);
                let e: int = choose|e: int| 0 <= e < s2.work().len() && s2.work()[e] == x;
                assert(s3.work().take(s2.work().len() as int)[e] == x);
                assert(state.work()[e] == x);
            } else {
                assert(newly_marked(p1, p2, i, k));
            }
        }
        assert(scanned <= dirty.len() * PAGE_SLOTS);
    }
    r
}

} // verus!
