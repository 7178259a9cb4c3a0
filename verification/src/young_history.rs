//! Detection of suspicious sweeps of young objects.
//!
//! A young object that is swept one or two collection cycles after it was
//! allocated, and was never promoted, most likely sat in a container the
//! collector does not trace. The history records allocations in a ring of
//! `(address, cycle)` pairs and answers whether a swept address is such a
//! case.

use vstd::prelude::*;

verus! {

/// Ring size of the default history.
pub const DEFAULT_HISTORY_SIZE: usize = 1024;

/// Greatest age, in cycles, of a suspicious sweep.
pub const SUSPICIOUS_THRESHOLD: u64 = 2;

/// Source of collection cycle identifiers; the first handed out is 1.
pub struct GcCycleCounter {
    /// The next identifier.
    pub next: u64,
}

impl GcCycleCounter {
    /// A counter that hands out 1 first.
    pub fn new() -> (c: Self)
        ensures
            c.next == 1,
    {
        GcCycleCounter { next: 1 }
    }
}

/// Hands out the next cycle identifier (wrapping).
pub fn get_gc_cycle_id(counter: &mut GcCycleCounter) -> (id: u64)
    ensures
        id == old(counter).next,
        final(counter).next == old(counter).next.wrapping_add(1),
{
    let id = counter.next;
    counter.next = counter.next.wrapping_add(1);
    id
}

/// The identifier the counter will hand out next.
pub fn current_gc_cycle_id(counter: &GcCycleCounter) -> (id: u64)
    ensures
        id == counter.next,
{
    counter.next
}

/// One allocation: object address (0 for an empty record) and cycle.
#[derive(Clone, Copy)]
pub struct YoungObjectRecord {
    /// Object address.
    pub ptr: usize,
    /// Cycle of the allocation.
    pub gc_id: u64,
}

/// Ring of recent young allocations.
pub struct YoungObjectHistory {
    records: Vec<YoungObjectRecord>,
    write_idx: usize,
    initial_gc_id: u64,
    max_size: usize,
    enabled: bool,
}

/// The first record of `records` that names `ptr`, searching from `k`.
pub open spec fn first_match(records: Seq<YoungObjectRecord>, ptr: usize, k: int) -> Option<YoungObjectRecord>
    decreases records.len() - k,
{
    if k >= records.len() || k < 0 {
        None
    } else if records[k].ptr == ptr {
        Some(records[k])
    } else {
        first_match(records, ptr, k + 1)
    }
}

/// Whether a sweep of `ptr` at cycle `current` is suspicious given the
/// history's state.
pub open spec fn suspicious(
    enabled: bool,
    initial: u64,
    records: Seq<YoungObjectRecord>,
    ptr: usize,
    current: u64,
) -> bool {
    if !enabled || ptr == 0 || initial == 0 || current < initial {
        false
    } else {
        match first_match(records, ptr, 0) {
            Some(r) => {
                let age: int = if current >= r.gc_id { current - r.gc_id } else { 0 };
                age != 0 && age <= SUSPICIOUS_THRESHOLD
            },
            None => false,
        }
    }
}

impl YoungObjectHistory {
    /// The records, in ring order.
    pub closed spec fn spec_records(&self) -> Seq<YoungObjectRecord> {
        self.records@
    }

    /// Records written so far (wrapping).
    pub closed spec fn spec_write_idx(&self) -> usize {
        self.write_idx
    }

    /// Cycle of the first recorded allocation, 0 before any.
    pub closed spec fn spec_initial_gc_id(&self) -> u64 {
        self.initial_gc_id
    }

    /// Number of records in the ring.
    pub closed spec fn spec_max_size(&self) -> usize {
        self.max_size
    }

    /// Whether recording and detection are on.
    pub closed spec fn spec_enabled(&self) -> bool {
        self.enabled
    }

    /// The ring has `max_size` records.
    pub open spec fn wf(&self) -> bool {
        self.spec_records().len() == self.spec_max_size()
    }

    /// A ring of `DEFAULT_HISTORY_SIZE` empty records, enabled.
    pub fn new() -> (h: Self)
        ensures
            h.wf(),
            h.spec_max_size() == DEFAULT_HISTORY_SIZE,
            h.spec_enabled(),
            h.spec_initial_gc_id() == 0,
            h.spec_write_idx() == 0,
            h.spec_records().len() == DEFAULT_HISTORY_SIZE,
            forall|k: int| 0 <= k < DEFAULT_HISTORY_SIZE ==> (#[trigger] h.spec_records()[k]).ptr == 0,
    {
        YoungObjectHistory::with_capacity(DEFAULT_HISTORY_SIZE)
    }

    /// A ring of `capacity` empty records, enabled.
    pub fn with_capacity(capacity: usize) -> (h: Self)
        ensures
            h.wf(),
            h.spec_max_size() == capacity,
            h.spec_enabled(),
            h.spec_initial_gc_id() == 0,
            h.spec_write_idx() == 0,
            h.spec_records().len() == capacity,
            forall|k: int| 0 <= k < capacity ==> (#[trigger] h.spec_records()[k]).ptr == 0
                && h.spec_records()[k].gc_id == 0,
    {
        let mut records: Vec<YoungObjectRecord> = Vec::new();
        let mut k: usize = 0;
        while k < capacity
            invariant
                k <= capacity,
                records.len() == k,
                forall|j: int| 0 <= j < k ==> (#[trigger] records@[j]).ptr == 0 && records@[j].gc_id == 0,
            decreases capacity - k,
        {
            records.push(YoungObjectRecord { ptr: 0, gc_id: 0 });
            k = k + 1;
        }
        YoungObjectHistory { records, write_idx: 0, initial_gc_id: 0, max_size: capacity, enabled: true }
    }

    /// Records an allocation of `ptr` at cycle `gc_id` in the next ring
    /// slot; the first recorded cycle is kept. Nothing when disabled.
    pub fn record(&mut self, ptr: usize, gc_id: u64)
        requires
            old(self).wf(),
            old(self).spec_enabled() ==> old(self).spec_max_size() > 0,
        ensures
            final(self).wf(),
            final(self).spec_max_size() == old(self).spec_max_size(),
            final(self).spec_enabled() == old(self).spec_enabled(),
            !old(self).spec_enabled() ==> final(self).spec_records() == old(self).spec_records()
                && final(self).spec_write_idx() == old(self).spec_write_idx()
                && final(self).spec_initial_gc_id() == old(self).spec_initial_gc_id(),
            old(self).spec_enabled() ==> {
                &&& final(self).spec_records() == old(self).spec_records().update(
                    (old(self).spec_write_idx() % old(self).spec_max_size()) as int,
                    YoungObjectRecord { ptr, gc_id },
                )
                &&& final(self).spec_write_idx() == old(self).spec_write_idx().wrapping_add(1)
                &&& final(self).spec_initial_gc_id() == if old(self).spec_initial_gc_id() == 0 {
                    gc_id
                } else {
                    old(self).spec_initial_gc_id()
                }
            },
    {
        if !self.is_enabled() {
            return;
        }
        let idx = self.write_idx % self.max_size;
        self.write_idx = self.write_idx.wrapping_add(1);
        self.records.set(idx, YoungObjectRecord { ptr, gc_id });
        if self.initial_gc_id == 0 {
            self.initial_gc_id = gc_id;
        }
    }

    /// Number of records the ring holds.
    pub fn capacity(&self) -> (c: usize)
        ensures
            c == self.spec_max_size(),
    {
        self.max_size
    }

    /// Whether recording and detection are on.
    pub fn is_enabled(&self) -> (r: bool)
        ensures
            r == self.spec_enabled(),
    {
        self.enabled
    }

    /// Turns recording and detection on or off.
    pub fn set_enabled(&mut self, enabled: bool)
        ensures
            final(self).spec_enabled() == enabled,
            final(self).spec_records() == old(self).spec_records(),
            final(self).spec_write_idx() == old(self).spec_write_idx(),
            final(self).spec_initial_gc_id() == old(self).spec_initial_gc_id(),
            final(self).spec_max_size() == old(self).spec_max_size(),
            final(self).wf() == old(self).wf(),
    {
        self.enabled = enabled;
    }

    /// Whether sweeping `ptr` at cycle `current_gc_id` is suspicious: the
    /// first record naming `ptr` is one or two cycles old.
    pub fn is_suspicious(&self, ptr: usize, current_gc_id: u64) -> (r: bool)
        ensures
            r == suspicious(
                self.spec_enabled(),
                self.spec_initial_gc_id(),
                self.spec_records(),
                ptr,
                current_gc_id,
            ),
    {
        if !self.is_enabled() {
            return false;
        }
        if ptr == 0 {
            return false;
        }
        let initial = self.initial_gc_id;
        if initial == 0 || current_gc_id < initial {
            return false;
        }
        let mut k: usize = 0;
        while k < self.records.len()
            invariant
                k <= self.records.len(),
                first_match(self.records@, ptr, 0) == first_match(self.records@, ptr, k as int),
                self.enabled,
                ptr != 0,
                self.initial_gc_id != 0,
                current_gc_id >= self.initial_gc_id,
            decreases self.records.len() - k,
        {
            let record = self.records[k];
            if record.ptr == ptr {
                assert(first_match(self.records@, ptr, k as int) == Some(record));
                let age = current_gc_id.saturating_sub(record.gc_id);
                if age == 0 {
                    return false;
                }
                return age <= SUSPICIOUS_THRESHOLD;
            }
            k = k + 1;
        }
        false
    }

    /// Empties the ring and forgets the first recorded cycle.
    pub fn clear(&mut self)
        requires
            old(self).wf(),
        ensures
            final(self).wf(),
            final(self).spec_write_idx() == 0,
            final(self).spec_initial_gc_id() == 0,
            final(self).spec_max_size() == old(self).spec_max_size(),
            final(self).spec_enabled() == old(self).spec_enabled(),
            forall|k: int| 0 <= k < old(self).spec_max_size() ==> (#[trigger] final(self).spec_records()[k]).ptr == 0
                && final(self).spec_records()[k].gc_id == 0,
    {
        self.write_idx = 0;
        self.initial_gc_id = 0;
        let n = self.max_size;
        let mut i: usize = 0;
        while i < n
            invariant
                n == self.max_size,
                self.records.len() == n,
                self.write_idx == 0,
                self.initial_gc_id == 0,
                self.enabled == old(self).enabled,
                i <= n,
                forall|k: int| 0 <= k < i ==> (#[trigger] self.records@[k]).ptr == 0 && self.records@[k].gc_id == 0,
            decreases n - i,
        {
            self.records.set(i, YoungObjectRecord { ptr: 0, gc_id: 0 });
            i = i + 1;
        }
    }
}

/// Records an allocation of `ptr` at the current cycle.
pub fn record_young_object(history: &mut YoungObjectHistory, counter: &GcCycleCounter, ptr: usize)
    requires
        old(history).wf(),
        old(history).spec_enabled() ==> old(history).spec_max_size() > 0,
    ensures
        final(history).wf(),
        final(history).spec_enabled() == old(history).spec_enabled(),
        final(history).spec_max_size() == old(history).spec_max_size(),
        old(history).spec_enabled() ==> final(history).spec_records() == old(history).spec_records().update(
            (old(history).spec_write_idx() % old(history).spec_max_size()) as int,
            YoungObjectRecord { ptr, gc_id: counter.next },
        ),
        !old(history).spec_enabled() ==> final(history).spec_records() == old(history).spec_records(),
{
    let gc_id = current_gc_cycle_id(counter);
    history.record(ptr, gc_id);
}

/// Whether sweeping `ptr` now is suspicious.
pub fn is_suspicious_sweep(history: &YoungObjectHistory, counter: &GcCycleCounter, ptr: usize) -> (r: bool)
    ensures
        r == suspicious(
            history.spec_enabled(),
            history.spec_initial_gc_id(),
            history.spec_records(),
            ptr,
            counter.next,
        ),
{
    let gc_id = current_gc_cycle_id(counter);
    history.is_suspicious(ptr, gc_id)
}

/// Turns detection on or off.
pub fn set_detection_enabled(history: &mut YoungObjectHistory, enabled: bool)
    ensures
        final(history).spec_enabled() == enabled,
        final(history).spec_records() == old(history).spec_records(),
{
    history.set_enabled(enabled);
}

/// Whether detection is on.
pub fn is_detection_enabled(history: &YoungObjectHistory) -> (r: bool)
    ensures
        r == history.spec_enabled(),
{
    history.is_enabled()
}

/// Empties the history.
pub fn clear_history(history: &mut YoungObjectHistory)
    requires
        old(history).wf(),
    ensures
        final(history).wf(),
        final(history).spec_initial_gc_id() == 0,
        final(history).spec_write_idx() == 0,
{
    history.clear();
}

/// Nothing is suspicious when detection is off, for the null address,
/// before any allocation was recorded, or in the allocation's own cycle.
pub proof fn law_never_suspicious(
    enabled: bool,
    initial: u64,
    records: Seq<YoungObjectRecord>,
    ptr: usize,
    current: u64,
)
    ensures
        !enabled ==> !suspicious(enabled, initial, records, ptr, current),
        ptr == 0 ==> !suspicious(enabled, initial, records, ptr, current),
        initial == 0 ==> !suspicious(enabled, initial, records, ptr, current),
        first_match(records, ptr, 0) is None ==> !suspicious(enabled, initial, records, ptr, current),
        (first_match(records, ptr, 0) matches Some(r) && r.gc_id == current) ==> !suspicious(
            enabled,
            initial,
            records,
            ptr,
            current,
        ),
{
}

/// A recorded allocation swept one or two cycles later is suspicious, and
/// no longer from the third cycle on.
pub proof fn law_suspicious_window(
    initial: u64,
    records: Seq<YoungObjectRecord>,
    ptr: usize,
    current: u64,
    r: YoungObjectRecord,
)
    requires
        ptr != 0,
        initial != 0,
        current >= initial,
        first_match(records, ptr, 0) == Some(r),
    ensures
        suspicious(true, initial, records, ptr, current) <==> (r.gc_id < current && current - r.gc_id <= 2),
{
}

/// The first record naming `ptr` from `k` on is the one at `w` when no
/// record between names it.
proof fn lemma_first_match_at(records: Seq<YoungObjectRecord>, ptr: usize, k: int, w: int)
    requires
        0 <= k <= w < records.len(),
        records[w].ptr == ptr,
        forall|j: int| k <= j < w ==> (#[trigger] records[j]).ptr != ptr,
    ensures
        first_match(records, ptr, k) == Some(records[w]),
    decreases w - k,
{
    if k < w {
        lemma_first_match_at(records, ptr, k + 1, w);
    }
}

/// Recording an allocation and then sweeping it: once an enabled history
/// recorded `ptr` at cycle `gc_id` (and no earlier slot of the ring names
/// `ptr`), sweeping it one or two cycles later is suspicious, and from the
/// third cycle on it is not.
pub proof fn law_record_then_suspicious(before: YoungObjectHistory, after: YoungObjectHistory, ptr: usize, gc_id: u64)
    requires
        before.wf(),
        before.spec_enabled(),
        before.spec_max_size() > 0,
        ptr != 0,
        gc_id != 0,
        gc_id + 3 <= u64::MAX,
        before.spec_initial_gc_id() <= gc_id,
        forall|j: int|
            0 <= j < (before.spec_write_idx() % before.spec_max_size()) ==> (#[trigger] before.spec_records()[j]).ptr != ptr,
        after.spec_enabled() == before.spec_enabled(),
        after.spec_records() == before.spec_records().update(
            (before.spec_write_idx() % before.spec_max_size()) as int,
            YoungObjectRecord { ptr, gc_id },
        ),
        after.spec_initial_gc_id() == if before.spec_initial_gc_id() == 0 {
            gc_id
        } else {
            before.spec_initial_gc_id()
        },
    ensures
        suspicious(after.spec_enabled(), after.spec_initial_gc_id(), after.spec_records(), ptr, (gc_id + 1) as u64),
        suspicious(after.spec_enabled(), after.spec_initial_gc_id(), after.spec_records(), ptr, (gc_id + 2) as u64),
        !suspicious(after.spec_enabled(), after.spec_initial_gc_id(), after.spec_records(), ptr, (gc_id + 3) as u64),
        !suspicious(after.spec_enabled(), after.spec_initial_gc_id(), after.spec_records(), ptr, gc_id),
{
    let w: int = (before.spec_write_idx() % before.spec_max_size()) as int;
    let rs = after.spec_records();
    assert forall|j: int| 0 <= j < w implies (#[trigger] rs[j]).ptr != ptr by {
        assert(rs[j] == before.spec_records()[j]);
    }
    lemma_first_match_at(rs, ptr, 0, w);
}

/// The ring `records` of `max` slots after recording `ms` in turn, the
/// first into slot `idx`.
pub open spec fn young_ring_after(records: Seq<YoungObjectRecord>, max: int, idx: int, ms: Seq<YoungObjectRecord>) -> Seq<
    YoungObjectRecord,
>
    decreases ms.len(),
{
    if ms.len() == 0 {
        records
    } else {
        young_ring_after(records, max, idx, ms.drop_last()).update((idx + ms.len() - 1) % max, ms.last())
    }
}

/// Recording keeps the ring's size.
proof fn lemma_young_ring_len(records: Seq<YoungObjectRecord>, max: int, idx: int, ms: Seq<YoungObjectRecord>)
    requires
        records.len() == max,
        max > 0,
    ensures
        young_ring_after(records, max, idx, ms).len() == max,
    decreases ms.len(),
{
    if ms.len() > 0 {
        lemma_young_ring_len(records, max, idx, ms.drop_last());
    }
}

/// A ring of `max` slots holds the last `max` records: after recording
/// `ms` in turn from slot 0, record `k` is in slot `k % max` as long as
/// fewer than `max` records came after it.
pub proof fn law_young_ring_holds_recent(records: Seq<YoungObjectRecord>, max: int, ms: Seq<YoungObjectRecord>)
    requires
        records.len() == max,
        max > 0,
    ensures
        forall|k: int|
            0 <= k < ms.len() && ms.len() - k <= max ==> #[trigger] young_ring_after(records, max, 0, ms)[k % max] == ms[k],
    decreases ms.len(),
{
    if ms.len() > 0 {
        let prev = ms.drop_last();
        law_young_ring_holds_recent(records, max, prev);
        lemma_young_ring_len(records, max, 0, prev);
        let n: int = ms.len() as int;
        assert forall|k: int| 0 <= k < ms.len() && ms.len() - k <= max implies #[trigger] young_ring_after(records, max, 0, ms)[k % max]
            == ms[k] by {
            assert(0 <= k % max < max) by (nonlinear_arith)
                requires
                    max > 0,
            ;
            assert(0 <= (n - 1) % max < max) by (nonlinear_arith)
                requires
                    max > 0,
                    n >= 1,
            ;
            if k < n - 1 {
                assert(k % max != (n - 1) % max) by (nonlinear_arith)
                    requires
                        0 <= k < n - 1,
                        n - 1 - k < max,
                        max > 0,
                ;
                assert(prev[k] == ms[k]);
                assert(young_ring_after(records, max, 0, prev)[k % max] == prev[k]);
            }
        }
    }
}

} // verus!
