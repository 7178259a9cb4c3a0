//! Collection metrics: the snapshot of one collection, phase timing, the
//! cumulative counters over all collections and a ring of the most recent
//! snapshots. Durations are in nanoseconds.

use vstd::prelude::*;
use crate::incremental::FallbackReason;

verus! {

/// Number of snapshots the history ring keeps.
pub const HISTORY_SIZE: usize = 64;

/// Kind of a collection.
#[derive(Clone, Copy, Debug, PartialEq, Eq, Structural)]
pub enum CollectionType {
    /// No collection has run yet.
    NoCollection,
    /// Young generation only.
    Minor,
    /// Whole heap, stop-the-world.
    Major,
    /// Whole heap with incremental marking.
    IncrementalMajor,
}

impl Default for CollectionType {
    fn default() -> (r: Self)
        ensures
            r == CollectionType::NoCollection,
    {
        CollectionType::NoCollection
    }
}

/// Statistics of one collection.
#[derive(Clone, Copy, Debug)]
pub struct GcMetrics {
    /// Pause of the collection, in nanoseconds.
    pub duration: u64,
    /// Bytes reclaimed.
    pub bytes_reclaimed: usize,
    /// Bytes surviving.
    pub bytes_surviving: usize,
    /// Objects reclaimed.
    pub objects_reclaimed: usize,
    /// Objects surviving.
    pub objects_surviving: usize,
    /// Kind of collection.
    pub collection_type: CollectionType,
    /// Collections of this thread so far, this one included.
    pub total_collections: usize,
    /// Clear phase, in nanoseconds.
    pub clear_duration: u64,
    /// Mark phase, in nanoseconds.
    pub mark_duration: u64,
    /// Sweep phase, in nanoseconds.
    pub sweep_duration: u64,
    /// Objects marked by incremental marking.
    pub objects_marked: usize,
    /// Dirty pages scanned by incremental marking.
    pub dirty_pages_scanned: usize,
    /// Incremental slices run.
    pub slices_executed: usize,
    /// Whether incremental marking fell back to stop-the-world.
    pub fallback_occurred: bool,
    /// Why it fell back, if it did.
    pub fallback_reason: FallbackReason,
}

/// Every counter and duration is zero, no collection kind, no fallback.
pub open spec fn is_zero_metrics(m: GcMetrics) -> bool {
    &&& m.duration == 0 && m.bytes_reclaimed == 0 && m.bytes_surviving == 0
    &&& m.objects_reclaimed == 0 && m.objects_surviving == 0
    &&& m.collection_type == CollectionType::NoCollection && m.total_collections == 0
    &&& m.clear_duration == 0 && m.mark_duration == 0 && m.sweep_duration == 0
    &&& m.objects_marked == 0 && m.dirty_pages_scanned == 0 && m.slices_executed == 0
    &&& !m.fallback_occurred && m.fallback_reason == FallbackReason::NoFallback
}

impl GcMetrics {
    /// All counters and durations zero.
    pub fn new() -> (m: Self)
        ensures
            is_zero_metrics(m),
    {
        GcMetrics {
            duration: 0,
            bytes_reclaimed: 0,
            bytes_surviving: 0,
            objects_reclaimed: 0,
            objects_surviving: 0,
            collection_type: CollectionType::NoCollection,
            total_collections: 0,
            clear_duration: 0,
            mark_duration: 0,
            sweep_duration: 0,
            objects_marked: 0,
            dirty_pages_scanned: 0,
            slices_executed: 0,
            fallback_occurred: false,
            fallback_reason: FallbackReason::NoFallback,
        }
    }
}

impl Default for GcMetrics {
    fn default() -> (m: Self)
        ensures
            is_zero_metrics(m),
    {
        GcMetrics::new()
    }
}

/// Times the clear, mark and sweep phases of a collection. Clock readings
/// are handed in, in nanoseconds.
#[derive(Clone, Copy, Debug)]
pub struct PhaseTimer {
    /// Clear phase, in nanoseconds.
    pub clear: u64,
    /// Mark phase, in nanoseconds.
    pub mark: u64,
    /// Sweep phase, in nanoseconds.
    pub sweep: u64,
    /// Clock reading when the running phase started.
    pub current_start: Option<u64>,
}

/// Time from `start` to `now`, zero if the clock reads earlier.
pub open spec fn elapsed_since(start: u64, now: u64) -> u64 {
    if now >= start { (now - start) as u64 } else { 0 }
}

impl PhaseTimer {
    /// All durations zero, no phase running.
    pub fn new() -> (t: Self)
        ensures
            t.clear == 0 && t.mark == 0 && t.sweep == 0,
            t.current_start is None,
    {
        PhaseTimer { clear: 0, mark: 0, sweep: 0, current_start: None }
    }

    /// Starts timing a phase at clock reading `now_ns`.
    pub fn start(&mut self, now_ns: u64)
        ensures
            *final(self) == (PhaseTimer { current_start: Some(now_ns), ..*old(self) }),
    {
        self.current_start = Some(now_ns);
    }

    /// Ends the running phase as the clear phase; nothing when no phase runs.
    pub fn end_clear(&mut self, now_ns: u64)
        ensures
            final(self).current_start is None,
            final(self).mark == old(self).mark && final(self).sweep == old(self).sweep,
            final(self).clear == match old(self).current_start {
                Some(s) => elapsed_since(s, now_ns),
                None => old(self).clear,
            },
    {
        if let Some(start) = self.current_start.take() {
            self.clear = now_ns.saturating_sub(start);
        }
    }

    /// Ends the running phase as the mark phase; nothing when no phase runs.
    pub fn end_mark(&mut self, now_ns: u64)
        ensures
            final(self).current_start is None,
            final(self).clear == old(self).clear && final(self).sweep == old(self).sweep,
            final(self).mark == match old(self).current_start {
                Some(s) => elapsed_since(s, now_ns),
                None => old(self).mark,
            },
    {
        if let Some(start) = self.current_start.take() {
            self.mark = now_ns.saturating_sub(start);
        }
    }

    /// Ends the running phase as the sweep phase; nothing when no phase runs.
    pub fn end_sweep(&mut self, now_ns: u64)
        ensures
            final(self).current_start is None,
            final(self).clear == old(self).clear && final(self).mark == old(self).mark,
            final(self).sweep == match old(self).current_start {
                Some(s) => elapsed_since(s, now_ns),
                None => old(self).sweep,
            },
    {
        if let Some(start) = self.current_start.take() {
            self.sweep = now_ns.saturating_sub(start);
        }
    }
}

/// Cumulative statistics over every collection of the process.
#[derive(Debug)]
pub struct GlobalMetrics {
    /// Collections.
    pub collections: usize,
    /// Minor collections.
    pub minor_collections: usize,
    /// Stop-the-world major collections.
    pub major_collections: usize,
    /// Incremental major collections.
    pub incremental_collections: usize,
    /// Bytes reclaimed.
    pub bytes_reclaimed: usize,
    /// Objects reclaimed.
    pub objects_reclaimed: usize,
    /// Pause time, in nanoseconds.
    pub pause_ns: u64,
    /// Fallbacks from incremental marking to stop-the-world.
    pub fallbacks: usize,
}

/// Every cumulative counter is zero.
pub open spec fn is_zero_global(g: GlobalMetrics) -> bool {
    &&& g.collections == 0 && g.minor_collections == 0 && g.major_collections == 0
    &&& g.incremental_collections == 0 && g.bytes_reclaimed == 0 && g.objects_reclaimed == 0
    &&& g.pause_ns == 0 && g.fallbacks == 0
}

impl GlobalMetrics {
    /// All counters zero.
    pub fn new() -> (g: Self)
        ensures
            is_zero_global(g),
    {
        GlobalMetrics {
            collections: 0,
            minor_collections: 0,
            major_collections: 0,
            incremental_collections: 0,
            bytes_reclaimed: 0,
            objects_reclaimed: 0,
            pause_ns: 0,
            fallbacks: 0,
        }
    }

    /// Collections so far.
    pub fn total_collections(&self) -> (n: usize)
        ensures
            n == self.collections,
    {
        self.collections
    }

    /// Minor collections so far.
    pub fn total_minor_collections(&self) -> (n: usize)
        ensures
            n == self.minor_collections,
    {
        self.minor_collections
    }

    /// Stop-the-world major collections so far.
    pub fn total_major_collections(&self) -> (n: usize)
        ensures
            n == self.major_collections,
    {
        self.major_collections
    }

    /// Incremental major collections so far.
    pub fn total_incremental_collections(&self) -> (n: usize)
        ensures
            n == self.incremental_collections,
    {
        self.incremental_collections
    }

    /// Bytes reclaimed so far.
    pub fn total_bytes_reclaimed(&self) -> (n: usize)
        ensures
            n == self.bytes_reclaimed,
    {
        self.bytes_reclaimed
    }

    /// Objects reclaimed so far.
    pub fn total_objects_reclaimed(&self) -> (n: usize)
        ensures
            n == self.objects_reclaimed,
    {
        self.objects_reclaimed
    }

    /// Pause time so far, in nanoseconds.
    pub fn total_pause_ns(&self) -> (n: u64)
        ensures
            n == self.pause_ns,
    {
        self.pause_ns
    }

    /// Fallbacks so far.
    pub fn total_fallbacks(&self) -> (n: usize)
        ensures
            n == self.fallbacks,
    {
        self.fallbacks
    }
}

impl Default for GlobalMetrics {
    fn default() -> (g: Self)
        ensures
            is_zero_global(g),
    {
        GlobalMetrics::new()
    }
}

/// Ring of the most recent collection snapshots.
pub struct GcHistory {
    /// The ring; slot `k % HISTORY_SIZE` holds the snapshot pushed `k`-th.
    pub buffer: Vec<GcMetrics>,
    /// Snapshots pushed so far (wrapping).
    pub write_idx: usize,
}

/// How many snapshots `recent(n)` hands out when `total` were pushed.
pub open spec fn recent_count(total: usize, n: usize) -> int {
    let a = if n < HISTORY_SIZE { n as int } else { HISTORY_SIZE as int };
    if a < total { a } else { total as int }
}

/// The most recent snapshots of a ring, newest first.
pub open spec fn recent_seq(buffer: Seq<GcMetrics>, total: usize, n: usize) -> Seq<GcMetrics> {
    Seq::new(recent_count(total, n) as nat, |j: int| buffer[(total - 1 - j) % (HISTORY_SIZE as int)])
}

/// Sum of the pauses of a list of snapshots.
pub open spec fn sum_durations(s: Seq<GcMetrics>) -> int
    decreases s.len(),
{
    if s.len() == 0 { 0 } else { sum_durations(s.drop_last()) + s.last().duration }
}

/// Longest pause of a list of snapshots (zero for none).
pub open spec fn max_duration(s: Seq<GcMetrics>) -> u64
    decreases s.len(),
{
    if s.len() == 0 {
        0
    } else {
        let m = max_duration(s.drop_last());
        if s.last().duration > m { s.last().duration } else { m }
    }
}

/// A list's pause sum is at most its length times its longest pause.
pub proof fn lemma_sum_below_max(s: Seq<GcMetrics>)
    ensures
        0 <= sum_durations(s) <= s.len() * max_duration(s),
    decreases s.len(),
{
    if s.len() > 0 {
        let t = s.drop_last();
        lemma_sum_below_max(t);
        let m = max_duration(s);
        assert(max_duration(t) <= m);
        assert(t.len() * max_duration(t) <= t.len() * m) by (nonlinear_arith)
            requires
                max_duration(t) <= m,
                t.len() >= 0,
        ;
        assert(s.len() * m == t.len() * m + m) by (nonlinear_arith)
            requires
                s.len() == t.len() + 1,
        ;
    }
}

impl GcHistory {
    /// The ring has `HISTORY_SIZE` slots.
    pub open spec fn wf(&self) -> bool {
        self.buffer.len() == HISTORY_SIZE
    }

    /// The snapshots `recent(n)` hands out.
    pub open spec fn spec_recent(&self, n: usize) -> Seq<GcMetrics> {
        recent_seq(self.buffer@, self.write_idx, n)
    }

    /// An empty ring.
    pub fn new() -> (h: Self)
        ensures
            h.wf(),
            h.write_idx == 0,
            forall|k: int| 0 <= k < HISTORY_SIZE ==> is_zero_metrics(#[trigger] h.buffer@[k]),
    {
        let mut buffer: Vec<GcMetrics> = Vec::new();
        let mut k: usize = 0;
        while k < HISTORY_SIZE
            invariant
                k <= HISTORY_SIZE,
                buffer.len() == k,
                forall|j: int| 0 <= j < k ==> is_zero_metrics(#[trigger] buffer@[j]),
            decreases HISTORY_SIZE - k,
        {
            buffer.push(GcMetrics::new());
            k = k + 1;
        }
        GcHistory { buffer, write_idx: 0 }
    }

    /// Appends a snapshot, overwriting the oldest once the ring is full.
    pub(crate) fn push(&mut self, metrics: GcMetrics)
        requires
            old(self).wf(),
        ensures
            final(self).wf(),
            final(self).write_idx == old(self).write_idx.wrapping_add(1),
            final(self).buffer@ == old(self).buffer@.update(
                (old(self).write_idx % HISTORY_SIZE) as int,
                metrics,
            ),
    {
        let idx = self.write_idx;
        self.write_idx = self.write_idx.wrapping_add(1);
        self.buffer.set(idx % HISTORY_SIZE, metrics);
    }

    /// Snapshots pushed so far.
    pub fn total_recorded(&self) -> (n: usize)
        ensures
            n == self.write_idx,
    {
        self.write_idx
    }

    /// The most recent snapshots, newest first: at most `n`, at most the
    /// ring's size and at most the number pushed.
    pub fn recent(&self, n: usize) -> (r: Vec<GcMetrics>)
        requires
            self.wf(),
        ensures
            r@ == self.spec_recent(n),
    {
        let total = self.total_recorded();
        if total == 0 {
            proof {
                assert(self.spec_recent(n) =~= Seq::<GcMetrics>::empty());
            }
            return Vec::new();
        }
        let mut count: usize = if n < HISTORY_SIZE { n } else { HISTORY_SIZE };
        if total < count {
            count = total;
        }
        let mut result: Vec<GcMetrics> = Vec::new();
        let mut j: usize = 0;
        while j < count
            invariant
                self.wf(),
                total == self.write_idx,
                total > 0,
                count == recent_count(total, n),
                count <= total,
                j <= count,
                result@ == self.spec_recent(n).subrange(0, j as int),
            decreases count - j,
        {
            let i = total - 1 - j;
            result.push(self.buffer[i % HISTORY_SIZE]);
            j = j + 1;
            proof {
                assert(result@ =~= self.spec_recent(n).subrange(0, j as int));
            }
        }
        proof {
            assert(result@ =~= self.spec_recent(n));
        }
        result
    }

    /// Mean pause of `recent(n)`, rounded down; zero when nothing was pushed.
    pub fn average_pause_time(&self, n: usize) -> (r: u64)
        requires
            self.wf(),
        ensures
            self.spec_recent(n).len() == 0 ==> r == 0,
            self.spec_recent(n).len() > 0 ==> r == sum_durations(self.spec_recent(n)) / (self.spec_recent(n).len() as int),
    {
        let recent = self.recent(n);
        if recent.len() == 0 {
            return 0;
        }
        let mut total: u128 = 0;
        let mut i: usize = 0;
        proof {
            lemma_sum_below_max(recent@);
        }
        while i < recent.len()
            invariant
                i <= recent.len() <= HISTORY_SIZE,
                total == sum_durations(recent@.subrange(0, i as int)),
                total <= i * 0xffff_ffff_ffff_ffffu64,
            decreases recent.len() - i,
        {
            proof {
                assert(recent@.subrange(0, i + 1).drop_last() =~= recent@.subrange(0, i as int));
            }
            total = total + recent[i].duration as u128;
            i = i + 1;
        }
        proof {
            assert(recent@.subrange(0, recent.len() as int) =~= recent@);
        }
        let len: u128 = recent.len() as u128;
        let avg: u128 = total / len;
        assert(avg <= 0xffff_ffff_ffff_ffffu64) by (nonlinear_arith)
            requires
                total <= len * 0xffff_ffff_ffff_ffffu64,
                len > 0,
                avg == total / len,
        ;
        avg as u64
    }

    /// Longest pause of `recent(n)`; zero when nothing was pushed.
    pub fn max_pause_time(&self, n: usize) -> (r: u64)
        requires
            self.wf(),
        ensures
            r == max_duration(self.spec_recent(n)),
    {
        let recent = self.recent(n);
        let mut m: u64 = 0;
        let mut i: usize = 0;
        while i < recent.len()
            invariant
                i <= recent.len(),
                m == max_duration(recent@.subrange(0, i as int)),
            decreases recent.len() - i,
        {
            proof {
                assert(recent@.subrange(0, i + 1).drop_last() =~= recent@.subrange(0, i as int));
            }
            if recent[i].duration > m {
                m = recent[i].duration;
            }
            i = i + 1;
        }
        proof {
            assert(recent@.subrange(0, recent.len() as int) =~= recent@);
        }
        m
    }
}

/// Per-thread record of the last collection.
pub struct ThreadMetrics {
    /// Snapshot of the last collection of this thread.
    pub last: GcMetrics,
    /// Collections of this thread so far.
    pub total_collections: usize,
}

impl ThreadMetrics {
    /// No collection yet.
    pub fn new() -> (t: Self)
        ensures
            is_zero_metrics(t.last),
            t.total_collections == 0,
    {
        ThreadMetrics { last: GcMetrics::new(), total_collections: 0 }
    }
}

/// The snapshot of the thread's last collection.
pub fn last_gc_metrics(local: &ThreadMetrics) -> (m: GcMetrics)
    ensures
        m == local.last,
{
    local.last
}

/// The cumulative counters after recording `m`.
pub open spec fn global_after(g: GlobalMetrics, m: GcMetrics) -> GlobalMetrics {
    GlobalMetrics {
        collections: g.collections.wrapping_add(1),
        minor_collections: if m.collection_type == CollectionType::Minor {
            g.minor_collections.wrapping_add(1)
        } else {
            g.minor_collections
        },
        major_collections: if m.collection_type == CollectionType::Major {
            g.major_collections.wrapping_add(1)
        } else {
            g.major_collections
        },
        incremental_collections: if m.collection_type == CollectionType::IncrementalMajor {
            g.incremental_collections.wrapping_add(1)
        } else {
            g.incremental_collections
        },
        bytes_reclaimed: g.bytes_reclaimed.wrapping_add(m.bytes_reclaimed),
        objects_reclaimed: g.objects_reclaimed.wrapping_add(m.objects_reclaimed),
        pause_ns: g.pause_ns.wrapping_add(m.duration),
        fallbacks: if m.collection_type == CollectionType::IncrementalMajor && m.fallback_occurred {
            g.fallbacks.wrapping_add(1)
        } else {
            g.fallbacks
        },
    }
}

/// Records a collection: the thread counts it and keeps the snapshot
/// (stamped with its count), the cumulative counters add it up by kind, and
/// the snapshot as given enters the history ring.
pub fn record_metrics(
    local: &mut ThreadMetrics,
    global: &mut GlobalMetrics,
    history: &mut GcHistory,
    metrics: GcMetrics,
)
    requires
        old(local).total_collections < usize::MAX,
        old(history).wf(),
    ensures
        final(local).total_collections == old(local).total_collections + 1,
        final(local).last == (GcMetrics { total_collections: final(local).total_collections, ..metrics }),
        *final(global) == global_after(*old(global), metrics),
        final(history).wf(),
        final(history).write_idx == old(history).write_idx.wrapping_add(1),
        final(history).buffer@ == old(history).buffer@.update(
            (old(history).write_idx % HISTORY_SIZE) as int,
            metrics,
        ),
{
    local.total_collections = local.total_collections + 1;
    local.last = GcMetrics { total_collections: local.total_collections, ..metrics };
    global.collections = global.collections.wrapping_add(1);
    global.bytes_reclaimed = global.bytes_reclaimed.wrapping_add(metrics.bytes_reclaimed);
    global.objects_reclaimed = global.objects_reclaimed.wrapping_add(metrics.objects_reclaimed);
    global.pause_ns = global.pause_ns.wrapping_add(metrics.duration);
    match metrics.collection_type {
        CollectionType::Minor => {
            global.minor_collections = global.minor_collections.wrapping_add(1);
        },
        CollectionType::Major => {
            global.major_collections = global.major_collections.wrapping_add(1);
        },
        CollectionType::IncrementalMajor => {
            global.incremental_collections = global.incremental_collections.wrapping_add(1);
            if metrics.fallback_occurred {
                global.fallbacks = global.fallbacks.wrapping_add(1);
            }
        },
        CollectionType::NoCollection => {},
    }
    history.push(metrics);
}

/// The most recent snapshot is the one pushed last: right after a record,
/// `recent(1)` holds exactly that snapshot.
pub proof fn law_recent_one_after_push(before: GcHistory, after: GcHistory, m: GcMetrics)
    requires
        before.wf(),
        after.wf(),
        after.write_idx == before.write_idx.wrapping_add(1),
        after.write_idx > 0,
        after.buffer@ == before.buffer@.update((before.write_idx % HISTORY_SIZE) as int, m),
    ensures
        after.spec_recent(1) == seq![m],
{
    assert(after.write_idx == before.write_idx + 1);
    assert(after.spec_recent(1) =~= seq![m]);
}

/// The mean pause of a window never exceeds its longest pause.
pub proof fn law_average_at_most_max(s: Seq<GcMetrics>)
    requires
        s.len() > 0,
    ensures
        sum_durations(s) / (s.len() as int) <= max_duration(s),
{
    lemma_sum_below_max(s);
    let l = s.len() as int;
    let m = max_duration(s) as int;
    let t = sum_durations(s);
    assert(t / l <= m) by (nonlinear_arith)
        requires
            0 <= t <= l * m,
            l > 0,
    ;
}

/// A window is never longer than asked for, than the ring or than the
/// number of snapshots pushed.
pub proof fn law_recent_bounded(h: GcHistory, n: usize)
    ensures
        h.spec_recent(n).len() <= n,
        h.spec_recent(n).len() <= HISTORY_SIZE,
        h.spec_recent(n).len() <= h.write_idx,
        h.write_idx == 0 ==> h.spec_recent(n).len() == 0,
{
}

/// The ring `buf` after recording `ms` in turn, the first at position
/// `idx`: each record overwrites the slot its count falls on.
pub open spec fn ring_after(buf: Seq<GcMetrics>, idx: int, ms: Seq<GcMetrics>) -> Seq<GcMetrics>
    decreases ms.len(),
{
    if ms.len() == 0 {
        buf
    } else {
        ring_after(buf, idx, ms.drop_last()).update((idx + ms.len() - 1) % (HISTORY_SIZE as int), ms.last())
    }
}

/// Recording a run of snapshots: the window of the most recent ones holds
/// the snapshots recorded last, newest first, as far as the run reaches.
pub proof fn law_recent_after_records(buf: Seq<GcMetrics>, idx: usize, ms: Seq<GcMetrics>, n: usize)
    requires
        buf.len() == HISTORY_SIZE,
        idx + ms.len() <= usize::MAX,
    ensures
        forall|j: int|
            0 <= j < recent_count((idx + ms.len()) as usize, n) && j < ms.len() ==> #[trigger] recent_seq(
                ring_after(buf, idx as int, ms),
                (idx + ms.len()) as usize,
                n,
            )[j] == ms[ms.len() - 1 - j],
    decreases ms.len(),
{
    if ms.len() > 0 {
        let t: int = idx + ms.len();
        let prev = ms.drop_last();
        law_recent_after_records(buf, idx, prev, n);
        assert forall|j: int|
            0 <= j < recent_count((idx + ms.len()) as usize, n) && j < ms.len() implies #[trigger] recent_seq(
                ring_after(buf, idx as int, ms),
                (idx + ms.len()) as usize,
                n,
            )[j] == ms[ms.len() - 1 - j] by {
            lemma_ring_len(buf, idx as int, ms);
            lemma_ring_len(buf, idx as int, prev);
            let p: int = (t - 1 - j) % (HISTORY_SIZE as int);
            let r = ring_after(buf, idx as int, ms);
            let q = ring_after(buf, idx as int, prev);
            assert(prev.len() == ms.len() - 1);
            assert(r == q.update((t - 1) % (HISTORY_SIZE as int), ms.last()));
            assert(recent_seq(r, t as usize, n)[j] == r[p]);
            if j == 0 {
                assert(p == (idx + ms.len() - 1) % (HISTORY_SIZE as int));
            } else {
                assert(p != (t - 1) % (HISTORY_SIZE as int)) by {
                    assert(0 < j < 64);
                }
                assert(j - 1 < recent_count((idx + prev.len()) as usize, n));
                assert(recent_seq(q, (idx + prev.len()) as usize, n)[j - 1] == prev[prev.len() - 1 - (j - 1)]);
                assert(((idx + prev.len()) - 1 - (j - 1)) % (HISTORY_SIZE as int) == p);
                assert(recent_seq(q, (idx + prev.len()) as usize, n)[j - 1] == q[p]);
                assert(r[p] == q[p]);
            }
        }
    }
}

/// Recording keeps the ring's size.
proof fn lemma_ring_len(buf: Seq<GcMetrics>, idx: int, ms: Seq<GcMetrics>)
    requires
        buf.len() == HISTORY_SIZE,
    ensures
        ring_after(buf, idx, ms).len() == buf.len(),
    decreases ms.len(),
{
    if ms.len() > 0 {
        lemma_ring_len(buf, idx, ms.drop_last());
    }
}

/// The window of a history ring holds the snapshots recorded last, newest
/// first: a ring that recorded `ms` in turn, from an empty one, hands out
/// in `recent(n)` the last of `ms` first.
pub proof fn law_recent_newest_first(h: GcHistory, start: Seq<GcMetrics>, ms: Seq<GcMetrics>, n: usize)
    requires
        start.len() == HISTORY_SIZE,
        ms.len() <= usize::MAX,
        h.write_idx == ms.len(),
        h.buffer@ == ring_after(start, 0, ms),
    ensures
        h.spec_recent(n).len() == recent_count(ms.len() as usize, n),
        forall|j: int| 0 <= j < h.spec_recent(n).len() ==> #[trigger] h.spec_recent(n)[j] == ms[ms.len() - 1 - j],
{
    law_recent_after_records(start, 0, ms, n);
    assert forall|j: int| 0 <= j < h.spec_recent(n).len() implies #[trigger] h.spec_recent(n)[j] == ms[ms.len() - 1 - j] by {
        assert(recent_seq(ring_after(start, 0, ms), (0 + ms.len()) as usize, n)[j] == ms[ms.len() - 1 - j]);
    }
}

/// The cumulative counters after recording `ms` in turn.
pub open spec fn global_after_all(g: GlobalMetrics, ms: Seq<GcMetrics>) -> GlobalMetrics
    decreases ms.len(),
{
    if ms.len() == 0 {
        g
    } else {
        global_after(global_after_all(g, ms.drop_last()), ms.last())
    }
}

/// How many of `ms` are collections of the kind `kind`.
pub open spec fn count_kind(ms: Seq<GcMetrics>, kind: CollectionType) -> int
    decreases ms.len(),
{
    if ms.len() == 0 {
        0
    } else {
        count_kind(ms.drop_last(), kind) + if ms.last().collection_type == kind { 1int } else { 0int }
    }
}

/// A kind's count is at most the number of collections.
proof fn lemma_count_kind_bound(ms: Seq<GcMetrics>, kind: CollectionType)
    ensures
        0 <= count_kind(ms, kind) <= ms.len(),
    decreases ms.len(),
{
    if ms.len() > 0 {
        lemma_count_kind_bound(ms.drop_last(), kind);
    }
}

/// Recording many collections: the total count grows by the number
/// recorded and each kind's count by the collections of that kind, as
/// long as the counts stay below `usize::MAX`.
pub proof fn law_record_counts(g: GlobalMetrics, ms: Seq<GcMetrics>)
    requires
        g.collections + ms.len() <= usize::MAX,
        g.minor_collections + ms.len() <= usize::MAX,
        g.major_collections + ms.len() <= usize::MAX,
        g.incremental_collections + ms.len() <= usize::MAX,
    ensures
        global_after_all(g, ms).collections == g.collections + ms.len(),
        global_after_all(g, ms).minor_collections == g.minor_collections + count_kind(ms, CollectionType::Minor),
        global_after_all(g, ms).major_collections == g.major_collections + count_kind(ms, CollectionType::Major),
        global_after_all(g, ms).incremental_collections == g.incremental_collections + count_kind(
            ms,
            CollectionType::IncrementalMajor,
        ),
    decreases ms.len(),
{
    if ms.len() > 0 {
        let prev = ms.drop_last();
        law_record_counts(g, prev);
        lemma_count_kind_bound(prev, CollectionType::Minor);
        lemma_count_kind_bound(prev, CollectionType::Major);
        lemma_count_kind_bound(prev, CollectionType::IncrementalMajor);
    }
}

} // verus!
