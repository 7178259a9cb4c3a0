//! The per-thread bookkeeping of a heap that the barriers and the collector
//! share: the list of dirty pages and its scanning snapshot with a rolling
//! average of its size, the remembered buffer that batches dirty pages, the
//! buffers of old values captured by the snapshot-at-the-beginning barrier,
//! and the address range the heap spans. Pages and objects are named by
//! their addresses.

use vstd::prelude::*;
use crate::page::{PageHeader, flag_set, same_page, PAGE_FLAG_DIRTY_LISTED};
use crate::incremental::{IncrementalMarkState, FallbackReason, reason_code};
use crate::page::{spec_header_size, spec_page_mask, PAGE_FLAG_LARGE};
use crate::large::LargeObjectMap;
use crate::lookup::{PageAt, Dealloc, free_object_at, freed_at, page_index};
use std::collections::HashSet;

verus! {

/// Initial capacity of the remembered buffer.
pub const DEFAULT_REMEMBERED_CAPACITY: usize = 32;
/// Initial capacity of the snapshot-at-the-beginning buffer.
pub const DEFAULT_SATB_CAPACITY: usize = 32;
/// Dirty pages assumed per cycle before any was counted.
pub const INITIAL_DIRTY_ESTIMATE: usize = 16;

/// Barrier and collector bookkeeping of one thread's heap.
pub struct HeapBuffers {
    /// Pages with dirty objects, waiting for the next scan.
    pub dirty_pages: Vec<usize>,
    /// The pages being scanned now.
    pub dirty_pages_snapshot: Vec<usize>,
    /// Mean size of the last four snapshots.
    pub avg_dirty_pages: usize,
    /// Sizes of the last four snapshots, newest first.
    pub dirty_page_history: [usize; 4],
    /// Dirty pages recorded by the barrier, not yet merged.
    pub remembered_buffer: Vec<usize>,
    /// Length at which the remembered buffer is merged.
    pub remembered_buffer_capacity: usize,
    /// Old values captured by the barrier.
    pub satb_old_values: Vec<usize>,
    /// Length at which the capture buffer overflows.
    pub satb_buffer_capacity: usize,
    /// Captured values kept after an overflow.
    pub satb_overflow_buffer: Vec<usize>,
    /// Lowest address of the heap.
    pub min_addr: usize,
    /// One past the highest address of the heap.
    pub max_addr: usize,
}

/// Kept for callers that refreshed the thread's heap pointer: the heap now
/// lives in the thread's control block, so there is nothing to refresh.
pub fn update_tcb_heap_ptr() {
}

/// The elements of `s`, each once, in order of first occurrence.
pub open spec fn no_duplicates(s: Seq<usize>) -> bool {
    forall|i: int, j: int| 0 <= i < j < s.len() ==> s[i] != s[j]
}

impl HeapBuffers {
    /// Empty buffers, default capacities, empty address range.
    pub fn new() -> (h: Self)
        ensures
            h.dirty_pages@ == Seq::<usize>::empty(),
            h.dirty_pages_snapshot@ == Seq::<usize>::empty(),
            h.avg_dirty_pages == INITIAL_DIRTY_ESTIMATE,
            h.dirty_page_history@ == seq![16usize, 16, 16, 16],
            h.remembered_buffer@ == Seq::<usize>::empty(),
            h.remembered_buffer_capacity == DEFAULT_REMEMBERED_CAPACITY,
            h.satb_old_values@ == Seq::<usize>::empty(),
            h.satb_buffer_capacity == DEFAULT_SATB_CAPACITY,
            h.satb_overflow_buffer@ == Seq::<usize>::empty(),
            h.min_addr == usize::MAX,
            h.max_addr == 0,
    {
        let h = HeapBuffers {
            dirty_pages: Vec::new(),
            dirty_pages_snapshot: Vec::new(),
            avg_dirty_pages: INITIAL_DIRTY_ESTIMATE,
            dirty_page_history: [16, 16, 16, 16],
            remembered_buffer: Vec::new(),
            remembered_buffer_capacity: DEFAULT_REMEMBERED_CAPACITY,
            satb_old_values: Vec::new(),
            satb_buffer_capacity: DEFAULT_SATB_CAPACITY,
            satb_overflow_buffer: Vec::new(),
            min_addr: usize::MAX,
            max_addr: 0,
        };
        proof {
            assert(h.dirty_page_history@ =~= seq![16usize, 16, 16, 16]);
        }
        h
    }

    /// Widens the address range to cover `size` bytes at `addr`.
    pub fn update_range(&mut self, addr: usize, size: usize)
        requires
            addr + size <= usize::MAX,
        ensures
            final(self).min_addr == (if addr < old(self).min_addr { addr } else { old(self).min_addr }),
            final(self).max_addr == (if addr + size > old(self).max_addr { (addr + size) as usize } else { old(self).max_addr }),
            final(self).dirty_pages@ == old(self).dirty_pages@,
    {
        if addr < self.min_addr {
            self.min_addr = addr;
        }
        if addr + size > self.max_addr {
            self.max_addr = addr + size;
        }
    }

    /// Whether `addr` lies in the heap's address range.
    pub fn is_in_range(&self, addr: usize) -> (r: bool)
        ensures
            r == (self.min_addr <= addr && addr < self.max_addr),
    {
        addr >= self.min_addr && addr < self.max_addr
    }

    /// Lists the page at `page` (with `header`) as dirty, once: a page
    /// already listed is left alone.
    pub fn add_to_dirty_pages(&mut self, header: &mut PageHeader, page: usize)
        ensures
            flag_set(old(header).flags, PAGE_FLAG_DIRTY_LISTED) ==> {
                &&& final(self).dirty_pages@ == old(self).dirty_pages@
                &&& *final(header) == *old(header)
            },
            !flag_set(old(header).flags, PAGE_FLAG_DIRTY_LISTED) ==> {
                &&& final(self).dirty_pages@ == old(self).dirty_pages@.push(page)
                &&& final(header).flags == old(header).flags | PAGE_FLAG_DIRTY_LISTED
                &&& same_page(*final(header), PageHeader { flags: final(header).flags, ..*old(header) })
            },
            final(self).dirty_pages_snapshot@ == old(self).dirty_pages_snapshot@,
            final(self).remembered_buffer@ == old(self).remembered_buffer@,
    {
        if header.is_dirty_listed() {
            return;
        }
        self.dirty_pages.push(page);
        header.set_dirty_listed();
    }

    /// Moves the dirty pages into the scanning snapshot; returns how many.
    pub fn take_dirty_pages_snapshot(&mut self) -> (n: usize)
        ensures
            final(self).dirty_pages_snapshot@ == old(self).dirty_pages@,
            final(self).dirty_pages@ == Seq::<usize>::empty(),
            n == old(self).dirty_pages@.len(),
            final(self).dirty_page_history@ == old(self).dirty_page_history@,
            final(self).avg_dirty_pages == old(self).avg_dirty_pages,
            final(self).remembered_buffer@ == old(self).remembered_buffer@,
            final(self).min_addr == old(self).min_addr,
            final(self).max_addr == old(self).max_addr,
    {
        let mut pages: Vec<usize> = Vec::new();
        std::mem::swap(&mut pages, &mut self.dirty_pages);
        self.dirty_pages_snapshot = pages;
        self.dirty_pages_snapshot.len()
    }

    /// The pages of the scanning snapshot.
    pub fn dirty_pages_iter(&self) -> (r: &Vec<usize>)
        ensures
            r@ == self.dirty_pages_snapshot@,
    {
        &self.dirty_pages_snapshot
    }

    /// Ends a scan: the snapshot's size enters the history, the average is
    /// recomputed over the last four sizes, and the snapshot is emptied.
    pub fn clear_dirty_pages_snapshot(&mut self)
        requires
            old(self).dirty_pages_snapshot@.len() + old(self).dirty_page_history[0]
                + old(self).dirty_page_history[1] + old(self).dirty_page_history[2] <= usize::MAX,
        ensures
            final(self).dirty_page_history@ == seq![
                old(self).dirty_pages_snapshot@.len() as usize,
                old(self).dirty_page_history[0],
                old(self).dirty_page_history[1],
                old(self).dirty_page_history[2],
            ],
            final(self).avg_dirty_pages == (old(self).dirty_pages_snapshot@.len() + old(self).dirty_page_history[0]
                + old(self).dirty_page_history[1] + old(self).dirty_page_history[2]) / 4,
            final(self).dirty_pages_snapshot@ == Seq::<usize>::empty(),
            final(self).dirty_pages@ == old(self).dirty_pages@,
            final(self).remembered_buffer@ == old(self).remembered_buffer@,
            final(self).min_addr == old(self).min_addr,
            final(self).max_addr == old(self).max_addr,
    {
        let count = self.dirty_pages_snapshot.len();
        let h = self.dirty_page_history;
        self.dirty_page_history = [count, h[0], h[1], h[2]];
        let sum = count + h[0] + h[1] + h[2];
        self.avg_dirty_pages = sum / 4;
        self.dirty_pages_snapshot.clear();
        proof {
            assert(self.dirty_page_history@ =~= seq![count, h[0], h[1], h[2]]);
        }
    }

    /// Number of listed dirty pages.
    pub fn dirty_pages_count(&self) -> (n: usize)
        ensures
            n == self.dirty_pages@.len(),
    {
        self.dirty_pages.len()
    }

    /// Merges the remembered buffer into the dirty list, dropping repeats:
    /// the list then holds every page it held or the buffer held, each once.
    pub fn flush_remembered_buffer(&mut self)
        ensures
            final(self).remembered_buffer@ == Seq::<usize>::empty(),
            old(self).remembered_buffer@.len() == 0 ==> final(self).dirty_pages@ == old(self).dirty_pages@,
            old(self).remembered_buffer@.len() > 0 ==> {
                &&& no_duplicates(final(self).dirty_pages@)
                &&& forall|p: usize| #[trigger] final(self).dirty_pages@.contains(p) <==> (old(self).dirty_pages@.contains(p)
                    || old(self).remembered_buffer@.contains(p))
            },
            final(self).dirty_pages_snapshot@ == old(self).dirty_pages_snapshot@,
            final(self).remembered_buffer_capacity == old(self).remembered_buffer_capacity,
    {
        let mut pages: Vec<usize> = Vec::new();
        std::mem::swap(&mut pages, &mut self.remembered_buffer);
        if pages.len() == 0 {
            return;
        }
        let mut all: Vec<usize> = Vec::new();
        let mut k: usize = 0;
        while k < self.dirty_pages.len()
            invariant
                k <= self.dirty_pages.len(),
                all@ == self.dirty_pages@.take(k as int),
            decreases self.dirty_pages.len() - k,
        {
            all.push(self.dirty_pages[k]);
            k = k + 1;
            proof {
                assert(all@ =~= self.dirty_pages@.take(k as int));
            }
        }
        let mut j: usize = 0;
        while j < pages.len()
            invariant
                j <= pages.len(),
                all@ == self.dirty_pages@ + pages@.take(j as int),
            decreases pages.len() - j,
        {
            all.push(pages[j]);
            j = j + 1;
            proof {
                assert(all@ =~= self.dirty_pages@ + pages@.take(j as int));
            }
        }
        proof {
            assert(self.dirty_pages@.take(self.dirty_pages.len() as int) =~= self.dirty_pages@);
            assert(pages@.take(pages.len() as int) =~= pages@);
        }
        let unique = dedup(&all);
        proof {
            assert forall|p: usize| #[trigger] unique@.contains(p) <==> (self.dirty_pages@.contains(p)
                || pages@.contains(p)) by {
                if all@.contains(p) {
                    let i = choose|i: int| 0 <= i < all@.len() && #[trigger] all@[i] == p;
                    if i < self.dirty_pages@.len() {
                        assert(self.dirty_pages@[i] == p);
                    } else {
                        assert(pages@[i - self.dirty_pages@.len()] == p);
                    }
                }
                if self.dirty_pages@.contains(p) {
                    let i = choose|i: int| 0 <= i < self.dirty_pages@.len() && #[trigger] self.dirty_pages@[i] == p;
                    assert(all@[i] == p);
                }
                if pages@.contains(p) {
                    let i = choose|i: int| 0 <= i < pages@.len() && #[trigger] pages@[i] == p;
                    assert(all@[self.dirty_pages@.len() + i] == p);
                }
            }
        }
        self.dirty_pages = unique;
    }

    /// Records a dirty page in the remembered buffer, merging the buffer
    /// into the dirty list once it reaches its capacity.
    pub fn record_in_remembered_buffer(&mut self, page: usize)
        ensures
            old(self).remembered_buffer@.len() + 1 < old(self).remembered_buffer_capacity ==> {
                &&& final(self).remembered_buffer@ == old(self).remembered_buffer@.push(page)
                &&& final(self).dirty_pages@ == old(self).dirty_pages@
            },
            old(self).remembered_buffer@.len() + 1 >= old(self).remembered_buffer_capacity ==> {
                &&& final(self).remembered_buffer@ == Seq::<usize>::empty()
                &&& no_duplicates(final(self).dirty_pages@)
                &&& forall|p: usize| #[trigger] final(self).dirty_pages@.contains(p) <==> (old(self).dirty_pages@.contains(p)
                    || old(self).remembered_buffer@.contains(p) || p == page)
            },
            final(self).remembered_buffer_capacity == old(self).remembered_buffer_capacity,
            final(self).dirty_pages_snapshot@ == old(self).dirty_pages_snapshot@,
    {
        self.remembered_buffer.push(page);
        if self.remembered_buffer.len() >= self.remembered_buffer_capacity {
            let ghost pushed = self.remembered_buffer@;
            self.flush_remembered_buffer();
            proof {
                assert forall|p: usize| pushed.contains(p) <==> (old(self).remembered_buffer@.contains(p) || p == page) by {
                    if pushed.contains(p) {
                        let i = choose|i: int| 0 <= i < pushed.len() && #[trigger] pushed[i] == p;
                        if i < old(self).remembered_buffer@.len() {
                            assert(old(self).remembered_buffer@[i] == p);
                        }
                    }
                    if old(self).remembered_buffer@.contains(p) {
                        let i = choose|i: int| 0 <= i < old(self).remembered_buffer@.len() && #[trigger] old(self).remembered_buffer@[i] == p;
                        assert(pushed[i] == p);
                    }
                    if p == page {
                        assert(pushed[pushed.len() - 1] == p);
                    }
                }
            }
        }
    }

    /// The remembered buffer's capacity.
    pub fn remembered_buffer_capacity(&self) -> (n: usize)
        ensures
            n == self.remembered_buffer_capacity,
    {
        self.remembered_buffer_capacity
    }

    /// Sets the remembered buffer's capacity, discarding what it holds.
    pub fn set_remembered_buffer_capacity(&mut self, capacity: usize)
        ensures
            final(self).remembered_buffer_capacity == capacity,
            final(self).remembered_buffer@ == Seq::<usize>::empty(),
            final(self).dirty_pages@ == old(self).dirty_pages@,
    {
        self.remembered_buffer_capacity = capacity;
        self.remembered_buffer = Vec::new();
    }

    /// Discards the remembered buffer.
    pub fn clear_remembered_buffer(&mut self)
        ensures
            final(self).remembered_buffer@ == Seq::<usize>::empty(),
            final(self).dirty_pages@ == old(self).dirty_pages@,
            final(self).remembered_buffer_capacity == old(self).remembered_buffer_capacity,
    {
        self.remembered_buffer.clear();
    }

    /// Captures the old value `gc_box` of a pointer about to be overwritten.
    /// A value allocated by another thread goes to the shared cross-thread
    /// buffer. Otherwise it joins this thread's buffer; when that reaches its
    /// capacity, its contents move to the overflow buffer, a fallback to
    /// stop-the-world is requested and false is returned.
    pub fn record_satb_old_value(
        &mut self,
        gc_box: usize,
        current_thread: u64,
        allocating_thread: u64,
        cross_thread: &mut Vec<usize>,
        state: &mut IncrementalMarkState,
    ) -> (stored: bool)
        ensures
            current_thread != allocating_thread && allocating_thread != 0 ==> {
                &&& stored
                &&& final(cross_thread)@ == old(cross_thread)@.push(gc_box)
                &&& final(self).satb_old_values@ == old(self).satb_old_values@
                &&& final(self).satb_overflow_buffer@ == old(self).satb_overflow_buffer@
                &&& *final(state) == *old(state)
            },
            !(current_thread != allocating_thread && allocating_thread != 0) ==> {
                &&& final(cross_thread)@ == old(cross_thread)@
                &&& old(self).satb_old_values@.len() + 1 < old(self).satb_buffer_capacity ==> {
                    &&& stored
                    &&& final(self).satb_old_values@ == old(self).satb_old_values@.push(gc_box)
                    &&& final(self).satb_overflow_buffer@ == old(self).satb_overflow_buffer@
                    &&& *final(state) == *old(state)
                }
                &&& old(self).satb_old_values@.len() + 1 >= old(self).satb_buffer_capacity ==> {
                    &&& !stored
                    &&& final(self).satb_old_values@ == Seq::<usize>::empty()
                    &&& final(self).satb_overflow_buffer@ == old(self).satb_overflow_buffer@ + old(
                        self,
                    ).satb_old_values@.push(gc_box)
                    &&& final(state).fallback_requested
                    &&& final(state).stats.fallback_occurred
                    &&& final(state).stats.fallback_reason == reason_code(FallbackReason::SatbBufferOverflow)
                    &&& final(state).worklist == old(state).worklist
                    &&& final(state).phase == old(state).phase
                }
            },
            final(self).satb_buffer_capacity == old(self).satb_buffer_capacity,
            final(self).dirty_pages@ == old(self).dirty_pages@,
    {
        if current_thread != allocating_thread && allocating_thread != 0 {
            cross_thread.push(gc_box);
            return true;
        }
        self.satb_old_values.push(gc_box);
        if self.satb_old_values.len() >= self.satb_buffer_capacity {
            let mut values: Vec<usize> = Vec::new();
            std::mem::swap(&mut values, &mut self.satb_old_values);
            self.satb_overflow_buffer.append(&mut values);
            state.request_fallback(FallbackReason::SatbBufferOverflow);
            false
        } else {
            true
        }
    }

    /// Hands out and empties the capture buffer.
    pub fn flush_satb_buffer(&mut self) -> (r: Vec<usize>)
        ensures
            r@ == old(self).satb_old_values@,
            final(self).satb_old_values@ == Seq::<usize>::empty(),
            final(self).satb_overflow_buffer@ == old(self).satb_overflow_buffer@,
            final(self).satb_buffer_capacity == old(self).satb_buffer_capacity,
            final(self).dirty_pages@ == old(self).dirty_pages@,
    {
        let mut r: Vec<usize> = Vec::new();
        std::mem::swap(&mut r, &mut self.satb_old_values);
        r
    }

    /// Discards the capture buffer.
    pub fn clear_satb_buffer(&mut self)
        ensures
            final(self).satb_old_values@ == Seq::<usize>::empty(),
            final(self).satb_overflow_buffer@ == old(self).satb_overflow_buffer@,
            final(self).satb_buffer_capacity == old(self).satb_buffer_capacity,
    {
        self.satb_old_values.clear();
    }

    /// Hands out and empties the overflow buffer.
    pub fn flush_satb_overflow_buffer(&mut self) -> (r: Vec<usize>)
        ensures
            r@ == old(self).satb_overflow_buffer@,
            final(self).satb_overflow_buffer@ == Seq::<usize>::empty(),
            final(self).satb_old_values@ == old(self).satb_old_values@,
            final(self).dirty_pages@ == old(self).dirty_pages@,
    {
        let mut r: Vec<usize> = Vec::new();
        std::mem::swap(&mut r, &mut self.satb_overflow_buffer);
        r
    }
}

/// Hands out and empties the shared cross-thread capture buffer, null
/// addresses dropped.
pub fn flush_cross_thread_satb_buffer(cross_thread: &mut Vec<usize>) -> (r: Vec<usize>)
    ensures
        final(cross_thread)@ == Seq::<usize>::empty(),
        r@ == crate::async_scope::non_zero(old(cross_thread)@),
{
    let mut addresses: Vec<usize> = Vec::new();
    std::mem::swap(&mut addresses, cross_thread);
    let mut r: Vec<usize> = Vec::new();
    let mut k: usize = 0;
    while k < addresses.len()
        invariant
            k <= addresses.len(),
            r@ == crate::async_scope::non_zero(addresses@.take(k as int)),
        decreases addresses.len() - k,
    {
        proof {
            assert(addresses@.take(k + 1).drop_last() =~= addresses@.take(k as int));
        }
        if addresses[k] != 0 {
            r.push(addresses[k]);
        }
        k = k + 1;
    }
    proof {
        assert(addresses@.take(addresses.len() as int) =~= addresses@);
    }
    r
}

/// Whether `x` occurs in `v`.
pub fn vec_contains(v: &Vec<usize>, x: usize) -> (r: bool)
    ensures
        r == v@.contains(x),
{
    let mut j: usize = 0;
    while j < v.len()
        invariant
            j <= v.len(),
            forall|i: int| 0 <= i < j ==> v@[i] != x,
        decreases v.len() - j,
    {
        if v[j] == x {
            assert(v@[j as int] == x);
            return true;
        }
        j = j + 1;
    }
    false
}

/// The elements of `v`, each once, in order of first occurrence.
pub fn dedup(v: &Vec<usize>) -> (r: Vec<usize>)
    ensures
        no_duplicates(r@),
        forall|p: usize| #[trigger] r@.contains(p) <==> v@.contains(p),
{
    let mut r: Vec<usize> = Vec::new();
    let mut k: usize = 0;
    while k < v.len()
        invariant
            k <= v.len(),
            no_duplicates(r@),
            forall|i: int| 0 <= i < r.len() ==> exists|j: int| 0 <= j < k && v@[j] == #[trigger] r@[i],
            forall|j: int| 0 <= j < k ==> r@.contains(#[trigger] v@[j]),
        decreases v.len() - k,
    {
        let x = v[k];
        let seen = vec_contains(&r, x);
        if !seen {
            let ghost before = r@;
            r.push(x);
            proof {
                assert forall|i: int| 0 <= i < r.len() implies exists|j: int| 0 <= j < k + 1 && v@[j] == #[trigger] r@[i] by {
                    if i < before.len() {
                        assert(r@[i] == before[i]);
                        let j = choose|j: int| 0 <= j < k && v@[j] == before[i];
                        assert(v@[j] == r@[i]);
                    } else {
                        assert(v@[k as int] == r@[i]);
                    }
                }
                assert forall|j: int| 0 <= j < k + 1 implies r@.contains(#[trigger] v@[j]) by {
                    if j < k {
                        assert(before.contains(v@[j]));
                        let i = choose|i: int| 0 <= i < before.len() && before[i] == v@[j];
                        assert(r@[i] == v@[j]);
                    } else {
                        assert(r@[before.len() as int] == v@[j]);
                    }
                }
            }
        }
        k = k + 1;
    }
    proof {
        assert forall|p: usize| #[trigger] r@.contains(p) <==> v@.contains(p) by {
            if r@.contains(p) {
                let i = choose|i: int| 0 <= i < r@.len() && r@[i] == p;
                let j = choose|j: int| 0 <= j < k && v@[j] == r@[i];
                assert(v@[j] == p);
            }
            if v@.contains(p) {
                let j = choose|j: int| 0 <= j < v@.len() && v@[j] == p;
                assert(r@.contains(v@[j]));
            }
        }
    }
    r
}

/// The captured values the final mark must treat as roots, overflowed ones
/// first: both buffers are emptied.
pub fn final_mark_roots(heap: &mut HeapBuffers) -> (r: Vec<usize>)
    ensures
        r@ == old(heap).satb_overflow_buffer@ + old(heap).satb_old_values@,
        final(heap).satb_overflow_buffer@ == Seq::<usize>::empty(),
        final(heap).satb_old_values@ == Seq::<usize>::empty(),
        final(heap).dirty_pages@ == old(heap).dirty_pages@,
{
    let mut r = heap.flush_satb_overflow_buffer();
    let mut captured = heap.flush_satb_buffer();
    r.append(&mut captured);
    r
}


/// The addresses of the pages of `s` that hold a large object, in order.
pub open spec fn large_addrs(s: Seq<PageAt>) -> Seq<usize>
    decreases s.len(),
{
    if s.len() == 0 {
        Seq::empty()
    } else if flag_set(s.last().page.header.flags, PAGE_FLAG_LARGE) {
        large_addrs(s.drop_last()).push(s.last().addr)
    } else {
        large_addrs(s.drop_last())
    }
}

/// A thread's heap: its pages with their addresses, the addresses of its
/// small-object pages, the spans of its large objects by page, the bytes
/// allocated in each generation, and the barrier and collector buffers.
pub struct LocalHeap {
    /// Every page of the heap, small and large.
    pub pages: Vec<PageAt>,
    /// Addresses of the small-object pages.
    pub small_pages: HashSet<usize>,
    /// Span entry of every page of every large object.
    pub large_object_map: LargeObjectMap,
    /// Bytes in young objects.
    pub young_allocated: usize,
    /// Bytes in old objects.
    pub old_allocated: usize,
    /// Dirty pages, remembered and snapshot buffers, address range.
    pub buffers: HeapBuffers,
}

impl LocalHeap {
    /// A heap with no page and nothing allocated.
    pub fn new() -> (h: Self)
        ensures
            h.pages@ == Seq::<PageAt>::empty(),
            h.small_pages@ == Set::<usize>::empty(),
            h.large_object_map@ == Map::<usize, (usize, usize, usize)>::empty(),
            h.young_allocated == 0,
            h.old_allocated == 0,
            h.buffers.min_addr == usize::MAX,
            h.buffers.max_addr == 0,
    {
        LocalHeap {
            pages: Vec::new(),
            small_pages: HashSet::new(),
            large_object_map: LargeObjectMap::new(),
            young_allocated: 0,
            old_allocated: 0,
            buffers: HeapBuffers::new(),
        }
    }

    /// Bytes allocated in both generations.
    pub fn total_allocated(&self) -> (n: usize)
        requires
            self.young_allocated + self.old_allocated <= usize::MAX,
        ensures
            n == self.young_allocated + self.old_allocated,
    {
        self.young_allocated + self.old_allocated
    }

    /// Bytes allocated in the young generation.
    pub fn young_allocated(&self) -> (n: usize)
        ensures
            n == self.young_allocated,
    {
        self.young_allocated
    }

    /// Bytes allocated in the old generation.
    pub fn old_allocated(&self) -> (n: usize)
        ensures
            n == self.old_allocated,
    {
        self.old_allocated
    }

    /// Sets both counts, as promotion and sweeping compute them.
    pub fn update_allocated_bytes(&mut self, young_bytes: usize, old_bytes: usize)
        ensures
            final(self).young_allocated == young_bytes,
            final(self).old_allocated == old_bytes,
            final(self).pages@ == old(self).pages@,
    {
        self.young_allocated = young_bytes;
        self.old_allocated = old_bytes;
    }

    /// Every page of the heap.
    pub fn all_pages(&self) -> (r: &Vec<PageAt>)
        ensures
            r@ == self.pages@,
    {
        &self.pages
    }

    /// The addresses of the pages that hold a large object, in order.
    pub fn large_object_pages(&self) -> (r: Vec<usize>)
        ensures
            r@ == large_addrs(self.pages@),
    {
        let mut r: Vec<usize> = Vec::new();
        let mut k: usize = 0;
        while k < self.pages.len()
            invariant
                k <= self.pages.len(),
                r@ == large_addrs(self.pages@.take(k as int)),
            decreases self.pages.len() - k,
        {
            proof {
                assert(self.pages@.take(k + 1).drop_last() =~= self.pages@.take(k as int));
            }
            if self.pages[k].page.header.is_large_object() {
                r.push(self.pages[k].addr);
            }
            k = k + 1;
        }
        proof {
            assert(self.pages@.take(self.pages.len() as int) =~= self.pages@);
        }
        r
    }

    /// Pages of ended threads are not adopted for allocation: a request for
    /// a page of `block_size` gets none and the heap maps a fresh one.
    pub fn try_adopt_orphan_page(&mut self, block_size: usize) -> (r: Option<usize>)
        ensures
            r is None,
            final(self).pages@ == old(self).pages@,
    {
        None
    }

    /// Frees the object at `addr`, which this heap handed out and whose
    /// value was never published: as `free_object_at` does on the heap's
    /// pages, small pages and span map, with `global` the process-wide span
    /// map.
    pub fn dealloc(&mut self, global: &mut LargeObjectMap, addr: usize, page_size: usize) -> (r: Dealloc)
        requires
            page_size > 0,
            old(self).large_object_map.entries_fit(page_size),
            forall|k: usize| #[trigger] old(self).small_pages@.contains(k) ==> page_index(old(self).pages@, k, 0) is Some,
            forall|i: int| 0 <= i < old(self).pages.len() ==> (#[trigger] old(self).pages@[i]).page.wf(),
            ({
                let pa = addr & spec_page_mask(page_size);
                old(self).small_pages@.contains(pa) && !old(self).large_object_map@.contains_key(pa) ==> {
                    let p = old(self).pages@[page_index(old(self).pages@, pa, 0).unwrap()].page;
                    &&& p.header.block_size > 0
                    &&& pa + spec_header_size(p.header.block_size as int) <= addr
                }
            }),
        ensures
            freed_at(
                old(self).pages@,
                final(self).pages@,
                old(self).small_pages@,
                old(self).large_object_map@,
                final(self).large_object_map@,
                old(global)@,
                final(global)@,
                addr,
                page_size,
                r,
            ),
            final(self).small_pages@ == old(self).small_pages@,
            final(self).young_allocated == old(self).young_allocated,
            final(self).old_allocated == old(self).old_allocated,
            final(self).large_object_map.entries_fit(page_size),
    {
        free_object_at(&mut self.pages, &self.small_pages, &mut self.large_object_map, global, addr, page_size)
    }
}


/// The lowest address the heap spans.
pub fn heap_start(heap: &LocalHeap) -> (a: usize)
    ensures
        a == heap.buffers.min_addr,
{
    heap.buffers.min_addr
}

/// One past the highest address the heap spans.
pub fn heap_end(heap: &LocalHeap) -> (a: usize)
    ensures
        a == heap.buffers.max_addr,
{
    heap.buffers.max_addr
}


/// Empties the heap for a fresh start: it forgets its pages, small pages
/// and spans, its byte counts and address range, and its dirty-page list
/// and snapshot.
pub fn clear_local_heap(heap: &mut LocalHeap)
    ensures
        final(heap).pages@ == Seq::<PageAt>::empty(),
        final(heap).small_pages@ == Set::<usize>::empty(),
        final(heap).large_object_map@ == Map::<usize, (usize, usize, usize)>::empty(),
        final(heap).young_allocated == 0,
        final(heap).old_allocated == 0,
        final(heap).buffers.min_addr == usize::MAX,
        final(heap).buffers.max_addr == 0,
        final(heap).buffers.dirty_pages@ == Seq::<usize>::empty(),
        final(heap).buffers.dirty_pages_snapshot@ == Seq::<usize>::empty(),
        final(heap).buffers.remembered_buffer@ == old(heap).buffers.remembered_buffer@,
        final(heap).buffers.satb_old_values@ == old(heap).buffers.satb_old_values@,
{
    heap.pages.clear();
    heap.small_pages.clear();
    heap.large_object_map.clear();
    heap.young_allocated = 0;
    heap.old_allocated = 0;
    heap.buffers.min_addr = usize::MAX;
    heap.buffers.max_addr = 0;
    heap.buffers.dirty_pages.clear();
    heap.buffers.dirty_pages_snapshot.clear();
}

} // verus!
