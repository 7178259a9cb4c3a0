//! Per-worker mark queues for parallel marking, with work stealing,
//! push-based transfer of remote work and per-worker page ownership; the
//! configuration and bookkeeping of a parallel marking round.

use vstd::prelude::*;
use std::collections::HashSet;
use crate::worklist::StealQueue;
use crate::page::{PageHeader, spec_header_size, PAGE_SLOTS};
use crate::collect::VisitorKind;
use crate::sweep::indices_where;

verus! {

broadcast use vstd::std_specs::hash::group_hash_axioms;

/// Capacity of each worker's steal queue.
pub const MARK_QUEUE_SIZE: usize = 1024;
/// Initial capacity of the pending-work buffer.
pub const PENDING_WORK_BUFFER_SIZE: usize = 16;

/// A worker's mark queue: a steal queue of object addresses, pending work
/// pushed by other workers, the pages this worker owns and its mark count.
pub struct PerThreadMarkQueue {
    queue: StealQueue<usize, MARK_QUEUE_SIZE>,
    bottom: usize,
    worker_idx: usize,
    owned_pages: Vec<usize>,
    marked_count: usize,
    pending_work: Vec<usize>,
}

impl PerThreadMarkQueue {
    /// The steal queue is consistent with the owner's bottom index.
    pub closed spec fn wf(&self) -> bool {
        self.queue.wf(self.bottom)
    }

    /// Queued object addresses, oldest first.
    pub closed spec fn items(&self) -> Seq<usize> {
        self.queue.items(self.bottom)
    }

    /// Work pushed to this worker by others, in arrival order.
    pub closed spec fn pending(&self) -> Seq<usize> {
        self.pending_work@
    }

    /// Pages owned by this worker.
    pub closed spec fn owned(&self) -> Seq<usize> {
        self.owned_pages@
    }

    /// The worker index.
    pub closed spec fn idx(&self) -> usize {
        self.worker_idx
    }

    /// Objects marked by this worker.
    pub closed spec fn count(&self) -> usize {
        self.marked_count
    }

    /// The owner's bottom index; pushes need it below `usize::MAX`.
    pub closed spec fn spec_bottom(&self) -> usize {
        self.bottom
    }

    /// A fresh, empty queue for worker `worker_idx`.
    pub fn new_with_index(worker_idx: usize) -> (q: Self)
        ensures
            q.wf(),
            q.items() == Seq::<usize>::empty(),
            q.pending() == Seq::<usize>::empty(),
            q.owned() == Seq::<usize>::empty(),
            q.idx() == worker_idx,
            q.count() == 0,
            q.spec_bottom() == 0,
    {
        proof {
            assert(1024usize & 1023usize == 0usize) by (bit_vector);
        }
        PerThreadMarkQueue {
            queue: StealQueue::new(),
            bottom: 0,
            worker_idx,
            owned_pages: Vec::new(),
            marked_count: 0,
            pending_work: Vec::with_capacity(PENDING_WORK_BUFFER_SIZE),
        }
    }

    /// A fresh, empty queue for worker 0.
    pub fn new() -> (q: Self)
        ensures
            q.wf(),
            q.items() == Seq::<usize>::empty(),
            q.pending() == Seq::<usize>::empty(),
            q.owned() == Seq::<usize>::empty(),
            q.idx() == 0,
            q.count() == 0,
            q.spec_bottom() == 0,
    {
        Self::new_with_index(0)
    }

    /// Pushes an object onto the local end; `false` when the queue is full.
    pub fn push(&mut self, obj: usize) -> (ok: bool)
        requires
            old(self).wf(),
            old(self).spec_bottom() < usize::MAX,
        ensures
            final(self).wf(),
            ok == (old(self).items().len() < MARK_QUEUE_SIZE),
            ok ==> final(self).items() == old(self).items().push(obj),
            ok ==> final(self).spec_bottom() == old(self).spec_bottom() + 1,
            !ok ==> final(self).items() == old(self).items() && final(self).spec_bottom() == old(self).spec_bottom(),
            final(self).pending() == old(self).pending(),
            final(self).owned() == old(self).owned(),
            final(self).idx() == old(self).idx(),
            final(self).count() == old(self).count(),
    {
        self.queue.push(&mut self.bottom, obj)
    }

    /// Pushes a non-null object address.
    pub fn push_non_null(&mut self, obj: usize) -> (ok: bool)
        requires
            old(self).wf(),
            old(self).spec_bottom() < usize::MAX,
            obj != 0,
        ensures
            final(self).wf(),
            ok == (old(self).items().len() < MARK_QUEUE_SIZE),
            ok ==> final(self).items() == old(self).items().push(obj),
            ok ==> final(self).spec_bottom() == old(self).spec_bottom() + 1,
            !ok ==> final(self).items() == old(self).items() && final(self).spec_bottom() == old(self).spec_bottom(),
            final(self).pending() == old(self).pending(),
            final(self).owned() == old(self).owned(),
            final(self).idx() == old(self).idx(),
            final(self).count() == old(self).count(),
    {
        self.push(obj)
    }

    /// Pops the newest object from the local end.
    pub fn pop(&mut self) -> (r: Option<usize>)
        requires
            old(self).wf(),
            old(self).spec_bottom() < usize::MAX,
        ensures
            final(self).wf(),
            final(self).spec_bottom() <= old(self).spec_bottom(),
            old(self).items().len() == 0 ==> r is None && final(self).items() == old(self).items(),
            old(self).items().len() > 0 ==> r == Some(old(self).items().last()) && final(self).items()
                == old(self).items().drop_last(),
            final(self).pending() == old(self).pending(),
            final(self).owned() == old(self).owned(),
            final(self).idx() == old(self).idx(),
            final(self).count() == old(self).count(),
    {
        let r = self.queue.pop(&mut self.bottom);
        r
    }

    /// Steals the oldest object from the remote end.
    pub fn steal(&mut self) -> (r: Option<usize>)
        requires
            old(self).wf(),
        ensures
            final(self).wf(),
            final(self).spec_bottom() == old(self).spec_bottom(),
            old(self).items().len() == 0 ==> r is None && final(self).items() == old(self).items(),
            old(self).items().len() > 0 ==> r == Some(old(self).items().first()) && final(self).items()
                == old(self).items().drop_first(),
            final(self).pending() == old(self).pending(),
            final(self).owned() == old(self).owned(),
            final(self).idx() == old(self).idx(),
            final(self).count() == old(self).count(),
    {
        self.queue.steal(&self.bottom)
    }

    /// Number of queued objects.
    pub fn len(&self) -> (n: usize)
        requires
            self.wf(),
        ensures
            n == self.items().len(),
    {
        self.queue.len(&self.bottom)
    }

    /// Whether no object is queued.
    pub fn is_empty(&self) -> (r: bool)
        requires
            self.wf(),
        ensures
            r == (self.items().len() == 0),
    {
        self.queue.is_empty(&self.bottom)
    }

    /// Steals one object from another worker's queue.
    pub fn try_steal_from(&self, other: &mut PerThreadMarkQueue) -> (r: Option<usize>)
        requires
            old(other).wf(),
        ensures
            final(other).wf(),
            final(other).spec_bottom() == old(other).spec_bottom(),
            old(other).items().len() == 0 ==> r is None && final(other).items() == old(other).items(),
            old(other).items().len() > 0 ==> r == Some(old(other).items().first()) && final(other).items()
                == old(other).items().drop_first(),
            final(other).pending() == old(other).pending(),
            final(other).owned() == old(other).owned(),
            final(other).idx() == old(other).idx(),
            final(other).count() == old(other).count(),
    {
        other.steal()
    }

    /// Pushes work into `owner`'s pending buffer.
    pub fn push_remote(owner: &mut PerThreadMarkQueue, work: usize)
        ensures
            final(owner).pending() == old(owner).pending().push(work),
            final(owner).items() == old(owner).items(),
            final(owner).wf() == old(owner).wf(),
            final(owner).spec_bottom() == old(owner).spec_bottom(),
            final(owner).owned() == old(owner).owned(),
            final(owner).idx() == old(owner).idx(),
            final(owner).count() == old(owner).count(),
    {
        owner.pending_work.push(work);
    }

    /// How many of the other pending items fit in the local queue when
    /// pending work is received.
    pub open spec fn moved_count(&self) -> int {
        let rest: int = self.pending().len() - 1;
        let room: int = MARK_QUEUE_SIZE - self.items().len();
        if rest < room { rest } else { room }
    }

    /// Receives the work other workers pushed: drains the pending buffer,
    /// returning its most recent item and moving the others, oldest first,
    /// onto the local queue for processing. Only items that do not fit in
    /// the local queue stay pending.
    pub fn receive_pending_work(&mut self) -> (r: Option<usize>)
        requires
            old(self).wf(),
            old(self).spec_bottom() + old(self).pending().len() <= usize::MAX,
        ensures
            final(self).wf(),
            old(self).pending().len() == 0 ==> r is None && *final(self) == *old(self),
            old(self).pending().len() > 0 ==> {
                let m: int = old(self).moved_count();
                &&& r == Some(old(self).pending().last())
                &&& 0 <= m
                &&& final(self).items() == old(self).items() + old(self).pending().drop_last().take(m)
                &&& final(self).pending() == old(self).pending().drop_last().skip(m)
                &&& final(self).spec_bottom() == old(self).spec_bottom() + m
                &&& old(self).items().len() + old(self).pending().len() - 1 <= MARK_QUEUE_SIZE
                    ==> final(self).pending().len() == 0
            },
            final(self).owned() == old(self).owned(),
            final(self).idx() == old(self).idx(),
            final(self).count() == old(self).count(),
    {
        let ghost before = *self;
        proof {
            lemma_queue_len(before);
        }
        if self.pending_work.len() == 0 {
            return None;
        }
        let mut taken: Vec<usize> = Vec::new();
        std::mem::swap(&mut taken, &mut self.pending_work);
        let last = taken.pop();
        let ghost rest = taken@;
        let ghost m: int = before.moved_count();
        assert(rest == before.pending().drop_last());
        let mut i: usize = 0;
        while i < taken.len()
            invariant
                taken@ == rest,
                rest.len() == before.pending().len() - 1,
                i <= rest.len(),
                i <= m,
                m == before.moved_count(),
                self.wf(),
                self.items() == before.items() + rest.take(i as int),
                self.spec_bottom() == before.spec_bottom() + i,
                before.spec_bottom() + before.pending().len() <= usize::MAX,
                before.items().len() <= MARK_QUEUE_SIZE,
                self.pending_work@ == Seq::<usize>::empty(),
                self.owned() == before.owned(),
                self.idx() == before.idx(),
                self.count() == before.count(),
            ensures
                i == m,
                self.wf(),
                self.items() == before.items() + rest.take(i as int),
                self.spec_bottom() == before.spec_bottom() + i,
                self.pending_work@ == Seq::<usize>::empty(),
                self.owned() == before.owned(),
                self.idx() == before.idx(),
                self.count() == before.count(),
            decreases rest.len() - i,
        {
            let x: usize = taken[i];
            if !self.push(x) {
                break;
            }
            proof {
                assert(rest.take(i + 1) =~= rest.take(i as int).push(x));
            }
            i = i + 1;
        }
        let left = taken.split_off(i);
        self.pending_work = left;
        proof {
            assert(self.pending() =~= rest.skip(i as int));
        }
        last
    }

    /// Takes all pending items at once.
    pub fn drain_pending_work(&mut self) -> (r: Vec<usize>)
        ensures
            r@ == old(self).pending(),
            final(self).pending() == Seq::<usize>::empty(),
            final(self).items() == old(self).items(),
            final(self).wf() == old(self).wf(),
            final(self).spec_bottom() == old(self).spec_bottom(),
            final(self).owned() == old(self).owned(),
            final(self).idx() == old(self).idx(),
            final(self).count() == old(self).count(),
    {
        let mut taken: Vec<usize> = Vec::new();
        std::mem::swap(&mut taken, &mut self.pending_work);
        taken
    }

    /// Whether pending work is waiting.
    pub fn has_pending_work(&self) -> (r: bool)
        ensures
            r == (self.pending().len() > 0),
    {
        !self.pending_work.is_empty()
    }

    /// Number of pending items.
    pub fn pending_work_len(&self) -> (n: usize)
        ensures
            n == self.pending().len(),
    {
        self.pending_work.len()
    }

    /// Whether this worker or `other` owns any page.
    pub fn has_overlapping_ownership(&self, other: &PerThreadMarkQueue) -> (r: bool)
        ensures
            r == (self.owned().len() > 0 || other.owned().len() > 0),
    {
        !self.owned_pages.is_empty() || !other.owned_pages.is_empty()
    }

    /// Number of owned pages.
    pub fn owned_page_count(&self) -> (n: usize)
        ensures
            n == self.owned().len(),
    {
        self.owned_pages.len()
    }

    /// The underlying steal queue.
    pub fn queue(&self) -> (q: &StealQueue<usize, MARK_QUEUE_SIZE>)
        ensures
            q.items(self.spec_bottom()) == self.items(),
    {
        &self.queue
    }

    /// The worker index.
    pub fn worker_idx(&self) -> (i: usize)
        ensures
            i == self.idx(),
    {
        self.worker_idx
    }

    /// Registers a page as owned by this worker.
    pub fn add_owned_page(&mut self, page: usize)
        ensures
            final(self).owned() == old(self).owned().push(page),
            final(self).items() == old(self).items(),
            final(self).pending() == old(self).pending(),
            final(self).wf() == old(self).wf(),
            final(self).spec_bottom() == old(self).spec_bottom(),
            final(self).idx() == old(self).idx(),
            final(self).count() == old(self).count(),
    {
        self.owned_pages.push(page);
    }

    /// Objects marked by this worker.
    pub fn marked_count(&self) -> (n: usize)
        ensures
            n == self.count(),
    {
        self.marked_count
    }

    /// Adds to the mark count, wrapping as an atomic add does.
    pub fn inc_marked_count(&mut self, count: usize)
        ensures
            final(self).count() == old(self).count().wrapping_add(count),
            final(self).items() == old(self).items(),
            final(self).pending() == old(self).pending(),
            final(self).owned() == old(self).owned(),
            final(self).wf() == old(self).wf(),
            final(self).spec_bottom() == old(self).spec_bottom(),
            final(self).idx() == old(self).idx(),
    {
        self.marked_count = self.marked_count.wrapping_add(count);
    }
}


/// The first queue at or after `from` that belongs to another worker than
/// `me`, holds work and, when `owners_only`, has an owner relation with `me`
/// (either side owns a page).
pub open spec fn first_victim(qs: Seq<PerThreadMarkQueue>, me: PerThreadMarkQueue, from: int, owners_only: bool) -> Option<int>
    decreases qs.len() - from,
{
    if from < 0 || from >= qs.len() {
        None
    } else if qs[from].idx() != me.idx() && qs[from].items().len() > 0 && (!owners_only || me.owned().len() > 0
        || qs[from].owned().len() > 0) {
        Some(from)
    } else {
        first_victim(qs, me, from + 1, owners_only)
    }
}

/// Every queue in the sequence is well formed.
pub open spec fn all_wf(qs: Seq<PerThreadMarkQueue>) -> bool {
    forall|k: int| 0 <= k < qs.len() ==> (#[trigger] qs[k]).wf()
}

/// `after` is `before` with one object stolen from queue `j`.
pub open spec fn stolen_from(before: Seq<PerThreadMarkQueue>, after: Seq<PerThreadMarkQueue>, j: int) -> bool {
    &&& after.len() == before.len()
    &&& forall|k: int| 0 <= k < before.len() && k != j ==> after[k] == before[k]
    &&& after[j].wf()
    &&& after[j].items() == before[j].items().drop_first()
    &&& after[j].pending() == before[j].pending()
    &&& after[j].owned() == before[j].owned()
    &&& after[j].idx() == before[j].idx()
    &&& after[j].count() == before[j].count()
    &&& after[j].spec_bottom() == before[j].spec_bottom()
}

impl PerThreadMarkQueue {
    /// Steals the oldest object of the first other worker's queue that holds
    /// work (limited to queues related by page ownership when `owners_only`).
    fn steal_first(&self, qs: &mut Vec<PerThreadMarkQueue>, owners_only: bool) -> (r: Option<usize>)
        requires
            all_wf(old(qs)@),
        ensures
            all_wf(final(qs)@),
            match first_victim(old(qs)@, *self, 0, owners_only) {
                Some(j) => r == Some(old(qs)@[j].items().first()) && stolen_from(old(qs)@, final(qs)@, j),
                None => r is None && final(qs)@ == old(qs)@,
            },
    {
        let n = qs.len();
        let mut i: usize = 0;
        while i < n
            invariant
                n == qs.len(),
                i <= n,
                qs@ == old(qs)@,
                all_wf(qs@),
                first_victim(old(qs)@, *self, 0, owners_only) == first_victim(old(qs)@, *self, i as int, owners_only),
            decreases n - i,
        {
            let candidate = qs[i].worker_idx != self.worker_idx
                && qs[i].len() > 0
                && (!owners_only || self.has_overlapping_ownership(&qs[i]));
            if candidate {
                let ghost before = qs@;
                let r = qs[i].steal();
                proof {
                    assert(first_victim(old(qs)@, *self, i as int, owners_only) == Some(i as int));
                    assert forall|k: int| 0 <= k < qs@.len() implies (#[trigger] qs@[k]).wf() by {
                        if k != i {
                            assert(qs@[k] == before[k]);
                        }
                    }
                }
                return r;
            }
            i = i + 1;
        }
        None
    }

    /// Finds work when the local queue runs dry: pending work pushed by other
    /// workers first, then the oldest object of the first other worker's
    /// queue that holds work.
    pub fn work_steal(&mut self, other_queues: &mut Vec<PerThreadMarkQueue>) -> (r: Option<usize>)
        requires
            all_wf(old(other_queues)@),
            old(self).wf(),
            old(self).spec_bottom() + old(self).pending().len() <= usize::MAX,
        ensures
            all_wf(final(other_queues)@),
            final(self).wf(),
            final(self).owned() == old(self).owned(),
            final(self).idx() == old(self).idx(),
            final(self).count() == old(self).count(),
            old(self).pending().len() > 0 ==> {
                let m: int = old(self).moved_count();
                &&& r == Some(old(self).pending().last())
                &&& 0 <= m
                &&& final(self).items() == old(self).items() + old(self).pending().drop_last().take(m)
                &&& final(self).pending() == old(self).pending().drop_last().skip(m)
                &&& final(self).spec_bottom() == old(self).spec_bottom() + m
                &&& final(other_queues)@ == old(other_queues)@
            },
            old(self).pending().len() == 0 ==> {
                &&& final(self).items() == old(self).items()
                &&& final(self).spec_bottom() == old(self).spec_bottom()
                &&& final(self).pending() == old(self).pending()
                &&& match first_victim(old(other_queues)@, *old(self), 0, false) {
                    Some(j) => r == Some(old(other_queues)@[j].items().first()) && stolen_from(
                        old(other_queues)@,
                        final(other_queues)@,
                        j,
                    ),
                    None => r is None && final(other_queues)@ == old(other_queues)@,
                }
            },
    {
        if let Some(obj) = self.receive_pending_work() {
            return Some(obj);
        }
        let ghost me = *self;
        proof {
            assert(me.idx() == old(self).idx() && me.owned() == old(self).owned());
            lemma_first_victim_same_identity(old(other_queues)@, *old(self), me, 0, false);
        }
        self.steal_first(other_queues, false)
    }

    /// Like `work_steal`, but first prefers queues related by page ownership.
    pub fn try_steal_owned_work(&mut self, all_queues: &mut Vec<PerThreadMarkQueue>) -> (r: Option<usize>)
        requires
            all_wf(old(all_queues)@),
            old(self).wf(),
            old(self).spec_bottom() + old(self).pending().len() <= usize::MAX,
        ensures
            all_wf(final(all_queues)@),
            final(self).wf(),
            final(self).owned() == old(self).owned(),
            final(self).idx() == old(self).idx(),
            final(self).count() == old(self).count(),
            old(self).pending().len() > 0 ==> {
                let m: int = old(self).moved_count();
                &&& r == Some(old(self).pending().last())
                &&& 0 <= m
                &&& final(self).items() == old(self).items() + old(self).pending().drop_last().take(m)
                &&& final(self).pending() == old(self).pending().drop_last().skip(m)
                &&& final(self).spec_bottom() == old(self).spec_bottom() + m
                &&& final(all_queues)@ == old(all_queues)@
            },
            old(self).pending().len() == 0 ==> {
                &&& final(self).items() == old(self).items()
                &&& final(self).spec_bottom() == old(self).spec_bottom()
                &&& final(self).pending() == old(self).pending()
                &&& match first_victim(old(all_queues)@, *old(self), 0, true) {
                    Some(j) => r == Some(old(all_queues)@[j].items().first()) && stolen_from(
                        old(all_queues)@,
                        final(all_queues)@,
                        j,
                    ),
                    None => match first_victim(old(all_queues)@, *old(self), 0, false) {
                        Some(j) => r == Some(old(all_queues)@[j].items().first()) && stolen_from(
                            old(all_queues)@,
                            final(all_queues)@,
                            j,
                        ),
                        None => r is None && final(all_queues)@ == old(all_queues)@,
                    },
                }
            },
    {
        if let Some(obj) = self.receive_pending_work() {
            return Some(obj);
        }
        let ghost me = *self;
        proof {
            lemma_first_victim_same_identity(old(all_queues)@, *old(self), me, 0, true);
        }
        if let Some(obj) = self.steal_first(all_queues, true) {
            return Some(obj);
        }
        proof {
            lemma_first_victim_same_identity(old(all_queues)@, *old(self), *self, 0, false);
        }
        self.work_steal(all_queues)
    }
}

/// A well-formed mark queue holds at most `MARK_QUEUE_SIZE` objects.
pub proof fn lemma_queue_len(q: PerThreadMarkQueue)
    requires
        q.wf(),
    ensures
        q.items().len() <= MARK_QUEUE_SIZE,
{
    q.queue.lemma_len_bound(q.bottom);
}

/// The first queue at or after `from` of another worker than `me_idx` with
/// room for one more object.
pub open spec fn first_room(qs: Seq<PerThreadMarkQueue>, me_idx: usize, from: int) -> Option<int>
    decreases qs.len() - from,
{
    if from < 0 || from >= qs.len() {
        None
    } else if qs[from].idx() != me_idx && qs[from].items().len() < MARK_QUEUE_SIZE {
        Some(from)
    } else {
        first_room(qs, me_idx, from + 1)
    }
}

/// `after` is `before` with `obj` pushed onto queue `k`.
pub open spec fn pushed_onto(before: Seq<PerThreadMarkQueue>, after: Seq<PerThreadMarkQueue>, k: int, obj: usize) -> bool {
    &&& after.len() == before.len()
    &&& forall|q: int| 0 <= q < before.len() && q != k ==> after[q] == before[q]
    &&& after[k].wf()
    &&& after[k].items() == before[k].items().push(obj)
    &&& after[k].pending() == before[k].pending()
    &&& after[k].owned() == before[k].owned()
    &&& after[k].idx() == before[k].idx()
    &&& after[k].count() == before[k].count()
    &&& after[k].spec_bottom() == before[k].spec_bottom() + 1
}

/// The first queue, from `from` on, of another worker than `me` with room.
fn find_room(qs: &Vec<PerThreadMarkQueue>, me_idx: usize, from: usize) -> (r: Option<usize>)
    requires
        from <= qs.len(),
        all_wf(qs@),
    ensures
        match r {
            Some(k) => first_room(qs@, me_idx, from as int) == Some(k as int) && k < qs.len(),
            None => first_room(qs@, me_idx, from as int) is None,
        },
{
    let mut k: usize = from;
    while k < qs.len()
        invariant
            from <= k <= qs.len(),
            all_wf(qs@),
            first_room(qs@, me_idx, from as int) == first_room(qs@, me_idx, k as int),
        decreases qs.len() - k,
    {
        if qs[k].worker_idx != me_idx && qs[k].len() < MARK_QUEUE_SIZE {
            return Some(k);
        }
        k = k + 1;
    }
    None
}

/// The first other worker's queue that holds work.
fn find_victim(me: &PerThreadMarkQueue, qs: &Vec<PerThreadMarkQueue>) -> (r: Option<usize>)
    requires
        all_wf(qs@),
    ensures
        match r {
            Some(j) => first_victim(qs@, *me, 0, false) == Some(j as int) && j < qs.len(),
            None => first_victim(qs@, *me, 0, false) is None,
        },
{
    let mut i: usize = 0;
    while i < qs.len()
        invariant
            i <= qs.len(),
            all_wf(qs@),
            first_victim(qs@, *me, 0, false) == first_victim(qs@, *me, i as int, false),
        decreases qs.len() - i,
    {
        if qs[i].worker_idx != me.worker_idx && qs[i].len() > 0 {
            return Some(i);
        }
        i = i + 1;
    }
    None
}

/// Finds more work for worker `me` when its queue runs dry: steals the
/// oldest object of the first other worker's queue that holds work and
/// pushes it onto `me`'s queue, or, when that is full, onto the first other
/// worker's queue with room (the robbed queue has room, so one is found).
/// Returns whether work was found.
pub fn try_steal_work(me: &mut PerThreadMarkQueue, all: &mut Vec<PerThreadMarkQueue>) -> (r: bool)
    requires
        old(me).wf(),
        old(me).spec_bottom() < usize::MAX,
        all_wf(old(all)@),
        forall|k: int| 0 <= k < old(all).len() ==> (#[trigger] old(all)@[k]).spec_bottom() < usize::MAX,
    ensures
        match first_victim(old(all)@, *old(me), 0, false) {
            None => !r && final(all)@ == old(all)@ && *final(me) == *old(me),
            Some(j) => {
                let obj = old(all)@[j].items().first();
                &&& r
                &&& if old(me).items().len() < MARK_QUEUE_SIZE {
                    &&& final(me).wf()
                    &&& final(me).items() == old(me).items().push(obj)
                    &&& final(me).pending() == old(me).pending()
                    &&& final(me).owned() == old(me).owned()
                    &&& final(me).idx() == old(me).idx()
                    &&& final(me).count() == old(me).count()
                    &&& stolen_from(old(all)@, final(all)@, j)
                } else {
                    &&& final(me).wf()
                    &&& final(me).items() == old(me).items()
                    &&& final(me).spec_bottom() == old(me).spec_bottom()
                    &&& final(me).pending() == old(me).pending()
                    &&& final(me).owned() == old(me).owned()
                    &&& final(me).idx() == old(me).idx()
                    &&& final(me).count() == old(me).count()
                    &&& exists|mid: Seq<PerThreadMarkQueue>| {
                        &&& stolen_from(old(all)@, mid, j)
                        &&& first_room(mid, old(me).idx(), 0) matches Some(k)
                        &&& pushed_onto(mid, final(all)@, k, obj)
                    }
                }
            },
        },
{
    let j = match find_victim(me, all) {
        None => {
            return false;
        },
        Some(j) => j,
    };
    proof {
        assert(old(all)@[j as int].wf());
        lemma_first_victim_hit(old(all)@, *old(me), 0, false);
    }
    let stolen = all[j].steal();
    let obj = match stolen {
        Some(o) => o,
        None => {
            return false;
        },
    };
    let ghost mid = all@;
    proof {
        assert forall|k: int| 0 <= k < mid.len() implies (#[trigger] mid[k]).wf() by {
            if k != j {
                assert(mid[k] == old(all)@[k]);
            }
        }
    }
    if me.push(obj) {
        return true;
    }
    proof {
        lemma_queue_len(old(all)@[j as int]);
        assert(mid[j as int].items().len() < MARK_QUEUE_SIZE);
        lemma_first_room_reaches(mid, me.idx(), 0, j as int);
    }
    match find_room(all, me.worker_idx, 0) {
        Some(k) => {
            proof {
                lemma_first_room_hit(all@, me.idx(), 0);
                assert(all@ == mid);
                assert(mid[k as int].wf());
                assert(mid[k as int].spec_bottom() < usize::MAX) by {
                    if k != j {
                        assert(mid[k as int] == old(all)@[k as int]);
                    }
                }
            }
            let ok = all[k].push(obj);
            proof {
                assert(ok);
                assert(pushed_onto(mid, all@, k as int, obj));
                assert(stolen_from(old(all)@, mid, j as int));
                assert(first_room(mid, old(me).idx(), 0) == Some(k as int));
            }
            true
        },
        None => true,
    }
}

/// The queue the room search stops at has room and belongs to another
/// worker.
proof fn lemma_first_room_hit(qs: Seq<PerThreadMarkQueue>, me_idx: usize, from: int)
    ensures
        first_room(qs, me_idx, from) matches Some(k) ==> from <= k < qs.len() && qs[k].idx() != me_idx
            && qs[k].items().len() < MARK_QUEUE_SIZE,
    decreases qs.len() - from,
{
    if 0 <= from < qs.len() && !(qs[from].idx() != me_idx && qs[from].items().len() < MARK_QUEUE_SIZE) {
        lemma_first_room_hit(qs, me_idx, from + 1);
    }
}

/// The victim the search stops at holds work and belongs to another worker.
proof fn lemma_first_victim_hit(qs: Seq<PerThreadMarkQueue>, me: PerThreadMarkQueue, from: int, owners_only: bool)
    ensures
        first_victim(qs, me, from, owners_only) matches Some(j) ==> from <= j < qs.len() && qs[j].items().len() > 0
            && qs[j].idx() != me.idx(),
    decreases qs.len() - from,
{
    if 0 <= from < qs.len() && !(qs[from].idx() != me.idx() && qs[from].items().len() > 0 && (!owners_only || me.owned().len() > 0
        || qs[from].owned().len() > 0)) {
        lemma_first_victim_hit(qs, me, from + 1, owners_only);
    }
}

/// A queue with room at `j` (of another worker) is found by the search
/// that starts at or before it.
proof fn lemma_first_room_reaches(qs: Seq<PerThreadMarkQueue>, me_idx: usize, from: int, j: int)
    requires
        0 <= from <= j < qs.len(),
        qs[j].idx() != me_idx,
        qs[j].items().len() < MARK_QUEUE_SIZE,
    ensures
        first_room(qs, me_idx, from) is Some,
    decreases j - from,
{
    if from < j && !(qs[from].idx() != me_idx && qs[from].items().len() < MARK_QUEUE_SIZE) {
        lemma_first_room_reaches(qs, me_idx, from + 1, j);
    }
}

/// Slot `i` is marked when its page is processed as an owned page:
/// allocated, not yet marked, and, for a minor collection, on a young page.
pub open spec fn owned_unmarked(h: PageHeader, kind: VisitorKind, i: int) -> bool {
    h.allocated().contains(i) && !h.marked().contains(i) && !(kind == VisitorKind::Minor && h.generation > 0)
}

/// `items` after pushing `add` one by one onto a queue of capacity
/// `MARK_QUEUE_SIZE`: a push onto a full queue is dropped.
pub open spec fn capped_push(items: Seq<usize>, add: Seq<usize>) -> Seq<usize> {
    let n: int = if items.len() + add.len() <= MARK_QUEUE_SIZE { (items.len() + add.len()) as int } else { MARK_QUEUE_SIZE as int };
    (items + add).take(n)
}

/// One more push onto a capped queue.
proof fn lemma_capped_push_step(items: Seq<usize>, add: Seq<usize>, x: usize)
    requires
        items.len() <= MARK_QUEUE_SIZE,
    ensures
        capped_push(items, add.push(x)) == if capped_push(items, add).len() < MARK_QUEUE_SIZE {
            capped_push(items, add).push(x)
        } else {
            capped_push(items, add)
        },
        capped_push(items, add).len() <= MARK_QUEUE_SIZE,
{
    let c = capped_push(items, add);
    if c.len() < MARK_QUEUE_SIZE {
        assert(capped_push(items, add.push(x)) =~= c.push(x));
    } else {
        assert(capped_push(items, add.push(x)) =~= c);
    }
}

/// Address of slot `i` of the page at `page_addr` with header `h`.
pub open spec fn owned_slot_addr(page_addr: usize, h: PageHeader, i: usize) -> usize {
    (page_addr + spec_header_size(h.block_size as int) + i * h.block_size) as usize
}

impl PerThreadMarkQueue {
    /// Marks every object of an owned page that the collection still has to
    /// trace (see `owned_unmarked`) and pushes its address onto the queue,
    /// slots in ascending order (a push onto a full queue is dropped).
    /// Returns how many objects were marked.
    pub fn process_owned_page(&mut self, header: &mut PageHeader, page_addr: usize, kind: VisitorKind) -> (marked: usize)
        requires
            old(self).wf(),
            old(header).wf(),
            old(header).obj_count <= PAGE_SLOTS,
            page_addr + spec_header_size(old(header).block_size as int) + old(header).obj_count * old(header).block_size <= usize::MAX,
            old(self).spec_bottom() + old(header).obj_count < usize::MAX,
        ensures
            ({
                let n = old(header).obj_count as int;
                let chosen = indices_where(n, |i: int| owned_unmarked(*old(header), kind, i));
                &&& marked == chosen.len()
                &&& final(header).wf()
                &&& crate::page::same_scalars(*final(header), *old(header))
                &&& final(header).marked() == old(header).marked().union(Set::new(|i: int| 0 <= i < n && owned_unmarked(*old(header), kind, i)))
                &&& final(header).allocated() == old(header).allocated()
                &&& final(header).dirty() == old(header).dirty()
                &&& final(self).wf()
                &&& final(self).items() == capped_push(
                    old(self).items(),
                    chosen.map_values(|i: usize| owned_slot_addr(page_addr, *old(header), i)),
                )
                &&& final(self).pending() == old(self).pending()
                &&& final(self).owned() == old(self).owned()
                &&& final(self).idx() == old(self).idx()
                &&& final(self).count() == old(self).count()
            }),
    {
        let ghost h0 = *header;
        let ghost q0 = *self;
        let ghost pred = |i: int| owned_unmarked(h0, kind, i);
        let ghost f = |i: usize| owned_slot_addr(page_addr, h0, i);
        let bs = header.block_size as usize;
        let hs = PageHeader::header_size(bs);
        let n = header.obj_count as usize;
        let young_only = match kind {
            VisitorKind::Minor => true,
            VisitorKind::Major => false,
        };
        let mut marked: usize = 0;
        let mut i: usize = 0;
        proof {
            lemma_queue_len(q0);
            assert(capped_push(q0.items(), Seq::<usize>::empty()) =~= q0.items());
            assert(h0.marked().union(Set::new(|k: int| 0 <= k < 0 && pred(k))) =~= h0.marked());
        }
        while i < n
            invariant
                n == h0.obj_count,
                n <= PAGE_SLOTS,
                bs == h0.block_size,
                hs == spec_header_size(bs as int),
                young_only == (kind == VisitorKind::Minor),
                page_addr + hs + n * bs <= usize::MAX,
                q0.spec_bottom() + n < usize::MAX,
                q0.items().len() <= MARK_QUEUE_SIZE,
                pred == (|k: int| owned_unmarked(h0, kind, k)),
                f == (|k: usize| owned_slot_addr(page_addr, h0, k)),
                i <= n,
                marked == indices_where(i as int, pred).len(),
                marked <= i,
                header.wf(),
                crate::page::same_scalars(*header, h0),
                header.marked() == h0.marked().union(Set::new(|k: int| 0 <= k < i && pred(k))),
                header.allocated() == h0.allocated(),
                header.dirty() == h0.dirty(),
                self.wf(),
                self.spec_bottom() <= q0.spec_bottom() + i,
                self.items() == capped_push(q0.items(), indices_where(i as int, pred).map_values(f)),
                self.pending() == q0.pending(),
                self.owned() == q0.owned(),
                self.idx() == q0.idx(),
                self.count() == q0.count(),
            decreases n - i,
        {
            proof {
                crate::sweep::lemma_indices_where_len(i as int, pred);
            }
            let take = header.is_allocated(i) && !header.is_marked(i) && !(young_only && header.generation > 0);
            proof {
                assert(take == pred(i as int));
            }
            if take {
                proof {
                    assert(i * bs <= n * bs) by (nonlinear_arith)
                        requires
                            i <= n,
                    ;
                    lemma_capped_push_step(q0.items(), indices_where(i as int, pred).map_values(f), f(i));
                }
                let obj = page_addr + hs + i * bs;
                let _ = header.set_mark(i);
                marked = marked + 1;
                let _ = self.push(obj);
                proof {
                    assert(indices_where(i + 1, pred) == indices_where(i as int, pred).push(i));
                    assert(indices_where(i + 1, pred).map_values(f) =~= indices_where(i as int, pred).map_values(f).push(f(i)));
                    assert(obj == f(i));
                    assert(header.marked() =~= h0.marked().union(Set::new(|k: int| 0 <= k < i + 1 && pred(k))));
                }
            } else {
                proof {
                    assert(indices_where(i + 1, pred) == indices_where(i as int, pred));
                    assert(h0.marked().union(Set::new(|k: int| 0 <= k < i + 1 && pred(k))) =~= h0.marked().union(Set::new(|k: int| 0 <= k < i && pred(k))));
                }
            }
            i = i + 1;
        }
        marked
    }
}

/// The victim search depends only on the thief's index and owned pages.
pub proof fn lemma_first_victim_same_identity(
    qs: Seq<PerThreadMarkQueue>,
    a: PerThreadMarkQueue,
    b: PerThreadMarkQueue,
    from: int,
    owners_only: bool,
)
    requires
        a.idx() == b.idx(),
        a.owned() == b.owned(),
    ensures
        first_victim(qs, a, from, owners_only) == first_victim(qs, b, from, owners_only),
    decreases qs.len() - from,
{
    if 0 <= from < qs.len() {
        lemma_first_victim_same_identity(qs, a, b, from + 1, owners_only);
    }
}

/// Configuration of parallel marking.
#[derive(Clone, Copy, Debug)]
pub struct ParallelMarkConfig {
    /// Maximum number of marking workers; 0 or 1 means single-threaded.
    pub max_workers: usize,
    /// Capacity of each per-worker mark queue.
    pub queue_capacity: usize,
    /// Mark in parallel during major collections.
    pub parallel_major_gc: bool,
    /// Mark in parallel during minor collections.
    pub parallel_minor_gc: bool,
    /// Steal attempts before a worker yields.
    pub steal_attempts_before_yield: u32,
    /// Balance load by work stealing.
    pub work_stealing_enabled: bool,
}

impl Default for ParallelMarkConfig {
    fn default() -> (c: Self)
        ensures
            c.max_workers == 4,
            c.queue_capacity == 1024,
            c.parallel_major_gc,
            c.parallel_minor_gc,
            c.steal_attempts_before_yield == 10,
            c.work_stealing_enabled,
    {
        ParallelMarkConfig {
            max_workers: 4,
            queue_capacity: 1024,
            parallel_major_gc: true,
            parallel_minor_gc: true,
            steal_attempts_before_yield: 10,
            work_stealing_enabled: true,
        }
    }
}

impl ParallelMarkConfig {
    /// Default configuration with at least one worker.
    pub fn new(max_workers: usize) -> (c: Self)
        ensures
            c.max_workers == (if max_workers < 1 { 1 } else { max_workers }),
            c.queue_capacity == 1024,
            c.parallel_major_gc,
            c.parallel_minor_gc,
            c.steal_attempts_before_yield == 10,
            c.work_stealing_enabled,
    {
        ParallelMarkConfig {
            max_workers: if max_workers < 1 { 1 } else { max_workers },
            queue_capacity: 1024,
            parallel_major_gc: true,
            parallel_minor_gc: true,
            steal_attempts_before_yield: 10,
            work_stealing_enabled: true,
        }
    }

    /// Number of workers actually used: at least one.
    pub fn effective_workers(&self) -> (n: usize)
        ensures
            n == (if self.max_workers < 1 { 1 } else { self.max_workers }),
    {
        if self.max_workers < 1 { 1 } else { self.max_workers }
    }

    /// Whether marking runs on more than one worker.
    pub fn use_parallel(&self) -> (r: bool)
        ensures
            r == (self.max_workers > 1),
    {
        self.effective_workers() > 1
    }

    /// Sets the worker limit, at least one.
    pub fn set_max_workers(&mut self, workers: usize)
        ensures
            *final(self) == (ParallelMarkConfig { max_workers: if workers < 1 { 1 } else { workers }, ..*old(self) }),
    {
        self.max_workers = if workers < 1 { 1 } else { workers };
    }

    /// Enables or disables parallel major marking.
    pub fn set_parallel_major_gc(&mut self, enabled: bool)
        ensures
            *final(self) == (ParallelMarkConfig { parallel_major_gc: enabled, ..*old(self) }),
    {
        self.parallel_major_gc = enabled;
    }

    /// Enables or disables parallel minor marking.
    pub fn set_parallel_minor_gc(&mut self, enabled: bool)
        ensures
            *final(self) == (ParallelMarkConfig { parallel_minor_gc: enabled, ..*old(self) }),
    {
        self.parallel_minor_gc = enabled;
    }

    /// Enables or disables work stealing.
    pub fn set_work_stealing(&mut self, enabled: bool)
        ensures
            *final(self) == (ParallelMarkConfig { work_stealing_enabled: enabled, ..*old(self) }),
    {
        self.work_stealing_enabled = enabled;
    }
}

/// Bookkeeping of a parallel marking round: worker count, pages left,
/// workers finished and objects marked.
pub struct ParallelMarkCoordinator {
    num_workers: usize,
    pages_remaining: usize,
    marking_complete: usize,
    total_marked: usize,
}

impl ParallelMarkCoordinator {
    /// Number of workers.
    pub closed spec fn spec_num_workers(&self) -> usize {
        self.num_workers
    }

    /// Pages left to process.
    pub closed spec fn spec_pages_remaining(&self) -> usize {
        self.pages_remaining
    }

    /// Workers that reported completion.
    pub closed spec fn spec_completed(&self) -> usize {
        self.marking_complete
    }

    /// Objects marked by all workers.
    pub closed spec fn spec_total_marked(&self) -> usize {
        self.total_marked
    }

    /// A coordinator for at least one worker.
    pub fn new(num_workers: usize) -> (c: Self)
        ensures
            c.spec_num_workers() == (if num_workers < 1 { 1 } else { num_workers }),
            c.spec_pages_remaining() == 0,
            c.spec_completed() == 0,
            c.spec_total_marked() == 0,
    {
        ParallelMarkCoordinator {
            num_workers: if num_workers < 1 { 1 } else { num_workers },
            pages_remaining: 0,
            marking_complete: 0,
            total_marked: 0,
        }
    }

    /// A coordinator for the configuration's effective worker count.
    pub fn with_config(config: &ParallelMarkConfig) -> (c: Self)
        ensures
            c.spec_num_workers() == (if config.max_workers < 1 { 1 } else { config.max_workers }),
            c.spec_pages_remaining() == 0,
            c.spec_completed() == 0,
            c.spec_total_marked() == 0,
    {
        Self::new(config.effective_workers())
    }

    /// Number of workers.
    pub fn num_workers(&self) -> (n: usize)
        ensures
            n == self.spec_num_workers(),
    {
        self.num_workers
    }

    /// Whether only one worker marks.
    pub fn is_single_threaded(&self) -> (r: bool)
        ensures
            r == (self.spec_num_workers() <= 1),
    {
        self.num_workers <= 1
    }

    /// Whether both the configuration and the worker count call for
    /// parallel marking.
    pub fn should_use_parallel(&self, config: &ParallelMarkConfig) -> (r: bool)
        ensures
            r == (config.max_workers > 1 && self.spec_num_workers() > 1),
    {
        config.use_parallel() && self.num_workers > 1
    }

    /// Starts a round over `root_pages`.
    pub fn start_marking(&mut self, worker_queues: &Vec<PerThreadMarkQueue>, root_pages: &Vec<usize>)
        ensures
            final(self).spec_pages_remaining() == root_pages.len(),
            final(self).spec_completed() == 0,
            final(self).spec_num_workers() == old(self).spec_num_workers(),
            final(self).spec_total_marked() == old(self).spec_total_marked(),
    {
        self.pages_remaining = root_pages.len();
        self.marking_complete = 0;
    }

    /// Worker index for each dirty page: pages are dealt round-robin.
    pub fn distribute_dirty_pages(&self, dirty_pages: &Vec<usize>, worker_queues: &Vec<PerThreadMarkQueue>) -> (d: Vec<usize>)
        ensures
            d.len() == dirty_pages.len(),
            forall|i: int| 0 <= i < d.len() ==> #[trigger] d@[i] == i % (if worker_queues.len() < 1 { 1 } else { worker_queues.len() as int }),
    {
        let num_workers: usize = if worker_queues.len() < 1 { 1 } else { worker_queues.len() };
        let mut distribution: Vec<usize> = Vec::with_capacity(dirty_pages.len());
        let mut idx: usize = 0;
        while idx < dirty_pages.len()
            invariant
                idx <= dirty_pages.len(),
                num_workers == (if worker_queues.len() < 1 { 1 } else { worker_queues.len() }),
                distribution.len() == idx,
                forall|i: int| 0 <= i < idx ==> #[trigger] distribution@[i] == i % (num_workers as int),
            decreases dirty_pages.len() - idx,
        {
            distribution.push(idx % num_workers);
            idx = idx + 1;
        }
        distribution
    }

    /// Whether every worker reported completion.
    pub fn is_complete(&self) -> (r: bool)
        ensures
            r == (self.spec_completed() >= self.spec_num_workers()),
    {
        self.marking_complete >= self.num_workers
    }

    /// Pages left to process.
    pub fn pages_remaining(&self) -> (n: usize)
        ensures
            n == self.spec_pages_remaining(),
    {
        self.pages_remaining
    }

    /// Objects marked by all workers.
    pub fn total_marked(&self) -> (n: usize)
        ensures
            n == self.spec_total_marked(),
    {
        self.total_marked
    }

    /// Adds a worker's marked objects, wrapping as an atomic add does.
    pub fn record_marked(&mut self, count: usize)
        ensures
            final(self).spec_total_marked() == old(self).spec_total_marked().wrapping_add(count),
            final(self).spec_pages_remaining() == old(self).spec_pages_remaining(),
            final(self).spec_completed() == old(self).spec_completed(),
            final(self).spec_num_workers() == old(self).spec_num_workers(),
    {
        self.total_marked = self.total_marked.wrapping_add(count);
    }

    /// Records that one more worker finished.
    pub fn worker_completed(&mut self)
        ensures
            final(self).spec_completed() == old(self).spec_completed().wrapping_add(1),
            final(self).spec_pages_remaining() == old(self).spec_pages_remaining(),
            final(self).spec_total_marked() == old(self).spec_total_marked(),
            final(self).spec_num_workers() == old(self).spec_num_workers(),
    {
        self.marking_complete = self.marking_complete.wrapping_add(1);
    }
}

/// Marking completes once every worker reported: over a run of
/// coordinator states from a fresh round (`start_marking` leaves the
/// completion count at 0), each the result of one `worker_completed` on
/// the one before, the `k`-th state has counted `k` completions, keeps its
/// worker count, and is complete exactly when `k` reaches it.
pub proof fn law_complete_after_k_workers(states: Seq<ParallelMarkCoordinator>, k: nat)
    requires
        states.len() == k + 1,
        k < usize::MAX,
        states[0].spec_completed() == 0,
        forall|j: int| 0 <= j < k ==> {
            &&& (#[trigger] states[j + 1]).spec_completed() == states[j].spec_completed().wrapping_add(1)
            &&& states[j + 1].spec_num_workers() == states[j].spec_num_workers()
        },
    ensures
        states[k as int].spec_completed() == k,
        states[k as int].spec_num_workers() == states[0].spec_num_workers(),
        (states[k as int].spec_completed() >= states[k as int].spec_num_workers()) == (k >= states[0].spec_num_workers()),
    decreases k,
{
    if k > 0 {
        let prev = states.take(k as int);
        assert forall|j: int| 0 <= j < k - 1 implies {
            &&& (#[trigger] prev[j + 1]).spec_completed() == prev[j].spec_completed().wrapping_add(1)
            &&& prev[j + 1].spec_num_workers() == prev[j].spec_num_workers()
        } by {
            assert(prev[j + 1] == states[j + 1]);
            assert(prev[j] == states[j]);
        }
        law_complete_after_k_workers(prev, (k - 1) as nat);
        assert(prev[k - 1] == states[k - 1]);
        assert(states[k as int].spec_completed() == states[k - 1].spec_completed().wrapping_add(1));
    }
}

/// One empty mark queue per worker, indexed 0 to `count - 1`.
pub fn create_worker_queues(count: usize) -> (qs: Vec<PerThreadMarkQueue>)
    ensures
        qs.len() == count,
        all_wf(qs@),
        forall|k: int| 0 <= k < count ==> {
            &&& (#[trigger] qs@[k]).idx() == k
            &&& qs@[k].items() == Seq::<usize>::empty()
            &&& qs@[k].pending() == Seq::<usize>::empty()
            &&& qs@[k].owned() == Seq::<usize>::empty()
            &&& qs@[k].count() == 0
        },
{
    let mut qs: Vec<PerThreadMarkQueue> = Vec::new();
    let mut k: usize = 0;
    while k < count
        invariant
            k <= count,
            qs.len() == k,
            all_wf(qs@),
            forall|j: int| 0 <= j < k ==> {
                &&& (#[trigger] qs@[j]).idx() == j
                &&& qs@[j].items() == Seq::<usize>::empty()
                &&& qs@[j].pending() == Seq::<usize>::empty()
                &&& qs@[j].owned() == Seq::<usize>::empty()
                &&& qs@[j].count() == 0
            },
        decreases count - k,
    {
        qs.push(PerThreadMarkQueue::new_with_index(k));
        k = k + 1;
    }
    qs
}

/// A coordinator and one empty queue per worker.
pub fn init_parallel_marking(num_workers: usize) -> (r: (ParallelMarkCoordinator, Vec<PerThreadMarkQueue>))
    ensures
        r.0.spec_num_workers() == (if num_workers < 1 { 1 } else { num_workers }),
        r.0.spec_pages_remaining() == 0,
        r.0.spec_completed() == 0,
        r.0.spec_total_marked() == 0,
        r.1.len() == num_workers,
        all_wf(r.1@),
        forall|k: int| 0 <= k < num_workers ==> {
            &&& (#[trigger] r.1@[k]).idx() == k
            &&& r.1@[k].items() == Seq::<usize>::empty()
            &&& r.1@[k].pending() == Seq::<usize>::empty()
            &&& r.1@[k].owned() == Seq::<usize>::empty()
            &&& r.1@[k].count() == 0
        },
{
    let coordinator = ParallelMarkCoordinator::new(num_workers);
    let worker_queues = create_worker_queues(num_workers);
    (coordinator, worker_queues)
}
/// The pages a worker owns (the thread that allocated a page owns it), so
/// that marking can favour them.
pub struct OwnedPagesTracker {
    owned_pages: HashSet<usize>,
    owner_thread: u64,
}

impl View for OwnedPagesTracker {
    type V = Set<usize>;

    closed spec fn view(&self) -> Set<usize> {
        self.owned_pages@
    }
}

impl OwnedPagesTracker {
    /// The worker thread the tracker belongs to.
    pub closed spec fn owner(&self) -> u64 {
        self.owner_thread
    }

    /// An empty tracker for thread `owner_thread`.
    pub fn new(owner_thread: u64) -> (t: Self)
        ensures
            t@ == Set::<usize>::empty(),
            t.owner() == owner_thread,
    {
        OwnedPagesTracker { owned_pages: HashSet::new(), owner_thread }
    }

    /// Records that the worker owns the page at `page`.
    pub fn add_owned_page(&mut self, page: usize)
        ensures
            final(self)@ == old(self)@.insert(page),
            final(self).owner() == old(self).owner(),
    {
        self.owned_pages.insert(page);
    }

    /// Forgets the page at `page`.
    pub fn remove_owned_page(&mut self, page: usize)
        ensures
            final(self)@ == old(self)@.remove(page),
            final(self).owner() == old(self).owner(),
    {
        self.owned_pages.remove(&page);
    }

    /// Whether the worker owns the page at `page`.
    pub fn owns_page(&self, page: usize) -> (r: bool)
        ensures
            r == self@.contains(page),
    {
        self.owned_pages.contains(&page)
    }

    /// Number of pages owned.
    pub fn owned_count(&self) -> (n: usize)
        ensures
            n == self@.len(),
    {
        self.owned_pages.len()
    }

    /// The worker thread the tracker belongs to.
    pub fn owner_thread(&self) -> (t: u64)
        ensures
            t == self.owner(),
    {
        self.owner_thread
    }
}

/// A fresh tracker for the worker thread `owner_thread`.
pub fn get_owned_pages_tracker(owner_thread: u64) -> (t: OwnedPagesTracker)
    ensures
        t@ == Set::<usize>::empty(),
        t.owner() == owner_thread,
{
    OwnedPagesTracker::new(owner_thread)
}

} // verus!
