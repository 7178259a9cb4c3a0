//! Tracing the object graph from the mark worklist.
//!
//! A marking visitor resolves each pointer it is handed to the slot it
//! names in one of the heap's pages, marks the slot and queues the pointer;
//! draining the worklist traces every queued object and visits its
//! children. The children of an object are whatever its trace function
//! reports, so the tracing function is a parameter. Once the worklist is
//! drained, every object that was queued or newly marked has been traced
//! with all its children marked or outside the traced heap.

use vstd::prelude::*;
use crate::page::{
    PageHeader, same_scalars, spec_header_size, spec_object_index, flag_set, MAGIC_GC_PAGE, PAGE_SLOTS, PAGE_FLAG_LARGE,
    PAGE_FLAG_DIRTY_LISTED,
};
use crate::sweep::indices_where;
use crate::lookup::{
    PageAt, OrphanEntry, page_index, find_page, ptr_to_object_index, as_int_opt, heap_box, lookup_ready, orphans_readable,
    find_gc_box_in,
};
use crate::large::LargeObjectMap;
use crate::local_heap::{LocalHeap, HeapBuffers};
use std::collections::HashSet;
use crate::collect::{GcVisitor, VisitorKind, visit_marks};

verus! {

/// The heap's pages can be read while marking: whole bitmaps, at most
/// `PAGE_SLOTS` objects, a nonzero block size on GC pages, and room for a
/// header past each page address.
pub open spec fn marking_ready(pages: Seq<PageAt>) -> bool {
    forall|i: int|
        0 <= i < pages.len() ==> {
            &&& (#[trigger] pages[i]).page.header.wf()
            &&& pages[i].page.header.obj_count <= PAGE_SLOTS
            &&& (pages[i].page.header.magic == MAGIC_GC_PAGE ==> pages[i].page.header.block_size > 0)
            &&& pages[i].addr + 2048 <= usize::MAX
        }
}

/// The page (by position) and slot that the pointer `p` names: the first
/// page at `p`'s page address, when it is a GC page and `p` lies on one of
/// its objects. `None` for the null pointer and for anything else.
pub open spec fn locate(pages: Seq<PageAt>, p: usize, mask: usize) -> Option<(int, int)> {
    if p == 0 {
        None
    } else {
        match page_index(pages, p & mask, 0) {
            None => None,
            Some(i) => {
                let h = pages[i].page.header;
                if h.magic != MAGIC_GC_PAGE {
                    None
                } else {
                    match spec_object_index(
                        (p & mask) as int,
                        spec_header_size(h.block_size as int),
                        h.block_size as int,
                        h.obj_count as int,
                        p as int,
                    ) {
                        None => None,
                        Some(k) => Some((i, k)),
                    }
                }
            },
        }
    }
}

/// Visiting `p` has nothing (more) to do: it names no slot of a GC page,
/// its page lies outside the traced generation, or its slot is marked.
pub open spec fn handled(kind: VisitorKind, pages: Seq<PageAt>, p: usize, mask: usize) -> bool {
    match locate(pages, p, mask) {
        None => true,
        Some((i, k)) => (kind == VisitorKind::Minor && pages[i].page.header.generation > 0)
            || pages[i].page.header.marked().contains(k),
    }
}

/// `b` is `a` with possibly more mark bits: same page addresses, header
/// scalars, allocation and dirty bits, and slots.
pub open spec fn grown(a: Seq<PageAt>, b: Seq<PageAt>) -> bool {
    &&& a.len() == b.len()
    &&& forall|i: int|
        0 <= i < a.len() ==> {
            &&& (#[trigger] b[i]).addr == a[i].addr
            &&& same_scalars(b[i].page.header, a[i].page.header)
            &&& b[i].page.header.allocated() == a[i].page.header.allocated()
            &&& b[i].page.header.dirty() == a[i].page.header.dirty()
            &&& a[i].page.header.marked().subset_of(b[i].page.header.marked())
            &&& b[i].page.slots@ == a[i].page.slots@
        }
}

/// `b` is `a` with possibly more mark bits and otherwise the same pages
/// as the tracing sees them: addresses, magic, block size, object count
/// and generation.
pub open spec fn marks_grew(a: Seq<PageAt>, b: Seq<PageAt>) -> bool {
    &&& a.len() == b.len()
    &&& forall|i: int|
        0 <= i < a.len() ==> {
            &&& (#[trigger] b[i]).addr == a[i].addr
            &&& b[i].page.header.magic == a[i].page.header.magic
            &&& b[i].page.header.block_size == a[i].page.header.block_size
            &&& b[i].page.header.obj_count == a[i].page.header.obj_count
            &&& b[i].page.header.generation == a[i].page.header.generation
            &&& a[i].page.header.marked().subset_of(b[i].page.header.marked())
        }
}

/// Marks that grew twice grew once.
pub proof fn lemma_marks_grew_trans(a: Seq<PageAt>, b: Seq<PageAt>, c: Seq<PageAt>)
    requires
        marks_grew(a, b),
        marks_grew(b, c),
    ensures
        marks_grew(a, c),
{
    assert forall|i: int| 0 <= i < a.len() implies a[i].page.header.marked().subset_of(
        (#[trigger] c[i]).page.header.marked(),
    ) by {
        assert(b[i].page.header.marked().subset_of(c[i].page.header.marked()));
    }
}

/// The slot `k` of page `i` is marked in `b` and was not in `a`.
pub open spec fn newly_marked(a: Seq<PageAt>, b: Seq<PageAt>, i: int, k: int) -> bool {
    &&& 0 <= i < a.len()
    &&& 0 <= k < a[i].page.header.obj_count
    &&& b[i].page.header.marked().contains(k)
    &&& !a[i].page.header.marked().contains(k)
}

/// The slots of a page's bitmap that are not marked.
pub open spec fn unmarked_in(h: PageHeader) -> int {
    indices_where(PAGE_SLOTS as int, |k: int| !h.marked().contains(k)).len() as int
}

/// Unmarked slots over a run of pages.
pub open spec fn unmarked_total(pages: Seq<PageAt>) -> int
    decreases pages.len(),
{
    if pages.len() == 0 {
        0
    } else {
        unmarked_total(pages.drop_last()) + unmarked_in(pages.last().page.header)
    }
}

/// Page lookup by address sees only the addresses.
pub proof fn lemma_page_index_same(a: Seq<PageAt>, b: Seq<PageAt>, x: usize, j: int)
    requires
        a.len() == b.len(),
        forall|i: int| 0 <= i < a.len() ==> (#[trigger] b[i]).addr == a[i].addr,
    ensures
        page_index(a, x, j) == page_index(b, x, j),
    decreases a.len() - j,
{
    if 0 <= j < a.len() {
        assert(b[j].addr == a[j].addr);
        lemma_page_index_same(a, b, x, j + 1);
    }
}

/// A page found by address lies in the run and has that address.
proof fn lemma_page_index_found(a: Seq<PageAt>, x: usize, j: int)
    ensures
        page_index(a, x, j) matches Some(i) ==> 0 <= i < a.len() && a[i].addr == x,
    decreases a.len() - j,
{
    if 0 <= j < a.len() && a[j].addr != x {
        lemma_page_index_found(a, x, j + 1);
    }
}

/// Growing the marks leaves every pointer naming the same slot, keeps what
/// was handled handled, and keeps the pages readable.
pub proof fn lemma_grown_keeps(kind: VisitorKind, a: Seq<PageAt>, b: Seq<PageAt>, p: usize, mask: usize)
    requires
        marks_grew(a, b),
    ensures
        locate(b, p, mask) == locate(a, p, mask),
        handled(kind, a, p, mask) ==> handled(kind, b, p, mask),
{
    lemma_page_index_same(a, b, p & mask, 0);
    lemma_page_index_found(a, p & mask, 0);
    if let Some(i) = page_index(a, p & mask, 0) {
        assert(b[i].addr == a[i].addr);
    }
}

/// Marks that grew twice grew once.
pub proof fn lemma_grown_trans(a: Seq<PageAt>, b: Seq<PageAt>, c: Seq<PageAt>)
    requires
        grown(a, b),
        grown(b, c),
    ensures
        grown(a, c),
{
    assert forall|i: int| 0 <= i < a.len() implies a[i].page.header.marked().subset_of(
        (#[trigger] c[i]).page.header.marked(),
    ) by {
        assert(b[i].page.header.marked().subset_of(c[i].page.header.marked()));
    }
}

/// A run of pages grew from itself.
pub proof fn lemma_grown_refl(a: Seq<PageAt>)
    ensures
        grown(a, a),
{
}

/// A pointer that names a slot names a page of the run and a slot below
/// its object count.
pub proof fn lemma_locate_range(pages: Seq<PageAt>, p: usize, mask: usize)
    requires
        marking_ready(pages),
    ensures
        locate(pages, p, mask) matches Some((i, k)) ==> {
            &&& 0 <= i < pages.len()
            &&& pages[i].addr == p & mask
            &&& 0 <= k < pages[i].page.header.obj_count
        },
{
    lemma_page_index_found(pages, p & mask, 0);
    if let Some(i) = page_index(pages, p & mask, 0) {
        let h = pages[i].page.header;
        if h.magic == MAGIC_GC_PAGE && p != 0 {
            let base = (p & mask) + spec_header_size(h.block_size as int);
            let bs = h.block_size as int;
            if p >= base {
                assert((p - base) / bs >= 0) by (nonlinear_arith)
                    requires
                        p - base >= 0,
                        bs > 0,
                ;
            }
        }
    }
}

/// Unmarked slots are never negative.
pub proof fn lemma_unmarked_nonneg(pages: Seq<PageAt>)
    ensures
        unmarked_total(pages) >= 0,
    decreases pages.len(),
{
    if pages.len() > 0 {
        lemma_unmarked_nonneg(pages.drop_last());
    }
}

/// Two predicates that agree below `n` select the same indices.
pub proof fn lemma_indices_where_same(n: int, p: spec_fn(int) -> bool, q: spec_fn(int) -> bool)
    requires
        forall|j: int| 0 <= j < n ==> #[trigger] p(j) == q(j),
    ensures
        indices_where(n, p) == indices_where(n, q),
    decreases n,
{
    if n > 0 {
        lemma_indices_where_same(n - 1, p, q);
    }
}

/// Dropping one selected index below `n` selects one index fewer.
proof fn lemma_indices_where_drop_one(n: int, p: spec_fn(int) -> bool, q: spec_fn(int) -> bool, k: int)
    requires
        0 <= k < n,
        p(k),
        !q(k),
        forall|j: int| 0 <= j < n && j != k ==> #[trigger] p(j) == q(j),
    ensures
        indices_where(n, q).len() == indices_where(n, p).len() - 1,
    decreases n,
{
    if n - 1 == k {
        lemma_indices_where_same(n - 1, p, q);
    } else {
        lemma_indices_where_drop_one(n - 1, p, q, k);
    }
}

/// Marking one unmarked slot of the bitmap leaves one unmarked slot fewer
/// on the page.
proof fn lemma_unmarked_in_mark(a: PageHeader, b: PageHeader, k: int)
    requires
        0 <= k < PAGE_SLOTS,
        !a.marked().contains(k),
        b.marked() == a.marked().insert(k),
    ensures
        unmarked_in(b) == unmarked_in(a) - 1,
{
    lemma_indices_where_drop_one(
        PAGE_SLOTS as int,
        |j: int| !a.marked().contains(j),
        |j: int| !b.marked().contains(j),
        k,
    );
}

/// Changing one page of a run changes the run's unmarked count by the
/// change on that page.
proof fn lemma_unmarked_update(s: Seq<PageAt>, i: int, x: PageAt)
    requires
        0 <= i < s.len(),
    ensures
        unmarked_total(s.update(i, x)) == unmarked_total(s) - unmarked_in(s[i].page.header) + unmarked_in(
            x.page.header,
        ),
    decreases s.len(),
{
    if i == s.len() - 1 {
        assert(s.update(i, x).drop_last() =~= s.drop_last());
    } else {
        assert(s.update(i, x).drop_last() =~= s.drop_last().update(i, x));
        lemma_unmarked_update(s.drop_last(), i, x);
    }
}

/// Marking a slot: the marks of one page gain the slot.
pub open spec fn marked_one(a: Seq<PageAt>, b: Seq<PageAt>, i: int, k: int) -> bool {
    &&& grown(a, b)
    &&& b[i].page.header.marked() == a[i].page.header.marked().insert(k)
    &&& forall|j: int| 0 <= j < a.len() && j != i ==> #[trigger] b[j] == a[j]
}

impl GcVisitor {
    /// Visits the object that `ptr` points to: when the pointer names a
    /// slot of one of the heap's GC pages, in the traced generation and not
    /// yet marked, the slot is marked, counted and the pointer queued for
    /// tracing; otherwise nothing changes.
    pub fn visit_ptr(&mut self, pages: &mut Vec<PageAt>, ptr: usize, mask: usize)
        requires
            marking_ready(old(pages)@),
            old(self).objects_marked + unmarked_total(old(pages)@) <= usize::MAX,
        ensures
            final(self).kind == old(self).kind,
            marking_ready(final(pages)@),
            grown(old(pages)@, final(pages)@),
            handled(old(self).kind, final(pages)@, ptr, mask),
            final(self).objects_marked + unmarked_total(final(pages)@) == old(self).objects_marked + unmarked_total(
                old(pages)@,
            ),
            handled(old(self).kind, old(pages)@, ptr, mask) ==> {
                &&& final(pages)@ == old(pages)@
                &&& final(self).worklist@ == old(self).worklist@
                &&& final(self).objects_marked == old(self).objects_marked
            },
            !handled(old(self).kind, old(pages)@, ptr, mask) ==> {
                let (i, k) = locate(old(pages)@, ptr, mask).unwrap();
                &&& marked_one(old(pages)@, final(pages)@, i, k)
                &&& final(self).worklist@ == old(self).worklist@.push(ptr)
                &&& final(self).objects_marked == old(self).objects_marked + 1
            },
    {
        proof {
            lemma_locate_range(pages@, ptr, mask);
        }
        if ptr == 0 {
            return;
        }
        let pa = ptr & mask;
        let i = match find_page(pages, pa) {
            Some(i) => i,
            None => {
                return;
            },
        };
        let idx = ptr_to_object_index(&pages[i].page.header, pa, ptr);
        let ghost pre = pages@;
        let mut at = pages.remove(i);
        proof {
            if let Some(k) = idx {
                if visit_marks(self.kind, at.page.header, idx, ptr) {
                    lemma_unmarked_nonneg(pre);
                    assert(unmarked_in(pre[i as int].page.header) >= 1) by {
                        lemma_unmarked_in_mark_pos(pre[i as int].page.header, k as int);
                    }
                    lemma_unmarked_part(pre, i as int);
                }
            }
        }
        self.visit(&mut at.page.header, idx, ptr);
        pages.insert(i, at);
        proof {
            assert(pages@ =~= pre.update(i as int, at));
            lemma_unmarked_update(pre, i as int, at);
            if let Some(k) = idx {
                if pre[i as int].page.header.marked().contains(k as int) || (self.kind == VisitorKind::Minor
                    && pre[i as int].page.header.generation > 0) {
                } else {
                    lemma_unmarked_in_mark(pre[i as int].page.header, at.page.header, k as int);
                }
            }
            if handled(self.kind, pre, ptr, mask) {
                assert(pages@ =~= pre);
            }
            lemma_grown_keeps(self.kind, pre, pages@, ptr, mask);
        }
    }
}

/// A page with an unmarked slot of its bitmap has an unmarked slot to
/// count.
proof fn lemma_unmarked_in_mark_pos(h: PageHeader, k: int)
    requires
        0 <= k < PAGE_SLOTS,
        !h.marked().contains(k),
    ensures
        unmarked_in(h) >= 1,
{
    lemma_indices_where_pos(PAGE_SLOTS as int, |j: int| !h.marked().contains(j), k);
}

/// A predicate that holds below `n` selects at least one index.
proof fn lemma_indices_where_pos(n: int, p: spec_fn(int) -> bool, k: int)
    requires
        0 <= k < n,
        p(k),
    ensures
        indices_where(n, p).len() >= 1,
    decreases n,
{
    if n - 1 != k {
        lemma_indices_where_pos(n - 1, p, k);
    }
}

/// One page's unmarked count is part of the run's.
proof fn lemma_unmarked_part(s: Seq<PageAt>, i: int)
    requires
        0 <= i < s.len(),
    ensures
        unmarked_in(s[i].page.header) <= unmarked_total(s),
    decreases s.len(),
{
    lemma_unmarked_nonneg(s.drop_last());
    if i < s.len() - 1 {
        lemma_unmarked_part(s.drop_last(), i);
        crate::sweep::lemma_indices_where_len(
            PAGE_SLOTS as int,
            |j: int| !s.last().page.header.marked().contains(j),
        );
    }
}


/// Some result of tracing the object at `q` has every child handled.
pub open spec fn traced<F: Fn(usize) -> Vec<usize>>(
    kind: VisitorKind,
    pages: Seq<PageAt>,
    trace: F,
    q: usize,
    mask: usize,
) -> bool {
    exists|r: Vec<usize>|
        #[trigger] call_ensures(trace, (q,), r) && forall|j: int|
            0 <= j < r@.len() ==> handled(kind, pages, #[trigger] r@[j], mask)
}

/// The slot `k` of page `i` is covered: some pointer naming it (in the
/// pages `p0` the marking started from) is still queued in `wl`, or was
/// traced, or is `cur` (being traced now).
pub open spec fn covered<F: Fn(usize) -> Vec<usize>>(
    kind: VisitorKind,
    p0: Seq<PageAt>,
    pages: Seq<PageAt>,
    wl: Seq<usize>,
    cur: Option<usize>,
    trace: F,
    mask: usize,
    i: int,
    k: int,
) -> bool {
    exists|q: usize|
        #[trigger] locate(p0, q, mask) == Some((i, k)) && (wl.contains(q) || traced(kind, pages, trace, q, mask)
            || cur == Some(q))
}

/// Growing the marks keeps a traced object traced.
pub proof fn lemma_traced_grown<F: Fn(usize) -> Vec<usize>>(
    kind: VisitorKind,
    a: Seq<PageAt>,
    b: Seq<PageAt>,
    trace: F,
    q: usize,
    mask: usize,
)
    requires
        marks_grew(a, b),
        traced(kind, a, trace, q, mask),
    ensures
        traced(kind, b, trace, q, mask),
{
    let r = choose|r: Vec<usize>|
        #[trigger] call_ensures(trace, (q,), r) && forall|j: int|
            0 <= j < r@.len() ==> handled(kind, a, #[trigger] r@[j], mask);
    assert forall|j: int| 0 <= j < r@.len() implies handled(kind, b, #[trigger] r@[j], mask) by {
        lemma_grown_keeps(kind, a, b, r@[j], mask);
    }
}

/// Coverage survives growing marks and a worklist that only loses `q`
/// (now being traced) and gains entries.
proof fn lemma_covered_step<F: Fn(usize) -> Vec<usize>>(
    kind: VisitorKind,
    p0: Seq<PageAt>,
    a: Seq<PageAt>,
    b: Seq<PageAt>,
    wa: Seq<usize>,
    wb: Seq<usize>,
    ca: Option<usize>,
    cb: Option<usize>,
    trace: F,
    mask: usize,
    i: int,
    k: int,
)
    requires
        grown(a, b),
        covered(kind, p0, a, wa, ca, trace, mask, i, k),
        forall|x: usize| #[trigger] wa.contains(x) ==> wb.contains(x) || cb == Some(x),
        ca is Some ==> ca == cb,
    ensures
        covered(kind, p0, b, wb, cb, trace, mask, i, k),
{
    let q = choose|q: usize|
        #[trigger] locate(p0, q, mask) == Some((i, k)) && (wa.contains(q) || traced(kind, a, trace, q, mask) || ca
            == Some(q));
    if traced(kind, a, trace, q, mask) {
        lemma_traced_grown(kind, a, b, trace, q, mask);
    }
    assert(locate(p0, q, mask) == Some((i, k)));
}

/// A queued pointer that names a slot names a marked one.
pub open spec fn queued_marked(pages: Seq<PageAt>, x: usize, mask: usize) -> bool {
    locate(pages, x, mask) matches Some((i, k)) ==> pages[i].page.header.marked().contains(k)
}

/// Growing the marks keeps a queued pointer's slot marked.
proof fn lemma_queued_marked_grown(a: Seq<PageAt>, b: Seq<PageAt>, x: usize, mask: usize)
    requires
        marks_grew(a, b),
        queued_marked(a, x, mask),
    ensures
        queued_marked(b, x, mask),
{
    lemma_grown_keeps(VisitorKind::Major, a, b, x, mask);
    lemma_page_index_found(a, x & mask, 0);
}

/// `x` is reachable from one of the pointers `from`.
pub open spec fn reached_from<F: Fn(usize) -> Vec<usize>>(
    pages: Seq<PageAt>,
    trace: F,
    mask: usize,
    from: Seq<usize>,
    x: usize,
) -> bool {
    exists|t: int, n: nat| 0 <= t < from.len() && #[trigger] reaches(pages, trace, mask, from[t], x, n)
}

/// A path that reaches `q`, followed by one step from `q` to a child its
/// trace reports, reaches the child.
pub proof fn lemma_reaches_append<F: Fn(usize) -> Vec<usize>>(
    pages: Seq<PageAt>,
    trace: F,
    mask: usize,
    w: usize,
    q: usize,
    n: nat,
    r: Vec<usize>,
    j: int,
)
    requires
        reaches(pages, trace, mask, w, q, n),
        call_ensures(trace, (q,), r),
        locate(pages, q, mask) is Some,
        0 <= j < r@.len(),
    ensures
        reaches(pages, trace, mask, w, r@[j], n + 1),
    decreases n,
{
    if n == 0 {
        assert(reaches(pages, trace, mask, r@[j], r@[j], 0));
    } else {
        let (r1, j1) = choose|r1: Vec<usize>, j1: int|
            #![trigger call_ensures(trace, (w,), r1), r1@[j1]]
            call_ensures(trace, (w,), r1) && locate(pages, w, mask) is Some && 0 <= j1 < r1@.len()
                && reaches(pages, trace, mask, r1@[j1], q, (n - 1) as nat);
        lemma_reaches_append(pages, trace, mask, r1@[j1], q, (n - 1) as nat, r, j);
        assert(reaches(pages, trace, mask, r1@[j1], r@[j], n));
    }
}

/// Growing the marks changes no path: every step depends on where a
/// pointer lies, which marks do not change.
pub proof fn lemma_reaches_grown<F: Fn(usize) -> Vec<usize>>(
    a: Seq<PageAt>,
    b: Seq<PageAt>,
    trace: F,
    mask: usize,
    w: usize,
    x: usize,
    n: nat,
)
    requires
        marks_grew(a, b),
    ensures
        reaches(a, trace, mask, w, x, n) == reaches(b, trace, mask, w, x, n),
    decreases n,
{
    lemma_grown_keeps(VisitorKind::Major, a, b, w, mask);
    if n > 0 {
        if reaches(a, trace, mask, w, x, n) {
            let (r1, j1) = choose|r1: Vec<usize>, j1: int|
                #![trigger call_ensures(trace, (w,), r1), r1@[j1]]
                call_ensures(trace, (w,), r1) && locate(a, w, mask) is Some && 0 <= j1 < r1@.len()
                    && reaches(a, trace, mask, r1@[j1], x, (n - 1) as nat);
            lemma_reaches_grown(a, b, trace, mask, r1@[j1], x, (n - 1) as nat);
        }
        if reaches(b, trace, mask, w, x, n) {
            let (r1, j1) = choose|r1: Vec<usize>, j1: int|
                #![trigger call_ensures(trace, (w,), r1), r1@[j1]]
                call_ensures(trace, (w,), r1) && locate(b, w, mask) is Some && 0 <= j1 < r1@.len()
                    && reaches(b, trace, mask, r1@[j1], x, (n - 1) as nat);
            lemma_reaches_grown(a, b, trace, mask, r1@[j1], x, (n - 1) as nat);
        }
    }
}

impl GcVisitor {
    /// Drains the worklist: every queued pointer that names a slot of one
    /// of the heap's GC pages has its slot marked and is traced, and every
    /// child its trace reports is visited (and so queued when it gets
    /// marked). `trace` reports the children of the object a pointer names.
    /// On return the worklist is empty, only mark bits changed and grew,
    /// every queued pointer that names a slot was traced with all its
    /// children handled, and so was a pointer to every slot marked here.
    pub fn process_worklist<F: Fn(usize) -> Vec<usize>>(&mut self, pages: &mut Vec<PageAt>, mask: usize, trace: &F)
        requires
            marking_ready(old(pages)@),
            forall|q: usize| call_requires(*trace, (q,)),
            old(self).objects_marked + unmarked_total(old(pages)@) <= usize::MAX,
        ensures
            final(self).kind == old(self).kind,
            final(self).worklist@ == Seq::<usize>::empty(),
            marking_ready(final(pages)@),
            grown(old(pages)@, final(pages)@),
            final(self).objects_marked + unmarked_total(final(pages)@) <= usize::MAX,
            (forall|j: int| 0 <= j < old(self).worklist.len() ==> queued_marked(old(pages)@, #[trigger] old(self).worklist@[j], mask))
                ==> final(self).objects_marked + unmarked_total(final(pages)@) == old(self).objects_marked
                + unmarked_total(old(pages)@),
            forall|j: int|
                0 <= j < old(self).worklist.len() && locate(old(pages)@, #[trigger] old(self).worklist@[j], mask) is Some
                    ==> traced(old(self).kind, final(pages)@, *trace, old(self).worklist@[j], mask),
            forall|i: int, k: int|
                #[trigger] newly_marked(old(pages)@, final(pages)@, i, k) ==> exists|q: usize|
                    #[trigger] locate(old(pages)@, q, mask) == Some((i, k)) && traced(
                        old(self).kind,
                        final(pages)@,
                        *trace,
                        q,
                        mask,
                    ),
            forall|i: int, k: int|
                #[trigger] newly_marked(old(pages)@, final(pages)@, i, k) ==> exists|q: usize|
                    #[trigger] locate(old(pages)@, q, mask) == Some((i, k)) && reached_from(
                        old(pages)@,
                        *trace,
                        mask,
                        old(self).worklist@,
                        q,
                    ),
    {
        let ghost p0 = pages@;
        let ghost w0 = self.worklist@;
        let ghost kind = self.kind;
        let ghost qm = forall|j: int| 0 <= j < w0.len() ==> queued_marked(p0, #[trigger] w0[j], mask);
        let ghost s0 = self.objects_marked + unmarked_total(pages@);
        proof {
            lemma_unmarked_nonneg(pages@);
            assert forall|j: int| 0 <= j < w0.len() implies #[trigger] self.worklist@.contains(w0[j]) by {
                assert(self.worklist@[j] == w0[j]);
            }
        }
        proof {
            assert forall|t: int| 0 <= t < self.worklist.len() implies reached_from(p0, *trace, mask, w0, #[trigger] self.worklist@[t]) by {
                assert(reaches(p0, *trace, mask, w0[t], w0[t], 0));
            }
        }
        while self.worklist.len() > 0
            invariant
                self.kind == kind,
                forall|q: usize| call_requires(*trace, (q,)),
                forall|t: int| 0 <= t < self.worklist.len() ==> reached_from(p0, *trace, mask, w0, #[trigger] self.worklist@[t]),
                forall|i: int, k: int| #[trigger] newly_marked(p0, pages@, i, k) ==> exists|x: usize|
                    #[trigger] locate(p0, x, mask) == Some((i, k)) && reached_from(p0, *trace, mask, w0, x),
                marking_ready(pages@),
                grown(p0, pages@),
                self.objects_marked + unmarked_total(pages@) <= usize::MAX,
                unmarked_total(pages@) >= 0,
                qm ==> forall|t: int| 0 <= t < self.worklist.len() ==> queued_marked(pages@, #[trigger] self.worklist@[t], mask),
                qm ==> self.objects_marked + unmarked_total(pages@) == s0,
                qm == (forall|j: int| 0 <= j < w0.len() ==> queued_marked(p0, #[trigger] w0[j], mask)),
                s0 == old(self).objects_marked + unmarked_total(p0),
                w0 == old(self).worklist@,
                p0 == old(pages)@,
                forall|j: int|
                    0 <= j < w0.len() && locate(p0, #[trigger] w0[j], mask) is Some ==> self.worklist@.contains(w0[j])
                        || traced(kind, pages@, *trace, w0[j], mask),
                forall|i: int, k: int|
                    #[trigger] newly_marked(p0, pages@, i, k) ==> covered(
                        kind,
                        p0,
                        pages@,
                        self.worklist@,
                        None,
                        *trace,
                        mask,
                        i,
                        k,
                    ),
            decreases unmarked_total(pages@), self.worklist.len(),
        {
            let ghost u_start = unmarked_total(pages@);
            let ghost w_start = self.worklist@;
            let ghost pg_start = pages@;
            let q = match self.worklist.pop() {
                Some(q) => q,
                None => {
                    return;
                },
            };
            proof {
                assert(w_start == self.worklist@.push(q));
                assert(reached_from(p0, *trace, mask, w0, w_start[w_start.len() - 1]));
                assert forall|t: int| 0 <= t < self.worklist.len() implies reached_from(p0, *trace, mask, w0, #[trigger] self.worklist@[t]) by {
                    assert(self.worklist@[t] == w_start[t]);
                    assert(reached_from(p0, *trace, mask, w0, w_start[t]));
                }
            }
            let ghost (tq, nq) = choose|t: int, n: nat| 0 <= t < w0.len() && #[trigger] reaches(p0, *trace, mask, w0[t], q, n);
            proof {
                assert forall|x: usize| #[trigger] w_start.contains(x) implies self.worklist@.contains(x) || Some(q)
                    == Some(x) by {
                    if x != q {
                        let t = choose|t: int| 0 <= t < w_start.len() && w_start[t] == x;
                        assert(t < self.worklist@.len());
                        assert(self.worklist@[t] == x);
                    }
                }
                assert forall|i: int, k: int| #[trigger] newly_marked(p0, pages@, i, k) implies covered(
                    kind,
                    p0,
                    pages@,
                    self.worklist@,
                    Some(q),
                    *trace,
                    mask,
                    i,
                    k,
                ) by {
                    lemma_grown_refl(pages@);
                    lemma_covered_step(kind, p0, pages@, pages@, w_start, self.worklist@, None, Some(q), *trace, mask, i, k);
                }
                lemma_locate_range(pages@, q, mask);
                lemma_grown_keeps(kind, p0, pages@, q, mask);
                if qm {
                    assert(queued_marked(pages@, w_start[w_start.len() - 1], mask));
                    assert forall|t: int| 0 <= t < self.worklist.len() implies queued_marked(pages@, #[trigger] self.worklist@[t], mask) by {
                        assert(self.worklist@[t] == w_start[t]);
                    }
                }
            }
            let mut located = false;
            if q != 0 {
                let pa = q & mask;
                if let Some(i) = find_page(pages, pa) {
                    if let Some(k) = ptr_to_object_index(&pages[i].page.header, pa, q) {
                        located = true;
                        let ghost pre = pages@;
                        let mut at = pages.remove(i);
                        let _ = at.page.header.set_mark(k);
                        pages.insert(i, at);
                        proof {
                            assert(pages@ =~= pre.update(i as int, at));
                            lemma_unmarked_update(pre, i as int, at);
                            if !pre[i as int].page.header.marked().contains(k as int) {
                                lemma_unmarked_in_mark(pre[i as int].page.header, at.page.header, k as int);
                            } else {
                                assert(at.page.header.marked() =~= pre[i as int].page.header.marked());
                            }
                            assert(grown(pre, pages@));
                            lemma_grown_trans(p0, pre, pages@);
                            assert forall|i2: int, k2: int| #[trigger] newly_marked(p0, pages@, i2, k2) implies exists|x: usize|
                                #[trigger] locate(p0, x, mask) == Some((i2, k2)) && reached_from(p0, *trace, mask, w0, x) by {
                                if !newly_marked(p0, pre, i2, k2) {
                                    assert(i2 == i && k2 == k);
                                    assert(locate(p0, q, mask) == Some((i2, k2)));
                                    assert(reaches(p0, *trace, mask, w0[tq], q, nq));
                                }
                            }
                            if qm {
                                assert forall|t: int| 0 <= t < self.worklist.len() implies queued_marked(pages@, #[trigger] self.worklist@[t], mask) by {
                                    lemma_queued_marked_grown(pre, pages@, self.worklist@[t], mask);
                                }
                            }
                            assert forall|i2: int, k2: int| #[trigger] newly_marked(p0, pages@, i2, k2) implies covered(
                                kind,
                                p0,
                                pages@,
                                self.worklist@,
                                Some(q),
                                *trace,
                                mask,
                                i2,
                                k2,
                            ) by {
                                if newly_marked(p0, pre, i2, k2) {
                                    lemma_covered_step(kind, p0, pre, pages@, self.worklist@, self.worklist@, Some(q), Some(q), *trace, mask, i2, k2);
                                } else {
                                    assert(i2 == i && k2 == k);
                                    assert(locate(p0, q, mask) == Some((i2, k2)));
                                }
                            }
                            assert forall|j: int|
                                0 <= j < w0.len() && locate(p0, #[trigger] w0[j], mask) is Some implies self.worklist@.contains(w0[j])
                                    || traced(kind, pages@, *trace, w0[j], mask) || w0[j] == q by {
                                if traced(kind, pre, *trace, w0[j], mask) {
                                    lemma_traced_grown(kind, pre, pages@, *trace, w0[j], mask);
                                }
                            }
                        }
                    }
                }
            }
            if located {
                proof {
                    lemma_unmarked_nonneg(pages@);
                }
                let r = trace(q);
                let ghost pg_mid = pages@;
                let ghost u_mid = unmarked_total(pages@);
                let ghost w_mid = self.worklist@;
                let mut j: usize = 0;
                while j < r.len()
                    invariant
                        self.kind == kind,
                        forall|x: usize| call_requires(*trace, (x,)),
                        call_ensures(*trace, (q,), r),
                        locate(p0, q, mask) is Some,
                        0 <= tq < w0.len(),
                        reaches(p0, *trace, mask, w0[tq], q, nq),
                        forall|t: int| 0 <= t < self.worklist.len() ==> reached_from(p0, *trace, mask, w0, #[trigger] self.worklist@[t]),
                        forall|i: int, k: int| #[trigger] newly_marked(p0, pages@, i, k) ==> exists|x: usize|
                            #[trigger] locate(p0, x, mask) == Some((i, k)) && reached_from(p0, *trace, mask, w0, x),
                        j <= r.len(),
                        marking_ready(pages@),
                        grown(p0, pages@),
                        grown(pg_mid, pages@),
                        self.objects_marked + unmarked_total(pages@) <= usize::MAX,
                        unmarked_total(pages@) + self.worklist.len() == u_mid + w_mid.len(),
                        unmarked_total(pages@) <= u_mid,
                        unmarked_total(pages@) >= 0,
                        forall|x: usize| #[trigger] w_mid.contains(x) ==> self.worklist@.contains(x),
                        forall|t: int| 0 <= t < j ==> handled(kind, pages@, #[trigger] r@[t], mask),
                        qm ==> forall|t: int| 0 <= t < self.worklist.len() ==> queued_marked(pages@, #[trigger] self.worklist@[t], mask),
                        qm ==> self.objects_marked + unmarked_total(pages@) == s0,
                        forall|t: int|
                            0 <= t < w0.len() && locate(p0, #[trigger] w0[t], mask) is Some ==> self.worklist@.contains(w0[t])
                                || traced(kind, pages@, *trace, w0[t], mask) || w0[t] == q,
                        forall|i: int, k: int|
                            #[trigger] newly_marked(p0, pages@, i, k) ==> covered(
                                kind,
                                p0,
                                pages@,
                                self.worklist@,
                                Some(q),
                                *trace,
                                mask,
                                i,
                                k,
                            ),
                    decreases r.len() - j,
                {
                    let ghost pv = pages@;
                    let ghost wv = self.worklist@;
                    let c = r[j];
                    self.visit_ptr(pages, c, mask);
                    proof {
                        lemma_unmarked_nonneg(pages@);
                        lemma_reaches_append(p0, *trace, mask, w0[tq], q, nq, r, j as int);
                        assert(reached_from(p0, *trace, mask, w0, c)) by {
                            assert(reaches(p0, *trace, mask, w0[tq], r@[j as int], nq + 1));
                        }
                        assert forall|t: int| 0 <= t < self.worklist.len() implies reached_from(p0, *trace, mask, w0, #[trigger] self.worklist@[t]) by {
                            if t < wv.len() {
                                assert(self.worklist@[t] == wv[t]);
                            } else {
                                assert(self.worklist@[t] == c);
                            }
                        }
                        assert forall|i: int, k: int| #[trigger] newly_marked(p0, pages@, i, k) implies exists|x: usize|
                            #[trigger] locate(p0, x, mask) == Some((i, k)) && reached_from(p0, *trace, mask, w0, x) by {
                            if !newly_marked(p0, pv, i, k) {
                                lemma_grown_trans(p0, pv, pages@);
                                assert(!handled(kind, pv, c, mask));
                                lemma_locate_range(pv, c, mask);
                                lemma_grown_keeps(kind, p0, pv, c, mask);
                                assert(locate(p0, c, mask) == Some((i, k)));
                            }
                        }
                        lemma_grown_trans(p0, pv, pages@);
                        lemma_grown_trans(pg_mid, pv, pages@);
                        assert forall|x: usize| #[trigger] wv.contains(x) implies self.worklist@.contains(x) by {
                            if !handled(kind, pv, c, mask) {
                                let t = choose|t: int| 0 <= t < wv.len() && wv[t] == x;
                                assert(self.worklist@[t] == x);
                            }
                        }
                        assert forall|x: usize| #[trigger] w_mid.contains(x) implies self.worklist@.contains(x) by {
                            assert(wv.contains(x));
                        }
                        if qm {
                            assert forall|t: int| 0 <= t < self.worklist.len() implies queued_marked(pages@, #[trigger] self.worklist@[t], mask) by {
                                if t < wv.len() {
                                    assert(self.worklist@[t] == wv[t]);
                                    lemma_queued_marked_grown(pv, pages@, wv[t], mask);
                                } else {
                                    assert(self.worklist@[t] == c);
                                    lemma_grown_keeps(kind, pv, pages@, c, mask);
                                }
                            }
                        }
                        assert forall|t: int| 0 <= t < j + 1 implies handled(kind, pages@, #[trigger] r@[t], mask) by {
                            if t < j {
                                lemma_grown_keeps(kind, pv, pages@, r@[t], mask);
                            }
                        }
                        assert forall|t: int|
                            0 <= t < w0.len() && locate(p0, #[trigger] w0[t], mask) is Some implies self.worklist@.contains(w0[t])
                                || traced(kind, pages@, *trace, w0[t], mask) || w0[t] == q by {
                            if traced(kind, pv, *trace, w0[t], mask) {
                                lemma_traced_grown(kind, pv, pages@, *trace, w0[t], mask);
                            }
                            if wv.contains(w0[t]) {
                                assert(self.worklist@.contains(w0[t]));
                            }
                        }
                        assert forall|i: int, k: int| #[trigger] newly_marked(p0, pages@, i, k) implies covered(
                            kind,
                            p0,
                            pages@,
                            self.worklist@,
                            Some(q),
                            *trace,
                            mask,
                            i,
                            k,
                        ) by {
                            if newly_marked(p0, pv, i, k) {
                                lemma_covered_step(kind, p0, pv, pages@, wv, self.worklist@, Some(q), Some(q), *trace, mask, i, k);
                            } else {
                                assert(!handled(kind, pv, c, mask));
                                lemma_locate_range(pv, c, mask);
                                lemma_grown_keeps(kind, p0, pv, c, mask);
                                assert(locate(pv, c, mask) == Some((i, k)));
                                assert(self.worklist@.last() == c);
                                assert(self.worklist@.contains(c));
                                assert(locate(p0, c, mask) == Some((i, k)));
                            }
                        }
                    }
                    j = j + 1;
                }
                proof {
                    assert(traced(kind, pages@, *trace, q, mask));
                }
            }
            proof {
                lemma_unmarked_nonneg(pages@);
                assert forall|t: int|
                    0 <= t < w0.len() && locate(p0, #[trigger] w0[t], mask) is Some implies self.worklist@.contains(w0[t])
                        || traced(kind, pages@, *trace, w0[t], mask) by {
                    if w0[t] == q && !self.worklist@.contains(w0[t]) {
                        lemma_grown_keeps(kind, p0, pages@, q, mask);
                    }
                }
                assert forall|i: int, k: int| #[trigger] newly_marked(p0, pages@, i, k) implies covered(
                    kind,
                    p0,
                    pages@,
                    self.worklist@,
                    None,
                    *trace,
                    mask,
                    i,
                    k,
                ) by {
                    let q2 = choose|q2: usize|
                        #[trigger] locate(p0, q2, mask) == Some((i, k)) && (self.worklist@.contains(q2) || traced(
                            kind,
                            pages@,
                            *trace,
                            q2,
                            mask,
                        ) || Some(q) == Some(q2));
                    assert(locate(p0, q2, mask) == Some((i, k)));
                }
            }
        }
        proof {
            assert forall|j: int|
                0 <= j < w0.len() && locate(p0, #[trigger] w0[j], mask) is Some implies traced(
                    kind,
                    pages@,
                    *trace,
                    w0[j],
                    mask,
                ) by {
                assert(!self.worklist@.contains(w0[j]));
            }
            assert forall|i: int, k: int| #[trigger] newly_marked(p0, pages@, i, k) implies exists|q: usize|
                #[trigger] locate(p0, q, mask) == Some((i, k)) && traced(kind, pages@, *trace, q, mask) by {
                let q2 = choose|q2: usize|
                    #[trigger] locate(p0, q2, mask) == Some((i, k)) && (self.worklist@.contains(q2) || traced(
                        kind,
                        pages@,
                        *trace,
                        q2,
                        mask,
                    ) || None::<usize> == Some(q2));
                assert(!self.worklist@.contains(q2));
                assert(locate(p0, q2, mask) == Some((i, k)));
            }
        }
    }
}


/// Marking is closed under tracing: every marked slot below a page's
/// object count is named by a pointer that was traced with all the
/// children its trace reported marked or outside the traced heap.
pub open spec fn mark_closed<F: Fn(usize) -> Vec<usize>>(
    kind: VisitorKind,
    pages: Seq<PageAt>,
    trace: F,
    mask: usize,
) -> bool {
    forall|i: int, k: int|
        0 <= i < pages.len() && 0 <= k < pages[i].page.header.obj_count && #[trigger] pages[i].page.header.marked().contains(
            k,
        ) ==> exists|q: usize| #[trigger] locate(pages, q, mask) == Some((i, k)) && traced(kind, pages, trace, q, mask)
}

/// Draining the worklist closes marking: when, before, every marked slot
/// was named by a queued pointer or by a pointer already traced, then
/// after `process_worklist` (whose outcome the last three requirements
/// restate) marking is closed under tracing.
pub proof fn law_drained_worklist_closes_marking<F: Fn(usize) -> Vec<usize>>(
    kind: VisitorKind,
    p0: Seq<PageAt>,
    p1: Seq<PageAt>,
    w0: Seq<usize>,
    trace: F,
    mask: usize,
)
    requires
        forall|i: int, k: int|
            0 <= i < p0.len() && 0 <= k < p0[i].page.header.obj_count && #[trigger] p0[i].page.header.marked().contains(
                k,
            ) ==> exists|q: usize|
                #[trigger] locate(p0, q, mask) == Some((i, k)) && (w0.contains(q) || traced(kind, p0, trace, q, mask)),
        grown(p0, p1),
        forall|j: int|
            0 <= j < w0.len() && locate(p0, #[trigger] w0[j], mask) is Some ==> traced(kind, p1, trace, w0[j], mask),
        forall|i: int, k: int|
            #[trigger] newly_marked(p0, p1, i, k) ==> exists|q: usize|
                #[trigger] locate(p0, q, mask) == Some((i, k)) && traced(kind, p1, trace, q, mask),
    ensures
        mark_closed(kind, p1, trace, mask),
{
    assert forall|i: int, k: int|
        0 <= i < p1.len() && 0 <= k < p1[i].page.header.obj_count && #[trigger] p1[i].page.header.marked().contains(
            k,
        ) implies exists|q: usize| #[trigger] locate(p1, q, mask) == Some((i, k)) && traced(kind, p1, trace, q, mask) by {
        assert(p1[i].page.header.obj_count == p0[i].page.header.obj_count);
        if p0[i].page.header.marked().contains(k) {
            let q = choose|q: usize|
                #[trigger] locate(p0, q, mask) == Some((i, k)) && (w0.contains(q) || traced(kind, p0, trace, q, mask));
            lemma_grown_keeps(kind, p0, p1, q, mask);
            if traced(kind, p0, trace, q, mask) {
                lemma_traced_grown(kind, p0, p1, trace, q, mask);
            } else {
                let t = choose|t: int| 0 <= t < w0.len() && w0[t] == q;
                assert(locate(p0, w0[t], mask) is Some);
            }
            assert(locate(p1, q, mask) == Some((i, k)));
        } else {
            assert(newly_marked(p0, p1, i, k));
            let q = choose|q: usize| #[trigger] locate(p0, q, mask) == Some((i, k)) && traced(kind, p1, trace, q, mask);
            lemma_grown_keeps(kind, p0, p1, q, mask);
            assert(locate(p1, q, mask) == Some((i, k)));
        }
    }
}


/// `to` is reachable from `from` in `n` steps: each step goes from a
/// pointer that names a slot of the heap to a child that its trace reports.
pub open spec fn reaches<F: Fn(usize) -> Vec<usize>>(
    pages: Seq<PageAt>,
    trace: F,
    mask: usize,
    from: usize,
    to: usize,
    n: nat,
) -> bool
    decreases n,
{
    if n == 0 {
        from == to
    } else {
        exists|r: Vec<usize>, j: int|
            #![trigger call_ensures(trace, (from,), r), r@[j]]
            call_ensures(trace, (from,), r) && locate(pages, from, mask) is Some && 0 <= j < r@.len()
                && reaches(pages, trace, mask, r@[j], to, (n - 1) as nat)
    }
}

/// Tracing depends on the slot alone: any two pointers naming one slot
/// are reported the same children, every time.
pub open spec fn trace_per_slot<F: Fn(usize) -> Vec<usize>>(pages: Seq<PageAt>, trace: F, mask: usize) -> bool {
    forall|p1: usize, p2: usize, r1: Vec<usize>, r2: Vec<usize>|
        locate(pages, p1, mask) is Some && locate(pages, p1, mask) == locate(pages, p2, mask) && #[trigger] call_ensures(
            trace,
            (p1,),
            r1,
        ) && #[trigger] call_ensures(trace, (p2,), r2) ==> r1@ == r2@
}

/// After a full marking that is closed under tracing, and with a trace
/// that depends on the slot alone, everything reachable from a marked
/// object is marked or lies outside the heap's GC pages.
pub proof fn law_closed_marking_keeps_reachable<F: Fn(usize) -> Vec<usize>>(
    pages: Seq<PageAt>,
    trace: F,
    mask: usize,
    root: usize,
    x: usize,
    n: nat,
)
    requires
        marking_ready(pages),
        mark_closed(VisitorKind::Major, pages, trace, mask),
        trace_per_slot(pages, trace, mask),
        handled(VisitorKind::Major, pages, root, mask),
        reaches(pages, trace, mask, root, x, n),
    ensures
        handled(VisitorKind::Major, pages, x, mask),
    decreases n,
{
    if n > 0 {
        let (r, j) = choose|r: Vec<usize>, j: int|
            #![trigger call_ensures(trace, (root,), r), r@[j]]
            call_ensures(trace, (root,), r) && locate(pages, root, mask) is Some && 0 <= j < r@.len()
                && reaches(pages, trace, mask, r@[j], x, (n - 1) as nat);
        let (i, k) = locate(pages, root, mask).unwrap();
        lemma_locate_range(pages, root, mask);
        assert(pages[i].page.header.marked().contains(k));
        let q = choose|q: usize| #[trigger] locate(pages, q, mask) == Some((i, k)) && traced(VisitorKind::Major, pages, trace, q, mask);
        let rq = choose|rq: Vec<usize>|
            #[trigger] call_ensures(trace, (q,), rq) && forall|t: int|
                0 <= t < rq@.len() ==> handled(VisitorKind::Major, pages, #[trigger] rq@[t], mask);
        assert(r@ == rq@);
        assert(handled(VisitorKind::Major, pages, rq@[j], mask));
        law_closed_marking_keeps_reachable(pages, trace, mask, r@[j], x, (n - 1) as nat);
    }
}


/// Marks the object `ptr` points to for a full collection: when the
/// pointer names a slot of one of the heap's GC pages that is not yet
/// marked, the slot is marked, counted and the pointer queued; otherwise
/// nothing changes.
pub fn mark_object(pages: &mut Vec<PageAt>, visitor: &mut GcVisitor, ptr: usize, mask: usize)
    requires
        marking_ready(old(pages)@),
        old(visitor).objects_marked + unmarked_total(old(pages)@) <= usize::MAX,
    ensures
        final(visitor).kind == old(visitor).kind,
        marking_ready(final(pages)@),
        grown(old(pages)@, final(pages)@),
        handled(VisitorKind::Major, final(pages)@, ptr, mask),
        final(visitor).objects_marked + unmarked_total(final(pages)@) == old(visitor).objects_marked
            + unmarked_total(old(pages)@),
        handled(VisitorKind::Major, old(pages)@, ptr, mask) ==> {
            &&& final(pages)@ == old(pages)@
            &&& final(visitor).worklist@ == old(visitor).worklist@
            &&& final(visitor).objects_marked == old(visitor).objects_marked
        },
        !handled(VisitorKind::Major, old(pages)@, ptr, mask) ==> {
            let (i, k) = locate(old(pages)@, ptr, mask).unwrap();
            &&& marked_one(old(pages)@, final(pages)@, i, k)
            &&& final(visitor).worklist@ == old(visitor).worklist@.push(ptr)
            &&& final(visitor).objects_marked == old(visitor).objects_marked + 1
        },
{
    proof {
        lemma_locate_range(pages@, ptr, mask);
    }
    if ptr == 0 {
        return;
    }
    let pa = ptr & mask;
    let i = match find_page(pages, pa) {
        Some(i) => i,
        None => {
            return;
        },
    };
    let k = match ptr_to_object_index(&pages[i].page.header, pa, ptr) {
        Some(k) => k,
        None => {
            return;
        },
    };
    if pages[i].page.header.is_marked(k) {
        return;
    }
    let ghost pre = pages@;
    proof {
        lemma_unmarked_nonneg(pre);
        lemma_unmarked_in_mark_pos(pre[i as int].page.header, k as int);
        lemma_unmarked_part(pre, i as int);
    }
    let mut at = pages.remove(i);
    let _ = at.page.header.set_mark(k);
    pages.insert(i, at);
    visitor.objects_marked = visitor.objects_marked + 1;
    visitor.worklist.push(ptr);
    proof {
        assert(pages@ =~= pre.update(i as int, at));
        lemma_unmarked_update(pre, i as int, at);
        lemma_unmarked_in_mark(pre[i as int].page.header, at.page.header, k as int);
        lemma_grown_keeps(VisitorKind::Major, pre, pages@, ptr, mask);
    }
}

/// The page (by position) and slot that a young-generation marking
/// reaches from `ptr`: the first page at `ptr`'s page address, when it is
/// a young GC page, and the slot its offset past the header falls in (not
/// checked against the object count). `None` otherwise.
pub open spec fn minor_slot(pages: Seq<PageAt>, ptr: usize, mask: usize) -> Option<(int, int)> {
    match page_index(pages, ptr & mask, 0) {
        None => None,
        Some(i) => {
            let h = pages[i].page.header;
            if h.magic != MAGIC_GC_PAGE || h.generation > 0 {
                None
            } else {
                Some((i, (ptr - ((ptr & mask) + spec_header_size(h.block_size as int))) / (h.block_size as int)))
            }
        },
    }
}

/// Marks the object `ptr` points to for a young-generation collection:
/// on a young GC page of the heap, the slot its offset falls in is marked,
/// counted and the pointer queued unless the slot was already marked; on an
/// old page, or outside the heap's pages, nothing changes. A pointer into
/// a young page's header, or past the page's bitmaps, is a bug and is
/// excluded here.
pub fn mark_object_minor(pages: &mut Vec<PageAt>, visitor: &mut GcVisitor, ptr: usize, mask: usize)
    requires
        marking_ready(old(pages)@),
        minor_slot(old(pages)@, ptr, mask) matches Some((i, k)) ==> {
            &&& ptr >= (ptr & mask) + spec_header_size(old(pages)@[i].page.header.block_size as int)
            &&& k < PAGE_SLOTS
            &&& !old(pages)@[i].page.header.marked().contains(k) ==> old(visitor).objects_marked < usize::MAX
        },
    ensures
        final(visitor).kind == old(visitor).kind,
        marking_ready(final(pages)@),
        grown(old(pages)@, final(pages)@),
        final(visitor).objects_marked + unmarked_total(final(pages)@) == old(visitor).objects_marked
            + unmarked_total(old(pages)@),
        match minor_slot(old(pages)@, ptr, mask) {
            Some((i, k)) if !old(pages)@[i].page.header.marked().contains(k) => {
                &&& marked_one(old(pages)@, final(pages)@, i, k)
                &&& final(visitor).worklist@ == old(visitor).worklist@.push(ptr)
                &&& final(visitor).objects_marked == old(visitor).objects_marked + 1
            },
            _ => {
                &&& final(pages)@ == old(pages)@
                &&& final(visitor).worklist@ == old(visitor).worklist@
                &&& final(visitor).objects_marked == old(visitor).objects_marked
            },
        },
{
    let pa = ptr & mask;
    let i = match find_page(pages, pa) {
        Some(i) => i,
        None => {
            return;
        },
    };
    proof {
        lemma_page_index_found(pages@, pa, 0);
    }
    if pages[i].page.header.magic != MAGIC_GC_PAGE {
        return;
    }
    if pages[i].page.header.generation > 0 {
        return;
    }
    let block_size = pages[i].page.header.block_size as usize;
    let header_size = PageHeader::header_size(block_size);
    proof {
        crate::page::lemma_header_size_bound(block_size as int);
    }
    let data_start = pa + header_size;
    let offset = ptr - data_start;
    let index = offset / block_size;
    if pages[i].page.header.is_marked(index) {
        return;
    }
    let ghost pre = pages@;
    let mut at = pages.remove(i);
    let _ = at.page.header.set_mark(index);
    pages.insert(i, at);
    visitor.objects_marked = visitor.objects_marked + 1;
    visitor.worklist.push(ptr);
    proof {
        assert(pages@ =~= pre.update(i as int, at));
        lemma_unmarked_update(pre, i as int, at);
        lemma_unmarked_in_mark(pre[i as int].page.header, at.page.header, index as int);
    }
}


/// Growing the marks changes no answer of the conservative lookup, and
/// keeps the heap readable by it.
pub proof fn lemma_grown_lookup(
    a: Seq<PageAt>,
    b: Seq<PageAt>,
    lo: usize,
    hi: usize,
    local: Map<usize, (usize, usize, usize)>,
    small: Set<usize>,
    global: Map<usize, (usize, usize, usize)>,
    orphans: Seq<OrphanEntry>,
    addr: usize,
    mask: usize,
)
    requires
        grown(a, b),
    ensures
        heap_box(lo, hi, local, small, a, global, orphans, addr, mask) == heap_box(
            lo,
            hi,
            local,
            small,
            b,
            global,
            orphans,
            addr,
            mask,
        ),
        lookup_ready(local, small, a) && marking_ready(b) ==> lookup_ready(local, small, b),
{
    lemma_page_index_same(a, b, addr & mask, 0);
    lemma_page_index_found(a, addr & mask, 0);
    if local.contains_key(addr & mask) {
        lemma_page_index_same(a, b, local[addr & mask].0, 0);
        lemma_page_index_found(a, local[addr & mask].0, 0);
    }
    if lookup_ready(local, small, a) && marking_ready(b) {
        assert forall|i: int| 0 <= i < b.len() implies crate::lookup::readable_page(#[trigger] b[i]) by {
        }
        assert forall|k: usize| #[trigger] local.contains_key(k) implies local[k].1 > 0 && page_index(b, local[k].0, 0) is Some by {
            lemma_page_index_same(a, b, local[k].0, 0);
        }
        assert forall|k: usize| #[trigger] small.contains(k) implies page_index(b, k, 0) is Some by {
            lemma_page_index_same(a, b, k, 0);
        }
    }
}

/// No slot below a page's object count is marked.
pub open spec fn unmarked_heap(pages: Seq<PageAt>) -> bool {
    forall|i: int, k: int|
        0 <= i < pages.len() && 0 <= k < pages[i].page.header.obj_count ==> !(
        #[trigger] pages[i].page.header.marked().contains(k))
}

/// The object a root address names in the heap, as the conservative
/// lookup finds it.
pub open spec fn root_box(
    heap: LocalHeap,
    global: Map<usize, (usize, usize, usize)>,
    orphans: Seq<OrphanEntry>,
    addr: usize,
    mask: usize,
) -> Option<int> {
    heap_box(
        heap.buffers.min_addr,
        heap.buffers.max_addr,
        heap.large_object_map@,
        heap.small_pages@,
        heap.pages@,
        global,
        orphans,
        addr,
        mask,
    )
}

/// `q` is reachable from an object that the conservative lookup in `heap`
/// resolves one of `roots` to.
pub open spec fn root_reached<F: Fn(usize) -> Vec<usize>>(
    heap: LocalHeap,
    global: Map<usize, (usize, usize, usize)>,
    orphans: Seq<OrphanEntry>,
    roots: Seq<usize>,
    mask: usize,
    pages: Seq<PageAt>,
    trace: F,
    q: usize,
) -> bool {
    exists|s: int, b: usize, n: nat|
        #![trigger roots[s], reaches(pages, trace, mask, b, q, n)]
        0 <= s < roots.len() && root_box(heap, global, orphans, roots[s], mask) == Some(b as int) && reaches(
            pages,
            trace,
            mask,
            b,
            q,
            n,
        )
}

/// Marks, for a full collection, everything reachable from `roots` (the
/// words found on the stacks and the registered roots): every root that
/// the conservative lookup resolves to an object of the heap's pages is
/// marked, then the worklist is drained with `trace`. Returns how many
/// objects were marked. Only mark bits change; every resolved root ends
/// marked, and a pointer to every slot marked here was traced; when
/// nothing was marked before, marking ends closed under tracing.
pub fn mark_major_roots<F: Fn(usize) -> Vec<usize>>(
    heap: &mut LocalHeap,
    global: &LargeObjectMap,
    orphans: &Vec<OrphanEntry>,
    roots: &Vec<usize>,
    mask: usize,
    trace: &F,
) -> (n: usize)
    requires
        lookup_ready(old(heap).large_object_map@, old(heap).small_pages@, old(heap).pages@),
        orphans_readable(orphans@),
        marking_ready(old(heap).pages@),
        forall|q: usize| call_requires(*trace, (q,)),
        unmarked_total(old(heap).pages@) <= usize::MAX,
    ensures
        grown(old(heap).pages@, final(heap).pages@),
        marking_ready(final(heap).pages@),
        n == unmarked_total(old(heap).pages@) - unmarked_total(final(heap).pages@),
        final(heap).small_pages@ == old(heap).small_pages@,
        final(heap).large_object_map@ == old(heap).large_object_map@,
        final(heap).buffers.min_addr == old(heap).buffers.min_addr,
        final(heap).buffers.max_addr == old(heap).buffers.max_addr,
        final(heap).young_allocated == old(heap).young_allocated,
        final(heap).old_allocated == old(heap).old_allocated,
        forall|t: int|
            0 <= t < roots.len() ==> (root_box(*old(heap), global@, orphans@, #[trigger] roots@[t], mask) matches Some(b)
                ==> handled(VisitorKind::Major, final(heap).pages@, b as usize, mask)),
        forall|i: int, k: int|
            #[trigger] newly_marked(old(heap).pages@, final(heap).pages@, i, k) ==> exists|q: usize|
                #[trigger] locate(old(heap).pages@, q, mask) == Some((i, k)) && traced(
                    VisitorKind::Major,
                    final(heap).pages@,
                    *trace,
                    q,
                    mask,
                ),
        unmarked_heap(old(heap).pages@) ==> mark_closed(VisitorKind::Major, final(heap).pages@, *trace, mask),
        forall|i: int, k: int|
            #[trigger] newly_marked(old(heap).pages@, final(heap).pages@, i, k) ==> exists|q: usize|
                #[trigger] locate(old(heap).pages@, q, mask) == Some((i, k)) && root_reached(
                    *old(heap),
                    global@,
                    orphans@,
                    roots@,
                    mask,
                    old(heap).pages@,
                    *trace,
                    q,
                ),
{
    let ghost h0 = *heap;
    let ghost p0 = heap.pages@;
    let mut visitor = GcVisitor::new(VisitorKind::Major);
    proof {
        lemma_unmarked_nonneg(p0);
    }
    let mut t: usize = 0;
    while t < roots.len()
        invariant
            t <= roots.len(),
            visitor.kind == VisitorKind::Major,
            lookup_ready(heap.large_object_map@, heap.small_pages@, heap.pages@),
            orphans_readable(orphans@),
            marking_ready(heap.pages@),
            grown(p0, heap.pages@),
            p0 == h0.pages@,
            heap.small_pages@ == h0.small_pages@,
            heap.large_object_map@ == h0.large_object_map@,
            heap.buffers.min_addr == h0.buffers.min_addr,
            heap.buffers.max_addr == h0.buffers.max_addr,
            heap.young_allocated == h0.young_allocated,
            heap.old_allocated == h0.old_allocated,
            visitor.objects_marked + unmarked_total(heap.pages@) == unmarked_total(p0),
            unmarked_total(p0) <= usize::MAX,
            forall|x: int| 0 <= x < visitor.worklist.len() ==> queued_marked(heap.pages@, #[trigger] visitor.worklist@[x], mask),
            forall|x: int| 0 <= x < visitor.worklist.len() ==> exists|s: int|
                #![trigger roots@[s]]
                0 <= s < t && root_box(h0, global@, orphans@, roots@[s], mask) == Some(#[trigger] visitor.worklist@[x] as int),
            forall|s: int|
                0 <= s < t ==> (root_box(h0, global@, orphans@, #[trigger] roots@[s], mask) matches Some(b) ==> handled(
                    VisitorKind::Major,
                    heap.pages@,
                    b as usize,
                    mask,
                )),
            forall|i: int, k: int| #[trigger] newly_marked(p0, heap.pages@, i, k) ==> exists|q: usize|
                #[trigger] locate(p0, q, mask) == Some((i, k)) && visitor.worklist@.contains(q),
        decreases roots.len() - t,
    {
        let ghost pv = heap.pages@;
        let ghost wv = visitor.worklist@;
        proof {
            lemma_grown_lookup(
                p0,
                pv,
                h0.buffers.min_addr,
                h0.buffers.max_addr,
                h0.large_object_map@,
                h0.small_pages@,
                global@,
                orphans@,
                roots@[t as int],
                mask,
            );
        }
        let found = find_gc_box_in(
            &heap.buffers,
            &heap.large_object_map,
            &heap.small_pages,
            &heap.pages,
            global,
            orphans,
            roots[t],
            mask,
        );
        if let Some(b) = found {
            proof {
                lemma_unmarked_nonneg(heap.pages@);
            }
            mark_object(&mut heap.pages, &mut visitor, b, mask);
            proof {
                lemma_grown_trans(p0, pv, heap.pages@);
                lemma_grown_lookup(
                    pv,
                    heap.pages@,
                    h0.buffers.min_addr,
                    h0.buffers.max_addr,
                    h0.large_object_map@,
                    h0.small_pages@,
                    global@,
                    orphans@,
                    roots@[t as int],
                    mask,
                );
                assert forall|x: int| 0 <= x < visitor.worklist.len() implies queued_marked(
                    heap.pages@,
                    #[trigger] visitor.worklist@[x],
                    mask,
                ) by {
                    if x < wv.len() {
                        assert(visitor.worklist@[x] == wv[x]);
                        lemma_queued_marked_grown(pv, heap.pages@, wv[x], mask);
                    } else {
                        lemma_grown_keeps(VisitorKind::Major, pv, heap.pages@, b, mask);
                    }
                }
                assert(root_box(h0, global@, orphans@, roots@[t as int], mask) == Some(b as int));
                assert forall|x: int| 0 <= x < visitor.worklist.len() implies exists|s: int|
                    #![trigger roots@[s]]
                    0 <= s < t + 1 && root_box(h0, global@, orphans@, roots@[s], mask) == Some(#[trigger] visitor.worklist@[x] as int) by {
                    if x < wv.len() {
                        assert(visitor.worklist@[x] == wv[x]);
                        let s2: int = choose|s2: int| #![trigger roots@[s2]] 0 <= s2 < t && root_box(h0, global@, orphans@, roots@[s2], mask) == Some(wv[x] as int);
                        assert(root_box(h0, global@, orphans@, roots@[s2], mask) == Some(visitor.worklist@[x] as int));
                    } else {
                        assert(visitor.worklist@[x] == b);
                        assert(root_box(h0, global@, orphans@, roots@[t as int], mask) == Some(visitor.worklist@[x] as int));
                    }
                }
                assert forall|s: int|
                    0 <= s < t + 1 implies (root_box(h0, global@, orphans@, #[trigger] roots@[s], mask) matches Some(bb)
                        ==> handled(VisitorKind::Major, heap.pages@, bb as usize, mask)) by {
                    if let Some(bb) = root_box(h0, global@, orphans@, roots@[s], mask) {
                        lemma_grown_keeps(VisitorKind::Major, pv, heap.pages@, bb as usize, mask);
                    }
                }
                assert forall|i: int, k: int| #[trigger] newly_marked(p0, heap.pages@, i, k) implies exists|q: usize|
                    #[trigger] locate(p0, q, mask) == Some((i, k)) && visitor.worklist@.contains(q) by {
                    if newly_marked(p0, pv, i, k) {
                        let q = choose|q: usize| #[trigger] locate(p0, q, mask) == Some((i, k)) && wv.contains(q);
                        let w = choose|w: int| 0 <= w < wv.len() && wv[w] == q;
                        assert(visitor.worklist@[w] == q);
                        assert(locate(p0, q, mask) == Some((i, k)));
                    } else {
                        lemma_grown_keeps(VisitorKind::Major, p0, pv, b, mask);
                        assert(visitor.worklist@[visitor.worklist.len() - 1] == b);
                        assert(locate(p0, b, mask) == Some((i, k)));
                    }
                }
            }
        }
        t = t + 1;
    }
    let ghost p1 = heap.pages@;
    let ghost w1 = visitor.worklist@;
    proof {
        lemma_unmarked_nonneg(p1);
    }
    visitor.process_worklist(&mut heap.pages, mask, trace);
    proof {
        lemma_grown_trans(p0, p1, heap.pages@);
        assert forall|t2: int|
            0 <= t2 < roots.len() implies (root_box(h0, global@, orphans@, #[trigger] roots@[t2], mask) matches Some(b)
                ==> handled(VisitorKind::Major, heap.pages@, b as usize, mask)) by {
            if let Some(b) = root_box(h0, global@, orphans@, roots@[t2], mask) {
                lemma_grown_keeps(VisitorKind::Major, p1, heap.pages@, b as usize, mask);
            }
        }
        assert forall|i: int, k: int| #[trigger] newly_marked(p0, heap.pages@, i, k) implies exists|q: usize|
            #[trigger] locate(p0, q, mask) == Some((i, k)) && traced(VisitorKind::Major, heap.pages@, *trace, q, mask) by {
            if newly_marked(p0, p1, i, k) {
                let q = choose|q: usize| #[trigger] locate(p0, q, mask) == Some((i, k)) && w1.contains(q);
                let w = choose|w: int| 0 <= w < w1.len() && w1[w] == q;
                lemma_grown_keeps(VisitorKind::Major, p0, p1, q, mask);
                assert(locate(p1, w1[w], mask) is Some);
                assert(locate(p0, q, mask) == Some((i, k)));
            } else {
                assert(newly_marked(p1, heap.pages@, i, k));
                let q = choose|q: usize| #[trigger] locate(p1, q, mask) == Some((i, k)) && traced(VisitorKind::Major, heap.pages@, *trace, q, mask);
                lemma_grown_keeps(VisitorKind::Major, p0, p1, q, mask);
                assert(locate(p0, q, mask) == Some((i, k)));
            }
        }
        assert forall|i: int, k: int|
            #[trigger] newly_marked(p0, heap.pages@, i, k) implies exists|q: usize|
                #[trigger] locate(p0, q, mask) == Some((i, k)) && root_reached(h0, global@, orphans@, roots@, mask, p0, *trace, q) by {
            if newly_marked(p0, p1, i, k) {
                let q = choose|q: usize| #[trigger] locate(p0, q, mask) == Some((i, k)) && w1.contains(q);
                let w: int = choose|w: int| 0 <= w < w1.len() && w1[w] == q;
                let s2: int = choose|s2: int| #![trigger roots@[s2]] 0 <= s2 < roots.len() && root_box(h0, global@, orphans@, roots@[s2], mask) == Some(w1[w] as int);
                assert(reaches(p0, *trace, mask, q, q, 0));
            } else {
                assert(newly_marked(p1, heap.pages@, i, k));
                let q = choose|q: usize| #[trigger] locate(p1, q, mask) == Some((i, k)) && reached_from(p1, *trace, mask, w1, q);
                let (tw, nw) = choose|tw: int, nw: nat| 0 <= tw < w1.len() && #[trigger] reaches(p1, *trace, mask, w1[tw], q, nw);
                lemma_reaches_grown(p0, p1, *trace, mask, w1[tw], q, nw);
                lemma_grown_keeps(VisitorKind::Major, p0, p1, q, mask);
                let s2: int = choose|s2: int| #![trigger roots@[s2]] 0 <= s2 < roots.len() && root_box(h0, global@, orphans@, roots@[s2], mask) == Some(w1[tw] as int);
                assert(reaches(p0, *trace, mask, w1[tw], q, nw));
            }
        }
        if unmarked_heap(p0) {
            assert forall|i: int, k: int|
                0 <= i < p0.len() && 0 <= k < p0[i].page.header.obj_count && #[trigger] p0[i].page.header.marked().contains(k)
                    implies exists|q: usize| #[trigger] locate(p0, q, mask) == Some((i, k)) && (Seq::<usize>::empty().contains(q) || traced(
                    VisitorKind::Major,
                    p0,
                    *trace,
                    q,
                    mask,
                )) by {
            }
            law_drained_worklist_closes_marking(VisitorKind::Major, p0, heap.pages@, Seq::<usize>::empty(), *trace, mask);
        }
    }
    visitor.objects_marked
}


/// Marks, for a full collection, everything reachable from the objects
/// `objs` over the run of pages `pages` (the pages of every heap together):
/// each object is marked as `mark_object` marks it, then the worklist is
/// drained with `trace`, so tracing follows pointers from one heap's pages
/// into another's. Returns how many objects were marked. Only mark bits
/// change; every object ends handled, and when nothing was marked before,
/// marking ends closed under tracing.
pub fn mark_objects<F: Fn(usize) -> Vec<usize>>(pages: &mut Vec<PageAt>, objs: &Vec<usize>, mask: usize, trace: &F) -> (n: usize)
    requires
        marking_ready(old(pages)@),
        forall|q: usize| call_requires(*trace, (q,)),
        unmarked_total(old(pages)@) <= usize::MAX,
    ensures
        grown(old(pages)@, final(pages)@),
        marking_ready(final(pages)@),
        n == unmarked_total(old(pages)@) - unmarked_total(final(pages)@),
        forall|t: int| 0 <= t < objs.len() ==> handled(VisitorKind::Major, final(pages)@, #[trigger] objs@[t], mask),
        unmarked_heap(old(pages)@) ==> mark_closed(VisitorKind::Major, final(pages)@, *trace, mask),
        forall|i: int, k: int| #[trigger] newly_marked(old(pages)@, final(pages)@, i, k) ==> exists|q: usize|
            #[trigger] locate(old(pages)@, q, mask) == Some((i, k)) && reached_from(old(pages)@, *trace, mask, objs@, q),
{
    let ghost p0 = pages@;
    let mut visitor = GcVisitor::new(VisitorKind::Major);
    proof {
        lemma_unmarked_nonneg(p0);
    }
    let mut t: usize = 0;
    while t < objs.len()
        invariant
            t <= objs.len(),
            visitor.kind == VisitorKind::Major,
            marking_ready(pages@),
            grown(p0, pages@),
            visitor.objects_marked + unmarked_total(pages@) == unmarked_total(p0),
            unmarked_total(p0) <= usize::MAX,
            forall|x: int| 0 <= x < visitor.worklist.len() ==> queued_marked(pages@, #[trigger] visitor.worklist@[x], mask),
            forall|s: int| 0 <= s < t ==> handled(VisitorKind::Major, pages@, #[trigger] objs@[s], mask),
            forall|x: int| 0 <= x < visitor.worklist.len() ==> objs@.contains(#[trigger] visitor.worklist@[x]),
            forall|i: int, k: int| #[trigger] newly_marked(p0, pages@, i, k) ==> exists|q: usize|
                #[trigger] locate(p0, q, mask) == Some((i, k)) && visitor.worklist@.contains(q),
        decreases objs.len() - t,
    {
        let ghost pv = pages@;
        let ghost wv = visitor.worklist@;
        let b = objs[t];
        proof {
            lemma_unmarked_nonneg(pages@);
        }
        mark_object(pages, &mut visitor, b, mask);
        proof {
            lemma_grown_trans(p0, pv, pages@);
            assert forall|x: int| 0 <= x < visitor.worklist.len() implies queued_marked(
                pages@,
                #[trigger] visitor.worklist@[x],
                mask,
            ) by {
                if x < wv.len() {
                    assert(visitor.worklist@[x] == wv[x]);
                    lemma_queued_marked_grown(pv, pages@, wv[x], mask);
                } else {
                    lemma_grown_keeps(VisitorKind::Major, pv, pages@, b, mask);
                }
            }
            assert forall|x: int| 0 <= x < visitor.worklist.len() implies objs@.contains(#[trigger] visitor.worklist@[x]) by {
                if x < wv.len() {
                    assert(visitor.worklist@[x] == wv[x]);
                } else {
                    assert(visitor.worklist@[x] == objs@[t as int]);
                }
            }
            assert forall|s: int| 0 <= s < t + 1 implies handled(VisitorKind::Major, pages@, #[trigger] objs@[s], mask) by {
                if s < t {
                    lemma_grown_keeps(VisitorKind::Major, pv, pages@, objs@[s], mask);
                }
            }
            assert forall|i: int, k: int| #[trigger] newly_marked(p0, pages@, i, k) implies exists|q: usize|
                #[trigger] locate(p0, q, mask) == Some((i, k)) && visitor.worklist@.contains(q) by {
                if newly_marked(p0, pv, i, k) {
                    let q = choose|q: usize| #[trigger] locate(p0, q, mask) == Some((i, k)) && wv.contains(q);
                    let w = choose|w: int| 0 <= w < wv.len() && wv[w] == q;
                    assert(visitor.worklist@[w] == q);
                    assert(locate(p0, q, mask) == Some((i, k)));
                } else {
                    lemma_grown_keeps(VisitorKind::Major, p0, pv, b, mask);
                    assert(visitor.worklist@[visitor.worklist.len() - 1] == b);
                    assert(locate(p0, b, mask) == Some((i, k)));
                }
            }
        }
        t = t + 1;
    }
    let ghost p1 = pages@;
    let ghost w1 = visitor.worklist@;
    proof {
        lemma_unmarked_nonneg(p1);
    }
    visitor.process_worklist(pages, mask, trace);
    proof {
        lemma_grown_trans(p0, p1, pages@);
        assert forall|t2: int| 0 <= t2 < objs.len() implies handled(VisitorKind::Major, pages@, #[trigger] objs@[t2], mask) by {
            lemma_grown_keeps(VisitorKind::Major, p1, pages@, objs@[t2], mask);
        }
        assert forall|i: int, k: int| #[trigger] newly_marked(p0, pages@, i, k) implies exists|q: usize|
            #[trigger] locate(p0, q, mask) == Some((i, k)) && reached_from(p0, *trace, mask, objs@, q) by {
            if newly_marked(p0, p1, i, k) {
                let q = choose|q: usize| #[trigger] locate(p0, q, mask) == Some((i, k)) && w1.contains(q);
                let w: int = choose|w: int| 0 <= w < w1.len() && w1[w] == q;
                assert(objs@.contains(w1[w]));
                let s2: int = choose|s2: int| 0 <= s2 < objs@.len() && objs@[s2] == q;
                assert(reaches(p0, *trace, mask, objs@[s2], q, 0));
            } else {
                assert(newly_marked(p1, pages@, i, k));
                let q = choose|q: usize| #[trigger] locate(p1, q, mask) == Some((i, k)) && reached_from(p1, *trace, mask, w1, q);
                let (tw, nw) = choose|tw: int, nw: nat| 0 <= tw < w1.len() && #[trigger] reaches(p1, *trace, mask, w1[tw], q, nw);
                lemma_reaches_grown(p0, p1, *trace, mask, w1[tw], q, nw);
                lemma_grown_keeps(VisitorKind::Major, p0, p1, q, mask);
                assert(objs@.contains(w1[tw]));
                let s2: int = choose|s2: int| 0 <= s2 < objs@.len() && objs@[s2] == w1[tw];
                assert(reaches(p0, *trace, mask, objs@[s2], q, nw));
            }
        }
        if unmarked_heap(p0) {
            assert forall|i: int, k: int| #[trigger] newly_marked(p0, pages@, i, k) implies exists|q: usize|
                #[trigger] locate(p0, q, mask) == Some((i, k)) && traced(VisitorKind::Major, pages@, *trace, q, mask) by {
                if newly_marked(p0, p1, i, k) {
                    let q = choose|q: usize| #[trigger] locate(p0, q, mask) == Some((i, k)) && w1.contains(q);
                    let w = choose|w: int| 0 <= w < w1.len() && w1[w] == q;
                    lemma_grown_keeps(VisitorKind::Major, p0, p1, q, mask);
                    assert(locate(p1, w1[w], mask) is Some);
                    assert(locate(p0, q, mask) == Some((i, k)));
                } else {
                    assert(newly_marked(p1, pages@, i, k));
                    let q = choose|q: usize| #[trigger] locate(p1, q, mask) == Some((i, k)) && traced(VisitorKind::Major, pages@, *trace, q, mask);
                    lemma_grown_keeps(VisitorKind::Major, p0, p1, q, mask);
                    assert(locate(p0, q, mask) == Some((i, k)));
                }
            }
            assert forall|i: int, k: int|
                0 <= i < p0.len() && 0 <= k < p0[i].page.header.obj_count && #[trigger] p0[i].page.header.marked().contains(k)
                    implies exists|q: usize| #[trigger] locate(p0, q, mask) == Some((i, k)) && (Seq::<usize>::empty().contains(q) || traced(
                    VisitorKind::Major,
                    p0,
                    *trace,
                    q,
                    mask,
                )) by {
            }
            law_drained_worklist_closes_marking(VisitorKind::Major, p0, pages@, Seq::<usize>::empty(), *trace, mask);
        }
    }
    visitor.objects_marked
}

/// The queue `wl` is `w0` with entries added while the pages went from
/// `p0` to `cur`: each added entry names a slot, now marked, and every
/// slot marked meanwhile is named by an added entry.
pub open spec fn queued_since(w0: Seq<usize>, wl: Seq<usize>, p0: Seq<PageAt>, cur: Seq<PageAt>, mask: usize) -> bool {
    &&& wl.len() >= w0.len()
    &&& wl.take(w0.len() as int) == w0
    &&& forall|t: int|
        w0.len() <= t < wl.len() ==> queued_marked(cur, #[trigger] wl[t], mask) && locate(p0, wl[t], mask) is Some
    &&& forall|i: int, k: int| #[trigger] newly_marked(p0, cur, i, k) ==> exists|t: int|
        w0.len() <= t < wl.len() && #[trigger] locate(p0, wl[t], mask) == Some((i, k))
}

/// Two stretches of queueing make one.
pub proof fn lemma_queued_since_trans(
    w0: Seq<usize>,
    w1: Seq<usize>,
    w2: Seq<usize>,
    p0: Seq<PageAt>,
    c1: Seq<PageAt>,
    c2: Seq<PageAt>,
    mask: usize,
)
    requires
        queued_since(w0, w1, p0, c1, mask),
        queued_since(w1, w2, c1, c2, mask),
        marks_grew(p0, c1),
        marks_grew(c1, c2),
    ensures
        queued_since(w0, w2, p0, c2, mask),
{
    lemma_marks_grew_trans(p0, c1, c2);
    assert(w2.take(w0.len() as int) =~= w0) by {
        assert(w2.take(w1.len() as int).take(w0.len() as int) =~= w2.take(w0.len() as int));
    }
    assert forall|t: int| w0.len() <= t < w2.len() implies queued_marked(c2, #[trigger] w2[t], mask) && locate(
        p0,
        w2[t],
        mask,
    ) is Some by {
        if t < w1.len() {
            assert(w2[t] == w2.take(w1.len() as int)[t]);
            assert(w2[t] == w1[t]);
            lemma_queued_marked_grown(c1, c2, w1[t], mask);
        } else {
            lemma_grown_keeps(VisitorKind::Major, p0, c1, w2[t], mask);
        }
    }
    assert forall|i: int, k: int| #[trigger] newly_marked(p0, c2, i, k) implies exists|t: int|
        w0.len() <= t < w2.len() && #[trigger] locate(p0, w2[t], mask) == Some((i, k)) by {
        if newly_marked(p0, c1, i, k) {
            let t = choose|t: int| w0.len() <= t < w1.len() && #[trigger] locate(p0, w1[t], mask) == Some((i, k));
            assert(w2[t] == w2.take(w1.len() as int)[t]);
            assert(w2[t] == w1[t]);
        } else {
            assert(newly_marked(c1, c2, i, k));
            let t = choose|t: int| w1.len() <= t < w2.len() && #[trigger] locate(c1, w2[t], mask) == Some((i, k));
            lemma_grown_keeps(VisitorKind::Major, p0, c1, w2[t], mask);
            assert(locate(p0, w2[t], mask) == Some((i, k)));
        }
    }
}

impl GcVisitor {
    /// Visits every pointer of `children`, in order, as `visit_ptr` does.
    /// Every child ends handled; the queued pointers only gain entries,
    /// each of them naming a marked slot; and every slot marked here is
    /// named by one of the entries gained.
    pub fn visit_children(&mut self, pages: &mut Vec<PageAt>, children: &Vec<usize>, mask: usize)
        requires
            marking_ready(old(pages)@),
            old(self).objects_marked + unmarked_total(old(pages)@) <= usize::MAX,
        ensures
            final(self).kind == old(self).kind,
            marking_ready(final(pages)@),
            grown(old(pages)@, final(pages)@),
            final(self).objects_marked + unmarked_total(final(pages)@) == old(self).objects_marked + unmarked_total(
                old(pages)@,
            ),
            forall|t: int| 0 <= t < children.len() ==> handled(old(self).kind, final(pages)@, #[trigger] children@[t], mask),
            queued_since(old(self).worklist@, final(self).worklist@, old(pages)@, final(pages)@, mask),
            forall|t: int|
                old(self).worklist@.len() <= t < final(self).worklist@.len() ==> children@.contains(#[trigger] final(self).worklist@[t]),
    {
        let ghost p0 = pages@;
        let ghost w0 = self.worklist@;
        let ghost kind = self.kind;
        let mut j: usize = 0;
        proof {
            assert(self.worklist@.take(w0.len() as int) =~= w0);
        }
        while j < children.len()
            invariant
                self.kind == kind,
                j <= children.len(),
                marking_ready(pages@),
                grown(p0, pages@),
                self.objects_marked + unmarked_total(pages@) == old(self).objects_marked + unmarked_total(p0),
                old(self).objects_marked + unmarked_total(p0) <= usize::MAX,
                p0 == old(pages)@,
                w0 == old(self).worklist@,
                kind == old(self).kind,
                forall|t: int| 0 <= t < j ==> handled(kind, pages@, #[trigger] children@[t], mask),
                self.worklist@.len() >= w0.len(),
                self.worklist@.take(w0.len() as int) == w0,
                forall|t: int|
                    w0.len() <= t < self.worklist@.len() ==> queued_marked(pages@, #[trigger] self.worklist@[t], mask)
                        && locate(p0, self.worklist@[t], mask) is Some,
                forall|t: int| w0.len() <= t < self.worklist@.len() ==> children@.contains(#[trigger] self.worklist@[t]),
                forall|i: int, k: int| #[trigger] newly_marked(p0, pages@, i, k) ==> exists|t: int|
                    w0.len() <= t < self.worklist@.len() && #[trigger] locate(p0, self.worklist@[t], mask) == Some((i, k)),
            decreases children.len() - j,
        {
            let ghost pv = pages@;
            let ghost wv = self.worklist@;
            let c = children[j];
            proof {
                lemma_unmarked_nonneg(pages@);
            }
            self.visit_ptr(pages, c, mask);
            proof {
                lemma_grown_trans(p0, pv, pages@);
                assert(self.worklist@.take(w0.len() as int) =~= w0) by {
                    if !handled(kind, pv, c, mask) {
                        assert(wv.take(w0.len() as int) == w0);
                    }
                }
                assert forall|t: int| w0.len() <= t < self.worklist@.len() implies children@.contains(#[trigger] self.worklist@[t]) by {
                    if t < wv.len() {
                        assert(self.worklist@[t] == wv[t]);
                    } else {
                        assert(self.worklist@[t] == children@[j as int]);
                    }
                }
                assert forall|t: int| 0 <= t < j + 1 implies handled(kind, pages@, #[trigger] children@[t], mask) by {
                    if t < j {
                        lemma_grown_keeps(kind, pv, pages@, children@[t], mask);
                    }
                }
                assert forall|t: int|
                    w0.len() <= t < self.worklist@.len() implies queued_marked(pages@, #[trigger] self.worklist@[t], mask)
                        && locate(p0, self.worklist@[t], mask) is Some by {
                    if t < wv.len() {
                        assert(self.worklist@[t] == wv[t]);
                        lemma_queued_marked_grown(pv, pages@, wv[t], mask);
                    } else {
                        assert(self.worklist@[t] == c);
                        lemma_grown_keeps(kind, pv, pages@, c, mask);
                        lemma_grown_keeps(kind, p0, pv, c, mask);
                    }
                }
                assert forall|i: int, k: int| #[trigger] newly_marked(p0, pages@, i, k) implies exists|t: int|
                    w0.len() <= t < self.worklist@.len() && #[trigger] locate(p0, self.worklist@[t], mask) == Some((i, k)) by {
                    if newly_marked(p0, pv, i, k) {
                        let t = choose|t: int|
                            w0.len() <= t < wv.len() && #[trigger] locate(p0, wv[t], mask) == Some((i, k));
                        assert(self.worklist@[t] == wv[t]);
                    } else {
                        lemma_grown_keeps(kind, p0, pv, c, mask);
                        let t = self.worklist@.len() - 1;
                        assert(self.worklist@[t] == c);
                        assert(locate(p0, self.worklist@[t], mask) == Some((i, k)));
                    }
                }
            }
            j = j + 1;
        }
    }
}


/// A young-generation marking can take `ptr`: on a young GC page of the
/// heap it lies past the header and its slot lies within the bitmap.
pub open spec fn minor_ok(pages: Seq<PageAt>, ptr: usize, mask: usize) -> bool {
    minor_slot(pages, ptr, mask) matches Some((i, k)) ==> {
        &&& ptr >= (ptr & mask) + spec_header_size(pages[i].page.header.block_size as int)
        &&& k < PAGE_SLOTS
    }
}

/// The slot a young-generation marking reaches from `ptr` is marked, or
/// there is none.
pub open spec fn minor_handled(pages: Seq<PageAt>, ptr: usize, mask: usize) -> bool {
    minor_slot(pages, ptr, mask) matches Some((i, k)) ==> pages[i].page.header.marked().contains(k)
}

/// Growing marks leaves the young slot of a pointer, what a young marking
/// can take, and what it handled as they were.
pub proof fn lemma_minor_grew(a: Seq<PageAt>, b: Seq<PageAt>, ptr: usize, mask: usize)
    requires
        marks_grew(a, b),
    ensures
        minor_slot(b, ptr, mask) == minor_slot(a, ptr, mask),
        minor_ok(a, ptr, mask) ==> minor_ok(b, ptr, mask),
        minor_handled(a, ptr, mask) ==> minor_handled(b, ptr, mask),
{
    lemma_page_index_same(a, b, ptr & mask, 0);
    lemma_page_index_found(a, ptr & mask, 0);
}

/// A young slot below the object count is the slot the pointer names.
pub proof fn lemma_minor_locate(pages: Seq<PageAt>, ptr: usize, mask: usize)
    requires
        marking_ready(pages),
        minor_ok(pages, ptr, mask),
    ensures
        minor_slot(pages, ptr, mask) matches Some((i, k)) ==> (k < pages[i].page.header.obj_count ==> locate(
            pages,
            ptr,
            mask,
        ) == Some((i, k))) && 0 <= i < pages.len() && 0 <= k,
{
    lemma_page_index_found(pages, ptr & mask, 0);
    if let Some((i, k)) = minor_slot(pages, ptr, mask) {
        let h = pages[i].page.header;
        crate::page::lemma_header_size_bound(h.block_size as int);
        let base = (ptr & mask) + spec_header_size(h.block_size as int);
        let bs = h.block_size as int;
        assert((ptr - base) / bs >= 0) by (nonlinear_arith)
            requires
                ptr - base >= 0,
                bs > 0,
        ;
    }
}

/// An object of the page `p` that the remembered set names: the object of
/// a large page, or each dirty object of a small page.
pub open spec fn remembered_object(p: PageAt, x: usize) -> bool {
    let h = p.page.header;
    if flag_set(h.flags, PAGE_FLAG_LARGE) {
        x == p.addr + h.header_size
    } else {
        exists|s: int|
            0 <= s < h.obj_count && #[trigger] h.dirty().contains(s) && x == p.addr + spec_header_size(
                h.block_size as int,
            ) + s * h.block_size
    }
}

/// Page `i` is old and some entry of `snap` finds it first by address.
pub open spec fn listed_old(pages: Seq<PageAt>, snap: Seq<usize>, i: int) -> bool {
    &&& pages[i].page.header.generation > 0
    &&& exists|j: int| 0 <= j < snap.len() && #[trigger] page_index(pages, snap[j], 0) == Some(i)
}

/// A page as the remembered-set scan leaves it: no dirty object, off the
/// dirty list, and every object the remembered set named (in `p0`, the
/// page before) traced with its children handled.
pub open spec fn remembered_scanned<F: Fn(usize) -> Vec<usize>>(
    p0: PageAt,
    p: PageAt,
    pages: Seq<PageAt>,
    trace: F,
    mask: usize,
) -> bool {
    &&& p.page.header.dirty() == Set::<int>::empty()
    &&& p.page.header.flags == p0.page.header.flags & !PAGE_FLAG_DIRTY_LISTED
    &&& forall|x: usize| #[trigger] remembered_object(p0, x) ==> traced(VisitorKind::Minor, pages, trace, x, mask)
}

/// `b` is `a` with possibly more marks and possibly other dirty bits and
/// flags: everything else of the page is kept.
pub open spec fn same_but_dirty(a: PageAt, b: PageAt) -> bool {
    &&& b.addr == a.addr
    &&& b.page.header.magic == a.page.header.magic
    &&& b.page.header.block_size == a.page.header.block_size
    &&& b.page.header.obj_count == a.page.header.obj_count
    &&& b.page.header.header_size == a.page.header.header_size
    &&& b.page.header.generation == a.page.header.generation
    &&& b.page.header.owner_thread == a.page.header.owner_thread
    &&& b.page.header.dead_count == a.page.header.dead_count
    &&& b.page.header.free_list_head == a.page.header.free_list_head
    &&& b.page.header.allocated() == a.page.header.allocated()
    &&& a.page.header.marked().subset_of(b.page.header.marked())
    &&& b.page.slots@ == a.page.slots@
}

/// The objects a remembered-set scan computes lie in the address space.
pub open spec fn spans_fit(pages: Seq<PageAt>) -> bool {
    forall|i: int|
        0 <= i < pages.len() ==> {
            &&& (#[trigger] pages[i]).addr + spec_header_size(pages[i].page.header.block_size as int)
                + pages[i].page.header.obj_count * pages[i].page.header.block_size <= usize::MAX
            &&& pages[i].addr + pages[i].page.header.header_size <= usize::MAX
        }
}


/// `x` is the object the conservative lookup finds for one of `roots`.
pub open spec fn resolved_in(
    lo: usize,
    hi: usize,
    local: Map<usize, (usize, usize, usize)>,
    small: Set<usize>,
    pages: Seq<PageAt>,
    global: Map<usize, (usize, usize, usize)>,
    orphans: Seq<OrphanEntry>,
    roots: Seq<usize>,
    mask: usize,
    x: usize,
) -> bool {
    exists|u: int|
        #![trigger roots[u]]
        0 <= u < roots.len() && heap_box(lo, hi, local, small, pages, global, orphans, roots[u], mask) == Some(x as int)
}

/// Young-generation marking of the objects the roots resolve to: each root
/// that the conservative lookup (over `buffers`, `local`, `small`, the
/// pages, `global` and `orphans`) resolves is marked as `mark_object_minor`
/// marks it. The queued pointers only gain entries, each naming a marked
/// slot; every resolved root ends handled; every slot marked here is named
/// by one of the entries gained.
fn mark_minor_root_set(
    visitor: &mut GcVisitor,
    pages: &mut Vec<PageAt>,
    buffers: &HeapBuffers,
    local: &LargeObjectMap,
    small: &HashSet<usize>,
    global: &LargeObjectMap,
    orphans: &Vec<OrphanEntry>,
    roots: &Vec<usize>,
    mask: usize,
)
    requires
        lookup_ready(local@, small@, old(pages)@),
        orphans_readable(orphans@),
        marking_ready(old(pages)@),
        old(visitor).objects_marked + unmarked_total(old(pages)@) <= usize::MAX,
        forall|t: int|
            0 <= t < roots.len() ==> (heap_box(
                buffers.min_addr,
                buffers.max_addr,
                local@,
                small@,
                old(pages)@,
                global@,
                orphans@,
                #[trigger] roots@[t],
                mask,
            ) matches Some(b) ==> minor_ok(old(pages)@, b as usize, mask)),
    ensures
        final(visitor).kind == old(visitor).kind,
        marking_ready(final(pages)@),
        grown(old(pages)@, final(pages)@),
        final(visitor).objects_marked + unmarked_total(final(pages)@) == old(visitor).objects_marked + unmarked_total(
            old(pages)@,
        ),
        final(visitor).worklist@.len() >= old(visitor).worklist@.len(),
        final(visitor).worklist@.take(old(visitor).worklist@.len() as int) == old(visitor).worklist@,
        forall|t: int|
            old(visitor).worklist@.len() <= t < final(visitor).worklist@.len() ==> queued_marked(
                final(pages)@,
                #[trigger] final(visitor).worklist@[t],
                mask,
            ),
        forall|t: int|
            0 <= t < roots.len() ==> (heap_box(
                buffers.min_addr,
                buffers.max_addr,
                local@,
                small@,
                old(pages)@,
                global@,
                orphans@,
                #[trigger] roots@[t],
                mask,
            ) matches Some(b) ==> minor_handled(final(pages)@, b as usize, mask)),
        forall|i: int, k: int| #[trigger] newly_marked(old(pages)@, final(pages)@, i, k) ==> exists|t: int|
            old(visitor).worklist@.len() <= t < final(visitor).worklist@.len() && #[trigger] locate(
                old(pages)@,
                final(visitor).worklist@[t],
                mask,
            ) == Some((i, k)),
        forall|t: int|
            old(visitor).worklist@.len() <= t < final(visitor).worklist@.len() ==> resolved_in(
                buffers.min_addr,
                buffers.max_addr,
                local@,
                small@,
                old(pages)@,
                global@,
                orphans@,
                roots@,
                mask,
                #[trigger] final(visitor).worklist@[t],
            ),
{
    let ghost p0 = pages@;
    let ghost w0 = visitor.worklist@;
    let ghost kind = visitor.kind;
    let ghost lo = buffers.min_addr;
    let ghost hi = buffers.max_addr;
    proof {
        assert(visitor.worklist@.take(w0.len() as int) =~= w0);
    }
    let mut t: usize = 0;
    while t < roots.len()
        invariant
            t <= roots.len(),
            visitor.kind == kind,
            kind == old(visitor).kind,
            p0 == old(pages)@,
            w0 == old(visitor).worklist@,
            lo == buffers.min_addr,
            hi == buffers.max_addr,
            lookup_ready(local@, small@, pages@),
            orphans_readable(orphans@),
            marking_ready(pages@),
            grown(p0, pages@),
            visitor.objects_marked + unmarked_total(pages@) == old(visitor).objects_marked + unmarked_total(p0),
            old(visitor).objects_marked + unmarked_total(p0) <= usize::MAX,
            forall|u: int|
                0 <= u < roots.len() ==> (heap_box(lo, hi, local@, small@, p0, global@, orphans@, #[trigger] roots@[u], mask) matches Some(b)
                    ==> minor_ok(p0, b as usize, mask)),
            visitor.worklist@.len() >= w0.len(),
            visitor.worklist@.take(w0.len() as int) == w0,
            forall|u: int| w0.len() <= u < visitor.worklist@.len() ==> queued_marked(pages@, #[trigger] visitor.worklist@[u], mask),
            forall|u: int|
                0 <= u < t ==> (heap_box(lo, hi, local@, small@, p0, global@, orphans@, #[trigger] roots@[u], mask) matches Some(b)
                    ==> minor_handled(pages@, b as usize, mask)),
            forall|i: int, k: int| #[trigger] newly_marked(p0, pages@, i, k) ==> exists|u: int|
                w0.len() <= u < visitor.worklist@.len() && #[trigger] locate(p0, visitor.worklist@[u], mask) == Some((i, k)),
            forall|u: int|
                w0.len() <= u < visitor.worklist@.len() ==> resolved_in(lo, hi, local@, small@, p0, global@, orphans@, roots@, mask, #[trigger] visitor.worklist@[u]),
        decreases roots.len() - t,
    {
        let ghost pv = pages@;
        let ghost wv = visitor.worklist@;
        proof {
            lemma_grown_lookup(p0, pv, lo, hi, local@, small@, global@, orphans@, roots@[t as int], mask);
        }
        let found = find_gc_box_in(buffers, local, small, pages, global, orphans, roots[t], mask);
        if let Some(b) = found {
            proof {
                lemma_minor_grew(p0, pv, b, mask);
                lemma_minor_locate(pv, b, mask);
                lemma_unmarked_nonneg(pv);
                if let Some((i, k)) = minor_slot(pv, b, mask) {
                    if !pv[i].page.header.marked().contains(k) {
                        lemma_unmarked_in_mark_pos(pv[i].page.header, k);
                        lemma_unmarked_part(pv, i);
                    }
                }
            }
            mark_object_minor(pages, visitor, b, mask);
            proof {
                lemma_grown_trans(p0, pv, pages@);
                lemma_grown_lookup(pv, pages@, lo, hi, local@, small@, global@, orphans@, roots@[t as int], mask);
                assert(visitor.worklist@.take(w0.len() as int) =~= w0) by {
                    assert(wv.take(w0.len() as int) == w0);
                }
                assert forall|u: int| w0.len() <= u < visitor.worklist@.len() implies queued_marked(
                    pages@,
                    #[trigger] visitor.worklist@[u],
                    mask,
                ) by {
                    if u < wv.len() {
                        assert(visitor.worklist@[u] == wv[u]);
                        lemma_queued_marked_grown(pv, pages@, wv[u], mask);
                    } else {
                        assert(visitor.worklist@[u] == b);
                        lemma_grown_keeps(kind, pv, pages@, b, mask);
                        lemma_page_index_found(pv, b & mask, 0);
                    }
                }
                assert(heap_box(lo, hi, local@, small@, p0, global@, orphans@, roots@[t as int], mask) == Some(b as int));
                assert forall|u: int|
                    w0.len() <= u < visitor.worklist@.len() implies resolved_in(lo, hi, local@, small@, p0, global@, orphans@, roots@, mask, #[trigger] visitor.worklist@[u]) by {
                    if u < wv.len() {
                        assert(visitor.worklist@[u] == wv[u]);
                    } else {
                        assert(visitor.worklist@[u] == b);
                    }
                }
                assert forall|u: int|
                    0 <= u < t + 1 implies (heap_box(lo, hi, local@, small@, p0, global@, orphans@, #[trigger] roots@[u], mask) matches Some(bb)
                        ==> minor_handled(pages@, bb as usize, mask)) by {
                    if let Some(bb) = heap_box(lo, hi, local@, small@, p0, global@, orphans@, roots@[u], mask) {
                        lemma_minor_grew(pv, pages@, bb as usize, mask);
                    }
                }
                assert forall|i: int, k: int| #[trigger] newly_marked(p0, pages@, i, k) implies exists|u: int|
                    w0.len() <= u < visitor.worklist@.len() && #[trigger] locate(p0, visitor.worklist@[u], mask) == Some((i, k)) by {
                    if newly_marked(p0, pv, i, k) {
                        let u = choose|u: int| w0.len() <= u < wv.len() && #[trigger] locate(p0, wv[u], mask) == Some((i, k));
                        assert(visitor.worklist@[u] == wv[u]);
                    } else {
                        lemma_grown_keeps(kind, p0, pv, b, mask);
                        let u = visitor.worklist@.len() - 1;
                        assert(visitor.worklist@[u] == b);
                        assert(locate(p0, visitor.worklist@[u], mask) == Some((i, k)));
                    }
                }
            }
        }
        t = t + 1;
    }
}


/// Clearing the dirty-list flag keeps the large-object flag, and clearing
/// it twice is clearing it once.
proof fn lemma_clear_listed(f: u8)
    ensures
        flag_set(f & !PAGE_FLAG_DIRTY_LISTED, PAGE_FLAG_LARGE) == flag_set(f, PAGE_FLAG_LARGE),
        (f & !PAGE_FLAG_DIRTY_LISTED) & !PAGE_FLAG_DIRTY_LISTED == f & !PAGE_FLAG_DIRTY_LISTED,
{
    assert((f & !0x10u8) & 0x01u8 == f & 0x01u8) by (bit_vector);
    assert((f & !0x10u8) & !0x10u8 == f & !0x10u8) by (bit_vector);
}

/// Every page of `cur` is where the remembered-set scan over the entries
/// `snap` left it, relative to `p0`: pages found first by an entry and old
/// are scanned, the others keep their dirty bits and flags.
pub open spec fn scan_status<F: Fn(usize) -> Vec<usize>>(
    p0: Seq<PageAt>,
    snap: Seq<usize>,
    cur: Seq<PageAt>,
    trace: F,
    mask: usize,
) -> bool {
    forall|i: int|
        0 <= i < p0.len() ==> if listed_old(p0, snap, i) {
            remembered_scanned(p0[i], #[trigger] cur[i], cur, trace, mask)
        } else {
            &&& cur[i].page.header.dirty() == p0[i].page.header.dirty()
            &&& cur[i].page.header.flags == p0[i].page.header.flags
        }
}

/// Growing marks that leave dirty bits and flags alone keep the scan
/// status.
proof fn lemma_scan_status_grew<F: Fn(usize) -> Vec<usize>>(
    p0: Seq<PageAt>,
    snap: Seq<usize>,
    c1: Seq<PageAt>,
    c2: Seq<PageAt>,
    trace: F,
    mask: usize,
)
    requires
        p0.len() == c1.len(),
        scan_status(p0, snap, c1, trace, mask),
        marks_grew(c1, c2),
        forall|i: int|
            0 <= i < c1.len() ==> (#[trigger] c2[i]).page.header.dirty() == c1[i].page.header.dirty()
                && c2[i].page.header.flags == c1[i].page.header.flags,
    ensures
        scan_status(p0, snap, c2, trace, mask),
{
    assert forall|i: int| 0 <= i < p0.len() implies (if listed_old(p0, snap, i) {
        remembered_scanned(p0[i], #[trigger] c2[i], c2, trace, mask)
    } else {
        &&& c2[i].page.header.dirty() == p0[i].page.header.dirty()
        &&& c2[i].page.header.flags == p0[i].page.header.flags
    }) by {
        assert(c1[i] == c1[i]);
        if listed_old(p0, snap, i) {
            assert(remembered_scanned(p0[i], c1[i], c1, trace, mask));
            assert forall|x: usize| #[trigger] remembered_object(p0[i], x) implies traced(
                VisitorKind::Minor,
                c2,
                trace,
                x,
                mask,
            ) by {
                lemma_traced_grown(VisitorKind::Minor, c1, c2, trace, x, mask);
            }
        }
    }
}

/// A page's objects lie in the address space as the page says.
proof fn lemma_slot_addr(a: int, hs: int, s: int, bs: int, n: int)
    requires
        0 <= s < n,
        0 <= bs,
        0 <= a,
        0 <= hs,
        a + hs + n * bs <= usize::MAX,
    ensures
        s * bs <= n * bs,
        a + hs + s * bs <= usize::MAX,
{
    assert(s * bs <= n * bs) by (nonlinear_arith)
        requires
            0 <= s < n,
            0 <= bs,
    ;
}


/// Pages that differ from `a` only in more marks, in page `i`'s dirty
/// bits and flags, and nowhere else.
pub open spec fn only_page_dirt(a: Seq<PageAt>, b: Seq<PageAt>, i: int) -> bool {
    &&& a.len() == b.len()
    &&& marks_grew(a, b)
    &&& forall|q: int| 0 <= q < a.len() ==> same_but_dirty(a[q], #[trigger] b[q])
    &&& forall|q: int|
        0 <= q < a.len() && q != i ==> (#[trigger] b[q]).page.header.dirty() == a[q].page.header.dirty()
            && b[q].page.header.flags == a[q].page.header.flags
}

/// `x` is an object of the page `p`: its large object, or one of its slots.
pub open spec fn page_object(p: PageAt, x: usize) -> bool {
    ||| x == p.addr + p.page.header.header_size
    ||| exists|s: int|
        0 <= s < p.page.header.obj_count && #[trigger] (p.addr + spec_header_size(p.page.header.block_size as int)
            + s * p.page.header.block_size) == x
}

/// `c` is a child that `trace` reports for an object of the page `p`.
pub open spec fn page_child<F: Fn(usize) -> Vec<usize>>(p: PageAt, trace: F, c: usize) -> bool {
    exists|x: usize, r: Vec<usize>| #[trigger] call_ensures(trace, (x,), r) && page_object(p, x) && r@.contains(c)
}

/// `c` is a child that `trace` reports for an object of an old page of
/// `pages`.
pub open spec fn old_page_child<F: Fn(usize) -> Vec<usize>>(pages: Seq<PageAt>, trace: F, c: usize) -> bool {
    exists|i: int| 0 <= i < pages.len() && (#[trigger] pages[i]).page.header.generation > 0 && page_child(pages[i], trace, c)
}

impl GcVisitor {
    /// Scans the old page `i` at `addr` for a young-generation collection:
    /// the object of a large page, or each dirty object of a small page, is
    /// traced and its children visited; then the page loses its dirty bits
    /// and leaves the dirty list.
    fn scan_remembered_page<F: Fn(usize) -> Vec<usize>>(
        &mut self,
        pages: &mut Vec<PageAt>,
        i: usize,
        addr: usize,
        mask: usize,
        trace: &F,
    )
        requires
            old(self).kind == VisitorKind::Minor,
            i < old(pages).len(),
            old(pages)@[i as int].addr == addr,
            marking_ready(old(pages)@),
            spans_fit(old(pages)@),
            forall|q: usize| call_requires(*trace, (q,)),
            old(self).objects_marked + unmarked_total(old(pages)@) <= usize::MAX,
        ensures
            final(self).kind == old(self).kind,
            marking_ready(final(pages)@),
            spans_fit(final(pages)@),
            only_page_dirt(old(pages)@, final(pages)@, i as int),
            final(pages)@[i as int].page.header.dirty() == Set::<int>::empty(),
            final(pages)@[i as int].page.header.flags == old(pages)@[i as int].page.header.flags & !PAGE_FLAG_DIRTY_LISTED,
            forall|x: usize| #[trigger] remembered_object(old(pages)@[i as int], x) ==> traced(
                VisitorKind::Minor,
                final(pages)@,
                *trace,
                x,
                mask,
            ),
            final(self).objects_marked + unmarked_total(final(pages)@) == old(self).objects_marked + unmarked_total(
                old(pages)@,
            ),
            queued_since(old(self).worklist@, final(self).worklist@, old(pages)@, final(pages)@, mask),
            forall|t: int|
                old(self).worklist@.len() <= t < final(self).worklist@.len() ==> page_child(
                    old(pages)@[i as int],
                    *trace,
                    #[trigger] final(self).worklist@[t],
                ),
    {
        let ghost p0 = pages@;
        let ghost w0 = self.worklist@;
        let ghost h0 = pages@[i as int].page.header;
        proof {
            assert(self.worklist@.take(w0.len() as int) =~= w0);
            lemma_grown_refl(p0);
        }
        if pages[i].page.header.is_large_object() {
            let obj = addr + pages[i].page.header.header_size as usize;
            let r = trace(obj);
            let ghost pv = pages@;
            proof {
                lemma_unmarked_nonneg(pv);
            }
            self.visit_children(pages, &r, mask);
            proof {
                assert(traced(VisitorKind::Minor, pages@, *trace, obj, mask));
                assert(page_object(p0[i as int], obj));
                assert forall|t: int| w0.len() <= t < self.worklist@.len() implies page_child(p0[i as int], *trace, #[trigger] self.worklist@[t]) by {
                    assert(r@.contains(self.worklist@[t]));
                    assert(call_ensures(*trace, (obj,), r));
                }
            }
        } else {
            let bs = pages[i].page.header.block_size as usize;
            let hs = PageHeader::header_size(bs);
            let cnt = pages[i].page.header.obj_count as usize;
            proof {
                crate::page::lemma_header_size_bound(bs as int);
                assert(p0[i as int].addr + spec_header_size(bs as int) + cnt * bs <= usize::MAX);
            }
            let mut s: usize = 0;
            while s < cnt
                invariant
                    self.kind == VisitorKind::Minor,
                    forall|q: usize| call_requires(*trace, (q,)),
                    i < p0.len(),
                    p0 == old(pages)@,
                    w0 == old(self).worklist@,
                    h0 == p0[i as int].page.header,
                    !flag_set(h0.flags, PAGE_FLAG_LARGE),
                    addr == p0[i as int].addr,
                    bs == h0.block_size,
                    hs == spec_header_size(bs as int),
                    cnt == h0.obj_count,
                    cnt <= PAGE_SLOTS,
                    addr + hs + cnt * bs <= usize::MAX,
                    s <= cnt,
                    marking_ready(pages@),
                    grown(p0, pages@),
                    self.objects_marked + unmarked_total(pages@) == old(self).objects_marked + unmarked_total(p0),
                    old(self).objects_marked + unmarked_total(p0) <= usize::MAX,
                    queued_since(w0, self.worklist@, p0, pages@, mask),
                    forall|t: int| w0.len() <= t < self.worklist@.len() ==> page_child(p0[i as int], *trace, #[trigger] self.worklist@[t]),
                    forall|t: int|
                        0 <= t < s && #[trigger] h0.dirty().contains(t) ==> traced(
                            VisitorKind::Minor,
                            pages@,
                            *trace,
                            (addr + hs + t * bs) as usize,
                            mask,
                        ),
                decreases cnt - s,
            {
                let ghost pv = pages@;
                let ghost wv = self.worklist@;
                if pages[i].page.header.is_dirty(s) {
                    proof {
                        lemma_slot_addr(addr as int, hs as int, s as int, bs as int, cnt as int);
                    }
                    let obj = addr + hs + s * bs;
                    let r = trace(obj);
                    proof {
                        lemma_unmarked_nonneg(pv);
                    }
                    self.visit_children(pages, &r, mask);
                    proof {
                        assert(page_object(p0[i as int], obj)) by {
                            assert((addr + spec_header_size(bs as int) + s * bs) == obj);
                        }
                        assert forall|t: int| w0.len() <= t < self.worklist@.len() implies page_child(p0[i as int], *trace, #[trigger] self.worklist@[t]) by {
                            if t < wv.len() {
                                assert(self.worklist@[t] == wv[t]);
                            } else {
                                assert(r@.contains(self.worklist@[t]));
                                assert(call_ensures(*trace, (obj,), r));
                            }
                        }
                        lemma_grown_trans(p0, pv, pages@);
                        lemma_queued_since_trans(w0, wv, self.worklist@, p0, pv, pages@, mask);
                        assert forall|t: int|
                            0 <= t < s + 1 && #[trigger] h0.dirty().contains(t) implies traced(
                                VisitorKind::Minor,
                                pages@,
                                *trace,
                                (addr + hs + t * bs) as usize,
                                mask,
                            ) by {
                            if t < s {
                                lemma_traced_grown(VisitorKind::Minor, pv, pages@, *trace, (addr + hs + t * bs) as usize, mask);
                            } else {
                                assert(traced(VisitorKind::Minor, pages@, *trace, obj, mask));
                            }
                        }
                    }
                }
                s = s + 1;
            }
            proof {
                assert forall|x: usize| #[trigger] remembered_object(p0[i as int], x) implies traced(
                    VisitorKind::Minor,
                    pages@,
                    *trace,
                    x,
                    mask,
                ) by {
                    let t = choose|t: int|
                        0 <= t < h0.obj_count && #[trigger] h0.dirty().contains(t) && x == addr + spec_header_size(
                            h0.block_size as int,
                        ) + t * h0.block_size;
                    assert(h0.dirty().contains(t));
                }
            }
        }
        let ghost pc = pages@;
        let mut at = pages.remove(i);
        at.page.header.clear_all_dirty();
        at.page.header.clear_dirty_listed();
        pages.insert(i, at);
        proof {
            assert(pages@ =~= pc.update(i as int, at));
            assert(marks_grew(pc, pages@));
            assert(only_page_dirt(p0, pages@, i as int));
            assert(queued_since(w0, self.worklist@, p0, pages@, mask)) by {
                assert forall|t: int| w0.len() <= t < self.worklist@.len() implies queued_marked(
                    pages@,
                    #[trigger] self.worklist@[t],
                    mask,
                ) && locate(p0, self.worklist@[t], mask) is Some by {
                    lemma_queued_marked_grown(pc, pages@, self.worklist@[t], mask);
                }
                assert forall|i2: int, k2: int| #[trigger] newly_marked(p0, pages@, i2, k2) implies exists|t: int|
                    w0.len() <= t < self.worklist@.len() && #[trigger] locate(p0, self.worklist@[t], mask) == Some((i2, k2)) by {
                    assert(newly_marked(p0, pc, i2, k2));
                }
            }
            assert forall|x: usize| #[trigger] remembered_object(p0[i as int], x) implies traced(
                VisitorKind::Minor,
                pages@,
                *trace,
                x,
                mask,
            ) by {
                lemma_traced_grown(VisitorKind::Minor, pc, pages@, *trace, x, mask);
            }
            assert(unmarked_total(pages@) == unmarked_total(pc)) by {
                lemma_unmarked_update(pc, i as int, at);
                assert(at.page.header.marked() == pc[i as int].page.header.marked());
            }
        }
    }
}


impl GcVisitor {
    /// The remembered-set scan of a young-generation collection: for each
    /// entry of `snap` (the dirty-page snapshot), the first page at that
    /// address, when it is old, is scanned as `scan_remembered_page` scans
    /// it. Young pages and addresses of no page are passed over.
    fn scan_remembered<F: Fn(usize) -> Vec<usize>>(
        &mut self,
        pages: &mut Vec<PageAt>,
        snap: &Vec<usize>,
        mask: usize,
        trace: &F,
    )
        requires
            old(self).kind == VisitorKind::Minor,
            marking_ready(old(pages)@),
            spans_fit(old(pages)@),
            forall|q: usize| call_requires(*trace, (q,)),
            old(self).objects_marked + unmarked_total(old(pages)@) <= usize::MAX,
        ensures
            final(self).kind == old(self).kind,
            marking_ready(final(pages)@),
            final(pages).len() == old(pages).len(),
            marks_grew(old(pages)@, final(pages)@),
            forall|q: int| 0 <= q < old(pages).len() ==> same_but_dirty(old(pages)@[q], #[trigger] final(pages)@[q]),
            scan_status(old(pages)@, snap@, final(pages)@, *trace, mask),
            final(self).objects_marked + unmarked_total(final(pages)@) == old(self).objects_marked + unmarked_total(
                old(pages)@,
            ),
            queued_since(old(self).worklist@, final(self).worklist@, old(pages)@, final(pages)@, mask),
            forall|t: int|
                old(self).worklist@.len() <= t < final(self).worklist@.len() ==> old_page_child(
                    old(pages)@,
                    *trace,
                    #[trigger] final(self).worklist@[t],
                ),
    {
        let ghost p0 = pages@;
        let ghost w0 = self.worklist@;
        proof {
            assert(self.worklist@.take(w0.len() as int) =~= w0);
            lemma_grown_refl(p0);
            assert(scan_status(p0, snap@.take(0), pages@, *trace, mask));
        }
        let mut j: usize = 0;
        while j < snap.len()
            invariant
                self.kind == VisitorKind::Minor,
                forall|q: usize| call_requires(*trace, (q,)),
                p0 == old(pages)@,
                w0 == old(self).worklist@,
                j <= snap.len(),
                pages.len() == p0.len(),
                marking_ready(pages@),
                spans_fit(pages@),
                marks_grew(p0, pages@),
                forall|q: int| 0 <= q < p0.len() ==> same_but_dirty(p0[q], #[trigger] pages@[q]),
                scan_status(p0, snap@.take(j as int), pages@, *trace, mask),
                self.objects_marked + unmarked_total(pages@) == old(self).objects_marked + unmarked_total(p0),
                old(self).objects_marked + unmarked_total(p0) <= usize::MAX,
                queued_since(w0, self.worklist@, p0, pages@, mask),
                forall|t: int| w0.len() <= t < self.worklist@.len() ==> old_page_child(p0, *trace, #[trigger] self.worklist@[t]),
            decreases snap.len() - j,
        {
            let ghost pv = pages@;
            let ghost wv = self.worklist@;
            let ghost sj = snap@.take(j as int);
            let ghost sj1 = snap@.take(j + 1);
            let a = snap[j];
            proof {
                lemma_page_index_same(p0, pv, a, 0);
                lemma_page_index_found(p0, a, 0);
                assert(sj1 == sj.push(a));
            }
            let found = find_page(pages, a);
            match found {
                None => {
                    proof {
                        assert forall|i: int| 0 <= i < p0.len() implies listed_old(p0, sj1, i) == listed_old(p0, sj, i) by {
                            if listed_old(p0, sj1, i) {
                                let jj = choose|jj: int| 0 <= jj < sj1.len() && #[trigger] page_index(p0, sj1[jj], 0) == Some(i);
                                assert(jj < sj.len());
                                assert(sj[jj] == sj1[jj]);
                            }
                            if listed_old(p0, sj, i) {
                                let jj = choose|jj: int| 0 <= jj < sj.len() && #[trigger] page_index(p0, sj[jj], 0) == Some(i);
                                assert(sj1[jj] == sj[jj]);
                            }
                        }
                        assert(scan_status(p0, sj1, pages@, *trace, mask));
                    }
                },
                Some(i) => {
                    if pages[i].page.header.generation == 0 {
                        proof {
                            assert forall|q: int| 0 <= q < p0.len() implies listed_old(p0, sj1, q) == listed_old(p0, sj, q) by {
                                if listed_old(p0, sj1, q) {
                                    let jj = choose|jj: int| 0 <= jj < sj1.len() && #[trigger] page_index(p0, sj1[jj], 0) == Some(q);
                                    if jj == sj.len() {
                                        assert(q == i);
                                    } else {
                                        assert(sj[jj] == sj1[jj]);
                                    }
                                }
                                if listed_old(p0, sj, q) {
                                    let jj = choose|jj: int| 0 <= jj < sj.len() && #[trigger] page_index(p0, sj[jj], 0) == Some(q);
                                    assert(sj1[jj] == sj[jj]);
                                }
                            }
                            assert(scan_status(p0, sj1, pages@, *trace, mask));
                        }
                    } else {
                        let ghost was = listed_old(p0, sj, i as int);
                        proof {
                            lemma_unmarked_nonneg(pv);
                        }
                        self.scan_remembered_page(pages, i, a, mask, trace);
                        proof {
                            let pn = pages@;
                            assert(same_but_dirty(p0[i as int], pv[i as int]));
                            assert forall|t: int| w0.len() <= t < self.worklist@.len() implies old_page_child(p0, *trace, #[trigger] self.worklist@[t]) by {
                                if t < wv.len() {
                                    assert(self.worklist@[t] == wv[t]);
                                } else {
                                    let c = self.worklist@[t];
                                    assert(page_child(pv[i as int], *trace, c));
                                    let (x, r) = choose|x: usize, r: Vec<usize>| #[trigger] call_ensures(*trace, (x,), r) && page_object(pv[i as int], x) && r@.contains(c);
                                    assert(page_object(p0[i as int], x));
                                    assert(page_child(p0[i as int], *trace, c));
                                    assert(p0[i as int].page.header.generation > 0);
                                }
                            }
                            lemma_marks_grew_trans(p0, pv, pn);
                            lemma_queued_since_trans(w0, wv, self.worklist@, p0, pv, pn, mask);
                            lemma_clear_listed(p0[i as int].page.header.flags);
                            assert(listed_old(p0, sj1, i as int)) by {
                                assert(page_index(p0, sj1[sj.len() as int], 0) == Some(i as int));
                            }
                            assert forall|q: int| 0 <= q < p0.len() && q != i implies listed_old(p0, sj1, q) == listed_old(p0, sj, q) by {
                                if listed_old(p0, sj1, q) {
                                    let jj = choose|jj: int| 0 <= jj < sj1.len() && #[trigger] page_index(p0, sj1[jj], 0) == Some(q);
                                    if jj < sj.len() {
                                        assert(sj[jj] == sj1[jj]);
                                    }
                                }
                                if listed_old(p0, sj, q) {
                                    let jj = choose|jj: int| 0 <= jj < sj.len() && #[trigger] page_index(p0, sj[jj], 0) == Some(q);
                                    assert(sj1[jj] == sj[jj]);
                                }
                            }
                            assert forall|q: int| 0 <= q < p0.len() implies (if listed_old(p0, sj1, q) {
                                remembered_scanned(p0[q], #[trigger] pn[q], pn, *trace, mask)
                            } else {
                                &&& pn[q].page.header.dirty() == p0[q].page.header.dirty()
                                &&& pn[q].page.header.flags == p0[q].page.header.flags
                            }) by {
                                assert(pv[q] == pv[q]);
                                if q == i {
                                    if was {
                                        assert(remembered_scanned(p0[q], pv[q], pv, *trace, mask));
                                        assert forall|x: usize| #[trigger] remembered_object(p0[q], x) implies traced(
                                            VisitorKind::Minor,
                                            pn,
                                            *trace,
                                            x,
                                            mask,
                                        ) by {
                                            if flag_set(p0[q].page.header.flags, PAGE_FLAG_LARGE) {
                                                assert(remembered_object(pv[q], x));
                                            } else {
                                                lemma_traced_grown(VisitorKind::Minor, pv, pn, *trace, x, mask);
                                            }
                                        }
                                    } else {
                                        assert forall|x: usize| #[trigger] remembered_object(p0[q], x) implies traced(
                                            VisitorKind::Minor,
                                            pn,
                                            *trace,
                                            x,
                                            mask,
                                        ) by {
                                            assert(remembered_object(pv[q], x));
                                        }
                                    }
                                } else if listed_old(p0, sj, q) {
                                    assert(remembered_scanned(p0[q], pv[q], pv, *trace, mask));
                                    assert forall|x: usize| #[trigger] remembered_object(p0[q], x) implies traced(
                                        VisitorKind::Minor,
                                        pn,
                                        *trace,
                                        x,
                                        mask,
                                    ) by {
                                        lemma_traced_grown(VisitorKind::Minor, pv, pn, *trace, x, mask);
                                    }
                                }
                            }
                        }
                    }
                },
            }
            j = j + 1;
        }
        proof {
            assert(snap@.take(snap.len() as int) =~= snap@);
        }
    }
}


/// Where a young-generation marking starts from: an object the lookup in
/// `heap` resolves one of `roots` to, or a child that `trace` reports for
/// an object of an old page (the remembered set).
pub open spec fn minor_source<F: Fn(usize) -> Vec<usize>>(
    heap: LocalHeap,
    global: Map<usize, (usize, usize, usize)>,
    orphans: Seq<OrphanEntry>,
    roots: Seq<usize>,
    mask: usize,
    pages: Seq<PageAt>,
    trace: F,
    x: usize,
) -> bool {
    ||| exists|u: int|
        #![trigger roots[u]]
        0 <= u < roots.len() && root_box(heap, global, orphans, roots[u], mask) == Some(x as int)
    ||| old_page_child(pages, trace, x)
}

/// `q` is reachable from where a young-generation marking starts.
pub open spec fn minor_reached<F: Fn(usize) -> Vec<usize>>(
    heap: LocalHeap,
    global: Map<usize, (usize, usize, usize)>,
    orphans: Seq<OrphanEntry>,
    roots: Seq<usize>,
    mask: usize,
    pages: Seq<PageAt>,
    trace: F,
    q: usize,
) -> bool {
    exists|x: usize, n: nat|
        #[trigger] reaches(pages, trace, mask, x, q, n) && minor_source(heap, global, orphans, roots, mask, pages, trace, x)
}

/// Marks, for a young-generation collection, everything young reachable
/// from `roots` and from the remembered set: every root that the
/// conservative lookup resolves is marked as `mark_object_minor` marks it;
/// then each old page of the dirty-page snapshot is scanned (its large
/// object, or each of its dirty objects, traced, then its dirty bits and
/// dirty-list flag cleared); the snapshot is closed and the worklist
/// drained with `trace`. Returns how many objects were marked.
pub fn mark_minor_roots<F: Fn(usize) -> Vec<usize>>(
    heap: &mut LocalHeap,
    global: &LargeObjectMap,
    orphans: &Vec<OrphanEntry>,
    roots: &Vec<usize>,
    mask: usize,
    trace: &F,
) -> (n: usize)
    requires
        lookup_ready(old(heap).large_object_map@, old(heap).small_pages@, old(heap).pages@),
        orphans_readable(orphans@),
        marking_ready(old(heap).pages@),
        spans_fit(old(heap).pages@),
        forall|q: usize| call_requires(*trace, (q,)),
        unmarked_total(old(heap).pages@) <= usize::MAX,
        forall|t: int|
            0 <= t < roots.len() ==> (root_box(*old(heap), global@, orphans@, #[trigger] roots@[t], mask) matches Some(b)
                ==> minor_ok(old(heap).pages@, b as usize, mask)),
        old(heap).buffers.dirty_pages@.len() + old(heap).buffers.dirty_page_history[0]
            + old(heap).buffers.dirty_page_history[1] + old(heap).buffers.dirty_page_history[2] <= usize::MAX,
    ensures
        n == unmarked_total(old(heap).pages@) - unmarked_total(final(heap).pages@),
        final(heap).pages.len() == old(heap).pages.len(),
        marking_ready(final(heap).pages@),
        marks_grew(old(heap).pages@, final(heap).pages@),
        forall|q: int| 0 <= q < old(heap).pages.len() ==> same_but_dirty(old(heap).pages@[q], #[trigger] final(heap).pages@[q]),
        scan_status(old(heap).pages@, old(heap).buffers.dirty_pages@, final(heap).pages@, *trace, mask),
        final(heap).small_pages@ == old(heap).small_pages@,
        final(heap).large_object_map@ == old(heap).large_object_map@,
        final(heap).young_allocated == old(heap).young_allocated,
        final(heap).old_allocated == old(heap).old_allocated,
        final(heap).buffers.min_addr == old(heap).buffers.min_addr,
        final(heap).buffers.max_addr == old(heap).buffers.max_addr,
        final(heap).buffers.dirty_pages@ == Seq::<usize>::empty(),
        final(heap).buffers.dirty_pages_snapshot@ == Seq::<usize>::empty(),
        final(heap).buffers.dirty_page_history@ == seq![
            old(heap).buffers.dirty_pages@.len() as usize,
            old(heap).buffers.dirty_page_history[0],
            old(heap).buffers.dirty_page_history[1],
            old(heap).buffers.dirty_page_history[2],
        ],
        forall|t: int|
            0 <= t < roots.len() ==> (root_box(*old(heap), global@, orphans@, #[trigger] roots@[t], mask) matches Some(b)
                ==> minor_handled(final(heap).pages@, b as usize, mask)),
        forall|i: int, k: int|
            #[trigger] newly_marked(old(heap).pages@, final(heap).pages@, i, k) ==> exists|q: usize|
                #[trigger] locate(old(heap).pages@, q, mask) == Some((i, k)) && traced(
                    VisitorKind::Minor,
                    final(heap).pages@,
                    *trace,
                    q,
                    mask,
                ),
        forall|i: int, k: int|
            #[trigger] newly_marked(old(heap).pages@, final(heap).pages@, i, k) ==> exists|q: usize|
                #[trigger] locate(old(heap).pages@, q, mask) == Some((i, k)) && minor_reached(
                    *old(heap),
                    global@,
                    orphans@,
                    roots@,
                    mask,
                    old(heap).pages@,
                    *trace,
                    q,
                ),
{
    let ghost h0 = *heap;
    let ghost p0 = heap.pages@;
    let ghost snap0 = heap.buffers.dirty_pages@;
    let mut visitor = GcVisitor::new(VisitorKind::Minor);
    proof {
        lemma_unmarked_nonneg(p0);
    }
    mark_minor_root_set(
        &mut visitor,
        &mut heap.pages,
        &heap.buffers,
        &heap.large_object_map,
        &heap.small_pages,
        global,
        orphans,
        roots,
        mask,
    );
    let ghost p1 = heap.pages@;
    let ghost w1 = visitor.worklist@;
    let _count = heap.buffers.take_dirty_pages_snapshot();
    proof {
        lemma_unmarked_nonneg(p1);
        assert forall|i: int| 0 <= i < p1.len() implies (#[trigger] p1[i]).addr + spec_header_size(
            p1[i].page.header.block_size as int,
        ) + p1[i].page.header.obj_count * p1[i].page.header.block_size <= usize::MAX && p1[i].addr
            + p1[i].page.header.header_size <= usize::MAX by {
            assert(p0[i] == p0[i]);
        }
    }
    visitor.scan_remembered(&mut heap.pages, &heap.buffers.dirty_pages_snapshot, mask, trace);
    let ghost p2 = heap.pages@;
    let ghost w2 = visitor.worklist@;
    heap.buffers.clear_dirty_pages_snapshot();
    proof {
        lemma_unmarked_nonneg(p2);
        assert forall|x: int| 0 <= x < w2.len() implies queued_marked(p2, #[trigger] w2[x], mask) by {
            if x < w1.len() {
                assert(w2[x] == w2.take(w1.len() as int)[x]);
                lemma_queued_marked_grown(p1, p2, w1[x], mask);
            }
        }
        assert forall|i: int, k: int| #[trigger] newly_marked(p0, p2, i, k) implies exists|t: int|
            0 <= t < w2.len() && #[trigger] locate(p0, w2[t], mask) == Some((i, k)) by {
            if newly_marked(p0, p1, i, k) {
                let t = choose|t: int| 0 <= t < w1.len() && #[trigger] locate(p0, w1[t], mask) == Some((i, k));
                assert(w2[t] == w2.take(w1.len() as int)[t]);
                assert(locate(p0, w2[t], mask) == Some((i, k)));
            } else {
                assert(newly_marked(p1, p2, i, k));
                let t = choose|t: int| w1.len() <= t < w2.len() && #[trigger] locate(p1, w2[t], mask) == Some((i, k));
                lemma_grown_keeps(VisitorKind::Minor, p0, p1, w2[t], mask);
                assert(locate(p0, w2[t], mask) == Some((i, k)));
            }
        }
    }
    visitor.process_worklist(&mut heap.pages, mask, trace);
    proof {
        let pf = heap.pages@;
        lemma_marks_grew_trans(p0, p1, p2);
        lemma_marks_grew_trans(p0, p2, pf);
        assert forall|q: int| 0 <= q < p0.len() implies same_but_dirty(p0[q], #[trigger] pf[q]) by {
            assert(same_but_dirty(p1[q], p2[q]));
            assert(p1[q] == p1[q]);
        }
        // The scan status is stated relative to the pages as the roots left
        // them; they differ from the pages before only in marks.
        assert forall|i: int| 0 <= i < p0.len() implies listed_old(p0, snap0, i) == listed_old(p1, snap0, i) by {
            if listed_old(p0, snap0, i) {
                let jj = choose|jj: int| 0 <= jj < snap0.len() && #[trigger] page_index(p0, snap0[jj], 0) == Some(i);
                lemma_page_index_same(p0, p1, snap0[jj], 0);
            }
            if listed_old(p1, snap0, i) {
                let jj = choose|jj: int| 0 <= jj < snap0.len() && #[trigger] page_index(p1, snap0[jj], 0) == Some(i);
                lemma_page_index_same(p0, p1, snap0[jj], 0);
            }
        }
        lemma_scan_status_grew(p1, snap0, p2, pf, *trace, mask);
        assert forall|i: int| 0 <= i < p0.len() implies (if listed_old(p0, snap0, i) {
            remembered_scanned(p0[i], #[trigger] pf[i], pf, *trace, mask)
        } else {
            &&& pf[i].page.header.dirty() == p0[i].page.header.dirty()
            &&& pf[i].page.header.flags == p0[i].page.header.flags
        }) by {
            assert(p1[i] == p1[i]);
            assert(pf[i] == pf[i]);
            if listed_old(p0, snap0, i) {
                assert(listed_old(p1, snap0, i));
                assert(remembered_scanned(p1[i], pf[i], pf, *trace, mask));
                assert forall|x: usize| #[trigger] remembered_object(p0[i], x) implies traced(
                    VisitorKind::Minor,
                    pf,
                    *trace,
                    x,
                    mask,
                ) by {
                    let h0 = p0[i].page.header;
                    let h1 = p1[i].page.header;
                    assert(h1.dirty() == h0.dirty());
                    if !flag_set(h0.flags, PAGE_FLAG_LARGE) {
                        let s2 = choose|s2: int|
                            0 <= s2 < h0.obj_count && #[trigger] h0.dirty().contains(s2) && x == p0[i].addr + spec_header_size(
                                h0.block_size as int,
                            ) + s2 * h0.block_size;
                        assert(h1.dirty().contains(s2));
                    }
                    assert(remembered_object(p1[i], x));
                }
            }
        }
        assert forall|t2: int|
            0 <= t2 < roots.len() implies (root_box(h0, global@, orphans@, #[trigger] roots@[t2], mask) matches Some(b)
                ==> minor_handled(pf, b as usize, mask)) by {
            if let Some(b) = root_box(h0, global@, orphans@, roots@[t2], mask) {
                lemma_minor_grew(p1, pf, b as usize, mask);
            }
        }
        assert forall|t: int| 0 <= t < w2.len() implies minor_source(h0, global@, orphans@, roots@, mask, p0, *trace, #[trigger] w2[t]) by {
            if t < w1.len() {
                assert(w2[t] == w2.take(w1.len() as int)[t]);
                assert(resolved_in(h0.buffers.min_addr, h0.buffers.max_addr, h0.large_object_map@, h0.small_pages@, p0, global@, orphans@, roots@, mask, w1[t]));
                let u = choose|u: int|
                    #![trigger roots@[u]]
                    0 <= u < roots.len() && heap_box(h0.buffers.min_addr, h0.buffers.max_addr, h0.large_object_map@, h0.small_pages@, p0, global@, orphans@, roots@[u], mask) == Some(w1[t] as int);
                assert(root_box(h0, global@, orphans@, roots@[u], mask) == Some(w2[t] as int));
            } else {
                let c = w2[t];
                assert(old_page_child(p1, *trace, c));
                let i = choose|i: int| 0 <= i < p1.len() && (#[trigger] p1[i]).page.header.generation > 0 && page_child(p1[i], *trace, c);
                let (x, r) = choose|x: usize, r: Vec<usize>| #[trigger] call_ensures(*trace, (x,), r) && page_object(p1[i], x) && r@.contains(c);
                assert(page_object(p0[i], x));
                assert(page_child(p0[i], *trace, c));
                assert(old_page_child(p0, *trace, c));
            }
        }
        assert forall|i: int, k: int| #[trigger] newly_marked(p0, pf, i, k) implies exists|q: usize|
            #[trigger] locate(p0, q, mask) == Some((i, k)) && minor_reached(h0, global@, orphans@, roots@, mask, p0, *trace, q) by {
            if newly_marked(p0, p2, i, k) {
                let t = choose|t: int| 0 <= t < w2.len() && #[trigger] locate(p0, w2[t], mask) == Some((i, k));
                assert(minor_source(h0, global@, orphans@, roots@, mask, p0, *trace, w2[t]));
                assert(reaches(p0, *trace, mask, w2[t], w2[t], 0));
            } else {
                assert(newly_marked(p2, pf, i, k));
                let q = choose|q: usize| #[trigger] locate(p2, q, mask) == Some((i, k)) && reached_from(p2, *trace, mask, w2, q);
                let (tw, nw) = choose|tw: int, nw: nat| 0 <= tw < w2.len() && #[trigger] reaches(p2, *trace, mask, w2[tw], q, nw);
                lemma_reaches_grown(p0, p2, *trace, mask, w2[tw], q, nw);
                lemma_grown_keeps(VisitorKind::Minor, p0, p2, q, mask);
                assert(minor_source(h0, global@, orphans@, roots@, mask, p0, *trace, w2[tw]));
                assert(reaches(p0, *trace, mask, w2[tw], q, nw));
            }
        }
        assert forall|i: int, k: int| #[trigger] newly_marked(p0, pf, i, k) implies exists|q: usize|
            #[trigger] locate(p0, q, mask) == Some((i, k)) && traced(VisitorKind::Minor, pf, *trace, q, mask) by {
            if newly_marked(p0, p2, i, k) {
                let t = choose|t: int| 0 <= t < w2.len() && #[trigger] locate(p0, w2[t], mask) == Some((i, k));
                lemma_grown_keeps(VisitorKind::Minor, p0, p2, w2[t], mask);
                assert(locate(p2, w2[t], mask) is Some);
            } else {
                assert(newly_marked(p2, pf, i, k));
                let q = choose|q: usize| #[trigger] locate(p2, q, mask) == Some((i, k)) && traced(VisitorKind::Minor, pf, *trace, q, mask);
                lemma_grown_keeps(VisitorKind::Minor, p0, p2, q, mask);
                assert(locate(p0, q, mask) == Some((i, k)));
            }
        }
    }
    visitor.objects_marked
}

} // verus!
