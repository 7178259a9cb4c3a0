//! Whole collections of a heap: a major collection clears every mark,
//! marks what the roots reach, sweeps every small-object page and moves
//! every page to the old generation; a minor collection marks the young
//! objects the roots and the remembered set reach, sweeps the young pages
//! and promotes the young pages with survivors. The handshake that stops
//! and resumes the other threads around a collection is a state machine
//! whose actions the caller performs.

use vstd::prelude::*;
use crate::page::{PageHeader, PAGE_SLOTS};
use crate::sweep::{Page, indices_where};
use crate::lookup::{
    PageAt, OrphanEntry, heap_box, lookup_ready, orphans_readable, readable_page, page_index, find_gc_box_in,
};
use crate::large::LargeObjectMap;
use crate::local_heap::LocalHeap;
use crate::collect::{VisitorKind, collection_metrics};
use crate::metrics::{GcMetrics, CollectionType};
use crate::mark::{
    marking_ready, grown, handled, mark_closed, unmarked_heap, unmarked_total, mark_major_roots,
    mark_minor_roots, mark_objects, marks_grew, same_but_dirty, scan_status, spans_fit, minor_ok, minor_handled, root_box,
    lemma_locate_range,
    lemma_page_index_same, lemma_indices_where_same, traced, locate, reaches, trace_per_slot,
    law_closed_marking_keeps_reachable, newly_marked, root_reached, reached_from, minor_reached,
};
use crate::generations::{
    marks_reset, clear_all_marks_and_dirty, sweep_segment_pages, promote_all_pages, heap_drops, heap_reclaimed,
    promote_young_pages, promoted, total_promoted, promoted_bytes,
};

verus! {

/// The pages of a run of pages at addresses.
pub open spec fn pages_of(s: Seq<PageAt>) -> Seq<Page> {
    s.map_values(|p: PageAt| p.page)
}

/// Pages put back at their addresses.
pub open spec fn placed(addrs: Seq<usize>, ps: Seq<Page>) -> Seq<PageAt> {
    Seq::new(addrs.len(), |k: int| PageAt { addr: addrs[k], page: ps[k] })
}

/// Takes every page out of `pages`, leaving it empty; returns their
/// addresses and the pages, in order.
fn split_pages(pages: &mut Vec<PageAt>) -> (r: (Vec<usize>, Vec<Page>))
    ensures
        final(pages)@.len() == 0,
        r.0@.len() == old(pages)@.len(),
        r.1@ == pages_of(old(pages)@),
        placed(r.0@, r.1@) == old(pages)@,
{
    let ghost pre = pages@;
    let mut addrs: Vec<usize> = Vec::new();
    let mut out: Vec<Page> = Vec::new();
    while pages.len() > 0
        invariant
            addrs.len() == out.len(),
            addrs.len() + pages.len() == pre.len(),
            forall|k: int| 0 <= k < addrs.len() ==> #[trigger] addrs@[k] == pre[k].addr,
            forall|k: int| 0 <= k < out.len() ==> #[trigger] out@[k] == pre[k].page,
            forall|k: int| 0 <= k < pages.len() ==> #[trigger] pages@[k] == pre[k + addrs.len()],
        decreases pages.len(),
    {
        let ghost n: int = addrs.len() as int;
        let ghost a0 = addrs@;
        let ghost o0 = out@;
        proof {
            assert(pages@[0] == pre[0 + n]);
        }
        let PageAt { addr, page } = pages.remove(0);
        addrs.push(addr);
        out.push(page);
        proof {
            assert(out@[n] == pre[n].page);
            assert(addrs@[n] == pre[n].addr);
            assert forall|k: int| 0 <= k < out.len() implies #[trigger] out@[k] == pre[k].page by {
                if k < n {
                    assert(out@[k] == o0[k]);
                }
            }
        }
    }
    proof {
        assert(out@ =~= pages_of(pre));
        assert(placed(addrs@, out@) =~= pre);
    }
    (addrs, out)
}

/// Puts the pages back at their addresses into the empty `pages`.
fn join_pages(pages: &mut Vec<PageAt>, addrs: Vec<usize>, ps: Vec<Page>)
    requires
        old(pages)@.len() == 0,
        addrs@.len() == ps@.len(),
    ensures
        final(pages)@ == placed(addrs@, ps@),
{
    let ghost src = ps@;
    let mut ps = ps;
    let mut k: usize = 0;
    while k < addrs.len()
        invariant
            addrs@.len() == src.len(),
            k <= addrs.len(),
            ps@ == src.skip(k as int),
            pages@ == placed(addrs@, src).take(k as int),
        decreases addrs.len() - k,
    {
        proof {
            assert(ps@[0] == src[k as int]);
        }
        let page = ps.remove(0);
        pages.push(PageAt { addr: addrs[k], page });
        proof {
            assert(ps@ =~= src.skip(k + 1));
            assert(pages@ =~= placed(addrs@, src).take(k + 1));
        }
        k = k + 1;
    }
    proof {
        assert(pages@ =~= placed(addrs@, src));
    }
}

/// Slot `i` of `p` is freed by a sweep: allocated, named by no weak
/// reference, and unmarked or with its value already dropped.
pub open spec fn freed_by_sweep(p: Page, i: int) -> bool {
    &&& 0 <= i < p.n()
    &&& p.header.allocated().contains(i)
    &&& p.slots@[i].weak_count == 0
    &&& (p.slots@[i].value_dead || !p.header.marked().contains(i))
}

/// How many slots of `p` a sweep frees.
pub open spec fn freed_count(p: Page, only_young: bool) -> int {
    if p.swept_by(only_young) {
        indices_where(p.n(), |i: int| freed_by_sweep(p, i)).len() as int
    } else {
        0
    }
}

/// How many slots a sweep frees over a run of pages.
pub open spec fn heap_freed(pages: Seq<Page>, only_young: bool) -> int
    decreases pages.len(),
{
    if pages.len() == 0 {
        0
    } else {
        heap_freed(pages.drop_last(), only_young) + freed_count(pages.last(), only_young)
    }
}

/// `after` is the marked page `before` after both sweep phases: a page the
/// sweep leaves alone keeps its objects, marks and slots; on a swept page
/// the freed slots leave the allocated set, every mark is cleared, and every
/// unreachable object has its value dropped. Page kind, block size, object
/// count and flags stay.
pub open spec fn swept_page(before: Page, after: Page, only_young: bool) -> bool {
    &&& after.wf()
    &&& after.header.magic == before.header.magic
    &&& after.header.block_size == before.header.block_size
    &&& after.header.obj_count == before.header.obj_count
    &&& after.header.flags == before.header.flags
    &&& after.slots.len() == before.slots.len()
    &&& if !before.swept_by(only_young) {
        &&& after.header.allocated() == before.header.allocated()
        &&& after.header.marked() == before.header.marked()
        &&& after.slots@ == before.slots@
    } else {
        &&& after.header.allocated() == before.header.allocated().difference(Set::new(|i: int| freed_by_sweep(before, i)))
        &&& forall|i: int| 0 <= i < before.n() ==> !(#[trigger] after.header.marked().contains(i))
        &&& forall|i: int|
            0 <= i < before.n() ==> {
                &&& (#[trigger] after.slots@[i]).weak_count == before.slots@[i].weak_count
                &&& after.slots@[i].value_dead == (before.slots@[i].value_dead || before.dying(i))
            }
    }
}

/// `after` is the marked page `before` once collected: swept, then in the
/// old generation when every page is promoted, or, when only young pages
/// with survivors are, in the old generation if it was young and kept an
/// object.
pub open spec fn collected_page(before: Page, after: Page, only_young: bool, promote_all: bool) -> bool {
    &&& swept_page(before, after, only_young)
    &&& after.header.generation == if promote_all {
        1u8
    } else if before.header.generation == 0 && !after.header.allocated().is_empty() {
        1u8
    } else {
        before.header.generation
    }
}

/// Both sweep phases together free exactly the slots `freed_by_sweep`
/// names, and count them.
proof fn lemma_swept(b: Page, m: Page, a: Page, only_young: bool)
    requires
        b.wf(),
        Page::finalized(b, m, only_young),
        Page::reclaimed_into(m, a, only_young),
    ensures
        swept_page(b, a, only_young),
        a.header.generation == b.header.generation,
        m.reclaim_count(only_young) == freed_count(b, only_young),
{
    if b.swept_by(only_young) {
        assert(m.swept_by(only_young));
        assert forall|i: int| 0 <= i < b.n() implies #[trigger] m.reclaimable(i) == freed_by_sweep(b, i) by {
            assert(vstd::set_lib::set_int_range(0, b.n()).contains(i));
        }
        assert(Set::new(|i: int| 0 <= i < m.n() && m.reclaimable(i)) =~= Set::new(|i: int| freed_by_sweep(b, i)));
        lemma_indices_where_same(b.n(), |i: int| m.reclaimable(i), |i: int| freed_by_sweep(b, i));
        assert forall|i: int| 0 <= i < b.n() implies !(#[trigger] a.header.marked().contains(i)) by {
            assert(vstd::set_lib::set_int_range(0, b.n()).contains(i));
        }
    }
}

/// The slots reclaimed over a run of pages are the slots freed over the
/// marked run they were finalized from.
proof fn lemma_heap_freed(pre: Seq<Page>, mid: Seq<Page>, post: Seq<Page>, only_young: bool)
    requires
        pre.len() == mid.len(),
        mid.len() == post.len(),
        forall|k: int| 0 <= k < pre.len() ==> (#[trigger] pre[k]).wf(),
        forall|k: int| 0 <= k < pre.len() ==> Page::finalized(pre[k], #[trigger] mid[k], only_young),
        forall|k: int| 0 <= k < pre.len() ==> Page::reclaimed_into(mid[k], #[trigger] post[k], only_young),
    ensures
        heap_reclaimed(mid, only_young) == heap_freed(pre, only_young),
    decreases pre.len(),
{
    if pre.len() > 0 {
        let n: int = pre.len() - 1;
        assert forall|k: int| 0 <= k < n implies Page::finalized(#[trigger] pre.drop_last()[k], mid.drop_last()[k], only_young) by {
            assert(Page::finalized(pre[k], mid[k], only_young));
        }
        assert forall|k: int| 0 <= k < n implies Page::reclaimed_into(#[trigger] mid.drop_last()[k], post.drop_last()[k], only_young) by {
            assert(Page::reclaimed_into(mid[k], post[k], only_young));
        }
        assert forall|k: int| 0 <= k < n implies (#[trigger] pre.drop_last()[k]).wf() by {
            assert(pre[k].wf());
        }
        lemma_heap_freed(pre.drop_last(), mid.drop_last(), post.drop_last(), only_young);
        assert(pre[n].wf());
        assert(Page::finalized(pre[n], mid[n], only_young));
        assert(Page::reclaimed_into(mid[n], post[n], only_young));
        lemma_swept(pre[n], mid[n], post[n], only_young);
    }
}

/// Unmarked slots over a run of pages are at most `PAGE_SLOTS` a page.
proof fn lemma_unmarked_bound(s: Seq<PageAt>)
    ensures
        unmarked_total(s) <= s.len() * PAGE_SLOTS,
    decreases s.len(),
{
    if s.len() > 0 {
        lemma_unmarked_bound(s.drop_last());
        let h = s.last().page.header;
        crate::sweep::lemma_indices_where_len(PAGE_SLOTS as int, |k: int| !h.marked().contains(k));
    }
}

/// Slots over a run of well-formed pages are at most `PAGE_SLOTS` a page.
proof fn lemma_slots_bound(s: Seq<Page>)
    requires
        forall|k: int| 0 <= k < s.len() ==> (#[trigger] s[k]).wf(),
    ensures
        crate::generations::heap_slots(s) <= s.len() * PAGE_SLOTS,
    decreases s.len(),
{
    if s.len() > 0 {
        assert forall|k: int| 0 <= k < s.drop_last().len() implies (#[trigger] s.drop_last()[k]).wf() by {
            assert(s[k].wf());
        }
        lemma_slots_bound(s.drop_last());
        assert(s[s.len() - 1].wf());
    }
}

/// Clears every mark and dirty bit and every dead count of a run of pages,
/// keeping each page at its address.
fn clear_pages(pages: &mut Vec<PageAt>)
    requires
        pages_wf(old(pages)@),
        marking_ready(old(pages)@),
    ensures
        final(pages).len() == old(pages).len(),
        forall|k: int|
            0 <= k < old(pages).len() ==> (#[trigger] final(pages)@[k]).addr == old(pages)@[k].addr && marks_reset(
                old(pages)@[k].page,
                final(pages)@[k].page,
            ),
        marking_ready(final(pages)@),
        unmarked_heap(final(pages)@),
        unmarked_total(final(pages)@) <= final(pages).len() * PAGE_SLOTS,
{
    let ghost pre = pages@;
    let (addrs, mut ps) = split_pages(pages);
    proof {
        assert forall|k: int| 0 <= k < ps@.len() implies (#[trigger] ps@[k]).wf() by {
            assert(ps@[k] == pre[k].page);
        }
    }
    clear_all_marks_and_dirty(&mut ps);
    join_pages(pages, addrs, ps);
    proof {
        let cleared = pages@;
        assert forall|k: int| 0 <= k < cleared.len() implies (#[trigger] cleared[k]).addr == pre[k].addr && marks_reset(
            pre[k].page,
            cleared[k].page,
        ) by {
            assert(placed(addrs@, ps@)[k] == cleared[k]);
            assert(ps@[k] == cleared[k].page);
        }
        assert forall|i: int| 0 <= i < cleared.len() implies {
            &&& (#[trigger] cleared[i]).page.header.wf()
            &&& cleared[i].page.header.obj_count <= PAGE_SLOTS
            &&& (cleared[i].page.header.magic == crate::page::MAGIC_GC_PAGE ==> cleared[i].page.header.block_size > 0)
            &&& cleared[i].addr + 2048 <= usize::MAX
        } by {
            assert(marks_reset(pre[i].page, cleared[i].page));
            assert(pre[i].page.wf());
        }
        assert forall|i: int, k: int|
            0 <= i < cleared.len() && 0 <= k < cleared[i].page.header.obj_count implies !(
            #[trigger] cleared[i].page.header.marked().contains(k)) by {
            assert(marks_reset(pre[i].page, cleared[i].page));
        }
        lemma_unmarked_bound(cleared);
    }
}

/// Sweeps every small-object page of a marked run of pages in both phases
/// and moves every page to the old generation, keeping each page at its
/// address. Returns the (position, slot) pairs whose value must be dropped
/// and how many slots were freed.
fn sweep_and_promote_all(pages: &mut Vec<PageAt>) -> (r: (Vec<(usize, usize)>, usize))
    requires
        pages_wf(old(pages)@),
        old(pages).len() * PAGE_SLOTS <= usize::MAX,
    ensures
        final(pages).len() == old(pages).len(),
        forall|k: int|
            0 <= k < old(pages).len() ==> (#[trigger] final(pages)@[k]).addr == old(pages)@[k].addr && collected_page(
                old(pages)@[k].page,
                final(pages)@[k].page,
                false,
                true,
            ),
        r.0@ == heap_drops(pages_of(old(pages)@), false),
        r.1 == heap_freed(pages_of(old(pages)@), false),
{
    let ghost marked = pages@;
    let (addrs2, mut ps2) = split_pages(pages);
    proof {
        assert forall|k: int| 0 <= k < ps2@.len() implies (#[trigger] ps2@[k]).wf() by {
            assert(ps2@[k] == marked[k].page);
        }
        lemma_slots_bound(ps2@);
    }
    let ghost msweep = ps2@;
    let (drops, reclaimed) = sweep_segment_pages(&mut ps2, false);
    let ghost swept = ps2@;
    promote_all_pages(&mut ps2);
    let ghost promoted = ps2@;
    join_pages(pages, addrs2, ps2);
    proof {
        let mid = choose|mid: Seq<Page>|
            {
                &&& mid.len() == msweep.len()
                &&& forall|k: int| 0 <= k < mid.len() ==> Page::finalized(msweep[k], #[trigger] mid[k], false)
                &&& forall|k: int| 0 <= k < mid.len() ==> Page::reclaimed_into(mid[k], #[trigger] swept[k], false)
                &&& reclaimed == heap_reclaimed(mid, false)
            };
        lemma_heap_freed(msweep, mid, swept, false);
        assert(msweep == pages_of(marked));
        assert forall|k: int| 0 <= k < marked.len() implies (#[trigger] pages@[k]).addr == marked[k].addr
            && collected_page(marked[k].page, pages@[k].page, false, true) by {
            assert(placed(addrs2@, promoted)[k] == pages@[k]);
            assert(placed(addrs2@, msweep)[k] == marked[k]);
            assert(Page::finalized(msweep[k], mid[k], false));
            assert(Page::reclaimed_into(mid[k], swept[k], false));
            lemma_swept(msweep[k], mid[k], swept[k], false);
            assert(promoted[k].header == (PageHeader { generation: 1, ..swept[k].header }));
            assert(promoted[k].slots == swept[k].slots);
        }
    }
    (drops, reclaimed)
}

/// The object the conservative lookup finds at `addr` when the heap holds
/// the pages `pages`.
pub open spec fn heap_root(
    heap: LocalHeap,
    pages: Seq<PageAt>,
    global: Map<usize, (usize, usize, usize)>,
    orphans: Seq<OrphanEntry>,
    addr: usize,
    mask: usize,
) -> Option<int> {
    heap_box(
        heap.buffers.min_addr,
        heap.buffers.max_addr,
        heap.large_object_map@,
        heap.small_pages@,
        pages,
        global,
        orphans,
        addr,
        mask,
    )
}

/// `q` is reachable from an object that the conservative lookup finds for
/// one of `roots` when the heap holds the pages `pages`.
pub open spec fn root_reached_in<F: Fn(usize) -> Vec<usize>>(
    heap: LocalHeap,
    pages: Seq<PageAt>,
    global: Map<usize, (usize, usize, usize)>,
    orphans: Seq<OrphanEntry>,
    roots: Seq<usize>,
    mask: usize,
    trace: F,
    q: usize,
) -> bool {
    exists|t: int, b: usize, n: nat|
        #![trigger roots[t], reaches(pages, trace, mask, b, q, n)]
        0 <= t < roots.len() && heap_root(heap, pages, global, orphans, roots[t], mask) == Some(b as int) && reaches(
            pages,
            trace,
            mask,
            b,
            q,
            n,
        )
}

/// Every marked slot is named by a pointer that a root reaches.
pub open spec fn marks_reached<F: Fn(usize) -> Vec<usize>>(
    heap: LocalHeap,
    cleared: Seq<PageAt>,
    marked: Seq<PageAt>,
    global: Map<usize, (usize, usize, usize)>,
    orphans: Seq<OrphanEntry>,
    roots: Seq<usize>,
    mask: usize,
    trace: F,
) -> bool {
    forall|i: int, k: int|
        0 <= i < marked.len() && 0 <= k < marked[i].page.header.obj_count && #[trigger] marked[i].page.header.marked().contains(
            k,
        ) ==> exists|q: usize| #[trigger] locate(cleared, q, mask) == Some((i, k)) && root_reached_in(
            heap,
            cleared,
            global,
            orphans,
            roots,
            mask,
            trace,
            q,
        )
}

/// `q` is reachable from an object that the conservative lookup finds for
/// one of `roots` in one of the heaps `heaps`.
pub open spec fn heaps_root_reached<F: Fn(usize) -> Vec<usize>>(
    heaps: Seq<LocalHeap>,
    pages: Seq<PageAt>,
    global: Map<usize, (usize, usize, usize)>,
    orphans: Seq<OrphanEntry>,
    roots: Seq<usize>,
    mask: usize,
    trace: F,
    q: usize,
) -> bool {
    exists|h: int, t: int, b: usize, n: nat|
        #![trigger heaps[h], roots[t], reaches(pages, trace, mask, b, q, n)]
        0 <= h < heaps.len() && 0 <= t < roots.len() && heap_root(heaps[h], heaps[h].pages@, global, orphans, roots[t], mask)
            == Some(b as int) && reaches(pages, trace, mask, b, q, n)
}

/// `x` is the object the conservative lookup finds for one of `roots` in
/// one of the heaps.
pub open spec fn resolved_root(
    heaps: Seq<LocalHeap>,
    global: Map<usize, (usize, usize, usize)>,
    orphans: Seq<OrphanEntry>,
    roots: Seq<usize>,
    mask: usize,
    x: usize,
) -> bool {
    exists|h: int, t: int|
        #![trigger heaps[h], roots[t]]
        0 <= h < heaps.len() && 0 <= t < roots.len() && heap_root(heaps[h], heaps[h].pages@, global, orphans, roots[t], mask)
            == Some(x as int)
}

/// Every page of a run is well formed.
pub open spec fn pages_wf(pages: Seq<PageAt>) -> bool {
    forall|k: int| 0 <= k < pages.len() ==> (#[trigger] pages[k]).page.wf()
}

/// The heap's bookkeeping outside its pages is the same.
pub open spec fn same_heap_frame(a: LocalHeap, b: LocalHeap) -> bool {
    &&& b.small_pages@ == a.small_pages@
    &&& b.large_object_map@ == a.large_object_map@
    &&& b.buffers.min_addr == a.buffers.min_addr
    &&& b.buffers.max_addr == a.buffers.max_addr
}

/// The heap can be collected by a major collection: the lookup and the
/// marking can read it, its pages are well formed, and its counts fit in
/// a machine word.
pub open spec fn major_ready(heap: LocalHeap, orphans: Seq<OrphanEntry>) -> bool {
    &&& lookup_ready(heap.large_object_map@, heap.small_pages@, heap.pages@)
    &&& orphans_readable(orphans)
    &&& marking_ready(heap.pages@)
    &&& pages_wf(heap.pages@)
    &&& heap.pages.len() * PAGE_SLOTS <= usize::MAX
    &&& heap.young_allocated + heap.old_allocated <= usize::MAX
}

/// What a major collection of `before` leaves: the heap `after`, the
/// metrics `m` and the values to drop `drops` (see `collect_major`).
pub open spec fn major_outcome<F: Fn(usize) -> Vec<usize>>(
    before: LocalHeap,
    after: LocalHeap,
    global: Map<usize, (usize, usize, usize)>,
    orphans: Seq<OrphanEntry>,
    roots: Seq<usize>,
    mask: usize,
    trace: F,
    m: GcMetrics,
    drops: Seq<(usize, usize)>,
) -> bool {
    &&& after.pages.len() == before.pages.len()
    &&& same_heap_frame(before, after)
    &&& after.young_allocated == before.young_allocated
    &&& after.old_allocated == before.old_allocated
    &&& m.collection_type == CollectionType::Major
    &&& m.bytes_reclaimed == 0
    &&& m.bytes_surviving == before.young_allocated + before.old_allocated
    &&& exists|cleared: Seq<PageAt>, marked: Seq<PageAt>|
        {
            &&& cleared.len() == before.pages.len()
            &&& forall|k: int|
                0 <= k < cleared.len() ==> (#[trigger] cleared[k]).addr == before.pages@[k].addr && marks_reset(
                    before.pages@[k].page,
                    cleared[k].page,
                )
            &&& grown(cleared, marked)
            &&& marking_ready(marked)
            &&& mark_closed(VisitorKind::Major, marked, trace, mask)
            &&& marks_reached(before, cleared, marked, global, orphans, roots, mask, trace)
            &&& forall|t: int|
                0 <= t < roots.len() ==> (heap_root(before, cleared, global, orphans, #[trigger] roots[t], mask) matches Some(
                    b,
                ) ==> handled(VisitorKind::Major, marked, b as usize, mask))
            &&& forall|k: int|
                0 <= k < cleared.len() ==> (#[trigger] after.pages@[k]).addr == marked[k].addr && collected_page(
                    marked[k].page,
                    after.pages@[k].page,
                    false,
                    true,
                )
            &&& m.objects_reclaimed == heap_freed(pages_of(marked), false)
            &&& m.objects_surviving == unmarked_total(cleared) - unmarked_total(marked)
            &&& drops == heap_drops(pages_of(marked), false)
        }
}

/// A major collection of one heap: clears every mark and dirty bit, marks
/// everything reachable from `roots` with `trace`, sweeps every small-object
/// page and moves every page to the old generation. Returns the collection's
/// metrics (objects reclaimed, objects found reachable) and the (page, slot)
/// pairs whose value must be dropped.
///
/// What it states: each page was cleared, then marking grew the marks until
/// every root the lookup resolves is marked and marking is closed under
/// tracing; then each page holds exactly the objects the marked page held
/// less those `freed_by_sweep` names (allocated, unmarked or with its value
/// dropped, named by no weak reference), and is old. Large-object pages are
/// left to the large-object sweep.
pub fn collect_major<F: Fn(usize) -> Vec<usize>>(
    heap: &mut LocalHeap,
    global: &LargeObjectMap,
    orphans: &Vec<OrphanEntry>,
    roots: &Vec<usize>,
    mask: usize,
    trace: &F,
) -> (r: (GcMetrics, Vec<(usize, usize)>))
    requires
        major_ready(*old(heap), orphans@),
        forall|q: usize| call_requires(*trace, (q,)),
    ensures
        major_outcome(*old(heap), *final(heap), global@, orphans@, roots@, mask, *trace, r.0, r.1@),
{
    let ghost h0 = *heap;
    let ghost pre = heap.pages@;
    let before_bytes: usize = heap.young_allocated + heap.old_allocated;
    clear_pages(&mut heap.pages);
    let ghost cleared = heap.pages@;
    proof {
        assert forall|k: int| 0 <= k < cleared.len() implies readable_page(#[trigger] cleared[k]) by {
        }
        let local = h0.large_object_map@;
        let small = h0.small_pages@;
        assert forall|x: usize| #[trigger] local.contains_key(x) implies local[x].1 > 0 && page_index(cleared, local[x].0, 0) is Some by {
            lemma_page_index_same(pre, cleared, local[x].0, 0);
        }
        assert forall|x: usize| #[trigger] small.contains(x) implies page_index(cleared, x, 0) is Some by {
            lemma_page_index_same(pre, cleared, x, 0);
        }
        assert(lookup_ready(local, small, cleared));
    }
    let ghost hc = *heap;
    let marked_n: usize = mark_major_roots(heap, global, orphans, roots, mask, trace);
    let ghost marked = heap.pages@;
    proof {
        assert forall|i: int, k: int|
            0 <= i < marked.len() && 0 <= k < marked[i].page.header.obj_count && #[trigger] marked[i].page.header.marked().contains(
                k,
            ) implies exists|q: usize| #[trigger] locate(cleared, q, mask) == Some((i, k)) && root_reached_in(
                h0,
                cleared,
                global@,
                orphans@,
                roots@,
                mask,
                *trace,
                q,
            ) by {
            assert(!cleared[i].page.header.marked().contains(k));
            assert(newly_marked(cleared, marked, i, k));
            let q = choose|q: usize| #[trigger] locate(cleared, q, mask) == Some((i, k)) && root_reached(
                hc,
                global@,
                orphans@,
                roots@,
                mask,
                cleared,
                *trace,
                q,
            );
            let (t, b, n) = choose|t: int, b: usize, n: nat|
                #![trigger roots@[t], reaches(cleared, *trace, mask, b, q, n)]
                0 <= t < roots.len() && root_box(hc, global@, orphans@, roots@[t], mask) == Some(b as int) && reaches(
                    cleared,
                    *trace,
                    mask,
                    b,
                    q,
                    n,
                );
            assert(heap_root(h0, cleared, global@, orphans@, roots@[t], mask) == Some(b as int));
        }
        assert forall|k: int| 0 <= k < marked.len() implies (#[trigger] marked[k]).page.wf() by {
            assert(marks_reset(pre[k].page, cleared[k].page));
            assert(cleared[k].page.wf());
            assert(marked[k].page.header.wf());
        }
    }
    let (drops, reclaimed) = sweep_and_promote_all(&mut heap.pages);
    let after_bytes: usize = heap.young_allocated + heap.old_allocated;
    let m = collection_metrics(0, before_bytes, after_bytes, reclaimed, marked_n, CollectionType::Major);
    (m, drops)
}

/// The most bytes a run of pages can hold: every slot of every page.
pub open spec fn heap_capacity(pages: Seq<PageAt>) -> int
    decreases pages.len(),
{
    if pages.len() == 0 {
        0
    } else {
        heap_capacity(pages.drop_last()) + PAGE_SLOTS * pages.last().page.header.block_size
    }
}

/// A page promotes at most the bytes its slots can hold.
proof fn lemma_promoted_bytes_bound(p: Page)
    requires
        p.wf(),
    ensures
        0 <= promoted_bytes(p) <= PAGE_SLOTS * p.header.block_size,
{
    let a = p.header.allocated();
    assert(a.subset_of(vstd::set_lib::set_int_range(0, PAGE_SLOTS as int)));
    vstd::set_lib::lemma_int_range(0, PAGE_SLOTS as int);
    vstd::set_lib::lemma_len_subset(a, vstd::set_lib::set_int_range(0, PAGE_SLOTS as int));
    let n: nat = a.len();
    let b: int = p.header.block_size as int;
    assert(0 <= n * b <= PAGE_SLOTS * b) by (nonlinear_arith)
        requires
            n <= PAGE_SLOTS,
            0 <= b,
    ;
}

/// What a run of swept pages promotes fits in the capacity of the pages
/// they were swept from.
proof fn lemma_total_promoted_bound(marked: Seq<PageAt>, swept: Seq<Page>)
    requires
        marked.len() == swept.len(),
        forall|k: int| 0 <= k < swept.len() ==> (#[trigger] swept[k]).wf() && swept[k].header.block_size == marked[k].page.header.block_size,
    ensures
        0 <= total_promoted(swept) <= heap_capacity(marked),
    decreases swept.len(),
{
    if swept.len() > 0 {
        let n: int = swept.len() - 1;
        assert forall|k: int| 0 <= k < n implies (#[trigger] swept.drop_last()[k]).wf() && swept.drop_last()[k].header.block_size == marked.drop_last()[k].page.header.block_size by {
            assert(swept[k].wf());
        }
        lemma_total_promoted_bound(marked.drop_last(), swept.drop_last());
        assert(swept[n].wf());
        lemma_promoted_bytes_bound(swept[n]);
    }
}

/// The heap can be collected by a minor collection: as for a major one,
/// and besides the remembered-set scan fits, every root the lookup
/// resolves can be taken by a young marking, and the bytes the pages can
/// hold fit beside the old count.
pub open spec fn minor_ready(
    heap: LocalHeap,
    global: Map<usize, (usize, usize, usize)>,
    orphans: Seq<OrphanEntry>,
    roots: Seq<usize>,
    mask: usize,
) -> bool {
    &&& lookup_ready(heap.large_object_map@, heap.small_pages@, heap.pages@)
    &&& orphans_readable(orphans)
    &&& marking_ready(heap.pages@)
    &&& pages_wf(heap.pages@)
    &&& spans_fit(heap.pages@)
    &&& heap.pages.len() * PAGE_SLOTS <= usize::MAX
    &&& forall|t: int|
        0 <= t < roots.len() ==> (root_box(heap, global, orphans, #[trigger] roots[t], mask) matches Some(b)
            ==> minor_ok(heap.pages@, b as usize, mask))
    &&& heap.buffers.dirty_pages@.len() + heap.buffers.dirty_page_history[0]
        + heap.buffers.dirty_page_history[1] + heap.buffers.dirty_page_history[2] <= usize::MAX
    &&& heap.young_allocated + heap.old_allocated <= usize::MAX
    &&& heap.old_allocated + heap_capacity(heap.pages@) <= usize::MAX
}

/// What a minor collection of `before` leaves: the heap `after`, the
/// metrics `m` and the values to drop `drops` (see `collect_minor`).
pub open spec fn minor_outcome<F: Fn(usize) -> Vec<usize>>(
    before: LocalHeap,
    after: LocalHeap,
    global: Map<usize, (usize, usize, usize)>,
    orphans: Seq<OrphanEntry>,
    roots: Seq<usize>,
    mask: usize,
    trace: F,
    m: GcMetrics,
    drops: Seq<(usize, usize)>,
) -> bool {
    &&& after.pages.len() == before.pages.len()
    &&& same_heap_frame(before, after)
    &&& after.young_allocated == 0
    &&& m.collection_type == CollectionType::Minor
    &&& m.bytes_surviving == after.old_allocated
    &&& m.bytes_reclaimed == (if before.young_allocated + before.old_allocated >= after.old_allocated {
        before.young_allocated + before.old_allocated - after.old_allocated
    } else {
        0
    })
    &&& exists|marked: Seq<PageAt>, swept: Seq<Page>|
        {
            &&& marked.len() == before.pages.len()
            &&& swept.len() == before.pages.len()
            &&& marking_ready(marked)
            &&& marks_grew(before.pages@, marked)
            &&& forall|i: int, k: int|
                #[trigger] newly_marked(before.pages@, marked, i, k) ==> exists|q: usize|
                    #[trigger] locate(before.pages@, q, mask) == Some((i, k)) && minor_reached(
                        before,
                        global,
                        orphans,
                        roots,
                        mask,
                        before.pages@,
                        trace,
                        q,
                    )
            &&& forall|q: int|
                0 <= q < marked.len() ==> same_but_dirty(before.pages@[q], #[trigger] marked[q])
            &&& scan_status(before.pages@, before.buffers.dirty_pages@, marked, trace, mask)
            &&& forall|t: int|
                0 <= t < roots.len() ==> (root_box(before, global, orphans, #[trigger] roots[t], mask) matches Some(
                    b,
                ) ==> minor_handled(marked, b as usize, mask))
            &&& forall|k: int|
                0 <= k < marked.len() ==> {
                    &&& (#[trigger] after.pages@[k]).addr == marked[k].addr
                    &&& swept_page(marked[k].page, swept[k], true)
                    &&& swept[k].header.generation == marked[k].page.header.generation
                    &&& promoted(swept[k], after.pages@[k].page)
                }
            &&& after.old_allocated == before.old_allocated + total_promoted(swept)
            &&& m.objects_reclaimed == heap_freed(pages_of(marked), true)
            &&& m.objects_surviving == unmarked_total(before.pages@) - unmarked_total(marked)
            &&& drops == heap_drops(pages_of(marked), true)
        }
}

/// A minor collection of one heap: marks the young objects reachable from
/// `roots` and from the remembered set (the old pages of the dirty-page
/// list), sweeps the young small-object pages and promotes each young page
/// that kept an object to the old generation; the young byte count drops to
/// zero and the old one grows by the bytes promoted. Returns the metrics
/// (objects reclaimed, objects marked) and the (page, slot) pairs whose
/// value must be dropped.
pub fn collect_minor<F: Fn(usize) -> Vec<usize>>(
    heap: &mut LocalHeap,
    global: &LargeObjectMap,
    orphans: &Vec<OrphanEntry>,
    roots: &Vec<usize>,
    mask: usize,
    trace: &F,
) -> (r: (GcMetrics, Vec<(usize, usize)>))
    requires
        minor_ready(*old(heap), global@, orphans@, roots@, mask),
        forall|q: usize| call_requires(*trace, (q,)),
    ensures
        minor_outcome(*old(heap), *final(heap), global@, orphans@, roots@, mask, *trace, r.0, r.1@),
{
    let ghost h0 = *heap;
    let ghost pre = heap.pages@;
    let before_bytes: usize = heap.young_allocated + heap.old_allocated;
    proof {
        lemma_unmarked_bound(pre);
    }
    let marked_n: usize = mark_minor_roots(heap, global, orphans, roots, mask, trace);
    let ghost marked = heap.pages@;
    let (addrs2, mut ps2) = split_pages(&mut heap.pages);
    proof {
        assert forall|k: int| 0 <= k < ps2@.len() implies (#[trigger] ps2@[k]).wf() by {
            assert(ps2@[k] == marked[k].page);
            assert(same_but_dirty(pre[k], marked[k]));
            assert(pre[k].page.wf());
            assert(marked[k].page.header.wf());
        }
        lemma_slots_bound(ps2@);
    }
    let ghost msweep = ps2@;
    let (drops, reclaimed) = sweep_segment_pages(&mut ps2, true);
    let ghost swept = ps2@;
    let ghost mid = choose|mid: Seq<Page>|
        {
            &&& mid.len() == msweep.len()
            &&& forall|k: int| 0 <= k < mid.len() ==> Page::finalized(msweep[k], #[trigger] mid[k], true)
            &&& forall|k: int| 0 <= k < mid.len() ==> Page::reclaimed_into(mid[k], #[trigger] swept[k], true)
            &&& reclaimed == heap_reclaimed(mid, true)
        };
    proof {
        assert forall|k: int| 0 <= k < swept.len() implies {
            &&& swept_page(msweep[k], #[trigger] swept[k], true)
            &&& swept[k].header.generation == msweep[k].header.generation
        } by {
            assert(Page::finalized(msweep[k], mid[k], true));
            assert(Page::reclaimed_into(mid[k], swept[k], true));
            lemma_swept(msweep[k], mid[k], swept[k], true);
        }
        assert forall|k: int| 0 <= k < swept.len() implies (#[trigger] swept[k]).wf() && swept[k].header.block_size == pre[k].page.header.block_size by {
            assert(swept_page(msweep[k], swept[k], true));
            assert(msweep[k] == marked[k].page);
            assert(same_but_dirty(pre[k], marked[k]));
        }
        lemma_total_promoted_bound(pre, swept);
        assert forall|k: int| 0 <= k < swept.len() implies (#[trigger] swept[k]).wf() && swept[k].header.block_size as int * PAGE_SLOTS <= usize::MAX by {
            assert(swept[k].header.block_size == pre[k].page.header.block_size);
            lemma_capacity_page(pre, k);
        }
    }
    let (young, old_bytes) = promote_young_pages(&mut ps2, heap.old_allocated);
    let ghost promoted_pages = ps2@;
    join_pages(&mut heap.pages, addrs2, ps2);
    heap.young_allocated = young;
    heap.old_allocated = old_bytes;
    proof {
        lemma_heap_freed(msweep, mid, swept, true);
        assert(msweep == pages_of(marked));
        assert forall|k: int| 0 <= k < marked.len() implies {
            &&& (#[trigger] heap.pages@[k]).addr == marked[k].addr
            &&& swept_page(marked[k].page, swept[k], true)
            &&& swept[k].header.generation == marked[k].page.header.generation
            &&& promoted(swept[k], heap.pages@[k].page)
        } by {
            assert(placed(addrs2@, promoted_pages)[k] == heap.pages@[k]);
            assert(placed(addrs2@, msweep)[k] == marked[k]);
            assert(msweep[k] == marked[k].page);
        }
    }
    let after_bytes: usize = heap.young_allocated + heap.old_allocated;
    let m = collection_metrics(0, before_bytes, after_bytes, reclaimed, marked_n, CollectionType::Minor);
    (m, drops)
}

/// One page's slots fit in the capacity of the run.
proof fn lemma_capacity_page(s: Seq<PageAt>, k: int)
    requires
        0 <= k < s.len(),
    ensures
        0 <= PAGE_SLOTS * s[k].page.header.block_size <= heap_capacity(s),
    decreases s.len(),
{
    lemma_capacity_nonneg(s.drop_last());
    if k < s.len() - 1 {
        assert(s.drop_last()[k] == s[k]);
        lemma_capacity_page(s.drop_last(), k);
    }
}

/// A capacity is never negative.
proof fn lemma_capacity_nonneg(s: Seq<PageAt>)
    ensures
        heap_capacity(s) >= 0,
    decreases s.len(),
{
    if s.len() > 0 {
        lemma_capacity_nonneg(s.drop_last());
    }
}

/// What a major collection keeps: after a marking that is closed under
/// tracing, with a trace that depends on the slot alone, an object reached
/// from a root that marking handled survives the sweep (unless its value
/// had already been dropped) and is old.
pub proof fn law_major_collection_keeps_reachable<F: Fn(usize) -> Vec<usize>>(
    marked: Seq<PageAt>,
    after: Seq<PageAt>,
    trace: F,
    mask: usize,
    root: usize,
    x: usize,
    n: nat,
)
    requires
        marking_ready(marked),
        mark_closed(VisitorKind::Major, marked, trace, mask),
        trace_per_slot(marked, trace, mask),
        handled(VisitorKind::Major, marked, root, mask),
        reaches(marked, trace, mask, root, x, n),
        after.len() == marked.len(),
        forall|k: int| 0 <= k < marked.len() ==> collected_page(marked[k].page, #[trigger] after[k].page, false, true),
    ensures
        locate(marked, x, mask) matches Some((i, k)) ==> {
            &&& (marked[i].page.header.allocated().contains(k) && !marked[i].page.slots@[k].value_dead
                ==> after[i].page.header.allocated().contains(k))
            &&& after[i].page.header.generation == 1
        },
{
    law_closed_marking_keeps_reachable(marked, trace, mask, root, x, n);
    if let Some((i, k)) = locate(marked, x, mask) {
        lemma_locate_range(marked, x, mask);
        assert(collected_page(marked[i].page, after[i].page, false, true));
        assert(marked[i].page.header.marked().contains(k));
        if !marked[i].page.slots@[k].value_dead {
            assert(!freed_by_sweep(marked[i].page, k));
            assert(!Set::new(|j: int| freed_by_sweep(marked[i].page, j)).contains(k));
        }
    }
}

/// What a sweep frees: on a swept page, an allocated object that marking
/// did not reach and that no weak reference names is no longer allocated;
/// a marked object with its value alive stays.
pub proof fn law_sweep_frees_unreachable(before: Page, after: Page, only_young: bool, i: int)
    requires
        swept_page(before, after, only_young),
        before.swept_by(only_young),
        0 <= i < before.n(),
        before.header.allocated().contains(i),
    ensures
        !before.header.marked().contains(i) && before.slots@[i].weak_count == 0 ==> !after.header.allocated().contains(i),
        before.header.marked().contains(i) && !before.slots@[i].value_dead ==> after.header.allocated().contains(i),
{
    assert(freed_by_sweep(before, i) <==> Set::new(|j: int| freed_by_sweep(before, j)).contains(i));
}

/// A sum that stops at `usize::MAX`.
pub open spec fn sat_sum(s: Seq<usize>) -> usize
    decreases s.len(),
{
    if s.len() == 0 {
        0
    } else {
        let p: usize = sat_sum(s.drop_last());
        if p + s.last() > usize::MAX {
            usize::MAX
        } else {
            (p + s.last()) as usize
        }
    }
}

/// Collects every heap in turn with a minor collection, each marked from
/// the same roots through its own pages (a pointer into another
/// heap counts as outside the traced heap). Returns the metrics of the
/// whole collection (objects and bytes summed over the heaps, stopping at
/// `usize::MAX`) and, per heap, the (page, slot) pairs whose value must be
/// dropped.
fn collect_each_heap<F: Fn(usize) -> Vec<usize>>(
    heaps: &mut Vec<LocalHeap>,
    global: &LargeObjectMap,
    orphans: &Vec<OrphanEntry>,
    roots: &Vec<usize>,
    mask: usize,
    trace: &F,
) -> (r: (GcMetrics, Vec<Vec<(usize, usize)>>))
    requires
        forall|h: int| 0 <= h < old(heaps).len() ==> minor_ready(#[trigger] old(heaps)@[h], global@, orphans@, roots@, mask),
        forall|q: usize| call_requires(*trace, (q,)),
    ensures
        final(heaps).len() == old(heaps).len(),
        r.1.len() == old(heaps).len(),
        r.0.collection_type == CollectionType::Minor,
        exists|ms: Seq<GcMetrics>|
            {
                &&& ms.len() == old(heaps).len()
                &&& forall|h: int|
                    0 <= h < ms.len() ==> minor_outcome(
                        old(heaps)@[h],
                        #[trigger] final(heaps)@[h],
                        global@,
                        orphans@,
                        roots@,
                        mask,
                        *trace,
                        ms[h],
                        r.1@[h]@,
                    )
                &&& r.0.objects_reclaimed == sat_sum(ms.map_values(|m: GcMetrics| m.objects_reclaimed))
                &&& r.0.objects_surviving == sat_sum(ms.map_values(|m: GcMetrics| m.objects_surviving))
                &&& r.0.bytes_reclaimed == sat_sum(ms.map_values(|m: GcMetrics| m.bytes_reclaimed))
                &&& r.0.bytes_surviving == sat_sum(ms.map_values(|m: GcMetrics| m.bytes_surviving))
            },
{
    let ghost pre = heaps@;
    let ghost mut ms: Seq<GcMetrics> = Seq::empty();
    let mut drops: Vec<Vec<(usize, usize)>> = Vec::new();
    let mut objects_reclaimed: usize = 0;
    let mut objects_surviving: usize = 0;
    let mut bytes_reclaimed: usize = 0;
    let mut bytes_surviving: usize = 0;
    let mut h: usize = 0;
    while h < heaps.len()
        invariant
            forall|q: usize| call_requires(*trace, (q,)),
            forall|j: int| 0 <= j < pre.len() ==> minor_ready(#[trigger] pre[j], global@, orphans@, roots@, mask),
            heaps.len() == pre.len(),
            h <= pre.len(),
            ms.len() == h,
            drops.len() == h,
            forall|j: int|
                0 <= j < h ==> minor_outcome(pre[j], #[trigger] heaps@[j], global@, orphans@, roots@, mask, *trace, ms[j], drops@[j]@),
            forall|j: int| h <= j < pre.len() ==> #[trigger] heaps@[j] == pre[j],
            objects_reclaimed == sat_sum(ms.map_values(|m: GcMetrics| m.objects_reclaimed)),
            objects_surviving == sat_sum(ms.map_values(|m: GcMetrics| m.objects_surviving)),
            bytes_reclaimed == sat_sum(ms.map_values(|m: GcMetrics| m.bytes_reclaimed)),
            bytes_surviving == sat_sum(ms.map_values(|m: GcMetrics| m.bytes_surviving)),
        decreases pre.len() - h,
    {
        let ghost cur = heaps@;
        proof {
            assert(heaps@[h as int] == pre[h as int]);
            assert(minor_ready(pre[h as int], global@, orphans@, roots@, mask));
        }
        let mut heap = heaps.remove(h);
        let out = collect_minor(&mut heap, global, orphans, roots, mask, trace);
        heaps.insert(h, heap);
        let ghost m = out.0;
        let ghost ms0 = ms;
        proof {
            ms = ms.push(m);
            assert(ms.map_values(|m: GcMetrics| m.objects_reclaimed).drop_last() =~= ms0.map_values(|m: GcMetrics| m.objects_reclaimed));
            assert(ms.map_values(|m: GcMetrics| m.objects_surviving).drop_last() =~= ms0.map_values(|m: GcMetrics| m.objects_surviving));
            assert(ms.map_values(|m: GcMetrics| m.bytes_reclaimed).drop_last() =~= ms0.map_values(|m: GcMetrics| m.bytes_reclaimed));
            assert(ms.map_values(|m: GcMetrics| m.bytes_surviving).drop_last() =~= ms0.map_values(|m: GcMetrics| m.bytes_surviving));
        }
        objects_reclaimed = objects_reclaimed.saturating_add(out.0.objects_reclaimed);
        objects_surviving = objects_surviving.saturating_add(out.0.objects_surviving);
        bytes_reclaimed = bytes_reclaimed.saturating_add(out.0.bytes_reclaimed);
        bytes_surviving = bytes_surviving.saturating_add(out.0.bytes_surviving);
        let ghost d0 = drops@;
        drops.push(out.1);
        proof {
            assert forall|j: int|
                0 <= j < h + 1 implies minor_outcome(pre[j], #[trigger] heaps@[j], global@, orphans@, roots@, mask, *trace, ms[j], drops@[j]@) by {
                if j < h {
                    assert(heaps@[j] == cur[j]);
                    assert(drops@[j] == d0[j]);
                    assert(ms[j] == ms0[j]);
                }
            }
            assert forall|j: int| h + 1 <= j < pre.len() implies #[trigger] heaps@[j] == pre[j] by {
                assert(heaps@[j] == cur[j]);
            }
        }
        h = h + 1;
    }
    let mut m = GcMetrics::new();
    m.collection_type = CollectionType::Minor;
    m.objects_reclaimed = objects_reclaimed;
    m.objects_surviving = objects_surviving;
    m.bytes_reclaimed = bytes_reclaimed;
    m.bytes_surviving = bytes_surviving;
    (m, drops)
}

/// Collects every heap with a collection of the kind `kind`: a minor
/// collection collects each heap in turn, through its own pages (young
/// objects are reached from the roots and from each heap's remembered
/// set); a major collection marks all heaps together, as
/// `collect_major_heaps` does. Returns the metrics of the whole collection
/// and the (page, slot) pairs whose value must be dropped: for a minor
/// collection one list per heap, for a major one a single list whose
/// positions count the heaps' pages end to end.
pub fn collect_heaps<F: Fn(usize) -> Vec<usize>>(
    heaps: &mut Vec<LocalHeap>,
    global: &LargeObjectMap,
    orphans: &Vec<OrphanEntry>,
    roots: &Vec<usize>,
    kind: CollectionType,
    mask: usize,
    trace: &F,
) -> (r: (GcMetrics, Vec<Vec<(usize, usize)>>))
    requires
        kind == CollectionType::Minor || kind == CollectionType::Major,
        kind == CollectionType::Minor ==> forall|h: int|
            0 <= h < old(heaps).len() ==> minor_ready(#[trigger] old(heaps)@[h], global@, orphans@, roots@, mask),
        kind == CollectionType::Major ==> major_heaps_ready(old(heaps)@, orphans@),
        forall|q: usize| call_requires(*trace, (q,)),
    ensures
        final(heaps).len() == old(heaps).len(),
        r.0.collection_type == kind,
        kind == CollectionType::Major ==> r.1.len() == 1 && major_heaps_outcome(
            old(heaps)@,
            final(heaps)@,
            global@,
            orphans@,
            roots@,
            mask,
            *trace,
            r.0,
            r.1@[0]@,
        ),
        kind == CollectionType::Minor ==> r.1.len() == old(heaps).len() && exists|ms: Seq<GcMetrics>|
            {
                &&& ms.len() == old(heaps).len()
                &&& forall|h: int|
                    0 <= h < ms.len() ==> minor_outcome(
                        old(heaps)@[h],
                        #[trigger] final(heaps)@[h],
                        global@,
                        orphans@,
                        roots@,
                        mask,
                        *trace,
                        ms[h],
                        r.1@[h]@,
                    )
                &&& r.0.objects_reclaimed == sat_sum(ms.map_values(|m: GcMetrics| m.objects_reclaimed))
                &&& r.0.objects_surviving == sat_sum(ms.map_values(|m: GcMetrics| m.objects_surviving))
                &&& r.0.bytes_reclaimed == sat_sum(ms.map_values(|m: GcMetrics| m.bytes_reclaimed))
                &&& r.0.bytes_surviving == sat_sum(ms.map_values(|m: GcMetrics| m.bytes_surviving))
            },
{
    match kind {
        CollectionType::Minor => collect_each_heap(heaps, global, orphans, roots, mask, trace),
        _ => {
            let (m, drops) = collect_major_heaps(heaps, global, orphans, roots, mask, trace);
            let mut all: Vec<Vec<(usize, usize)>> = Vec::new();
            all.push(drops);
            (m, all)
        },
    }
}

/// Where heap `h`'s pages start when the pages of the heaps `hs` are laid
/// end to end.
pub open spec fn heap_start(hs: Seq<LocalHeap>, h: int) -> int
    decreases h,
{
    if h <= 0 {
        0
    } else {
        heap_start(hs, h - 1) + hs[h - 1].pages.len()
    }
}

/// Later heaps start later.
proof fn lemma_heap_start_mono(hs: Seq<LocalHeap>, j: int, h: int)
    requires
        0 <= j <= h,
    ensures
        0 <= heap_start(hs, j) <= heap_start(hs, h),
    decreases h,
{
    if j < h {
        lemma_heap_start_mono(hs, j, h - 1);
    } else if h > 0 {
        lemma_heap_start_mono(hs, h - 1, h - 1);
    }
}

/// `b` is the heap `a` with other pages.
pub open spec fn same_but_pages(a: LocalHeap, b: LocalHeap) -> bool {
    b == (LocalHeap { pages: b.pages, ..a })
}

/// The objects the conservative lookup finds for `roots` in each heap.
fn resolve_roots(
    heaps: &Vec<LocalHeap>,
    global: &LargeObjectMap,
    orphans: &Vec<OrphanEntry>,
    roots: &Vec<usize>,
    mask: usize,
) -> (objs: Vec<usize>)
    requires
        forall|h: int| 0 <= h < heaps.len() ==> major_ready(#[trigger] heaps@[h], orphans@),
    ensures
        forall|h: int, t: int|
            0 <= h < heaps.len() && 0 <= t < roots.len() ==> (heap_root(
                #[trigger] heaps@[h],
                heaps@[h].pages@,
                global@,
                orphans@,
                #[trigger] roots@[t],
                mask,
            ) matches Some(b) ==> objs@.contains(b as usize)),
        forall|x: int| 0 <= x < objs.len() ==> resolved_root(heaps@, global@, orphans@, roots@, mask, #[trigger] objs@[x]),
{
    let mut objs: Vec<usize> = Vec::new();
    let mut h: usize = 0;
    while h < heaps.len()
        invariant
            h <= heaps.len(),
            forall|q: int| 0 <= q < heaps.len() ==> major_ready(#[trigger] heaps@[q], orphans@),
            forall|j: int, t: int|
                0 <= j < h && 0 <= t < roots.len() ==> (heap_root(#[trigger] heaps@[j], heaps@[j].pages@, global@, orphans@, #[trigger] roots@[t], mask) matches Some(
                    b,
                ) ==> objs@.contains(b as usize)),
            forall|x: int| 0 <= x < objs.len() ==> resolved_root(heaps@, global@, orphans@, roots@, mask, #[trigger] objs@[x]),
        decreases heaps.len() - h,
    {
        let mut t: usize = 0;
        proof {
            assert(major_ready(heaps@[h as int], orphans@));
        }
        while t < roots.len()
            invariant
                h < heaps.len(),
                t <= roots.len(),
                major_ready(heaps@[h as int], orphans@),
                forall|j: int, u: int|
                    0 <= j < h && 0 <= u < roots.len() ==> (heap_root(#[trigger] heaps@[j], heaps@[j].pages@, global@, orphans@, #[trigger] roots@[u], mask) matches Some(
                        b,
                    ) ==> objs@.contains(b as usize)),
                forall|u: int|
                    0 <= u < t ==> (heap_root(heaps@[h as int], heaps@[h as int].pages@, global@, orphans@, #[trigger] roots@[u], mask) matches Some(
                        b,
                    ) ==> objs@.contains(b as usize)),
                forall|x: int| 0 <= x < objs.len() ==> resolved_root(heaps@, global@, orphans@, roots@, mask, #[trigger] objs@[x]),
            decreases roots.len() - t,
        {
            let heap = &heaps[h];
            let found = find_gc_box_in(
                &heap.buffers,
                &heap.large_object_map,
                &heap.small_pages,
                &heap.pages,
                global,
                orphans,
                roots[t],
                mask,
            );
            let ghost o0 = objs@;
            if let Some(b) = found {
                objs.push(b);
                proof {
                    assert(objs@[objs.len() - 1] == b);
                    assert(heap_root(heaps@[h as int], heaps@[h as int].pages@, global@, orphans@, roots@[t as int], mask) == Some(b as int));
                    assert(resolved_root(heaps@, global@, orphans@, roots@, mask, b));
                    assert forall|x: int| 0 <= x < objs.len() implies resolved_root(heaps@, global@, orphans@, roots@, mask, #[trigger] objs@[x]) by {
                        if x < o0.len() {
                            assert(objs@[x] == o0[x]);
                        }
                    }
                }
            }
            proof {
                assert forall|x: usize| o0.contains(x) implies objs@.contains(x) by {
                    let i = choose|i: int| 0 <= i < o0.len() && o0[i] == x;
                    assert(objs@[i] == x);
                }
            }
            t = t + 1;
        }
        h = h + 1;
    }
    objs
}

/// Takes every heap's pages out, laying them end to end.
fn gather_pages(heaps: &mut Vec<LocalHeap>) -> (all: Vec<PageAt>)
    requires
        forall|h: int| 0 <= h < old(heaps).len() ==> major_ready(#[trigger] old(heaps)@[h], Seq::<OrphanEntry>::empty()),
    ensures
        final(heaps).len() == old(heaps).len(),
        all.len() == heap_start(old(heaps)@, old(heaps).len() as int),
        forall|h: int|
            0 <= h < old(heaps).len() ==> (#[trigger] final(heaps)@[h]).pages@.len() == 0 && same_but_pages(
                old(heaps)@[h],
                final(heaps)@[h],
            ),
        forall|h: int, k: int|
            0 <= h < old(heaps).len() && 0 <= k < old(heaps)@[h].pages.len() ==> all@[heap_start(old(heaps)@, h) + k]
                == #[trigger] old(heaps)@[h].pages@[k],
        pages_wf(all@),
        marking_ready(all@),
{
    let ghost pre = heaps@;
    let mut all: Vec<PageAt> = Vec::new();
    let mut h: usize = 0;
    while h < heaps.len()
        invariant
            heaps.len() == pre.len(),
            h <= pre.len(),
            forall|q: int| 0 <= q < pre.len() ==> major_ready(#[trigger] pre[q], Seq::<OrphanEntry>::empty()),
            all.len() == heap_start(pre, h as int),
            forall|j: int| 0 <= j < h ==> (#[trigger] heaps@[j]).pages@.len() == 0 && same_but_pages(pre[j], heaps@[j]),
            forall|j: int| h <= j < pre.len() ==> #[trigger] heaps@[j] == pre[j],
            forall|j: int, k: int|
                0 <= j < h && 0 <= k < pre[j].pages.len() ==> all@[heap_start(pre, j) + k] == #[trigger] pre[j].pages@[k],
            pages_wf(all@),
            marking_ready(all@),
        decreases pre.len() - h,
    {
        let ghost a0 = all@;
        let ghost cur = heaps@;
        proof {
            assert(heaps@[h as int] == pre[h as int]);
            assert(major_ready(pre[h as int], Seq::<OrphanEntry>::empty()));
        }
        let mut heap = heaps.remove(h);
        all.append(&mut heap.pages);
        heaps.insert(h, heap);
        proof {
            let chunk = pre[h as int].pages@;
            assert(all@ == a0 + chunk);
            assert(heap_start(pre, h + 1) == heap_start(pre, h as int) + chunk.len());
            assert forall|j: int, k: int|
                0 <= j < h + 1 && 0 <= k < pre[j].pages.len() implies all@[heap_start(pre, j) + k] == #[trigger] pre[j].pages@[k] by {
                if j < h {
                    lemma_heap_start_mono(pre, j + 1, h as int);
                    lemma_heap_start_mono(pre, j, h as int);
                    assert(heap_start(pre, j + 1) == heap_start(pre, j) + pre[j].pages.len());
                    assert(heap_start(pre, j) + k < a0.len());
                    assert((a0 + chunk)[heap_start(pre, j) + k] == a0[heap_start(pre, j) + k]);
                    assert(all@[heap_start(pre, j) + k] == a0[heap_start(pre, j) + k]);
                } else {
                    assert(all@[heap_start(pre, j) + k] == chunk[k]);
                }
            }
            assert forall|i: int| 0 <= i < all@.len() implies (#[trigger] all@[i]).page.wf() by {
                if i < a0.len() {
                    assert(all@[i] == a0[i]);
                } else {
                    assert(all@[i] == chunk[i - a0.len()]);
                }
            }
            assert forall|i: int| 0 <= i < all@.len() implies {
                &&& (#[trigger] all@[i]).page.header.wf()
                &&& all@[i].page.header.obj_count <= PAGE_SLOTS
                &&& (all@[i].page.header.magic == crate::page::MAGIC_GC_PAGE ==> all@[i].page.header.block_size > 0)
                &&& all@[i].addr + 2048 <= usize::MAX
            } by {
                if i < a0.len() {
                    assert(all@[i] == a0[i]);
                } else {
                    assert(all@[i] == chunk[i - a0.len()]);
                }
            }
            assert forall|j: int| 0 <= j < h + 1 implies (#[trigger] heaps@[j]).pages@.len() == 0 && same_but_pages(pre[j], heaps@[j]) by {
                if j < h {
                    assert(heaps@[j] == cur[j]);
                }
            }
            assert forall|j: int| h + 1 <= j < pre.len() implies #[trigger] heaps@[j] == pre[j] by {
                assert(heaps@[j] == cur[j]);
            }
        }
        h = h + 1;
    }
    all
}

/// Puts the pages laid end to end back into the heaps, heap `h` taking the
/// `shape[h].pages.len()` pages from where its pages start.
fn distribute_pages(heaps: &mut Vec<LocalHeap>, all: Vec<PageAt>, counts: &Vec<usize>, Ghost(shape): Ghost<Seq<LocalHeap>>)
    requires
        counts.len() == old(heaps).len(),
        shape.len() == old(heaps).len(),
        forall|h: int| 0 <= h < counts.len() ==> #[trigger] counts@[h] == shape[h].pages.len(),
        all.len() == heap_start(shape, shape.len() as int),
    ensures
        final(heaps).len() == old(heaps).len(),
        forall|h: int|
            0 <= h < old(heaps).len() ==> same_but_pages(old(heaps)@[h], #[trigger] final(heaps)@[h])
                && final(heaps)@[h].pages@ == all@.subrange(heap_start(shape, h), heap_start(shape, h) + counts@[h]),
{
    let ghost pre = heaps@;
    let ghost whole = all@;
    let mut rest = all;
    let mut h: usize = 0;
    while h < heaps.len()
        invariant
            heaps.len() == pre.len(),
            counts.len() == pre.len(),
            shape.len() == pre.len(),
            forall|q: int| 0 <= q < counts.len() ==> #[trigger] counts@[q] == shape[q].pages.len(),
            whole.len() == heap_start(shape, shape.len() as int),
            h <= pre.len(),
            rest@ == whole.subrange(heap_start(shape, h as int), whole.len() as int),
            forall|j: int|
                0 <= j < h ==> same_but_pages(pre[j], #[trigger] heaps@[j])
                    && heaps@[j].pages@ == whole.subrange(heap_start(shape, j), heap_start(shape, j) + counts@[j]),
            forall|j: int| h <= j < pre.len() ==> #[trigger] heaps@[j] == pre[j],
        decreases pre.len() - h,
    {
        let ghost cur = heaps@;
        proof {
            lemma_heap_start_mono(shape, h + 1, shape.len() as int);
            lemma_heap_start_mono(shape, h as int, shape.len() as int);
            assert(heap_start(shape, h + 1) == heap_start(shape, h as int) + shape[h as int].pages.len());
            assert(rest@.len() == whole.len() - heap_start(shape, h as int));
        }
        let c = counts[h];
        let mut chunk = rest;
        rest = chunk.split_off(c);
        let mut heap = heaps.remove(h);
        heap.pages = chunk;
        heaps.insert(h, heap);
        proof {
            assert(rest@ =~= whole.subrange(heap_start(shape, h + 1), whole.len() as int));
            assert forall|j: int|
                0 <= j < h + 1 implies same_but_pages(pre[j], #[trigger] heaps@[j])
                    && heaps@[j].pages@ == whole.subrange(heap_start(shape, j), heap_start(shape, j) + counts@[j]) by {
                if j < h {
                    assert(heaps@[j] == cur[j]);
                } else {
                    assert(heaps@[j].pages@ =~= whole.subrange(heap_start(shape, j), heap_start(shape, j) + counts@[j]));
                    assert(cur[j] == pre[j]);
                }
            }
            assert forall|j: int| h + 1 <= j < pre.len() implies #[trigger] heaps@[j] == pre[j] by {
                assert(heaps@[j] == cur[j]);
            }
        }
        h = h + 1;
    }
}

/// Young and old bytes of each heap, summed, stopping at `usize::MAX`.
pub open spec fn heaps_bytes(hs: Seq<LocalHeap>) -> usize {
    sat_sum(hs.map_values(|h: LocalHeap| (h.young_allocated + h.old_allocated) as usize))
}

/// The bytes allocated in all the heaps, stopping at `usize::MAX`.
fn total_heap_bytes(heaps: &Vec<LocalHeap>) -> (n: usize)
    requires
        forall|h: int| 0 <= h < heaps.len() ==> (#[trigger] heaps@[h]).young_allocated + heaps@[h].old_allocated <= usize::MAX,
    ensures
        n == heaps_bytes(heaps@),
{
    let mut n: usize = 0;
    let mut h: usize = 0;
    while h < heaps.len()
        invariant
            h <= heaps.len(),
            forall|q: int| 0 <= q < heaps.len() ==> (#[trigger] heaps@[q]).young_allocated + heaps@[q].old_allocated <= usize::MAX,
            n == heaps_bytes(heaps@.take(h as int)),
        decreases heaps.len() - h,
    {
        let b: usize = heaps[h].young_allocated + heaps[h].old_allocated;
        proof {
            let f = |x: LocalHeap| (x.young_allocated + x.old_allocated) as usize;
            assert(heaps@.take(h + 1).map_values(f).drop_last() =~= heaps@.take(h as int).map_values(f));
            assert(heaps@.take(h + 1).map_values(f).last() == b);
        }
        n = n.saturating_add(b);
        h = h + 1;
    }
    proof {
        assert(heaps@.take(heaps.len() as int) =~= heaps@);
    }
    n
}

/// Every heap can be collected by a major collection, and all their pages
/// together fit the marking's counts.
pub open spec fn major_heaps_ready(before: Seq<LocalHeap>, orphans: Seq<OrphanEntry>) -> bool {
    &&& forall|h: int| 0 <= h < before.len() ==> major_ready(#[trigger] before[h], orphans)
    &&& heap_start(before, before.len() as int) * PAGE_SLOTS <= usize::MAX
}

/// What a major collection of every heap together leaves: the heaps
/// `after`, the metrics `m` and the values to drop `drops` (see
/// `collect_major_heaps`).
pub open spec fn major_heaps_outcome<F: Fn(usize) -> Vec<usize>>(
    before: Seq<LocalHeap>,
    after: Seq<LocalHeap>,
    global: Map<usize, (usize, usize, usize)>,
    orphans: Seq<OrphanEntry>,
    roots: Seq<usize>,
    mask: usize,
    trace: F,
    m: GcMetrics,
    drops: Seq<(usize, usize)>,
) -> bool {
    &&& after.len() == before.len()
    &&& forall|h: int|
        0 <= h < before.len() ==> same_but_pages(before[h], #[trigger] after[h])
            && after[h].pages.len() == before[h].pages.len()
    &&& m.collection_type == CollectionType::Major
    &&& m.bytes_reclaimed == 0
    &&& m.bytes_surviving == heaps_bytes(before)
    &&& exists|cleared: Seq<PageAt>, marked: Seq<PageAt>|
        {
            &&& cleared.len() == heap_start(before, before.len() as int)
            &&& forall|h: int, k: int|
                0 <= h < before.len() && 0 <= k < before[h].pages.len() ==> {
                    let c = cleared[heap_start(before, h) + k];
                    &&& c.addr == (#[trigger] before[h].pages@[k]).addr
                    &&& marks_reset(before[h].pages@[k].page, c.page)
                }
            &&& grown(cleared, marked)
            &&& marking_ready(marked)
            &&& mark_closed(VisitorKind::Major, marked, trace, mask)
            &&& forall|i: int, k: int|
                0 <= i < marked.len() && 0 <= k < marked[i].page.header.obj_count && #[trigger] marked[i].page.header.marked().contains(
                    k,
                ) ==> exists|q: usize| #[trigger] locate(cleared, q, mask) == Some((i, k)) && heaps_root_reached(
                    before,
                    cleared,
                    global,
                    orphans,
                    roots,
                    mask,
                    trace,
                    q,
                )
            &&& forall|h: int, t: int|
                0 <= h < before.len() && 0 <= t < roots.len() ==> (heap_root(
                    #[trigger] before[h],
                    before[h].pages@,
                    global,
                    orphans,
                    #[trigger] roots[t],
                    mask,
                ) matches Some(b) ==> handled(VisitorKind::Major, marked, b as usize, mask))
            &&& forall|h: int, k: int|
                0 <= h < before.len() && 0 <= k < before[h].pages.len() ==> {
                    let mk = marked[heap_start(before, h) + k];
                    &&& (#[trigger] after[h].pages@[k]).addr == mk.addr
                    &&& collected_page(mk.page, after[h].pages@[k].page, false, true)
                }
            &&& m.objects_reclaimed == heap_freed(pages_of(marked), false)
            &&& m.objects_surviving == unmarked_total(cleared) - unmarked_total(marked)
            &&& drops == heap_drops(pages_of(marked), false)
        }
}

/// A major collection of every heap together, as when one thread collects
/// for all: the roots are resolved in each heap; every heap's marks are
/// cleared; everything reachable from the resolved objects is marked over
/// the pages of all heaps at once, so tracing follows pointers from one
/// heap into another; then every small-object page is swept and every page
/// moves to the old generation. Positions in the results (and in the
/// (position, slot) pairs whose value must be dropped) count the heaps'
/// pages end to end, heap `h` starting at `heap_start(heaps, h)`.
#[verifier::spinoff_prover]
#[verifier::rlimit(60)]
pub fn collect_major_heaps<F: Fn(usize) -> Vec<usize>>(
    heaps: &mut Vec<LocalHeap>,
    global: &LargeObjectMap,
    orphans: &Vec<OrphanEntry>,
    roots: &Vec<usize>,
    mask: usize,
    trace: &F,
) -> (r: (GcMetrics, Vec<(usize, usize)>))
    requires
        major_heaps_ready(old(heaps)@, orphans@),
        forall|q: usize| call_requires(*trace, (q,)),
    ensures
        major_heaps_outcome(old(heaps)@, final(heaps)@, global@, orphans@, roots@, mask, *trace, r.0, r.1@),
{
    let ghost pre = heaps@;
    let objs = resolve_roots(heaps, global, orphans, roots, mask);
    let bytes = total_heap_bytes(heaps);
    let mut counts: Vec<usize> = Vec::new();
    let mut h: usize = 0;
    while h < heaps.len()
        invariant
            heaps@ == pre,
            h <= pre.len(),
            counts.len() == h,
            forall|j: int| 0 <= j < h ==> #[trigger] counts@[j] == pre[j].pages.len(),
        decreases pre.len() - h,
    {
        counts.push(heaps[h].pages.len());
        h = h + 1;
    }
    proof {
        assert forall|q: int| 0 <= q < pre.len() implies major_ready(#[trigger] pre[q], Seq::<OrphanEntry>::empty()) by {
            assert(major_ready(pre[q], orphans@));
        }
    }
    let mut all = gather_pages(heaps);
    let ghost gathered = all@;
    let ghost mid_heaps = heaps@;
    clear_pages(&mut all);
    let ghost cleared = all@;
    let marked_n: usize = mark_objects(&mut all, &objs, mask, trace);
    let ghost marked = all@;
    proof {
        assert forall|i: int, k: int|
            0 <= i < marked.len() && 0 <= k < marked[i].page.header.obj_count && #[trigger] marked[i].page.header.marked().contains(
                k,
            ) implies exists|q: usize| #[trigger] locate(cleared, q, mask) == Some((i, k)) && heaps_root_reached(
                pre,
                cleared,
                global@,
                orphans@,
                roots@,
                mask,
                *trace,
                q,
            ) by {
            assert(!cleared[i].page.header.marked().contains(k));
            assert(newly_marked(cleared, marked, i, k));
            let q = choose|q: usize| #[trigger] locate(cleared, q, mask) == Some((i, k)) && reached_from(cleared, *trace, mask, objs@, q);
            let (tt, n) = choose|tt: int, n: nat| 0 <= tt < objs@.len() && #[trigger] reaches(cleared, *trace, mask, objs@[tt], q, n);
            assert(resolved_root(pre, global@, orphans@, roots@, mask, objs@[tt]));
            let (hh, u) = choose|hh: int, u: int|
                #![trigger pre[hh], roots@[u]]
                0 <= hh < pre.len() && 0 <= u < roots.len() && heap_root(pre[hh], pre[hh].pages@, global@, orphans@, roots@[u], mask)
                    == Some(objs@[tt] as int);
            assert(reaches(cleared, *trace, mask, objs@[tt], q, n));
        }
        assert forall|k: int| 0 <= k < marked.len() implies (#[trigger] marked[k]).page.wf() by {
            assert(marks_reset(gathered[k].page, cleared[k].page));
            assert(cleared[k].page.wf());
            assert(marked[k].page.header.wf());
        }
    }
    let (drops, reclaimed) = sweep_and_promote_all(&mut all);
    let ghost after_all = all@;
    distribute_pages(heaps, all, &counts, Ghost(pre));
    proof {
        assert forall|h: int| 0 <= h < pre.len() implies same_but_pages(pre[h], #[trigger] heaps@[h])
            && heaps@[h].pages.len() == pre[h].pages.len() by {
            assert(same_but_pages(pre[h], mid_heaps[h]));
            assert(same_but_pages(mid_heaps[h], heaps@[h]));
            lemma_heap_start_mono(pre, h, h + 1);
            lemma_heap_start_mono(pre, h + 1, pre.len() as int);
            assert(heaps@[h].pages@ == after_all.subrange(heap_start(pre, h), heap_start(pre, h) + counts@[h]));
        }
        assert forall|h: int, k: int|
            0 <= h < pre.len() && 0 <= k < pre[h].pages.len() implies {
                let c = cleared[heap_start(pre, h) + k];
                &&& c.addr == (#[trigger] pre[h].pages@[k]).addr
                &&& marks_reset(pre[h].pages@[k].page, c.page)
            } by {
            lemma_heap_start_mono(pre, h, h + 1);
            lemma_heap_start_mono(pre, h + 1, pre.len() as int);
            assert(gathered[heap_start(pre, h) + k] == pre[h].pages@[k]);
        }
        assert forall|h: int, t: int|
            0 <= h < pre.len() && 0 <= t < roots.len() implies (heap_root(
                #[trigger] pre[h],
                pre[h].pages@,
                global@,
                orphans@,
                #[trigger] roots@[t],
                mask,
            ) matches Some(b) ==> handled(VisitorKind::Major, marked, b as usize, mask)) by {
            if let Some(b) = heap_root(pre[h], pre[h].pages@, global@, orphans@, roots@[t], mask) {
                assert(objs@.contains(b as usize));
                let i = choose|i: int| 0 <= i < objs@.len() && objs@[i] == b as usize;
                assert(handled(VisitorKind::Major, marked, objs@[i], mask));
            }
        }
        assert forall|h: int, k: int|
            0 <= h < pre.len() && 0 <= k < pre[h].pages.len() implies {
                let mk = marked[heap_start(pre, h) + k];
                &&& (#[trigger] heaps@[h].pages@[k]).addr == mk.addr
                &&& collected_page(mk.page, heaps@[h].pages@[k].page, false, true)
            } by {
            lemma_heap_start_mono(pre, h, h + 1);
            lemma_heap_start_mono(pre, h + 1, pre.len() as int);
            assert(heaps@[h].pages@ == after_all.subrange(heap_start(pre, h), heap_start(pre, h) + counts@[h]));
            assert(heaps@[h].pages@[k] == after_all[heap_start(pre, h) + k]);
        }
    }
    let mut m = GcMetrics::new();
    m.collection_type = CollectionType::Major;
    m.objects_reclaimed = reclaimed;
    m.objects_surviving = marked_n;
    m.bytes_surviving = bytes;
    (m, drops)
}

/// What a major collection of every heap together keeps: an object reached
/// from a root that marking handled, through pointers that may cross from
/// one heap into another, survives in its heap's page (unless its value had
/// already been dropped).
pub proof fn law_major_heaps_keep_reachable<F: Fn(usize) -> Vec<usize>>(
    before: Seq<LocalHeap>,
    after: Seq<LocalHeap>,
    marked: Seq<PageAt>,
    trace: F,
    mask: usize,
    root: usize,
    x: usize,
    n: nat,
    h: int,
    p: int,
    k: int,
)
    requires
        marking_ready(marked),
        mark_closed(VisitorKind::Major, marked, trace, mask),
        trace_per_slot(marked, trace, mask),
        handled(VisitorKind::Major, marked, root, mask),
        reaches(marked, trace, mask, root, x, n),
        0 <= h < before.len(),
        after.len() == before.len(),
        0 <= p < before[h].pages.len(),
        p < after[h].pages.len(),
        collected_page(marked[heap_start(before, h) + p].page, after[h].pages@[p].page, false, true),
        locate(marked, x, mask) == Some((heap_start(before, h) + p, k)),
        marked[heap_start(before, h) + p].page.header.allocated().contains(k),
        !marked[heap_start(before, h) + p].page.slots@[k].value_dead,
    ensures
        after[h].pages@[p].page.header.allocated().contains(k),
        after[h].pages@[p].page.header.generation == 1,
{
    let i: int = heap_start(before, h) + p;
    law_closed_marking_keeps_reachable(marked, trace, mask, root, x, n);
    lemma_locate_range(marked, x, mask);
    assert(marked[i].page.header.marked().contains(k));
    assert(!freed_by_sweep(marked[i].page, k));
    assert(!Set::new(|j: int| freed_by_sweep(marked[i].page, j)).contains(k));
}

/// What a major collection frees: an allocated object of a small-object
/// page that no weak reference names and that no pointer reachable from a
/// root names is no longer allocated once the heap is collected.
pub proof fn law_major_collection_frees_unreachable<F: Fn(usize) -> Vec<usize>>(
    heap: LocalHeap,
    cleared: Seq<PageAt>,
    marked: Seq<PageAt>,
    after: Page,
    global: Map<usize, (usize, usize, usize)>,
    orphans: Seq<OrphanEntry>,
    roots: Seq<usize>,
    mask: usize,
    trace: F,
    i: int,
    k: int,
)
    requires
        marks_reached(heap, cleared, marked, global, orphans, roots, mask, trace),
        0 <= i < marked.len(),
        0 <= k < marked[i].page.header.obj_count,
        collected_page(marked[i].page, after, false, true),
        marked[i].page.swept_by(false),
        marked[i].page.slots@[k].weak_count == 0,
        forall|q: usize| locate(cleared, q, mask) == Some((i, k)) ==> !root_reached_in(heap, cleared, global, orphans, roots, mask, trace, q),
    ensures
        !after.header.allocated().contains(k),
{
    if marked[i].page.header.marked().contains(k) {
        let q = choose|q: usize| #[trigger] locate(cleared, q, mask) == Some((i, k)) && root_reached_in(
            heap,
            cleared,
            global,
            orphans,
            roots,
            mask,
            trace,
            q,
        );
        assert(false);
    }
    if marked[i].page.header.allocated().contains(k) {
        assert(freed_by_sweep(marked[i].page, k));
        assert(Set::new(|j: int| freed_by_sweep(marked[i].page, j)).contains(k));
    }
}

/// What a major collection of every heap together frees: an allocated
/// object of a small-object page, named by no weak reference, that no
/// pointer reachable from a root of any heap names is no longer allocated.
pub proof fn law_major_heaps_free_unreachable<F: Fn(usize) -> Vec<usize>>(
    heaps: Seq<LocalHeap>,
    cleared: Seq<PageAt>,
    marked: Seq<PageAt>,
    after: Page,
    global: Map<usize, (usize, usize, usize)>,
    orphans: Seq<OrphanEntry>,
    roots: Seq<usize>,
    mask: usize,
    trace: F,
    i: int,
    k: int,
)
    requires
        forall|i2: int, k2: int|
            0 <= i2 < marked.len() && 0 <= k2 < marked[i2].page.header.obj_count && #[trigger] marked[i2].page.header.marked().contains(
                k2,
            ) ==> exists|q: usize| #[trigger] locate(cleared, q, mask) == Some((i2, k2)) && heaps_root_reached(
                heaps,
                cleared,
                global,
                orphans,
                roots,
                mask,
                trace,
                q,
            ),
        0 <= i < marked.len(),
        0 <= k < marked[i].page.header.obj_count,
        collected_page(marked[i].page, after, false, true),
        marked[i].page.swept_by(false),
        marked[i].page.slots@[k].weak_count == 0,
        forall|q: usize| locate(cleared, q, mask) == Some((i, k)) ==> !heaps_root_reached(heaps, cleared, global, orphans, roots, mask, trace, q),
    ensures
        !after.header.allocated().contains(k),
{
    if marked[i].page.header.marked().contains(k) {
        let q = choose|q: usize| #[trigger] locate(cleared, q, mask) == Some((i, k)) && heaps_root_reached(
            heaps,
            cleared,
            global,
            orphans,
            roots,
            mask,
            trace,
            q,
        );
        assert(false);
    }
    if marked[i].page.header.allocated().contains(k) {
        assert(freed_by_sweep(marked[i].page, k));
        assert(Set::new(|j: int| freed_by_sweep(marked[i].page, j)).contains(k));
    }
}

/// What a minor collection frees: an allocated object of a young
/// small-object page, unmarked before the collection, named by no weak
/// reference, that no pointer reachable from the roots or from the
/// remembered set names, is no longer allocated once the young pages are
/// swept.
pub proof fn law_minor_collection_frees_unreachable<F: Fn(usize) -> Vec<usize>>(
    heap: LocalHeap,
    marked: Seq<PageAt>,
    swept: Page,
    global: Map<usize, (usize, usize, usize)>,
    orphans: Seq<OrphanEntry>,
    roots: Seq<usize>,
    mask: usize,
    trace: F,
    i: int,
    k: int,
)
    requires
        marked.len() == heap.pages.len(),
        forall|i2: int, k2: int|
            #[trigger] newly_marked(heap.pages@, marked, i2, k2) ==> exists|q: usize|
                #[trigger] locate(heap.pages@, q, mask) == Some((i2, k2)) && minor_reached(
                    heap,
                    global,
                    orphans,
                    roots,
                    mask,
                    heap.pages@,
                    trace,
                    q,
                ),
        0 <= i < marked.len(),
        0 <= k < heap.pages@[i].page.header.obj_count,
        marked[i].page.header.obj_count == heap.pages@[i].page.header.obj_count,
        swept_page(marked[i].page, swept, true),
        marked[i].page.swept_by(true),
        !heap.pages@[i].page.header.marked().contains(k),
        marked[i].page.slots@[k].weak_count == 0,
        forall|q: usize| locate(heap.pages@, q, mask) == Some((i, k)) ==> !minor_reached(
            heap,
            global,
            orphans,
            roots,
            mask,
            heap.pages@,
            trace,
            q,
        ),
    ensures
        !swept.header.allocated().contains(k),
{
    if marked[i].page.header.marked().contains(k) {
        assert(newly_marked(heap.pages@, marked, i, k));
        let q = choose|q: usize| #[trigger] locate(heap.pages@, q, mask) == Some((i, k)) && minor_reached(
            heap,
            global,
            orphans,
            roots,
            mask,
            heap.pages@,
            trace,
            q,
        );
        assert(false);
    }
    if marked[i].page.header.allocated().contains(k) {
        assert(freed_by_sweep(marked[i].page, k));
        assert(Set::new(|j: int| freed_by_sweep(marked[i].page, j)).contains(k));
    }
}

} // verus!
