//! Passes of the collector over every page of a heap: promoting young pages
//! after a minor collection, and resetting mark and dirty state.

use vstd::prelude::*;
use crate::page::{PageHeader, same_scalars, PAGE_SLOTS, PAGE_FLAG_DIRTY_LISTED};
use crate::sweep::Page;

verus! {

/// Bytes a page contributes when young pages are promoted: a young page
/// with allocated objects contributes their total size.
pub open spec fn promoted_bytes(p: Page) -> int {
    if p.header.generation == 0 && !p.header.allocated().is_empty() {
        p.header.allocated().len() * p.header.block_size
    } else {
        0
    }
}

/// Bytes promoted over a run of pages.
pub open spec fn total_promoted(s: Seq<Page>) -> int
    decreases s.len(),
{
    if s.len() == 0 {
        0
    } else {
        total_promoted(s.drop_last()) + promoted_bytes(s.last())
    }
}

/// `after` is `before` after promotion: a young page with allocated objects
/// moves to the old generation, nothing else changes.
pub open spec fn promoted(before: Page, after: Page) -> bool {
    &&& after.wf()
    &&& after.slots@ == before.slots@
    &&& if before.header.generation == 0 && !before.header.allocated().is_empty() {
        after.header == (PageHeader { generation: 1, ..before.header })
    } else {
        after.header == before.header
    }
}

/// The bytes a page contributes are never negative.
proof fn lemma_promoted_bytes_nonneg(p: Page)
    ensures
        promoted_bytes(p) >= 0,
{
    if p.header.generation == 0 && !p.header.allocated().is_empty() {
        assert(p.header.allocated().len() * p.header.block_size >= 0) by (nonlinear_arith);
    }
}

/// The total over a prefix is at most the total over the whole run.
proof fn lemma_total_promoted_prefix(s: Seq<Page>, k: int)
    requires
        0 <= k <= s.len(),
    ensures
        0 <= total_promoted(s.take(k)) <= total_promoted(s),
    decreases s.len() - k,
{
    if k < s.len() {
        lemma_total_promoted_prefix(s, k + 1);
        assert(s.take(k + 1).drop_last() =~= s.take(k));
        assert(s.take(k + 1).last() == s[k]);
        lemma_promoted_bytes_nonneg(s[k]);
        lemma_total_promoted_nonneg(s.take(k));
    } else {
        assert(s.take(k) =~= s);
        lemma_total_promoted_nonneg(s);
    }
}

/// A total is never negative.
proof fn lemma_total_promoted_nonneg(s: Seq<Page>)
    ensures
        total_promoted(s) >= 0,
    decreases s.len(),
{
    if s.len() > 0 {
        lemma_total_promoted_nonneg(s.drop_last());
        lemma_promoted_bytes_nonneg(s.last());
    }
}

/// Promotes every young page with survivors to the old generation after a
/// minor collection. Returns the new young and old byte counts: young
/// objects are all promoted or swept, so the young count is zero, and the
/// old count grows by the bytes promoted.
pub fn promote_young_pages(pages: &mut Vec<Page>, old_allocated: usize) -> (r: (usize, usize))
    requires
        forall|k: int| 0 <= k < old(pages).len() ==> (#[trigger] old(pages)@[k]).wf()
            && old(pages)@[k].header.block_size as int * PAGE_SLOTS <= usize::MAX,
        old_allocated + total_promoted(old(pages)@) <= usize::MAX,
    ensures
        r == (0usize, (old_allocated + total_promoted(old(pages)@)) as usize),
        final(pages).len() == old(pages).len(),
        forall|k: int| 0 <= k < old(pages).len() ==> promoted(old(pages)@[k], #[trigger] final(pages)@[k]),
{
    let ghost pre = pages@;
    let mut bytes: usize = 0;
    let mut k: usize = 0;
    while k < pages.len()
        invariant
            pages.len() == pre.len(),
            k <= pre.len(),
            forall|q: int| 0 <= q < pre.len() ==> (#[trigger] pre[q]).wf() && pre[q].header.block_size as int * PAGE_SLOTS <= usize::MAX,
            old_allocated + total_promoted(pre) <= usize::MAX,
            bytes == total_promoted(pre.take(k as int)),
            forall|q: int| 0 <= q < k ==> promoted(pre[q], #[trigger] pages@[q]),
            forall|q: int| k <= q < pre.len() ==> #[trigger] pages@[q] == pre[q],
        decreases pre.len() - k,
    {
        proof {
            assert(pre.take(k + 1).drop_last() =~= pre.take(k as int));
            assert(pre.take(k + 1).last() == pre[k as int]);
            lemma_total_promoted_prefix(pre, k + 1);
            assert(pages@[k as int] == pre[k as int]);
        }
        let mut page = pages.remove(k);
        let p = page.promote_if_young();
        pages.insert(k, page);
        bytes = bytes + p;
        k = k + 1;
    }
    proof {
        assert(pre.take(pre.len() as int) =~= pre);
    }
    (0, old_allocated + bytes)
}

/// Promotion settles a page: promoting it again moves no byte.
pub proof fn law_promotion_settles(before: Page, after: Page)
    requires
        promoted(before, after),
    ensures
        promoted_bytes(after) == 0,
{
}

/// The (page, slot) pairs whose value the first sweep phase drops, page
/// after page.
pub open spec fn heap_drops(pages: Seq<Page>, only_young: bool) -> Seq<(usize, usize)>
    decreases pages.len(),
{
    if pages.len() == 0 {
        Seq::empty()
    } else {
        let k = (pages.len() - 1) as usize;
        heap_drops(pages.drop_last(), only_young) + pages.last().finalize_drops(only_young).map_values(|v: usize| (k, v))
    }
}

/// The slots the second sweep phase reclaims over a run of pages.
pub open spec fn heap_reclaimed(pages: Seq<Page>, only_young: bool) -> int
    decreases pages.len(),
{
    if pages.len() == 0 {
        0
    } else {
        heap_reclaimed(pages.drop_last(), only_young) + pages.last().reclaim_count(only_young)
    }
}

/// The first sweep phase over every page of the heap (large-object pages
/// and, for a young-only sweep, old pages are left alone). Returns the
/// (page, slot) pairs whose value must be dropped before the second phase.
pub fn sweep_phase1_finalize(pages: &mut Vec<Page>, only_young: bool) -> (r: Vec<(usize, usize)>)
    requires
        forall|k: int| 0 <= k < old(pages).len() ==> (#[trigger] old(pages)@[k]).wf(),
    ensures
        final(pages).len() == old(pages).len(),
        forall|k: int| 0 <= k < old(pages).len() ==> Page::finalized(old(pages)@[k], #[trigger] final(pages)@[k], only_young),
        r@ == heap_drops(old(pages)@, only_young),
{
    let ghost pre = pages@;
    let mut r: Vec<(usize, usize)> = Vec::new();
    let mut k: usize = 0;
    while k < pages.len()
        invariant
            pages.len() == pre.len(),
            k <= pre.len(),
            forall|q: int| 0 <= q < pre.len() ==> (#[trigger] pre[q]).wf(),
            forall|q: int| 0 <= q < k ==> Page::finalized(pre[q], #[trigger] pages@[q], only_young),
            forall|q: int| k <= q < pre.len() ==> #[trigger] pages@[q] == pre[q],
            r@ == heap_drops(pre.take(k as int), only_young),
        decreases pre.len() - k,
    {
        proof {
            assert(pages@[k as int] == pre[k as int]);
            assert(pre.take(k + 1).drop_last() =~= pre.take(k as int));
            assert(pre.take(k + 1).last() == pre[k as int]);
        }
        let mut page = pages.remove(k);
        let (dropped, _pending) = page.sweep_phase1_finalize(only_young);
        pages.insert(k, page);
        let mut j: usize = 0;
        let ghost base = r@;
        while j < dropped.len()
            invariant
                j <= dropped.len(),
                r@ == base + dropped@.take(j as int).map_values(|v: usize| (k, v)),
            decreases dropped.len() - j,
        {
            r.push((k, dropped[j]));
            proof {
                assert(dropped@.take(j + 1).map_values(|v: usize| (k, v)) =~= dropped@.take(j as int).map_values(|v: usize| (k, v)).push((k, dropped@[j as int])));
                assert(r@ =~= base + dropped@.take(j + 1).map_values(|v: usize| (k, v)));
            }
            j = j + 1;
        }
        proof {
            assert(dropped@.take(dropped.len() as int) =~= dropped@);
        }
        k = k + 1;
    }
    proof {
        assert(pre.take(pre.len() as int) =~= pre);
    }
    r
}

/// The reclaimed count over a run of pages is never negative and grows with
/// the run.
proof fn lemma_heap_reclaimed_prefix(s: Seq<Page>, only_young: bool, k: int)
    requires
        0 <= k <= s.len(),
    ensures
        0 <= heap_reclaimed(s.take(k), only_young) <= heap_reclaimed(s, only_young),
    decreases s.len() - k,
{
    if k < s.len() {
        lemma_heap_reclaimed_prefix(s, only_young, k + 1);
        assert(s.take(k + 1).drop_last() =~= s.take(k));
        assert(s.take(k + 1).last() == s[k]);
        lemma_heap_reclaimed_nonneg(s.take(k), only_young);
    } else {
        assert(s.take(k) =~= s);
        lemma_heap_reclaimed_nonneg(s, only_young);
    }
}

/// A reclaimed count is never negative.
proof fn lemma_heap_reclaimed_nonneg(s: Seq<Page>, only_young: bool)
    ensures
        heap_reclaimed(s, only_young) >= 0,
    decreases s.len(),
{
    if s.len() > 0 {
        lemma_heap_reclaimed_nonneg(s.drop_last(), only_young);
    }
}

/// The second sweep phase over every page of the heap: reclaims the
/// unreachable slots whose value was dropped and that no weak reference
/// names, and rebuilds each page's free list. Returns how many slots were
/// reclaimed.
pub fn sweep_phase2_reclaim(pages: &mut Vec<Page>, only_young: bool) -> (reclaimed: usize)
    requires
        forall|k: int| 0 <= k < old(pages).len() ==> (#[trigger] old(pages)@[k]).wf(),
        heap_slots(old(pages)@) <= usize::MAX,
    ensures
        final(pages).len() == old(pages).len(),
        forall|k: int| 0 <= k < old(pages).len() ==> Page::reclaimed_into(old(pages)@[k], #[trigger] final(pages)@[k], only_young),
        reclaimed == heap_reclaimed(old(pages)@, only_young),
{
    let ghost pre = pages@;
    proof {
        lemma_heap_reclaimed_bounded(pre, only_young);
    }
    let mut total: usize = 0;
    let mut k: usize = 0;
    while k < pages.len()
        invariant
            pages.len() == pre.len(),
            k <= pre.len(),
            forall|q: int| 0 <= q < pre.len() ==> (#[trigger] pre[q]).wf(),
            heap_reclaimed(pre, only_young) <= usize::MAX,
            forall|q: int| 0 <= q < k ==> Page::reclaimed_into(pre[q], #[trigger] pages@[q], only_young),
            forall|q: int| k <= q < pre.len() ==> #[trigger] pages@[q] == pre[q],
            total == heap_reclaimed(pre.take(k as int), only_young),
        decreases pre.len() - k,
    {
        proof {
            assert(pages@[k as int] == pre[k as int]);
            assert(pre.take(k + 1).drop_last() =~= pre.take(k as int));
            assert(pre.take(k + 1).last() == pre[k as int]);
            lemma_heap_reclaimed_prefix(pre, only_young, k + 1);
        }
        let mut page = pages.remove(k);
        let n = page.sweep_phase2_reclaim(only_young);
        pages.insert(k, page);
        total = total + n;
        k = k + 1;
    }
    proof {
        assert(pre.take(pre.len() as int) =~= pre);
    }
    total
}

/// The number of object slots over a run of pages.
pub open spec fn heap_slots(pages: Seq<Page>) -> int
    decreases pages.len(),
{
    if pages.len() == 0 {
        0
    } else {
        heap_slots(pages.drop_last()) + pages.last().n()
    }
}

/// A run of pages reclaims at most as many slots as it has.
proof fn lemma_heap_reclaimed_bounded(s: Seq<Page>, only_young: bool)
    ensures
        heap_reclaimed(s, only_young) <= heap_slots(s),
    decreases s.len(),
{
    if s.len() > 0 {
        lemma_heap_reclaimed_bounded(s.drop_last(), only_young);
        let p = s.last();
        crate::sweep::lemma_indices_where_len(p.n(), |i: int| p.reclaimable(i));
    }
}

/// Two runs of pages whose pages hold as many slots each hold as many slots
/// in all.
proof fn lemma_heap_slots_same(a: Seq<Page>, b: Seq<Page>)
    requires
        a.len() == b.len(),
        forall|k: int| 0 <= k < a.len() ==> (#[trigger] a[k]).n() == b[k].n(),
    ensures
        heap_slots(a) == heap_slots(b),
    decreases a.len(),
{
    if a.len() > 0 {
        assert forall|k: int| 0 <= k < a.drop_last().len() implies (#[trigger] a.drop_last()[k]).n() == b.drop_last()[k].n() by {
            assert(a.drop_last()[k] == a[k]);
            assert(b.drop_last()[k] == b[k]);
        }
        lemma_heap_slots_same(a.drop_last(), b.drop_last());
        assert(a.last().n() == b.last().n()) by {
            assert(a[a.len() - 1].n() == b[a.len() - 1].n());
        }
    }
}

/// Sweeps the heap's small-object pages in both phases: first every
/// unreachable object is retired (the returned (page, slot) pairs name the
/// values to drop), then the slots that can be reclaimed go back to their
/// pages' free lists. Returns those pairs and the number of slots reclaimed.
pub fn sweep_segment_pages(pages: &mut Vec<Page>, only_young: bool) -> (r: (Vec<(usize, usize)>, usize))
    requires
        forall|k: int| 0 <= k < old(pages).len() ==> (#[trigger] old(pages)@[k]).wf(),
        heap_slots(old(pages)@) <= usize::MAX,
    ensures
        final(pages).len() == old(pages).len(),
        r.0@ == heap_drops(old(pages)@, only_young),
        exists|mid: Seq<Page>|
            {
                &&& mid.len() == old(pages).len()
                &&& forall|k: int| 0 <= k < mid.len() ==> Page::finalized(old(pages)@[k], #[trigger] mid[k], only_young)
                &&& forall|k: int| 0 <= k < mid.len() ==> Page::reclaimed_into(mid[k], #[trigger] final(pages)@[k], only_young)
                &&& r.1 == heap_reclaimed(mid, only_young)
            },
{
    let ghost pre = pages@;
    let drops = sweep_phase1_finalize(pages, only_young);
    let ghost mid = pages@;
    proof {
        assert forall|k: int| 0 <= k < pre.len() implies (#[trigger] pre[k]).n() == mid[k].n() by {
            assert(Page::finalized(pre[k], mid[k], only_young));
        }
        lemma_heap_slots_same(pre, mid);
        assert forall|k: int| 0 <= k < mid.len() implies (#[trigger] mid[k]).wf() by {
            assert(Page::finalized(pre[k], mid[k], only_young));
        }
    }
    let reclaimed = sweep_phase2_reclaim(pages, only_young);
    (drops, reclaimed)
}

/// `after` is `before` with its marks and dirty bits cleared and its dead
/// count reset.
pub open spec fn marks_reset(before: Page, after: Page) -> bool {
    &&& after.wf()
    &&& after.slots@ == before.slots@
    &&& same_scalars(after.header, PageHeader { dead_count: 0, ..before.header })
    &&& after.header.marked() == Set::<int>::empty()
    &&& after.header.dirty() == Set::<int>::empty()
    &&& after.header.allocated() == before.header.allocated()
}

/// Clears every mark and dirty bit of every page and resets the pages'
/// dead counts, before a collection starts marking.
pub fn clear_all_marks_and_dirty(pages: &mut Vec<Page>)
    requires
        forall|k: int| 0 <= k < old(pages).len() ==> (#[trigger] old(pages)@[k]).wf(),
    ensures
        final(pages).len() == old(pages).len(),
        forall|k: int| 0 <= k < old(pages).len() ==> marks_reset(old(pages)@[k], #[trigger] final(pages)@[k]),
{
    let ghost pre = pages@;
    let mut k: usize = 0;
    while k < pages.len()
        invariant
            pages.len() == pre.len(),
            k <= pre.len(),
            forall|q: int| 0 <= q < pre.len() ==> (#[trigger] pre[q]).wf(),
            forall|q: int| 0 <= q < k ==> marks_reset(pre[q], #[trigger] pages@[q]),
            forall|q: int| k <= q < pre.len() ==> #[trigger] pages@[q] == pre[q],
        decreases pre.len() - k,
    {
        proof {
            assert(pages@[k as int] == pre[k as int]);
        }
        let mut page = pages.remove(k);
        page.header.clear_all_marks();
        page.header.clear_all_dirty();
        page.header.set_dead_count(0);
        pages.insert(k, page);
        k = k + 1;
    }
}

/// `after` is `before` with its dirty bits cleared and its dirty-listed
/// flag dropped.
pub open spec fn dirty_reset(before: Page, after: Page) -> bool {
    &&& after.wf()
    &&& after.slots@ == before.slots@
    &&& same_scalars(after.header, PageHeader { flags: before.header.flags & !PAGE_FLAG_DIRTY_LISTED, ..before.header })
    &&& after.header.dirty() == Set::<int>::empty()
    &&& after.header.marked() == before.header.marked()
    &&& after.header.allocated() == before.header.allocated()
}

/// Clears the dirty bits and the dirty-listed flag of the pages at the
/// given positions (those scanned from the dirty-page list).
pub fn clear_dirty_page_states(pages: &mut Vec<Page>, which: &Vec<usize>)
    requires
        forall|k: int| 0 <= k < old(pages).len() ==> (#[trigger] old(pages)@[k]).wf(),
        forall|j: int| 0 <= j < which.len() ==> #[trigger] which@[j] < old(pages).len(),
    ensures
        final(pages).len() == old(pages).len(),
        forall|k: int| 0 <= k < old(pages).len() ==> if which@.contains(k as usize) {
            dirty_reset(old(pages)@[k], #[trigger] final(pages)@[k])
        } else {
            final(pages)@[k] == old(pages)@[k]
        },
{
    let ghost pre = pages@;
    let mut j: usize = 0;
    while j < which.len()
        invariant
            pages.len() == pre.len(),
            j <= which.len(),
            forall|q: int| 0 <= q < pre.len() ==> (#[trigger] pre[q]).wf(),
            forall|i: int| 0 <= i < which.len() ==> #[trigger] which@[i] < pre.len(),
            forall|q: int| 0 <= q < pre.len() ==> if which@.take(j as int).contains(q as usize) {
                dirty_reset(pre[q], #[trigger] pages@[q])
            } else {
                pages@[q] == pre[q]
            },
        decreases which.len() - j,
    {
        let i = which[j];
        proof {
            assert(which@.take(j + 1) =~= which@.take(j as int).push(i));
        }
        let ghost cur = pages@;
        let mut page = pages.remove(i);
        page.header.clear_all_dirty();
        page.header.clear_dirty_listed();
        pages.insert(i, page);
        proof {
            assert forall|q: int| 0 <= q < pre.len() implies if which@.take(j + 1).contains(q as usize) {
                dirty_reset(pre[q], #[trigger] pages@[q])
            } else {
                pages@[q] == pre[q]
            } by {
                if q != i as int {
                    assert(pages@[q] == cur[q]);
                    if which@.take(j + 1).contains(q as usize) {
                        let w = choose|w: int| 0 <= w < j + 1 && #[trigger] which@.take(j + 1)[w] == q as usize;
                        assert(which@.take(j as int)[w] == q as usize);
                    } else {
                        assert(!which@.take(j as int).contains(q as usize)) by {
                            if which@.take(j as int).contains(q as usize) {
                                let w = choose|w: int| 0 <= w < j && #[trigger] which@.take(j as int)[w] == q as usize;
                                assert(which@.take(j + 1)[w] == q as usize);
                            }
                        }
                    }
                } else {
                    assert(which@.take(j + 1)[j as int] == i);
                    let f = pre[q].header.flags;
                    assert((f & !0x10u8) & !0x10u8 == f & !0x10u8) by (bit_vector);
                }
            }
        }
        j = j + 1;
    }
    proof {
        assert(which@.take(which.len() as int) =~= which@);
    }
}

/// Moves every page to the old generation.
pub fn promote_all_pages(pages: &mut Vec<Page>)
    ensures
        final(pages).len() == old(pages).len(),
        forall|k: int| 0 <= k < old(pages).len() ==> {
            &&& (#[trigger] final(pages)@[k]).header == (PageHeader { generation: 1, ..old(pages)@[k].header })
            &&& final(pages)@[k].slots == old(pages)@[k].slots
        },
{
    let ghost pre = pages@;
    let mut k: usize = 0;
    while k < pages.len()
        invariant
            pages.len() == pre.len(),
            k <= pre.len(),
            forall|q: int| 0 <= q < k ==> {
                &&& (#[trigger] pages@[q]).header == (PageHeader { generation: 1, ..pre[q].header })
                &&& pages@[q].slots == pre[q].slots
            },
            forall|q: int| k <= q < pre.len() ==> #[trigger] pages@[q] == pre[q],
        decreases pre.len() - k,
    {
        let mut page = pages.remove(k);
        page.header.generation = 1;
        pages.insert(k, page);
        k = k + 1;
    }
}

} // verus!
