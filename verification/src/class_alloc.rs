//! Small-object allocation from the free lists of a size class's pages.
//! Each class remembers a preferred page, the pages known to have free
//! slots, and all of its pages; allocation tries them in that order.

use vstd::prelude::*;
use std::collections::HashSet;
use crate::page::{PageHeader, same_page, same_scalars, FREE_LIST_NONE, spec_header_size, spec_max_objects, PAGE_SLOTS, MAGIC_GC_PAGE};
use crate::sweep::{Page, GcSlot};
use crate::threads::Tlab;

verus! {

broadcast use vstd::std_specs::hash::group_hash_axioms;

/// The page lists of one size class, as indices into the heap's pages.
pub struct ClassPages {
    /// The page allocation tries first.
    pub preferred: Option<usize>,
    /// Pages known to have free slots.
    pub with_free: Vec<usize>,
    /// Every page of the class.
    pub by_class: Vec<usize>,
}

/// A pop that finds nothing leaves the page unable to serve any pop of
/// that block size.
pub proof fn lemma_left_stays_empty(b: Page, a: Page, bs: usize)
    requires
        Page::pop_left(b, a),
        b.pop_result(bs, true) is None,
    ensures
        a.pop_result(bs, true) is None,
        a.pop_result(bs, false) is None,
        b.pop_result(bs, false) is None,
{
}

/// Two pops that found nothing amount to one.
pub proof fn lemma_left_trans(b: Page, m: Page, a: Page)
    requires
        Page::pop_left(b, m),
        Page::pop_left(m, a),
    ensures
        Page::pop_left(b, a),
{
}

/// Pops the free list of page `i`, leaving the other pages alone.
fn pop_at(pages: &mut Vec<Page>, i: usize, bs: usize, known_small: bool) -> (r: Option<(usize, bool)>)
    requires
        i < old(pages).len(),
        old(pages)@[i as int].wf(),
    ensures
        final(pages).len() == old(pages).len(),
        r == old(pages)@[i as int].pop_result(bs, known_small),
        r is Some ==> Page::popped(old(pages)@[i as int], final(pages)@[i as int]),
        r is None ==> Page::pop_left(old(pages)@[i as int], final(pages)@[i as int]),
        forall|q: int| 0 <= q < old(pages).len() && q != i ==> final(pages)@[q] == old(pages)@[q],
{
    let mut page = pages.remove(i);
    let r = page.try_pop_from_page(bs, known_small);
    pages.insert(i, page);
    r
}

/// The page a free-slots scan tries at step `t`: the scan reads the first
/// entry and, on failure, swaps the last entry into its place.
pub open spec fn scan_at(w: Seq<usize>, t: int) -> usize {
    if t == 0 {
        w[0]
    } else {
        w[w.len() - t]
    }
}

/// The free-slots list after `t` removals from its front, each swapping
/// the last entry in.
pub open spec fn swapped_out(w: Seq<usize>, t: int) -> Seq<usize> {
    if t <= 0 {
        w
    } else if t >= w.len() {
        Seq::empty()
    } else {
        seq![w[w.len() - t]] + w.subrange(1, w.len() - t)
    }
}

/// The first step, from `t`, at which the free-slots scan finds a page
/// that can serve block size `bs`.
pub open spec fn first_scan(pages: Seq<Page>, w: Seq<usize>, bs: usize, t: int) -> Option<int>
    decreases w.len() - t,
{
    if t < 0 || t >= w.len() {
        None
    } else if pages[scan_at(w, t) as int].pop_result(bs, true) is Some {
        Some(t)
    } else {
        first_scan(pages, w, bs, t + 1)
    }
}

/// The first position, from `j`, of a page of the class that can serve
/// block size `bs` (checked as a page of unknown kind).
pub open spec fn first_fit(pages: Seq<Page>, bc: Seq<usize>, bs: usize, j: int) -> Option<int>
    decreases bc.len() - j,
{
    if j < 0 || j >= bc.len() {
        None
    } else if pages[bc[j] as int].pop_result(bs, false) is Some {
        Some(j)
    } else {
        first_fit(pages, bc, bs, j + 1)
    }
}

/// The first position, from `i`, of `x` in `w`.
pub open spec fn first_pos(w: Seq<usize>, x: usize, i: int) -> Option<int>
    decreases w.len() - i,
{
    if i < 0 || i >= w.len() {
        None
    } else if w[i] == x {
        Some(i)
    } else {
        first_pos(w, x, i + 1)
    }
}

/// `w` without its first `x`, the last entry taking its place.
pub open spec fn without_first(w: Seq<usize>, x: usize) -> Seq<usize> {
    match first_pos(w, x, 0) {
        Some(i) => w.update(i, w.last()).drop_last(),
        None => w,
    }
}

/// The pages a free-slots scan tried in its first `k` steps.
pub open spec fn scanned(w: Seq<usize>, k: int) -> Set<usize> {
    Set::new(|q: usize| exists|t: int| 0 <= t < k && #[trigger] scan_at(w, t) == q)
}

/// The pages among the first `j` of the class.
pub open spec fn fitted(bc: Seq<usize>, j: int) -> Set<usize> {
    Set::new(|q: usize| exists|t: int| 0 <= t < j && #[trigger] bc[t] == q)
}

/// The preferred page, as a set.
pub open spec fn pref_set(pref: Option<usize>) -> Set<usize> {
    match pref {
        Some(p) => set![p],
        None => Set::empty(),
    }
}

/// The class's lists name pages of the heap, each well formed.
pub open spec fn class_ready(c: ClassPages, pages: Seq<Page>) -> bool {
    &&& forall|q: int| 0 <= q < pages.len() ==> (#[trigger] pages[q]).wf()
    &&& c.preferred matches Some(p) ==> p < pages.len()
    &&& forall|t: int| 0 <= t < c.with_free.len() ==> #[trigger] c.with_free@[t] < pages.len()
    &&& forall|t: int| 0 <= t < c.by_class.len() ==> #[trigger] c.by_class@[t] < pages.len()
}

/// Every page is the chosen one and popped, or was tried and found
/// nothing, or is untouched.
pub open spec fn pages_after(before: Seq<Page>, after: Seq<Page>, chosen: Option<usize>, tried: Set<usize>) -> bool {
    &&& after.len() == before.len()
    &&& forall|q: int| 0 <= q < before.len() ==> {
        if chosen == Some(q as usize) {
            Page::popped(before[q], #[trigger] after[q])
        } else if tried.contains(q as usize) {
            Page::pop_left(before[q], after[q])
        } else {
            after[q] == before[q]
        }
    }
}

/// The preferred page can serve block size `bs`.
pub open spec fn pref_hit(pref: Option<usize>, pages: Seq<Page>, bs: usize) -> bool {
    pref matches Some(p) && pages[p as int].pop_result(bs, true) is Some
}

/// Removing the front of the free-slots list after `t` removals gives the
/// list after `t + 1`.
proof fn lemma_swapped_out_step(w: Seq<usize>, t: int)
    requires
        0 <= t < w.len(),
    ensures
        swapped_out(w, t).len() == w.len() - t,
        swapped_out(w, t)[0] == scan_at(w, t),
        swapped_out(w, t).update(0, swapped_out(w, t).last()).drop_last() == swapped_out(w, t + 1),
{
    let v = swapped_out(w, t);
    if t == 0 {
        assert(v == w);
    }
    assert(v.update(0, v.last()).drop_last() =~= swapped_out(w, t + 1));
}

/// One more scan step adds the page it tried.
proof fn lemma_scanned_step(w: Seq<usize>, t: int)
    requires
        t >= 0,
    ensures
        scanned(w, t + 1) == scanned(w, t).insert(scan_at(w, t)),
{
    assert forall|q: usize| #[trigger] scanned(w, t + 1).contains(q) <==> scanned(w, t).insert(scan_at(w, t)).contains(q) by {
        if scanned(w, t + 1).contains(q) {
            let u = choose|u: int| 0 <= u < t + 1 && #[trigger] scan_at(w, u) == q;
            if u < t {
                assert(scanned(w, t).contains(q));
            }
        }
        if scanned(w, t).contains(q) {
            let u = choose|u: int| 0 <= u < t && #[trigger] scan_at(w, u) == q;
            assert(0 <= u < t + 1);
        }
        if q == scan_at(w, t) {
            assert(0 <= t < t + 1);
        }
    }
    assert(scanned(w, t + 1) =~= scanned(w, t).insert(scan_at(w, t)));
}

/// One more class page adds the page it names.
proof fn lemma_fitted_step(bc: Seq<usize>, j: int)
    requires
        j >= 0,
    ensures
        fitted(bc, j + 1) == fitted(bc, j).insert(bc[j]),
{
    assert forall|q: usize| #[trigger] fitted(bc, j + 1).contains(q) <==> fitted(bc, j).insert(bc[j]).contains(q) by {
        if fitted(bc, j + 1).contains(q) {
            let u = choose|u: int| 0 <= u < j + 1 && #[trigger] bc[u] == q;
            if u < j {
                assert(fitted(bc, j).contains(q));
            }
        }
        if fitted(bc, j).contains(q) {
            let u = choose|u: int| 0 <= u < j && #[trigger] bc[u] == q;
            assert(0 <= u < j + 1);
        }
        if q == bc[j] {
            assert(0 <= j < j + 1);
        }
    }
    assert(fitted(bc, j + 1) =~= fitted(bc, j).insert(bc[j]));
}

/// The first position of `x` in `w`.
fn position_of(w: &Vec<usize>, x: usize) -> (r: Option<usize>)
    ensures
        match r {
            Some(i) => first_pos(w@, x, 0) == Some(i as int) && i < w.len(),
            None => first_pos(w@, x, 0) is None,
        },
{
    let mut i: usize = 0;
    while i < w.len()
        invariant
            i <= w.len(),
            first_pos(w@, x, 0) == first_pos(w@, x, i as int),
        decreases w.len() - i,
    {
        if w[i] == x {
            return Some(i);
        }
        i = i + 1;
    }
    None
}

impl ClassPages {
    /// Allocates a slot of block size `bs` from the class's pages: the
    /// preferred page first; then the pages known to have free slots, the
    /// first entry each time, a page that cannot serve leaving the list (the
    /// last entry takes its place); then every page of the class, checked as
    /// a page of unknown kind. The page that serves becomes the preferred
    /// page unless its list ran out, and it leaves the free-slots list when
    /// its list ran out (a page found by the last stage joins the list when
    /// it still has free slots). Returns the page and the slot, or `None`
    /// when no page can serve.
    pub fn alloc_from_free_list(&mut self, pages: &mut Vec<Page>, bs: usize) -> (r: Option<(usize, usize)>)
        requires
            class_ready(*old(self), old(pages)@),
        ensures
            final(self).by_class@ == old(self).by_class@,
            ({
                let pre = old(pages)@;
                let pref = old(self).preferred;
                let w = old(self).with_free@;
                let bc = old(self).by_class@;
                if pref_hit(pref, pre, bs) {
                    let p = pref.unwrap();
                    let (s, ex) = pre[p as int].pop_result(bs, true).unwrap();
                    &&& r == Some((p, s))
                    &&& final(self).preferred == (if ex { None } else { Some(p) })
                    &&& final(self).with_free@ == (if ex { without_first(w, p) } else { w })
                    &&& pages_after(pre, final(pages)@, Some(p), Set::empty())
                } else if first_scan(pre, w, bs, 0) is Some {
                    let k = first_scan(pre, w, bs, 0).unwrap();
                    let c = scan_at(w, k);
                    let (s, ex) = pre[c as int].pop_result(bs, true).unwrap();
                    &&& r == Some((c, s))
                    &&& final(self).preferred == (if ex { None } else { Some(c) })
                    &&& final(self).with_free@ == swapped_out(w, if ex { k + 1 } else { k })
                    &&& pages_after(pre, final(pages)@, Some(c), pref_set(pref).union(scanned(w, k)))
                } else if first_fit(pre, bc, bs, 0) is Some {
                    let j = first_fit(pre, bc, bs, 0).unwrap();
                    let c = bc[j];
                    let (s, ex) = pre[c as int].pop_result(bs, false).unwrap();
                    &&& r == Some((c, s))
                    &&& final(self).preferred == (if ex { None } else { Some(c) })
                    &&& final(self).with_free@ == (if ex { Seq::empty() } else { seq![c] })
                    &&& pages_after(pre, final(pages)@, Some(c), pref_set(pref).union(scanned(w, w.len() as int)).union(fitted(bc, j)))
                } else {
                    &&& r is None
                    &&& final(self).preferred is None
                    &&& final(self).with_free@ == Seq::<usize>::empty()
                    &&& pages_after(
                        pre,
                        final(pages)@,
                        None,
                        pref_set(pref).union(scanned(w, w.len() as int)).union(fitted(bc, bc.len() as int)),
                    )
                }
            }),
    {
        let ghost pre = pages@;
        let ghost pref0 = self.preferred;
        let ghost w0 = self.with_free@;
        let ghost bc = self.by_class@;
        if let Some(p) = self.preferred {
            match pop_at(pages, p, bs, true) {
                Some((slot, exhausted)) => {
                    if exhausted {
                        self.preferred = None;
                        match position_of(&self.with_free, p) {
                            Some(pos) => {
                                self.with_free.swap_remove(pos);
                            },
                            None => {},
                        }
                    }
                    return Some((p, slot));
                },
                None => {},
            }
            self.preferred = None;
        }
        proof {
            assert(!pref_hit(pref0, pre, bs));
            assert(scanned(w0, 0) =~= Set::<usize>::empty());
            assert(pref_set(pref0).union(scanned(w0, 0)) =~= pref_set(pref0));
        }
        let ghost mut t: int = 0;
        let mut found: Option<(usize, usize, bool)> = None;
        while self.with_free.len() > 0
            invariant_except_break
                found is None,
            invariant
                forall|q: int| 0 <= q < pre.len() ==> (#[trigger] pre[q]).wf(),
                forall|u: int| 0 <= u < w0.len() ==> #[trigger] w0[u] < pre.len(),
                pref0 matches Some(p) ==> p < pre.len(),
                self.by_class@ == bc,
                self.preferred is None,
                !pref_hit(pref0, pre, bs),
                0 <= t <= w0.len(),
                self.with_free@ == swapped_out(w0, t),
                first_scan(pre, w0, bs, 0) == first_scan(pre, w0, bs, t),
                forall|q: usize| #[trigger] pref_set(pref0).union(scanned(w0, t)).contains(q) ==> pre[q as int].pop_result(bs, true) is None,
                found is None ==> pages_after(pre, pages@, None, pref_set(pref0).union(scanned(w0, t))),
            ensures
                found is None ==> t == w0.len() && self.with_free@ == Seq::<usize>::empty(),
                found matches Some((page, slot, exhausted)) ==> {
                    &&& t < w0.len()
                    &&& page == scan_at(w0, t)
                    &&& first_scan(pre, w0, bs, 0) == Some(t)
                    &&& pre[page as int].pop_result(bs, true) == Some((slot, exhausted))
                    &&& pages_after(pre, pages@, Some(page), pref_set(pref0).union(scanned(w0, t)))
                },
            decreases w0.len() - t,
        {
            proof {
                if t >= w0.len() {
                    assert(swapped_out(w0, t).len() == 0);
                }
                lemma_swapped_out_step(w0, t);
                lemma_scanned_step(w0, t);
            }
            let page = self.with_free[0];
            proof {
                assert(page == scan_at(w0, t));
                if t == 0 {
                    assert(w0[0] < pre.len());
                } else {
                    assert(w0[w0.len() - t] < pre.len());
                }
                assert(pages@[page as int].wf()) by {
                    let tried = pref_set(pref0).union(scanned(w0, t));
                    if tried.contains(page) {
                        assert(Page::pop_left(pre[page as int], pages@[page as int]));
                    } else {
                        assert(pages@[page as int] == pre[page as int]);
                    }
                }
            }
            let ghost cur = pages@;
            match pop_at(pages, page, bs, true) {
                Some((slot, exhausted)) => {
                    proof {
                        let tried = pref_set(pref0).union(scanned(w0, t));
                        if tried.contains(page) {
                            lemma_left_stays_empty(pre[page as int], cur[page as int], bs);
                        }
                        assert(cur[page as int] == pre[page as int]);
                        assert(first_scan(pre, w0, bs, t) == Some(t));
                    }
                    found = Some((page, slot, exhausted));
                    break;
                },
                None => {
                    proof {
                        let tried = pref_set(pref0).union(scanned(w0, t));
                        if tried.contains(page) {
                            lemma_left_trans(pre[page as int], cur[page as int], pages@[page as int]);
                        } else {
                            assert(cur[page as int] == pre[page as int]);
                        }
                        assert(pre[page as int].pop_result(bs, true) is None);
                        assert(first_scan(pre, w0, bs, t) == first_scan(pre, w0, bs, t + 1));
                        assert(pref_set(pref0).union(scanned(w0, t + 1)) =~= tried.insert(page));
                    }
                    self.with_free.swap_remove(0);
                },
            }
            proof {
                t = t + 1;
            }
        }
        if let Some((page, slot, exhausted)) = found {
            proof {
                lemma_swapped_out_step(w0, t);
            }
            if exhausted {
                self.with_free.swap_remove(0);
            } else {
                self.preferred = Some(page);
            }
            return Some((page, slot));
        }
        proof {
            assert(first_scan(pre, w0, bs, t) is None);
            assert(fitted(bc, 0) =~= Set::<usize>::empty());
            assert(pref_set(pref0).union(scanned(w0, t)).union(fitted(bc, 0)) =~= pref_set(pref0).union(scanned(w0, t)));
        }
        let mut j: usize = 0;
        let mut hit: Option<(usize, usize, bool)> = None;
        while j < self.by_class.len()
            invariant_except_break
                hit is None,
            invariant
                forall|q: int| 0 <= q < pre.len() ==> (#[trigger] pre[q]).wf(),
                forall|u: int| 0 <= u < bc.len() ==> #[trigger] bc[u] < pre.len(),
                self.by_class@ == bc,
                self.preferred is None,
                self.with_free@ == Seq::<usize>::empty(),
                t == w0.len(),
                !pref_hit(pref0, pre, bs),
                first_scan(pre, w0, bs, 0) is None,
                j <= bc.len(),
                first_fit(pre, bc, bs, 0) == first_fit(pre, bc, bs, j as int),
                forall|q: usize| #[trigger] pref_set(pref0).union(scanned(w0, t)).contains(q) ==> pre[q as int].pop_result(bs, true) is None,
                forall|q: usize| #[trigger] fitted(bc, j as int).contains(q) ==> pre[q as int].pop_result(bs, false) is None,
                hit is None ==> pages_after(pre, pages@, None, pref_set(pref0).union(scanned(w0, t)).union(fitted(bc, j as int))),
            ensures
                hit is None ==> j == bc.len(),
                hit matches Some((page, slot, exhausted)) ==> {
                    &&& j < bc.len()
                    &&& page == bc[j as int]
                    &&& first_fit(pre, bc, bs, 0) == Some(j as int)
                    &&& pre[page as int].pop_result(bs, false) == Some((slot, exhausted))
                    &&& pages_after(pre, pages@, Some(page), pref_set(pref0).union(scanned(w0, t)).union(fitted(bc, j as int)))
                },
            decreases bc.len() - j,
        {
            let page = self.by_class[j];
            proof {
                lemma_fitted_step(bc, j as int);
                assert(page == bc[j as int]);
                let tried = pref_set(pref0).union(scanned(w0, t)).union(fitted(bc, j as int));
                assert(pages@[page as int].wf()) by {
                    if tried.contains(page) {
                        assert(Page::pop_left(pre[page as int], pages@[page as int]));
                    } else {
                        assert(pages@[page as int] == pre[page as int]);
                    }
                }
            }
            let ghost cur = pages@;
            match pop_at(pages, page, bs, false) {
                Some((slot, exhausted)) => {
                    proof {
                        let tried = pref_set(pref0).union(scanned(w0, t)).union(fitted(bc, j as int));
                        if tried.contains(page) {
                            if pref_set(pref0).union(scanned(w0, t)).contains(page) {
                                lemma_left_stays_empty(pre[page as int], cur[page as int], bs);
                            } else {
                                assert(pre[page as int].pop_result(bs, false) is None);
                                assert(Page::pop_left(pre[page as int], cur[page as int]));
                            }
                        }
                        assert(cur[page as int] == pre[page as int]);
                        assert(first_fit(pre, bc, bs, j as int) == Some(j as int));
                    }
                    hit = Some((page, slot, exhausted));
                    break;
                },
                None => {
                    proof {
                        let tried = pref_set(pref0).union(scanned(w0, t)).union(fitted(bc, j as int));
                        if tried.contains(page) {
                            lemma_left_trans(pre[page as int], cur[page as int], pages@[page as int]);
                        } else {
                            assert(cur[page as int] == pre[page as int]);
                        }
                        assert(pre[page as int].pop_result(bs, false) is None);
                        assert(first_fit(pre, bc, bs, j as int) == first_fit(pre, bc, bs, j + 1));
                        assert(pref_set(pref0).union(scanned(w0, t)).union(fitted(bc, j + 1)) =~= tried.insert(page));
                    }
                },
            }
            j = j + 1;
        }
        if let Some((page, slot, exhausted)) = hit {
            if !exhausted {
                self.preferred = Some(page);
                self.with_free.push(page);
                proof {
                    assert(self.with_free@ =~= seq![page]);
                }
            }
            return Some((page, slot));
        }
        None
    }
}

/// What a batch allocation of up to `max` slots from the class's pages
/// (see `alloc_from_free_list_batch`) leaves: the pages, the class's lists,
/// the output list and the result.
pub open spec fn batch_done(
    pre: Seq<Page>,
    c0: ClassPages,
    post: Seq<Page>,
    c1: ClassPages,
    out0: Seq<(usize, usize)>,
    out1: Seq<(usize, usize)>,
    bs: usize,
    max: usize,
    r: bool,
) -> bool {
    let pref = c0.preferred;
    let w = c0.with_free@;
    let bc = c0.by_class@;
    &&& c1.by_class@ == bc
    &&& if max > 0 && pref_hit(pref, pre, bs) {
        let p = pref.unwrap();
        let walk = pre[p as int].batch_of(max);
        let ex = walk.1 is None;
        &&& r
        &&& out1 == out0 + walk.0.map_values(|v: usize| (p, v))
        &&& c1.preferred == (if ex { None } else { Some(p) })
        &&& c1.with_free@ == (if ex { without_first(w, p) } else { w })
        &&& pages_after_batch(pre, post, Some(p), Set::empty(), max)
    } else if max > 0 && first_scan(pre, w, bs, 0) is Some {
        let k = first_scan(pre, w, bs, 0).unwrap();
        let c = scan_at(w, k);
        let walk = pre[c as int].batch_of(max);
        let ex = walk.1 is None;
        &&& r
        &&& out1 == out0 + walk.0.map_values(|v: usize| (c, v))
        &&& c1.preferred == (if ex { None } else { Some(c) })
        &&& c1.with_free@ == swapped_out(w, if ex { k + 1 } else { k })
        &&& pages_after_batch(pre, post, Some(c), pref_set(pref).union(scanned(w, k)), max)
    } else if max > 0 && first_fit(pre, bc, bs, 0) is Some {
        let j = first_fit(pre, bc, bs, 0).unwrap();
        let c = bc[j];
        let walk = pre[c as int].batch_of(max);
        let ex = walk.1 is None;
        &&& r
        &&& out1 == out0 + walk.0.map_values(|v: usize| (c, v))
        &&& c1.preferred == (if ex { None } else { Some(c) })
        &&& c1.with_free@ == (if ex { Seq::empty() } else { seq![c] })
        &&& pages_after_batch(pre, post, Some(c), pref_set(pref).union(scanned(w, w.len() as int)).union(fitted(bc, j)), max)
    } else {
        &&& !r
        &&& out1 == out0
        &&& c1.preferred is None
        &&& c1.with_free@ == Seq::<usize>::empty()
        &&& pages_after_batch(pre, post, None, pref_set(pref).union(scanned(w, w.len() as int)).union(fitted(bc, bc.len() as int)), max)
    }
}

/// Every page is the chosen one and had a batch of up to `max` slots
/// popped, or was tried and found nothing, or is untouched.
pub open spec fn pages_after_batch(before: Seq<Page>, after: Seq<Page>, chosen: Option<usize>, tried: Set<usize>, max: usize) -> bool {
    &&& after.len() == before.len()
    &&& forall|q: int| 0 <= q < before.len() ==> {
        if chosen == Some(q as usize) {
            Page::batch_popped(before[q], #[trigger] after[q], max)
        } else if tried.contains(q as usize) {
            Page::pop_left(before[q], after[q])
        } else {
            after[q] == before[q]
        }
    }
}

/// Pops a batch of up to `max` slots from page `i`, leaving the other
/// pages alone.
fn pop_batch_at(pages: &mut Vec<Page>, i: usize, bs: usize, max: usize, known_small: bool) -> (r: Option<(Vec<usize>, bool)>)
    requires
        i < old(pages).len(),
        old(pages)@[i as int].wf(),
    ensures
        final(pages).len() == old(pages).len(),
        (r matches Some((t, _)) && t@.len() > 0) == (old(pages)@[i as int].pop_result(bs, known_small) is Some && max > 0),
        (r matches Some((t, _)) && t@.len() > 0) ==> {
            &&& Page::batch_popped(old(pages)@[i as int], final(pages)@[i as int], max)
            &&& r matches Some((t, ex)) && t@ == old(pages)@[i as int].batch_of(max).0 && ex == (old(pages)@[i as int].batch_of(max).1 is None)
        },
        !(r matches Some((t, _)) && t@.len() > 0) ==> Page::pop_left(old(pages)@[i as int], final(pages)@[i as int]),
        forall|q: int| 0 <= q < old(pages).len() && q != i ==> final(pages)@[q] == old(pages)@[q],
{
    let mut page = pages.remove(i);
    let r = page.try_pop_batch_from_page(bs, max, known_small);
    pages.insert(i, page);
    r
}

/// Appends `(page, v)` for every `v` of `slots`, in order.
fn extend_pairs(out: &mut Vec<(usize, usize)>, page: usize, slots: &Vec<usize>)
    ensures
        final(out)@ == old(out)@ + slots@.map_values(|v: usize| (page, v)),
{
    let ghost start = out@;
    let mut i: usize = 0;
    while i < slots.len()
        invariant
            i <= slots.len(),
            out@ == start + slots@.take(i as int).map_values(|v: usize| (page, v)),
        decreases slots.len() - i,
    {
        out.push((page, slots[i]));
        proof {
            assert(slots@.take(i + 1).map_values(|v: usize| (page, v)) =~= slots@.take(i as int).map_values(|v: usize| (page, v)).push((page, slots@[i as int])));
            assert(out@ =~= start + slots@.take(i + 1).map_values(|v: usize| (page, v)));
        }
        i = i + 1;
    }
    proof {
        assert(slots@.take(slots.len() as int) =~= slots@);
    }
}

impl ClassPages {
    /// Allocates up to `max` slots of block size `bs` at once from one page
    /// of the class, trying the pages in the order `alloc_from_free_list`
    /// does, and appends them to `out` as (page, slot) pairs in free-list
    /// order. A page serves when it could serve a single allocation and
    /// `max` is not zero; a page that cannot serve has a stale list dropped
    /// (with `max` zero, every list tried is dropped). Returns whether any
    /// slot was allocated.
    pub fn alloc_from_free_list_batch(&mut self, pages: &mut Vec<Page>, bs: usize, out: &mut Vec<(usize, usize)>, max: usize) -> (r: bool)
        requires
            class_ready(*old(self), old(pages)@),
        ensures
            batch_done(old(pages)@, *old(self), final(pages)@, *final(self), old(out)@, final(out)@, bs, max, r),
    {
        let ghost pre = pages@;
        let ghost pref0 = self.preferred;
        let ghost w0 = self.with_free@;
        let ghost bc = self.by_class@;
        if let Some(p) = self.preferred {
            match pop_batch_at(pages, p, bs, max, true) {
                Some((ptrs, exhausted)) => {
                    if ptrs.len() > 0 {
                        extend_pairs(out, p, &ptrs);
                        if exhausted {
                            self.preferred = None;
                            match position_of(&self.with_free, p) {
                                Some(pos) => {
                                    self.with_free.swap_remove(pos);
                                },
                                None => {},
                            }
                        } else {
                            self.preferred = Some(p);
                        }
                        return true;
                    }
                },
                None => {},
            }
            self.preferred = None;
        }
        proof {
            assert(!(max > 0 && pref_hit(pref0, pre, bs)));
            assert(scanned(w0, 0) =~= Set::<usize>::empty());
            assert(pref_set(pref0).union(scanned(w0, 0)) =~= pref_set(pref0));
        }
        let ghost mut t: int = 0;
        let mut found: Option<(usize, Vec<usize>, bool)> = None;
        while self.with_free.len() > 0
            invariant_except_break
                found is None,
            invariant
                forall|q: int| 0 <= q < pre.len() ==> (#[trigger] pre[q]).wf(),
                forall|u: int| 0 <= u < w0.len() ==> #[trigger] w0[u] < pre.len(),
                pref0 matches Some(p) ==> p < pre.len(),
                self.by_class@ == bc,
                self.preferred is None,
                out@ == old(out)@,
                !(max > 0 && pref_hit(pref0, pre, bs)),
                0 <= t <= w0.len(),
                self.with_free@ == swapped_out(w0, t),
                max > 0 ==> first_scan(pre, w0, bs, 0) == first_scan(pre, w0, bs, t),
                max > 0 ==> forall|q: usize| #[trigger] pref_set(pref0).union(scanned(w0, t)).contains(q) ==> pre[q as int].pop_result(bs, true) is None,
                found is None ==> pages_after_batch(pre, pages@, None, pref_set(pref0).union(scanned(w0, t)), max),
            ensures
                found is None ==> t == w0.len() && self.with_free@ == Seq::<usize>::empty(),
                found matches Some((page, ptrs, exhausted)) ==> {
                    &&& max > 0
                    &&& t < w0.len()
                    &&& page == scan_at(w0, t)
                    &&& first_scan(pre, w0, bs, 0) == Some(t)
                    &&& ptrs@ == pre[page as int].batch_of(max).0
                    &&& exhausted == (pre[page as int].batch_of(max).1 is None)
                    &&& pages_after_batch(pre, pages@, Some(page), pref_set(pref0).union(scanned(w0, t)), max)
                },
            decreases w0.len() - t,
        {
            proof {
                if t >= w0.len() {
                    assert(swapped_out(w0, t).len() == 0);
                }
                lemma_swapped_out_step(w0, t);
                lemma_scanned_step(w0, t);
            }
            let page = self.with_free[0];
            proof {
                assert(page == scan_at(w0, t));
                if t == 0 {
                    assert(w0[0] < pre.len());
                } else {
                    assert(w0[w0.len() - t] < pre.len());
                }
                assert(pages@[page as int].wf()) by {
                    let tried = pref_set(pref0).union(scanned(w0, t));
                    if tried.contains(page) {
                        assert(Page::pop_left(pre[page as int], pages@[page as int]));
                    } else {
                        assert(pages@[page as int] == pre[page as int]);
                    }
                }
            }
            let ghost cur = pages@;
            let popped = pop_batch_at(pages, page, bs, max, true);
            let hit = match &popped {
                Some((ptrs, _)) => ptrs.len() > 0,
                None => false,
            };
            if hit {
                proof {
                    let tried = pref_set(pref0).union(scanned(w0, t));
                    if tried.contains(page) {
                        lemma_left_stays_empty(pre[page as int], cur[page as int], bs);
                    }
                    assert(cur[page as int] == pre[page as int]);
                    assert(first_scan(pre, w0, bs, t) == Some(t));
                }
                match popped {
                    Some((ptrs, exhausted)) => {
                        found = Some((page, ptrs, exhausted));
                    },
                    None => {},
                }
                break;
            }
            proof {
                let tried = pref_set(pref0).union(scanned(w0, t));
                if tried.contains(page) {
                    lemma_left_trans(pre[page as int], cur[page as int], pages@[page as int]);
                } else {
                    assert(cur[page as int] == pre[page as int]);
                }
                if max > 0 {
                    assert(pre[page as int].pop_result(bs, true) is None);
                    assert(first_scan(pre, w0, bs, t) == first_scan(pre, w0, bs, t + 1));
                }
                assert(pref_set(pref0).union(scanned(w0, t + 1)) =~= tried.insert(page));
            }
            self.with_free.swap_remove(0);
            proof {
                t = t + 1;
            }
        }
        if let Some((page, ptrs, exhausted)) = found {
            proof {
                lemma_swapped_out_step(w0, t);
            }
            extend_pairs(out, page, &ptrs);
            if exhausted {
                self.with_free.swap_remove(0);
            } else {
                self.preferred = Some(page);
            }
            return true;
        }
        proof {
            if max > 0 {
                assert(first_scan(pre, w0, bs, t) is None);
            }
            assert(fitted(bc, 0) =~= Set::<usize>::empty());
            assert(pref_set(pref0).union(scanned(w0, t)).union(fitted(bc, 0)) =~= pref_set(pref0).union(scanned(w0, t)));
        }
        let mut j: usize = 0;
        let mut got: Option<(usize, Vec<usize>, bool)> = None;
        while j < self.by_class.len()
            invariant_except_break
                got is None,
            invariant
                forall|q: int| 0 <= q < pre.len() ==> (#[trigger] pre[q]).wf(),
                forall|u: int| 0 <= u < bc.len() ==> #[trigger] bc[u] < pre.len(),
                self.by_class@ == bc,
                self.preferred is None,
                self.with_free@ == Seq::<usize>::empty(),
                out@ == old(out)@,
                t == w0.len(),
                !(max > 0 && pref_hit(pref0, pre, bs)),
                max > 0 ==> first_scan(pre, w0, bs, 0) is None,
                j <= bc.len(),
                max > 0 ==> first_fit(pre, bc, bs, 0) == first_fit(pre, bc, bs, j as int),
                max > 0 ==> forall|q: usize| #[trigger] pref_set(pref0).union(scanned(w0, t)).contains(q) ==> pre[q as int].pop_result(bs, true) is None,
                max > 0 ==> forall|q: usize| #[trigger] fitted(bc, j as int).contains(q) ==> pre[q as int].pop_result(bs, false) is None,
                got is None ==> pages_after_batch(pre, pages@, None, pref_set(pref0).union(scanned(w0, t)).union(fitted(bc, j as int)), max),
            ensures
                got is None ==> j == bc.len(),
                got matches Some((page, ptrs, exhausted)) ==> {
                    &&& max > 0
                    &&& j < bc.len()
                    &&& page == bc[j as int]
                    &&& first_fit(pre, bc, bs, 0) == Some(j as int)
                    &&& ptrs@ == pre[page as int].batch_of(max).0
                    &&& exhausted == (pre[page as int].batch_of(max).1 is None)
                    &&& pages_after_batch(pre, pages@, Some(page), pref_set(pref0).union(scanned(w0, t)).union(fitted(bc, j as int)), max)
                },
            decreases bc.len() - j,
        {
            let page = self.by_class[j];
            proof {
                lemma_fitted_step(bc, j as int);
                assert(page == bc[j as int]);
                let tried = pref_set(pref0).union(scanned(w0, t)).union(fitted(bc, j as int));
                assert(pages@[page as int].wf()) by {
                    if tried.contains(page) {
                        assert(Page::pop_left(pre[page as int], pages@[page as int]));
                    } else {
                        assert(pages@[page as int] == pre[page as int]);
                    }
                }
            }
            let ghost cur = pages@;
            let popped = pop_batch_at(pages, page, bs, max, false);
            let hit = match &popped {
                Some((ptrs, _)) => ptrs.len() > 0,
                None => false,
            };
            if hit {
                proof {
                    let tried = pref_set(pref0).union(scanned(w0, t)).union(fitted(bc, j as int));
                    if tried.contains(page) {
                        if pref_set(pref0).union(scanned(w0, t)).contains(page) {
                            lemma_left_stays_empty(pre[page as int], cur[page as int], bs);
                        } else {
                            assert(pre[page as int].pop_result(bs, false) is None);
                            assert(Page::pop_left(pre[page as int], cur[page as int]));
                        }
                    }
                    assert(cur[page as int] == pre[page as int]);
                    assert(first_fit(pre, bc, bs, j as int) == Some(j as int));
                }
                match popped {
                    Some((ptrs, exhausted)) => {
                        got = Some((page, ptrs, exhausted));
                    },
                    None => {},
                }
                break;
            }
            proof {
                let tried = pref_set(pref0).union(scanned(w0, t)).union(fitted(bc, j as int));
                if tried.contains(page) {
                    lemma_left_trans(pre[page as int], cur[page as int], pages@[page as int]);
                } else {
                    assert(cur[page as int] == pre[page as int]);
                }
                if max > 0 {
                    assert(pre[page as int].pop_result(bs, false) is None);
                    assert(first_fit(pre, bc, bs, j as int) == first_fit(pre, bc, bs, j + 1));
                }
                assert(pref_set(pref0).union(scanned(w0, t)).union(fitted(bc, j + 1)) =~= tried.insert(page));
            }
            j = j + 1;
        }
        if let Some((page, ptrs, exhausted)) = got {
            extend_pairs(out, page, &ptrs);
            if !exhausted {
                self.preferred = Some(page);
                self.with_free.push(page);
                proof {
                    assert(self.with_free@ =~= seq![page]);
                }
            }
            return true;
        }
        false
    }
}

/// A fresh page for objects of `bs` bytes in a page of `page_size` bytes:
/// as many slots as fit after the header, no bit set, an empty free list,
/// young, owned by `owner`.
pub fn new_small_page(bs: usize, owner: u64, page_size: usize) -> (p: Page)
    requires
        0 < bs <= u32::MAX,
        spec_max_objects(page_size as int, bs as int) <= PAGE_SLOTS,
    ensures
        p.wf(),
        p.header.magic == MAGIC_GC_PAGE,
        p.header.block_size == bs,
        p.header.obj_count == spec_max_objects(page_size as int, bs as int),
        p.header.header_size == spec_header_size(bs as int),
        p.header.generation == 0,
        p.header.flags == 0,
        p.header.owner_thread == owner,
        p.header.dead_count == 0,
        p.header.free_list_head == FREE_LIST_NONE,
        p.header.marked() == Set::<int>::empty(),
        p.header.dirty() == Set::<int>::empty(),
        p.header.allocated() == Set::<int>::empty(),
        forall|i: int| 0 <= i < p.slots.len() ==> #[trigger] p.slots@[i] == (GcSlot { weak_count: 0, value_dead: false, next_free: None }),
{
    let n = PageHeader::max_objects_in(page_size, bs);
    let h = PageHeader::header_size(bs);
    proof {
        assert(h <= 2048);
    }
    let header = PageHeader::new(bs as u32, n as u16, h as u16, 0, owner);
    let mut slots: Vec<GcSlot> = Vec::new();
    let mut i: usize = 0;
    while i < n
        invariant
            i <= n,
            slots.len() == i,
            forall|k: int| 0 <= k < i ==> #[trigger] slots@[k] == (GcSlot { weak_count: 0, value_dead: false, next_free: None }),
        decreases n - i,
    {
        slots.push(GcSlot { weak_count: 0, value_dead: false, next_free: None });
        i = i + 1;
    }
    Page { header, slots }
}

/// Takes a fresh page at `page_addr` into the class (the allocation slow
/// path once a page was mapped): the page joins the heap's pages, the small
/// pages and the class's pages, the TLAB moves to its object area, and the
/// TLAB hands out the page's first object. Returns its address.
pub fn install_fresh_page(
    pages: &mut Vec<Page>,
    class: &mut ClassPages,
    small: &mut HashSet<usize>,
    tlab: &mut Tlab,
    page_addr: usize,
    bs: usize,
    owner: u64,
    page_size: usize,
) -> (obj: usize)
    requires
        0 < bs <= u32::MAX,
        1 <= spec_max_objects(page_size as int, bs as int) <= PAGE_SLOTS,
        page_addr > 0,
        page_addr + page_size <= usize::MAX,
    ensures
        obj == page_addr + spec_header_size(bs as int),
        final(pages).len() == old(pages).len() + 1,
        forall|q: int| 0 <= q < old(pages).len() ==> #[trigger] final(pages)@[q] == old(pages)@[q],
        ({
            let p = final(pages)@[old(pages).len() as int];
            &&& p.wf()
            &&& p.header.block_size == bs
            &&& p.header.obj_count == spec_max_objects(page_size as int, bs as int)
            &&& p.header.header_size == spec_header_size(bs as int)
            &&& p.header.generation == 0
            &&& p.header.flags == 0
            &&& p.header.owner_thread == owner
            &&& p.header.free_list_head == FREE_LIST_NONE
            &&& p.header.allocated() == set![0int]
            &&& p.header.marked() == Set::<int>::empty()
        }),
        final(class).by_class@ == old(class).by_class@.push(old(pages).len() as usize),
        final(class).preferred == old(class).preferred,
        final(class).with_free@ == old(class).with_free@,
        final(small)@ == old(small)@.insert(page_addr),
        final(tlab).current_page == Some(page_addr),
        final(tlab).bump_ptr == page_addr + spec_header_size(bs as int) + bs,
        final(tlab).bump_end == page_addr + spec_header_size(bs as int) + spec_max_objects(page_size as int, bs as int) * bs,
{
    let mut page = new_small_page(bs, owner, page_size);
    let n = page.header.obj_count as usize;
    let h = page.header.header_size as usize;
    proof {
        let hs = spec_header_size(bs as int);
        assert(h == hs);
        assert(n * bs <= page_size - hs) by (nonlinear_arith)
            requires
                n == (page_size - hs) / (bs as int),
                page_size >= hs,
                bs > 0,
        ;
        assert(n * bs <= PAGE_SLOTS * bs) by (nonlinear_arith)
            requires
                n <= PAGE_SLOTS,
                bs > 0,
        ;
        assert(bs <= n * bs) by (nonlinear_arith)
            requires
                n >= 1,
                bs > 0,
        ;
    }
    tlab.current_page = Some(page_addr);
    tlab.bump_ptr = page_addr + h;
    tlab.bump_end = page_addr + h + n * bs;
    let r = tlab.bump_alloc(bs, &mut page.header);
    proof {
        assert((page_addr + h - (page_addr + spec_header_size(bs as int))) / (bs as int) == 0);
        assert(page.header.allocated() =~= set![0int]);
    }
    let idx = pages.len();
    pages.push(page);
    class.by_class.push(idx);
    small.insert(page_addr);
    r.unwrap()
}

/// Address of slot `v` of the page at `page_addr`, for objects of `bs`
/// bytes.
pub open spec fn slot_address(page_addr: usize, bs: usize, v: usize) -> int {
    page_addr + spec_header_size(bs as int) + v * bs
}

/// Every page address leaves room for a full page of `bs`-byte slots.
pub open spec fn addrs_room(addrs: Seq<usize>, bs: usize) -> bool {
    forall|i: int| 0 <= i < addrs.len() ==> #[trigger] addrs[i] + spec_header_size(bs as int) + PAGE_SLOTS * bs <= usize::MAX
}

/// The addresses of (page, slot) pairs.
pub open spec fn pair_addrs(pairs: Seq<(usize, usize)>, addrs: Seq<usize>, bs: usize) -> Seq<usize> {
    pairs.map_values(|p: (usize, usize)| slot_address(addrs[p.0 as int], bs, p.1) as usize)
}

/// The addresses of (page, slot) pairs, in order.
fn pair_addresses(pairs: &Vec<(usize, usize)>, addrs: &Vec<usize>, bs: usize) -> (r: Vec<usize>)
    requires
        addrs_room(addrs@, bs),
        forall|k: int| 0 <= k < pairs.len() ==> (#[trigger] pairs@[k]).0 < addrs.len() && pairs@[k].1 < PAGE_SLOTS,
    ensures
        r@ == pair_addrs(pairs@, addrs@, bs),
{
    let mut r: Vec<usize> = Vec::new();
    let mut k: usize = 0;
    while k < pairs.len()
        invariant
            k <= pairs.len(),
            addrs_room(addrs@, bs),
            forall|q: int| 0 <= q < pairs.len() ==> (#[trigger] pairs@[q]).0 < addrs.len() && pairs@[q].1 < PAGE_SLOTS,
            r@ == pair_addrs(pairs@.take(k as int), addrs@, bs),
        decreases pairs.len() - k,
    {
        let (pg, v) = pairs[k];
        proof {
            assert(pairs@[k as int].0 < addrs.len() && pairs@[k as int].1 < PAGE_SLOTS);
            assert(addrs@[pg as int] + spec_header_size(bs as int) + PAGE_SLOTS * bs <= usize::MAX);
            assert(v * bs <= PAGE_SLOTS * bs) by (nonlinear_arith)
                requires
                    v < PAGE_SLOTS,
            ;
            crate::page::lemma_header_size_bound(bs as int);
        }
        r.push(addrs[pg] + PageHeader::header_size(bs) + v * bs);
        proof {
            assert(pairs@.take(k + 1) =~= pairs@.take(k as int).push((pg, v)));
            assert(r@ =~= pair_addrs(pairs@.take(k + 1), addrs@, bs));
        }
        k = k + 1;
    }
    proof {
        assert(pairs@.take(pairs.len() as int) =~= pairs@);
    }
    r
}

/// Every slot a batch pop takes lies on the page.
proof fn lemma_batch_slots_in_page(p: Page, max: usize, bs: usize)
    requires
        p.wf(),
        p.pop_result(bs, true) is Some || p.pop_result(bs, false) is Some,
    ensures
        forall|k: int| 0 <= k < p.batch_of(max).0.len() ==> (#[trigger] p.batch_of(max).0[k] as int) < p.n(),
{
    crate::sweep::lemma_batch_walk_in_range(p, p.header.free_list_head, max as nat, None);
}

/// The TLAB can hand out a block of `bs` bytes.
pub open spec fn tlab_serves(t: Tlab, bs: usize) -> bool {
    t.current_page is Some && t.bump_ptr != 0 && t.bump_ptr + bs <= t.bump_end
}

/// Allocates one object of the class's block size `bs` (the small-object
/// path of the heap's allocation): from the TLAB when it has room, else
/// from the buffer of slots taken earlier (the last one), else a batch of
/// up to eight slots from the class's pages (the first is returned, the
/// rest fill the buffer). `None` tells the caller to map a fresh page.
pub fn alloc_small(
    class: &mut ClassPages,
    pages: &mut Vec<Page>,
    addrs: &Vec<usize>,
    tlab: &mut Tlab,
    buffer: &mut Vec<usize>,
    bs: usize,
) -> (r: Option<usize>)
    requires
        bs > 0,
        class_ready(*old(class), old(pages)@),
        addrs.len() == old(pages).len(),
        addrs_room(addrs@, bs),
        old(tlab).wf(bs),
        old(tlab).current_page is None ==> old(tlab).bump_ptr == 0,
        old(tlab).current_page matches Some(a) ==> first_pos(addrs@, a, 0) is Some,
    ensures
        tlab_serves(*old(tlab), bs) ==> {
            let a = old(tlab).current_page.unwrap();
            let j = first_pos(addrs@, a, 0).unwrap();
            let h = old(pages)@[j].header;
            &&& r == Some(old(tlab).bump_ptr)
            &&& final(tlab).bump_ptr == old(tlab).bump_ptr + bs
            &&& final(tlab).bump_end == old(tlab).bump_end
            &&& final(tlab).current_page == old(tlab).current_page
            &&& final(pages).len() == old(pages).len()
            &&& forall|q: int| 0 <= q < old(pages).len() && q != j ==> #[trigger] final(pages)@[q] == old(pages)@[q]
            &&& final(pages)@[j].slots == old(pages)@[j].slots
            &&& same_scalars(final(pages)@[j].header, h)
            &&& final(pages)@[j].header.allocated() == h.allocated().insert(
                (old(tlab).bump_ptr - (a + spec_header_size(bs as int))) / (bs as int),
            )
            &&& final(pages)@[j].header.marked() == h.marked()
            &&& final(pages)@[j].header.dirty() == h.dirty()
            &&& *final(class) == *old(class)
            &&& final(buffer)@ == old(buffer)@
        },
        !tlab_serves(*old(tlab), bs) && old(buffer).len() > 0 ==> {
            &&& r == Some(old(buffer)@.last())
            &&& final(buffer)@ == old(buffer)@.drop_last()
            &&& final(pages)@ == old(pages)@
            &&& *final(class) == *old(class)
            &&& *final(tlab) == *old(tlab)
        },
        !tlab_serves(*old(tlab), bs) && old(buffer).len() == 0 ==> {
            &&& *final(tlab) == *old(tlab)
            &&& exists|pairs: Seq<(usize, usize)>, hit: bool| {
                &&& batch_done(old(pages)@, *old(class), final(pages)@, *final(class), Seq::empty(), pairs, bs, 8, hit)
                &&& hit ==> pairs.len() > 0 && r == Some(pair_addrs(pairs, addrs@, bs)[0]) && final(buffer)@ == pair_addrs(pairs, addrs@, bs).drop_first()
                &&& !hit ==> r is None && final(buffer)@ == old(buffer)@
            }
        },
{
    if let Some(a) = tlab.current_page {
        if let Some(j) = position_of(addrs, a) {
            proof {
                assert(old(pages)@[j as int].wf());
            }
            let mut page = pages.remove(j);
            let t = tlab.bump_alloc(bs, &mut page.header);
            pages.insert(j, page);
            if let Some(ptr) = t {
                return Some(ptr);
            }
        }
    }
    proof {
        assert(pages@ =~= old(pages)@) by {
            if old(tlab).current_page is Some {
                let j = first_pos(addrs@, old(tlab).current_page.unwrap(), 0).unwrap();
                assert forall|q: int| 0 <= q < pages.len() implies pages@[q] == old(pages)@[q] by {
                    if q == j {
                        assert(pages@[q].header == old(pages)@[q].header);
                    }
                }
            }
        }
    }
    if let Some(ptr) = buffer.pop() {
        return Some(ptr);
    }
    let mut scratch: Vec<(usize, usize)> = Vec::new();
    let ghost pre = pages@;
    let ghost c0 = *class;
    if class.alloc_from_free_list_batch(pages, bs, &mut scratch, 8) {
        proof {
            let pref = c0.preferred;
            let w = c0.with_free@;
            let bc = c0.by_class@;
            let c: usize = if pref_hit(pref, pre, bs) {
                pref.unwrap()
            } else if first_scan(pre, w, bs, 0) is Some {
                scan_at(w, first_scan(pre, w, bs, 0).unwrap())
            } else {
                bc[first_fit(pre, bc, bs, 0).unwrap()]
            };
            if pref_hit(pref, pre, bs) {
            } else if first_scan(pre, w, bs, 0) is Some {
                lemma_first_scan_range(pre, w, bs, 0);
                let k = first_scan(pre, w, bs, 0).unwrap();
                assert(class_ready(c0, pre));
                if k == 0 {
                    assert(c0.with_free@[0] < pre.len());
                } else {
                    let u = w.len() - k;
                    assert(0 <= u < c0.with_free.len());
                    assert(c0.with_free@[u] < pre.len());
                }
                lemma_first_scan_hit(pre, w, bs, 0);
            } else {
                lemma_first_fit_range(pre, bc, bs, 0);
                assert(bc[first_fit(pre, bc, bs, 0).unwrap()] < pre.len());
                lemma_first_fit_hit(pre, bc, bs, 0);
            }
            assert(c < pre.len());
            assert(pre[c as int].wf());
            lemma_batch_slots_in_page(pre[c as int], 8, bs);
            let walk = pre[c as int].batch_of(8);
            assert(scratch@ =~= walk.0.map_values(|v: usize| (c, v)));
            assert forall|k: int| 0 <= k < scratch.len() implies (#[trigger] scratch@[k]).0 < addrs.len() && scratch@[k].1 < PAGE_SLOTS by {
                assert(scratch@[k] == (c, walk.0[k]));
                assert((walk.0[k] as int) < pre[c as int].n());
            }
            assert(scratch.len() > 0) by {
                assert(pre[c as int].header.free_list_head != FREE_LIST_NONE);
                assert(!pre[c as int].header.allocated().contains(pre[c as int].header.free_list_head as int));
            }
        }
        let found = pair_addresses(&scratch, addrs, bs);
        let mut rest = found;
        let ptr = rest.remove(0);
        buffer.append(&mut rest);
        proof {
            assert(buffer@ =~= pair_addrs(scratch@, addrs@, bs).drop_first());
        }
        return Some(ptr);
    }
    None
}

/// The step the free-slots scan stops at lies in the list.
proof fn lemma_first_scan_range(pre: Seq<Page>, w: Seq<usize>, bs: usize, t: int)
    ensures
        first_scan(pre, w, bs, t) matches Some(k) ==> t <= k < w.len(),
    decreases w.len() - t,
{
    if 0 <= t < w.len() && pre[scan_at(w, t) as int].pop_result(bs, true) is None {
        lemma_first_scan_range(pre, w, bs, t + 1);
    }
}

/// The page the free-slots scan stops at can serve.
proof fn lemma_first_scan_hit(pre: Seq<Page>, w: Seq<usize>, bs: usize, t: int)
    ensures
        first_scan(pre, w, bs, t) matches Some(k) ==> pre[scan_at(w, k) as int].pop_result(bs, true) is Some,
    decreases w.len() - t,
{
    if 0 <= t < w.len() && pre[scan_at(w, t) as int].pop_result(bs, true) is None {
        lemma_first_scan_hit(pre, w, bs, t + 1);
    }
}

/// The position the class scan stops at lies in the list.
proof fn lemma_first_fit_range(pre: Seq<Page>, bc: Seq<usize>, bs: usize, j: int)
    ensures
        first_fit(pre, bc, bs, j) matches Some(k) ==> j <= k < bc.len(),
    decreases bc.len() - j,
{
    if 0 <= j < bc.len() && pre[bc[j] as int].pop_result(bs, false) is None {
        lemma_first_fit_range(pre, bc, bs, j + 1);
    }
}

/// The page the class scan stops at can serve.
proof fn lemma_first_fit_hit(pre: Seq<Page>, bc: Seq<usize>, bs: usize, j: int)
    ensures
        first_fit(pre, bc, bs, j) matches Some(k) ==> pre[bc[k] as int].pop_result(bs, false) is Some,
    decreases bc.len() - j,
{
    if 0 <= j < bc.len() && pre[bc[j] as int].pop_result(bs, false) is None {
        lemma_first_fit_hit(pre, bc, bs, j + 1);
    }
}

} // verus!
