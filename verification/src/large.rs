//! The large object space: objects above the small size classes get pages of
//! their own, a header page followed by as many pages as the object needs.
//! A map from every page of such a span to the span's header address, object
//! size and header size lets an interior pointer find its object.

use vstd::prelude::*;
use std::collections::HashMap;
use crate::page::{spec_header_size, round_up, PageHeader, PAGE_FLAG_LARGE, MAGIC_GC_PAGE, FREE_LIST_NONE};
use crate::local_heap::HeapBuffers;

verus! {

broadcast use vstd::std_specs::hash::group_hash_axioms;

/// Number of `ps`-byte pages that `total` bytes take.
pub open spec fn pages_for(total: int, ps: int) -> int {
    total / ps + if total % ps == 0 { 0int } else { 1int }
}

/// Address of page `p` of the span that starts at `base`.
pub open spec fn span_page(base: int, ps: int, p: int) -> int {
    base + p * ps
}

/// The page addresses of a span of `n` pages starting at `base`.
pub open spec fn span_keys(base: usize, n: int, ps: usize) -> Set<usize> {
    Set::new(|k: usize| exists|p: int| 0 <= p < n && k as int == #[trigger] span_page(base as int, ps as int, p))
}

/// Page `p` of a span lies below page `n` when `p < n`.
pub proof fn lemma_span_page_below(base: int, ps: int, p: int, n: int)
    requires
        0 <= p < n,
        ps > 0,
    ensures
        base <= span_page(base, ps, p),
        span_page(base, ps, p) + ps <= span_page(base, ps, n),
{
    assert(p * ps >= 0) by (nonlinear_arith)
        requires
            p >= 0,
            ps > 0,
    ;
    assert(p * ps + ps <= n * ps) by (nonlinear_arith)
        requires
            p < n,
            ps > 0,
    ;
}

/// The next page of a span starts one page size further.
pub proof fn lemma_span_page_step(base: int, ps: int, p: int)
    ensures
        span_page(base, ps, p + 1) == span_page(base, ps, p) + ps,
{
    assert((p + 1) * ps == p * ps + ps) by (nonlinear_arith);
}

/// The pages of a span of `n + 1` pages are those of the first `n` and one more.
pub proof fn lemma_span_keys_push(base: usize, n: int, ps: usize)
    requires
        n >= 0,
    ensures
        forall|k: usize| #[trigger] span_keys(base, n + 1, ps).contains(k) <==> (span_keys(base, n, ps).contains(k)
            || k as int == span_page(base as int, ps as int, n)),
{
    assert forall|k: usize| #[trigger] span_keys(base, n + 1, ps).contains(k) <==> (span_keys(base, n, ps).contains(k)
        || k as int == span_page(base as int, ps as int, n)) by {
        if span_keys(base, n + 1, ps).contains(k) {
            let p = choose|p: int| 0 <= p < n + 1 && k as int == #[trigger] span_page(base as int, ps as int, p);
            if p < n {
                assert(span_keys(base, n, ps).contains(k));
            }
        }
        if span_keys(base, n, ps).contains(k) {
            let p = choose|p: int| 0 <= p < n && k as int == #[trigger] span_page(base as int, ps as int, p);
            assert(0 <= p < n + 1);
        }
        if k as int == span_page(base as int, ps as int, n) {
            assert(0 <= n < n + 1);
        }
    }
}

/// Layout of a large object's span.
#[derive(Clone, Copy, PartialEq, Eq, Structural, Debug)]
pub struct LargeLayout {
    /// Offset of the object from the span start: the page header rounded up
    /// to the object's alignment.
    pub header_size: usize,
    /// Header and object together.
    pub total_size: usize,
    /// Pages the span takes.
    pub pages_needed: usize,
    /// Bytes mapped for the span: whole pages.
    pub alloc_size: usize,
}

/// The span layout of a large object of `size` bytes aligned to `align`
/// with pages of `ps` bytes.
pub open spec fn spec_large_layout(size: int, align: int, ps: int) -> (int, int, int, int) {
    let h = round_up(spec_header_size(size), align);
    let total = h + size;
    let pages = pages_for(total, ps);
    (h, total, pages, pages * ps)
}

/// `x` rounded up to a multiple of `m` is at least `x` and less than `x + m`.
pub proof fn lemma_round_up_bounds(x: int, m: int)
    requires
        x >= 0,
        m > 0,
    ensures
        x <= round_up(x, m) < x + m,
        round_up(x, m) % m == 0,
{
    let q = (x + m - 1) / m;
    let r = (x + m - 1) % m;
    assert(x + m - 1 == q * m + r && 0 <= r < m) by (nonlinear_arith)
        requires
            m > 0,
            q == (x + m - 1) / m,
            r == (x + m - 1) % m,
    ;
    assert((q * m) % m == 0) by (nonlinear_arith)
        requires
            m > 0,
    ;
}

/// `pages_for(total, ps)` pages hold `total` bytes, with less than a page to spare.
pub proof fn lemma_pages_for_bounds(total: int, ps: int)
    requires
        total >= 0,
        ps > 0,
    ensures
        pages_for(total, ps) >= 0,
        total <= pages_for(total, ps) * ps < total + ps,
{
    let q = total / ps;
    let r = total % ps;
    assert(total == q * ps + r && 0 <= r < ps && q >= 0) by (nonlinear_arith)
        requires
            ps > 0,
            total >= 0,
            q == total / ps,
            r == total % ps,
    ;
    if r == 0 {
        assert(pages_for(total, ps) * ps == q * ps);
    } else {
        assert((q + 1) * ps == q * ps + ps) by (nonlinear_arith);
    }
}

/// The span layout of a large object (the arithmetic of a large
/// allocation): header rounded up to the alignment, the object after it,
/// whole pages around both.
pub fn large_object_layout(size: usize, align: usize, page_size: usize) -> (l: LargeLayout)
    requires
        align > 0,
        page_size >= align,
        size as int + 2 * page_size as int + 2048 <= usize::MAX,
    ensures
        (l.header_size as int, l.total_size as int, l.pages_needed as int, l.alloc_size as int)
            == spec_large_layout(size as int, align as int, page_size as int),
        l.total_size <= l.alloc_size,
        l.alloc_size as int == l.pages_needed * page_size,
{
    let base = PageHeader::header_size(size);
    proof {
        lemma_round_up_bounds(spec_header_size(size as int), align as int);
    }
    let h = ((base + align - 1) / align) * align;
    let total = h + size;
    let q = total / page_size;
    let pages = if total % page_size == 0 { q } else { q + 1 };
    proof {
        lemma_pages_for_bounds(total as int, page_size as int);
    }
    let alloc = pages * page_size;
    LargeLayout { header_size: h, total_size: total, pages_needed: pages, alloc_size: alloc }
}

/// A map from every page of a large-object span to the span's header
/// address, object size and header size.
pub struct LargeObjectMap {
    entries: HashMap<usize, (usize, usize, usize)>,
}

impl View for LargeObjectMap {
    type V = Map<usize, (usize, usize, usize)>;

    closed spec fn view(&self) -> Map<usize, (usize, usize, usize)> {
        self.entries@
    }
}

impl LargeObjectMap {
    /// An empty map.
    pub fn new() -> (m: Self)
        ensures
            m@ == Map::<usize, (usize, usize, usize)>::empty(),
    {
        LargeObjectMap { entries: HashMap::new() }
    }

    /// The span entry of a page, if the page belongs to a large object.
    pub fn lookup(&self, page_addr: usize) -> (r: Option<(usize, usize, usize)>)
        ensures
            r == (if self@.contains_key(page_addr) { Some(self@[page_addr]) } else { None }),
    {
        match self.entries.get(&page_addr) {
            Some(e) => Some(*e),
            None => None,
        }
    }

    /// Number of pages registered.
    pub fn len(&self) -> (n: usize)
        ensures
            n == self@.len(),
    {
        self.entries.len()
    }

    /// Forgets every span.
    pub fn clear(&mut self)
        ensures
            final(self)@ == Map::<usize, (usize, usize, usize)>::empty(),
    {
        self.entries.clear();
    }

    /// Registers every page of a span of `pages` pages at `header_addr`.
    pub fn register(&mut self, header_addr: usize, size: usize, header_size: usize, pages: usize, page_size: usize)
        requires
            page_size > 0,
            header_addr as int + pages * page_size <= usize::MAX,
        ensures
            final(self)@ == old(self)@.union_prefer_right(
                Map::new(|k: usize| span_keys(header_addr, pages as int, page_size).contains(k), |k: usize| (header_addr, size, header_size)),
            ),
    {
        let ghost start = self@;
        let mut p: usize = 0;
        let mut key: usize = header_addr;
        while p < pages
            invariant
                page_size > 0,
                header_addr as int + pages * page_size <= usize::MAX,
                p <= pages,
                p < pages ==> key as int == span_page(header_addr as int, page_size as int, p as int),
                self@ == start.union_prefer_right(
                    Map::new(|k: usize| span_keys(header_addr, p as int, page_size).contains(k), |k: usize| (header_addr, size, header_size)),
                ),
            decreases pages - p,
        {
            proof {
                lemma_span_page_below(header_addr as int, page_size as int, p as int, pages as int);
                lemma_span_page_step(header_addr as int, page_size as int, p as int);
                lemma_span_keys_push(header_addr, p as int, page_size);
            }
            self.entries.insert(key, (header_addr, size, header_size));
            proof {
                assert(self@ =~= start.union_prefer_right(
                    Map::new(|k: usize| span_keys(header_addr, p + 1, page_size).contains(k), |k: usize| (header_addr, size, header_size)),
                ));
            }
            p = p + 1;
            if p < pages {
                key = key + page_size;
            }
        }
    }

    /// Removes every page of a span of `pages` pages at `header_addr`.
    pub fn unregister(&mut self, header_addr: usize, pages: usize, page_size: usize)
        requires
            page_size > 0,
            header_addr as int + pages * page_size <= usize::MAX,
        ensures
            final(self)@ == old(self)@.remove_keys(span_keys(header_addr, pages as int, page_size)),
    {
        let ghost start = self@;
        let mut p: usize = 0;
        let mut key: usize = header_addr;
        while p < pages
            invariant
                page_size > 0,
                header_addr as int + pages * page_size <= usize::MAX,
                p <= pages,
                p < pages ==> key as int == span_page(header_addr as int, page_size as int, p as int),
                self@ == start.remove_keys(span_keys(header_addr, p as int, page_size)),
            decreases pages - p,
        {
            proof {
                lemma_span_page_below(header_addr as int, page_size as int, p as int, pages as int);
                lemma_span_page_step(header_addr as int, page_size as int, p as int);
                lemma_span_keys_push(header_addr, p as int, page_size);
            }
            self.entries.remove(&key);
            proof {
                assert(self@ =~= start.remove_keys(span_keys(header_addr, p + 1, page_size)));
            }
            p = p + 1;
            if p < pages {
                key = key + page_size;
            }
        }
    }
}

/// What the collector reads of a large-object page: the span's header
/// address, the object's size, header size and generation, its mark bit,
/// its weak count and whether its value was already dropped.
#[derive(Clone, Copy)]
pub struct LargePage {
    /// Address of the span's first page, where the header lies.
    pub addr: usize,
    /// Size of the object in bytes.
    pub block_size: u32,
    /// Offset of the object from the span start.
    pub header_size: u16,
    /// Generation: 0 is young.
    pub generation: u8,
    /// The object's mark bit.
    pub marked: bool,
    /// Number of weak references to the object.
    pub weak_count: usize,
    /// The value was already dropped.
    pub value_dead: bool,
}

/// Pages the span of a large page takes.
pub open spec fn span_pages(p: LargePage, ps: int) -> int {
    pages_for(p.header_size + p.block_size, ps)
}

/// The span of a large page lies in the address space.
pub open spec fn span_fits(p: LargePage, ps: int) -> bool {
    p.addr + span_pages(p, ps) * ps <= usize::MAX
}

/// The sweep finds the object unreachable: not marked and, for a young-only
/// sweep, young.
pub open spec fn large_doomed(p: LargePage, only_young: bool) -> bool {
    !(only_young && p.generation > 0) && !p.marked
}

/// The sweep gives the span back: unreachable and no weak reference left.
pub open spec fn large_released(p: LargePage, only_young: bool) -> bool {
    large_doomed(p, only_young) && p.weak_count == 0
}

/// A page the sweep keeps, as it leaves it: an unreachable object that weak
/// references still name has its value dropped.
pub open spec fn large_after_sweep(p: LargePage, only_young: bool) -> LargePage {
    if large_doomed(p, only_young) { LargePage { value_dead: true, ..p } } else { p }
}

/// The large pages left after a sweep, in order.
pub open spec fn kept_large(s: Seq<LargePage>, only_young: bool) -> Seq<LargePage>
    decreases s.len(),
{
    if s.len() == 0 {
        Seq::empty()
    } else {
        let rest = kept_large(s.drop_last(), only_young);
        if large_released(s.last(), only_young) { rest } else { rest.push(large_after_sweep(s.last(), only_young)) }
    }
}

/// Addresses of the objects whose value a sweep drops, in page order: every
/// unreachable object whose value was not dropped before.
pub open spec fn dropped_large(s: Seq<LargePage>, only_young: bool) -> Seq<usize>
    decreases s.len(),
{
    if s.len() == 0 {
        Seq::empty()
    } else {
        let rest = dropped_large(s.drop_last(), only_young);
        let p = s.last();
        if large_doomed(p, only_young) && !p.value_dead { rest.push((p.addr + p.header_size) as usize) } else { rest }
    }
}

/// The spans a sweep gives back, in page order: header address, bytes
/// mapped and pages.
pub open spec fn released_large(s: Seq<LargePage>, only_young: bool, ps: int) -> Seq<(usize, usize, usize)>
    decreases s.len(),
{
    if s.len() == 0 {
        Seq::empty()
    } else {
        let rest = released_large(s.drop_last(), only_young, ps);
        let p = s.last();
        if large_released(p, only_young) {
            rest.push((p.addr, (span_pages(p, ps) * ps) as usize, span_pages(p, ps) as usize))
        } else {
            rest
        }
    }
}

/// Header address of a released span.
pub open spec fn span_base(e: (usize, usize, usize)) -> usize {
    e.0
}

/// Every page address of the given spans.
pub open spec fn released_keys(r: Seq<(usize, usize, usize)>, ps: usize) -> Set<usize>
    decreases r.len(),
{
    if r.len() == 0 {
        Set::empty()
    } else {
        released_keys(r.drop_last(), ps).union(span_keys(r.last().0, r.last().2 as int, ps))
    }
}

/// The addresses of `s` that `gone` does not hold, in order.
pub open spec fn without(s: Seq<usize>, gone: Seq<usize>) -> Seq<usize>
    decreases s.len(),
{
    if s.len() == 0 {
        Seq::empty()
    } else {
        let rest = without(s.drop_last(), gone);
        if gone.contains(s.last()) { rest } else { rest.push(s.last()) }
    }
}

/// What a large-object sweep leaves for its caller to do.
pub struct LargeSweep {
    /// Objects whose value must be dropped, in page order.
    pub dropped: Vec<usize>,
    /// Spans to unmap: header address, bytes mapped, pages.
    pub released: Vec<(usize, usize, usize)>,
}

/// Sweeps the large object space. Every unreachable object (unmarked, and
/// young for a young-only sweep) has its value dropped; when weak references
/// still name it the page stays with the value marked dropped, otherwise the
/// span is given back: its pages leave the heap's page list and both page
/// maps. Returns the objects to drop and the spans to unmap; the number of
/// spans is the number of pages reclaimed.
pub fn sweep_large_objects(
    pages: &mut Vec<usize>,
    large: &mut Vec<LargePage>,
    local: &mut LargeObjectMap,
    global: &mut LargeObjectMap,
    only_young: bool,
    page_size: usize,
) -> (r: LargeSweep)
    requires
        page_size > 0,
        forall|i: int| 0 <= i < old(large).len() ==> span_fits(#[trigger] old(large)@[i], page_size as int),
    ensures
        r.dropped@ == dropped_large(old(large)@, only_young),
        r.released@ == released_large(old(large)@, only_young, page_size as int),
        final(large)@ == kept_large(old(large)@, only_young),
        final(pages)@ == without(old(pages)@, r.released@.map_values(|e: (usize, usize, usize)| span_base(e))),
        final(local)@ == old(local)@.remove_keys(released_keys(r.released@, page_size)),
        final(global)@ == old(global)@.remove_keys(released_keys(r.released@, page_size)),
        old(local).entries_fit(page_size) ==> final(local).entries_fit(page_size),
        old(global).entries_fit(page_size) ==> final(global).entries_fit(page_size),
{
    let ghost src = large@;
    let mut dropped: Vec<usize> = Vec::new();
    let mut released: Vec<(usize, usize, usize)> = Vec::new();
    let mut gone: Vec<usize> = Vec::new();
    let mut kept: Vec<LargePage> = Vec::new();
    let mut k: usize = 0;
    while k < large.len()
        invariant
            large@ == src,
            page_size > 0,
            forall|i: int| 0 <= i < src.len() ==> span_fits(#[trigger] src[i], page_size as int),
            k <= src.len(),
            dropped@ == dropped_large(src.take(k as int), only_young),
            released@ == released_large(src.take(k as int), only_young, page_size as int),
            kept@ == kept_large(src.take(k as int), only_young),
            gone@ == released@.map_values(|e: (usize, usize, usize)| span_base(e)),
            forall|q: int| 0 <= q < released.len() ==> (#[trigger] released@[q]).0 as int + released@[q].2 * page_size <= usize::MAX,
        decreases src.len() - k,
    {
        let p = large[k];
        proof {
            assert(src.take(k + 1).drop_last() =~= src.take(k as int));
            assert(src.take(k + 1).last() == p);
            assert(span_fits(src[k as int], page_size as int));
        }
        if only_young && p.generation > 0 {
            kept.push(p);
        } else if !p.marked {
            if p.weak_count > 0 {
                if !p.value_dead {
                    proof {
                        lemma_pages_for_bounds(p.header_size + p.block_size, page_size as int);
                    }
                    dropped.push(p.addr + p.header_size as usize);
                }
                kept.push(LargePage { value_dead: true, ..p });
            } else {
                proof {
                    lemma_pages_for_bounds(p.header_size + p.block_size, page_size as int);
                }
                let total = p.header_size as usize + p.block_size as usize;
                let q = total / page_size;
                if total % page_size != 0 {
                    assert(q * page_size <= total && page_size >= 2 && q < usize::MAX) by (nonlinear_arith)
                        requires
                            q == total / page_size,
                            total % page_size != 0,
                            page_size > 0,
                            total <= usize::MAX,
                    ;
                }
                let pages_needed = if total % page_size == 0 { q } else { q + 1 };
                let alloc_size = pages_needed * page_size;
                if !p.value_dead {
                    dropped.push(p.addr + p.header_size as usize);
                }
                let ghost before = released@;
                released.push((p.addr, alloc_size, pages_needed));
                gone.push(p.addr);
                proof {
                    assert(gone@ =~= released@.map_values(|e: (usize, usize, usize)| span_base(e)));
                    assert forall|q: int| 0 <= q < released.len() implies (#[trigger] released@[q]).0 as int + released@[q].2 * page_size <= usize::MAX by {
                        if q < before.len() {
                            assert(released@[q] == before[q]);
                        }
                    }
                }
            }
        } else {
            kept.push(p);
        }
        k = k + 1;
    }
    proof {
        assert(src.take(src.len() as int) =~= src);
    }
    std::mem::swap(large, &mut kept);

    let ghost addrs = pages@;
    let mut left: Vec<usize> = Vec::new();
    let mut j: usize = 0;
    while j < pages.len()
        invariant
            pages@ == addrs,
            j <= addrs.len(),
            left@ == without(addrs.take(j as int), gone@),
        decreases addrs.len() - j,
    {
        let a = pages[j];
        proof {
            assert(addrs.take(j + 1).drop_last() =~= addrs.take(j as int));
            assert(addrs.take(j + 1).last() == a);
        }
        if !crate::local_heap::vec_contains(&gone, a) {
            left.push(a);
        }
        j = j + 1;
    }
    proof {
        assert(addrs.take(addrs.len() as int) =~= addrs);
    }
    std::mem::swap(pages, &mut left);

    let ghost local0 = local@;
    let ghost global0 = global@;
    let mut i: usize = 0;
    while i < released.len()
        invariant
            page_size > 0,
            i <= released.len(),
            forall|q: int| 0 <= q < released.len() ==> (#[trigger] released@[q]).0 as int + released@[q].2 * page_size <= usize::MAX,
            local@ == local0.remove_keys(released_keys(released@.take(i as int), page_size)),
            global@ == global0.remove_keys(released_keys(released@.take(i as int), page_size)),
        decreases released.len() - i,
    {
        let e = released[i];
        proof {
            assert(released@.take(i + 1).drop_last() =~= released@.take(i as int));
            assert(released@.take(i + 1).last() == e);
            assert(e.0 as int + e.2 * page_size <= usize::MAX);
        }
        local.unregister(e.0, e.2, page_size);
        global.unregister(e.0, e.2, page_size);
        proof {
            assert(local@ =~= local0.remove_keys(released_keys(released@.take(i + 1), page_size)));
            assert(global@ =~= global0.remove_keys(released_keys(released@.take(i + 1), page_size)));
        }
        i = i + 1;
    }
    proof {
        assert(released@.take(released.len() as int) =~= released@);
        assert forall|k: usize| local@.contains_key(k) implies local@[k] == local0[k] by {}
        assert forall|k: usize| global@.contains_key(k) implies global@[k] == global0[k] by {}
    }
    LargeSweep { dropped, released }
}

/// A map entry's span lies in the address space.
pub open spec fn entry_fits(e: (usize, usize, usize), ps: usize) -> bool {
    e.0 + pages_for(e.2 + e.1, ps as int) * ps <= usize::MAX
}

impl LargeObjectMap {
    /// Every registered span lies in the address space.
    pub open spec fn entries_fit(&self, ps: usize) -> bool {
        forall|k: usize| self@.contains_key(k) ==> entry_fits(#[trigger] self@[k], ps)
    }
}

/// The header of a fresh large-object page: one object of `size` bytes
/// (the size kept in 32 bits) at `header_size`, young, flagged large,
/// its one slot allocated.
pub fn new_large_header(size: usize, header_size: usize, owner_thread: u64) -> (h: PageHeader)
    ensures
        h.wf(),
        h.magic == MAGIC_GC_PAGE,
        h.block_size == size as u32,
        h.obj_count == 1,
        h.header_size == header_size as u16,
        h.generation == 0,
        h.flags == PAGE_FLAG_LARGE,
        h.owner_thread == owner_thread,
        h.dead_count == 0,
        h.free_list_head == FREE_LIST_NONE,
        h.marked() == Set::<int>::empty(),
        h.dirty() == Set::<int>::empty(),
        h.allocated() == set![0int],
{
    let mut h = PageHeader::new(size as u32, 1, header_size as u16, PAGE_FLAG_LARGE, owner_thread);
    h.set_allocated(0);
    proof {
        assert(h.allocated() =~= set![0int]);
    }
    h
}

/// Enters a freshly mapped span at `header_addr` for an object of `size`
/// bytes laid out as `layout`: the heap's page list gains the header page,
/// both maps learn every page of the span, the heap's address range covers
/// the span. Returns the object's address.
pub fn install_large_span(
    pages: &mut Vec<usize>,
    local: &mut LargeObjectMap,
    global: &mut LargeObjectMap,
    buffers: &mut HeapBuffers,
    header_addr: usize,
    size: usize,
    layout: LargeLayout,
    page_size: usize,
) -> (obj: usize)
    requires
        page_size > 0,
        layout.total_size as int == layout.header_size + size,
        layout.pages_needed as int == pages_for(layout.total_size as int, page_size as int),
        layout.alloc_size as int == layout.pages_needed * page_size,
        header_addr as int + layout.alloc_size <= usize::MAX,
    ensures
        obj as int == header_addr + layout.header_size,
        final(pages)@ == old(pages)@.push(header_addr),
        final(local)@ == old(local)@.union_prefer_right(
            Map::new(
                |k: usize| span_keys(header_addr, layout.pages_needed as int, page_size).contains(k),
                |k: usize| (header_addr, size, layout.header_size),
            ),
        ),
        final(global)@ == old(global)@.union_prefer_right(
            Map::new(
                |k: usize| span_keys(header_addr, layout.pages_needed as int, page_size).contains(k),
                |k: usize| (header_addr, size, layout.header_size),
            ),
        ),
        old(local).entries_fit(page_size) ==> final(local).entries_fit(page_size),
        old(global).entries_fit(page_size) ==> final(global).entries_fit(page_size),
        final(buffers).min_addr == (if header_addr < old(buffers).min_addr { header_addr } else { old(buffers).min_addr }),
        final(buffers).max_addr == (if header_addr + layout.alloc_size > old(buffers).max_addr {
            (header_addr + layout.alloc_size) as usize
        } else {
            old(buffers).max_addr
        }),
        final(buffers).dirty_pages@ == old(buffers).dirty_pages@,
{
    proof {
        lemma_pages_for_bounds(layout.total_size as int, page_size as int);
    }
    pages.push(header_addr);
    local.register(header_addr, size, layout.header_size, layout.pages_needed, page_size);
    global.register(header_addr, size, layout.header_size, layout.pages_needed, page_size);
    buffers.update_range(header_addr, layout.alloc_size);
    proof {
        assert(entry_fits((header_addr, size, layout.header_size), page_size));
    }
    header_addr + layout.header_size
}

/// Gives back the large object whose span holds the page at `page_addr`,
/// if there is one: every page of its span leaves both maps. Returns the
/// span's header address and the bytes it maps, for the caller to drop the
/// value and unmap; `None` when no span holds the page.
pub fn release_large_span(
    local: &mut LargeObjectMap,
    global: &mut LargeObjectMap,
    page_addr: usize,
    page_size: usize,
) -> (r: Option<(usize, usize)>)
    requires
        page_size > 0,
        old(local).entries_fit(page_size),
    ensures
        !old(local)@.contains_key(page_addr) ==> {
            &&& r is None
            &&& final(local)@ == old(local)@
            &&& final(global)@ == old(global)@
        },
        old(local)@.contains_key(page_addr) ==> {
            let e = old(local)@[page_addr];
            let n = pages_for(e.2 + e.1, page_size as int);
            &&& r == Some((e.0, (n * page_size) as usize))
            &&& final(local)@ == old(local)@.remove_keys(span_keys(e.0, n, page_size))
            &&& final(global)@ == old(global)@.remove_keys(span_keys(e.0, n, page_size))
        },
        final(local).entries_fit(page_size),
{
    match local.lookup(page_addr) {
        None => None,
        Some(e) => {
            let (header_addr, size, header_size) = e;
            proof {
                assert(entry_fits(local@[page_addr], page_size));
                lemma_pages_for_bounds(header_size + size, page_size as int);
            }
            let total = header_size + size;
            let q = total / page_size;
            if total % page_size != 0 {
                assert(q * page_size <= total && page_size >= 2 && q < usize::MAX) by (nonlinear_arith)
                    requires
                        q == total / page_size,
                        total % page_size != 0,
                        page_size > 0,
                        total <= usize::MAX,
                ;
            }
            let n = if total % page_size == 0 { q } else { q + 1 };
            let alloc_size = n * page_size;
            let ghost before = local@;
            local.unregister(header_addr, n, page_size);
            global.unregister(header_addr, n, page_size);
            proof {
                assert forall|k: usize| local@.contains_key(k) implies entry_fits(#[trigger] local@[k], page_size) by {
                    assert(before.contains_key(k));
                }
            }
            Some((header_addr, alloc_size))
        },
    }
}

/// Every page of an installed span leads back to the span, and giving the
/// span back removes exactly what installing it added (when no page of the
/// span was registered before).
pub proof fn law_span_install_release(
    m: Map<usize, (usize, usize, usize)>,
    header_addr: usize,
    size: usize,
    header_size: usize,
    pages: int,
    ps: usize,
    p: int,
)
    requires
        0 <= p < pages,
        ps > 0,
        header_addr as int + pages * ps <= usize::MAX,
        forall|k: usize| #[trigger] span_keys(header_addr, pages, ps).contains(k) ==> !m.contains_key(k),
    ensures
        ({
            let added = m.union_prefer_right(
                Map::new(|k: usize| span_keys(header_addr, pages, ps).contains(k), |k: usize| (header_addr, size, header_size)),
            );
            let key = span_page(header_addr as int, ps as int, p) as usize;
            &&& added.contains_key(key)
            &&& added[key] == (header_addr, size, header_size)
            &&& added.remove_keys(span_keys(header_addr, pages, ps)) == m
        }),
{
    let added = m.union_prefer_right(
        Map::new(|k: usize| span_keys(header_addr, pages, ps).contains(k), |k: usize| (header_addr, size, header_size)),
    );
    lemma_span_page_below(header_addr as int, ps as int, p, pages);
    let key = span_page(header_addr as int, ps as int, p) as usize;
    assert(span_keys(header_addr, pages, ps).contains(key));
    assert(added.remove_keys(span_keys(header_addr, pages, ps)) =~= m);
}

/// A sweep keeps every reachable large object as it was.
pub proof fn law_sweep_spares_marked(s: Seq<LargePage>, only_young: bool, i: int)
    requires
        0 <= i < s.len(),
        s[i].marked,
    ensures
        kept_large(s, only_young).contains(s[i]),
    decreases s.len(),
{
    if i < s.len() - 1 {
        assert(s.drop_last()[i] == s[i]);
        law_sweep_spares_marked(s.drop_last(), only_young, i);
        let rest = kept_large(s.drop_last(), only_young);
        if !large_released(s.last(), only_young) {
            let w = choose|w: int| 0 <= w < rest.len() && rest[w] == s[i];
            assert(rest.push(large_after_sweep(s.last(), only_young))[w] == s[i]);
        }
    } else {
        assert(kept_large(s, only_young) == kept_large(s.drop_last(), only_young).push(s[i]));
        assert(kept_large(s, only_young)[kept_large(s.drop_last(), only_young).len() as int] == s[i]);
    }
}



} // verus!
