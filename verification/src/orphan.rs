//! Pages whose owner thread has ended. When a heap goes away its pages move
//! into the global orphan registry; a later sweep keeps the orphan pages
//! that still hold reachable objects or objects named by weak references,
//! and gives the others back.

use vstd::prelude::*;
use crate::page::{PageHeader, spec_header_size, flag_set, PAGE_FLAG_LARGE, PAGE_FLAG_ORPHAN, MAGIC_GC_PAGE, same_scalars};
use crate::sweep::{Page, indices_where};
use crate::large::{LargeObjectMap, pages_for, span_keys, lemma_pages_for_bounds};
use crate::lookup::{PageAt, OrphanPage, OrphanEntry, orphan_index, find_orphan};

verus! {

/// Bytes an orphaned page maps: the whole span for a large-object page,
/// one page otherwise.
pub open spec fn orphan_size(h: PageHeader, ps: int) -> int {
    if flag_set(h.flags, PAGE_FLAG_LARGE) {
        pages_for(h.header_size + h.block_size, ps) * ps
    } else {
        ps
    }
}

/// The registry after recording `e`: an entry for the same address is
/// replaced, otherwise `e` is added.
pub open spec fn registry_insert(s: Seq<OrphanEntry>, e: OrphanEntry) -> Seq<OrphanEntry> {
    match orphan_index(s, e.info.addr, 0) {
        Some(i) => s.update(i, e),
        None => s.push(e),
    }
}

/// The registry entry for a heap page whose owner `owner` ended.
pub open spec fn orphan_entry(p: PageAt, owner: u64, ps: int) -> OrphanEntry {
    let h = p.page.header;
    OrphanEntry {
        info: OrphanPage {
            addr: p.addr,
            size: orphan_size(h, ps) as usize,
            is_large: flag_set(h.flags, PAGE_FLAG_LARGE),
            original_owner: owner,
        },
        page: Page { header: PageHeader { flags: h.flags | PAGE_FLAG_ORPHAN, ..h }, slots: p.page.slots },
    }
}

/// The registry after the heap pages `pages` (in order) were orphaned;
/// pages that are not GC pages are skipped.
pub open spec fn registry_after(s: Seq<OrphanEntry>, pages: Seq<PageAt>, owner: u64, ps: int) -> Seq<OrphanEntry>
    decreases pages.len(),
{
    if pages.len() == 0 {
        s
    } else {
        let before = registry_after(s, pages.drop_last(), owner, ps);
        let p = pages.last();
        if p.page.header.magic == MAGIC_GC_PAGE {
            registry_insert(before, orphan_entry(p, owner, ps))
        } else {
            before
        }
    }
}

/// A large heap page's span lies in the address space.
pub open spec fn orphanable(p: PageAt, ps: int) -> bool {
    flag_set(p.page.header.flags, PAGE_FLAG_LARGE) ==> p.addr + orphan_size(p.page.header, ps) <= usize::MAX
}

/// Records `e` in the registry, replacing an entry for the same address.
pub fn record_orphan(orphans: &mut Vec<OrphanEntry>, e: OrphanEntry)
    ensures
        final(orphans)@ == registry_insert(old(orphans)@, e),
{
    match find_orphan(orphans, e.info.addr) {
        Some(i) => {
            orphans.set(i, e);
        },
        None => {
            orphans.push(e);
        },
    }
}

/// Hands the pages of a heap whose thread `owner` ended to the orphan
/// registry: every GC page is flagged orphan and recorded with the bytes it
/// maps and whether it holds a large object. The heap keeps no page.
pub fn orphan_heap_pages(pages: &mut Vec<PageAt>, orphans: &mut Vec<OrphanEntry>, owner: u64, page_size: usize)
    requires
        page_size > 0,
        forall|i: int| 0 <= i < old(pages).len() ==> orphanable(#[trigger] old(pages)@[i], page_size as int),
    ensures
        final(pages)@ == Seq::<PageAt>::empty(),
        final(orphans)@ == registry_after(old(orphans)@, old(pages)@, owner, page_size as int),
{
    let ghost src = pages@;
    let ghost start = orphans@;
    let n = pages.len();
    let mut k: usize = 0;
    while pages.len() > 0
        invariant
            page_size > 0,
            k <= src.len(),
            src.len() == n,
            pages@ == src.subrange(k as int, src.len() as int),
            forall|i: int| 0 <= i < src.len() ==> orphanable(#[trigger] src[i], page_size as int),
            orphans@ == registry_after(start, src.take(k as int), owner, page_size as int),
        decreases pages.len(),
    {
        proof {
            assert(pages@.len() == src.len() - k);
        }
        let p = pages.remove(0);
        proof {
            assert(p == src[k as int]);
            assert(src.take(k + 1).drop_last() =~= src.take(k as int));
            assert(src.take(k + 1).last() == p);
            assert(orphanable(src[k as int], page_size as int));
        }
        let PageAt { addr, page } = p;
        let Page { header, slots } = page;
        if header.magic == MAGIC_GC_PAGE {
            let is_large = header.is_large_object();
            let size = if is_large {
                proof {
                    lemma_pages_for_bounds(header.header_size + header.block_size, page_size as int);
                }
                let total = header.header_size as usize + header.block_size as usize;
                let q = total / page_size;
                if total % page_size != 0 {
                    assert(q * page_size <= total && page_size >= 2 && q < usize::MAX) by (nonlinear_arith)
                        requires
                            q == total / page_size,
                            total % page_size != 0,
                            page_size > 0,
                            total <= usize::MAX,
                    ;
                }
                let n = if total % page_size == 0 { q } else { q + 1 };
                n * page_size
            } else {
                page_size
            };
            let mut header = header;
            header.flags = header.flags | PAGE_FLAG_ORPHAN;
            let e = OrphanEntry {
                info: OrphanPage { addr, size, is_large, original_owner: owner },
                page: Page { header, slots },
            };
            proof {
                assert(e == orphan_entry(src[k as int], owner, page_size as int));
            }
            record_orphan(orphans, e);
        }
        proof {
            assert(pages@ =~= src.subrange(k + 1, src.len() as int));
        }
        k = k + 1;
    }
    proof {
        assert(src.take(k as int) =~= src);
    }
}

/// The orphan page still holds a reachable object: its large object, or
/// some slot of a small page, is marked.
pub open spec fn orphan_has_survivors(p: Page) -> bool {
    if flag_set(p.header.flags, PAGE_FLAG_LARGE) {
        p.header.marked().contains(0)
    } else {
        exists|i: int| 0 <= i < p.n() && #[trigger] p.header.marked().contains(i)
    }
}

/// Some object of the orphan page is still named by a weak reference: its
/// large object, or an allocated slot of a small page.
pub open spec fn orphan_has_weak(p: Page) -> bool {
    if flag_set(p.header.flags, PAGE_FLAG_LARGE) {
        p.slots@[0].weak_count > 0
    } else {
        exists|i: int| 0 <= i < p.n() && #[trigger] p.header.allocated().contains(i) && p.slots@[i].weak_count > 0
    }
}

/// The sweep keeps the orphan page.
pub open spec fn orphan_kept(e: OrphanEntry) -> bool {
    orphan_has_survivors(e.page) || orphan_has_weak(e.page)
}

/// The entries a sweep keeps, in order.
pub open spec fn kept_orphans(s: Seq<OrphanEntry>) -> Seq<OrphanEntry>
    decreases s.len(),
{
    if s.len() == 0 {
        Seq::empty()
    } else if orphan_kept(s.last()) {
        kept_orphans(s.drop_last()).push(s.last())
    } else {
        kept_orphans(s.drop_last())
    }
}

/// The entries a sweep reclaims, in order.
pub open spec fn reclaimed_orphans(s: Seq<OrphanEntry>) -> Seq<OrphanEntry>
    decreases s.len(),
{
    if s.len() == 0 {
        Seq::empty()
    } else if orphan_kept(s.last()) {
        reclaimed_orphans(s.drop_last())
    } else {
        reclaimed_orphans(s.drop_last()).push(s.last())
    }
}

/// A kept entry after the sweep: its marks are cleared, nothing else moves.
pub open spec fn marks_cleared(before: OrphanEntry, after: OrphanEntry) -> bool {
    &&& after.info == before.info
    &&& after.page.header.wf()
    &&& same_scalars(after.page.header, before.page.header)
    &&& after.page.header.marked() == Set::<int>::empty()
    &&& after.page.header.allocated() == before.page.header.allocated()
    &&& after.page.header.dirty() == before.page.header.dirty()
    &&& after.page.slots@ == before.page.slots@
}

/// Address of slot `i` of a small page at `addr` with header `h`.
pub open spec fn slot_addr(addr: usize, h: PageHeader, i: int) -> int {
    addr + spec_header_size(h.block_size as int) + i * h.block_size
}

/// Whether slot `i` of a page holds a value still to drop.
pub open spec fn value_live(p: Page, i: int) -> bool {
    p.header.allocated().contains(i) && !p.slots@[i].value_dead
}

/// The objects of a reclaimed orphan page whose value must be dropped: the
/// large object, or every allocated slot of a small page, when its value
/// was not dropped before; slots in ascending order.
pub open spec fn orphan_drop_addrs(e: OrphanEntry) -> Seq<usize> {
    let h = e.page.header;
    if flag_set(h.flags, PAGE_FLAG_LARGE) {
        if !e.page.slots@[0].value_dead { seq![(e.info.addr + h.header_size) as usize] } else { Seq::empty() }
    } else {
        indices_where(e.page.n(), |i: int| value_live(e.page, i)).map_values(|i: usize| slot_addr(e.info.addr, h, i as int) as usize)
    }
}

/// The objects to drop for a run of reclaimed pages, page after page.
pub open spec fn orphan_drops(r: Seq<OrphanEntry>) -> Seq<usize>
    decreases r.len(),
{
    if r.len() == 0 {
        Seq::empty()
    } else {
        orphan_drops(r.drop_last()) + orphan_drop_addrs(r.last())
    }
}

/// The mappings to give back for a run of reclaimed pages: address, bytes,
/// and whether the page held a large object.
pub open spec fn orphan_releases(r: Seq<OrphanEntry>) -> Seq<(usize, usize, bool)>
    decreases r.len(),
{
    if r.len() == 0 {
        Seq::empty()
    } else {
        let e = r.last();
        orphan_releases(r.drop_last()).push((e.info.addr, e.info.size, flag_set(e.page.header.flags, PAGE_FLAG_LARGE)))
    }
}

/// The page addresses of the large spans among released mappings, whose
/// entries leave the global large-object map.
pub open spec fn orphan_span_keys(r: Seq<(usize, usize, bool)>, ps: usize) -> Set<usize>
    decreases r.len(),
{
    if r.len() == 0 {
        Set::empty()
    } else {
        let e = r.last();
        let rest = orphan_span_keys(r.drop_last(), ps);
        if e.2 { rest.union(span_keys(e.0, (e.1 / ps) as int, ps)) } else { rest }
    }
}

/// An orphan entry the sweep can read and release: a well-formed page, a
/// large page with its object slot and its span in the address space, a
/// small page whose slots lie in the address space.
pub open spec fn sweepable_orphan(e: OrphanEntry, ps: int) -> bool {
    let h = e.page.header;
    &&& e.page.wf()
    &&& flag_set(h.flags, PAGE_FLAG_LARGE) ==> {
        &&& e.page.n() >= 1
        &&& e.info.addr + h.header_size <= usize::MAX
        &&& e.info.addr + (e.info.size as int / ps) * ps <= usize::MAX
    }
    &&& !flag_set(h.flags, PAGE_FLAG_LARGE) ==> slot_addr(e.info.addr, h, e.page.n()) <= usize::MAX
}

/// What an orphan sweep leaves for its caller to do.
pub struct OrphanSweep {
    /// Objects whose value must be dropped, before any mapping is given back.
    pub dropped: Vec<usize>,
    /// Mappings to give back: address, bytes, whether it held a large object.
    pub released: Vec<(usize, usize, bool)>,
}

/// Whether the page still holds a reachable object.
fn has_survivors(p: &Page) -> (r: bool)
    requires
        p.wf(),
        flag_set(p.header.flags, PAGE_FLAG_LARGE) ==> p.n() >= 1,
    ensures
        r == orphan_has_survivors(*p),
{
    if p.header.is_large_object() {
        return p.header.is_marked(0);
    }
    let n = p.header.obj_count as usize;
    let mut i: usize = 0;
    while i < n
        invariant
            p.wf(),
            !flag_set(p.header.flags, PAGE_FLAG_LARGE),
            n == p.n(),
            i <= n,
            forall|j: int| 0 <= j < i ==> !#[trigger] p.header.marked().contains(j),
        decreases n - i,
    {
        if p.header.is_marked(i) {
            assert(p.header.marked().contains(i as int));
            return true;
        }
        i = i + 1;
    }
    false
}

/// Whether some object of the page is still named by a weak reference.
fn has_weak_refs(p: &Page) -> (r: bool)
    requires
        p.wf(),
        flag_set(p.header.flags, PAGE_FLAG_LARGE) ==> p.n() >= 1,
    ensures
        r == orphan_has_weak(*p),
{
    if p.header.is_large_object() {
        return p.slots[0].weak_count > 0;
    }
    let n = p.header.obj_count as usize;
    let mut i: usize = 0;
    while i < n
        invariant
            p.wf(),
            !flag_set(p.header.flags, PAGE_FLAG_LARGE),
            n == p.n(),
            i <= n,
            forall|j: int| 0 <= j < i ==> !(#[trigger] p.header.allocated().contains(j) && p.slots@[j].weak_count > 0),
        decreases n - i,
    {
        if p.header.is_allocated(i) && p.slots[i].weak_count > 0 {
            assert(p.header.allocated().contains(i as int) && p.slots@[i as int].weak_count > 0);
            return true;
        }
        i = i + 1;
    }
    false
}

/// `i * bs` stays below `n * bs` for `i < n`.
proof fn lemma_slot_below(i: int, n: int, bs: int)
    requires
        0 <= i < n,
        bs >= 0,
    ensures
        0 <= i * bs,
        i * bs + bs <= n * bs,
{
    assert(0 <= i * bs && i * bs + bs <= n * bs) by (nonlinear_arith)
        requires
            0 <= i < n,
            bs >= 0,
    ;
}

/// Appends the objects of reclaimed page `e` whose value must be dropped.
fn push_orphan_drops(e: &OrphanEntry, out: &mut Vec<usize>, page_size: usize)
    requires
        sweepable_orphan(*e, page_size as int),
    ensures
        final(out)@ == old(out)@ + orphan_drop_addrs(*e),
{
    let h = &e.page.header;
    if h.is_large_object() {
        if !e.page.slots[0].value_dead {
            out.push(e.info.addr + h.header_size as usize);
        }
        proof {
            assert(old(out)@ + orphan_drop_addrs(*e) =~= out@);
        }
        return;
    }
    let n = h.obj_count as usize;
    let bs = h.block_size as usize;
    let hs = PageHeader::header_size(bs);
    let ghost start = out@;
    let ghost live = |i: int| value_live(e.page, i);
    let ghost f = |i: usize| slot_addr(e.info.addr, *h, i as int) as usize;
    let mut i: usize = 0;
    while i < n
        invariant
            e.page.wf(),
            n == e.page.n(),
            bs == h.block_size,
            hs == spec_header_size(bs as int),
            *h == e.page.header,
            !flag_set(h.flags, PAGE_FLAG_LARGE),
            slot_addr(e.info.addr, *h, n as int) <= usize::MAX,
            live == (|i: int| value_live(e.page, i)),
            f == (|i: usize| slot_addr(e.info.addr, *h, i as int) as usize),
            i <= n,
            out@ == start + indices_where(i as int, live).map_values(f),
        decreases n - i,
    {
        proof {
            lemma_slot_below(i as int, n as int, bs as int);
        }
        if h.is_allocated(i) && !e.page.slots[i].value_dead {
            out.push(e.info.addr + hs + i * bs);
            proof {
                assert(live(i as int));
                assert(indices_where(i + 1, live) == indices_where(i as int, live).push(i));
                assert(indices_where(i + 1, live).map_values(f) =~= indices_where(i as int, live).map_values(f).push(f(i)));
                assert(out@ =~= start + indices_where(i + 1, live).map_values(f));
            }
        } else {
            proof {
                assert(!live(i as int));
                assert(indices_where(i + 1, live) == indices_where(i as int, live));
            }
        }
        i = i + 1;
    }
}

/// Sweeps the orphan registry. An orphan page that still holds a marked
/// object, or an object named by a weak reference, stays with its marks
/// cleared; every other page is reclaimed: the values of its objects are
/// dropped (all of them before any mapping goes) and its mapping is given
/// back, a large page's span leaving the global large-object map.
pub fn sweep_orphan_pages(orphans: &mut Vec<OrphanEntry>, global: &mut LargeObjectMap, page_size: usize) -> (r: OrphanSweep)
    requires
        page_size > 0,
        forall|i: int| 0 <= i < old(orphans).len() ==> sweepable_orphan(#[trigger] old(orphans)@[i], page_size as int),
    ensures
        final(orphans).len() == kept_orphans(old(orphans)@).len(),
        forall|k: int| 0 <= k < final(orphans).len() ==> marks_cleared(
            #[trigger] kept_orphans(old(orphans)@)[k],
            final(orphans)@[k],
        ),
        r.dropped@ == orphan_drops(reclaimed_orphans(old(orphans)@)),
        r.released@ == orphan_releases(reclaimed_orphans(old(orphans)@)),
        final(global)@ == old(global)@.remove_keys(orphan_span_keys(r.released@, page_size)),
{
    let ghost src = orphans@;
    let n = orphans.len();
    let mut kept: Vec<OrphanEntry> = Vec::new();
    let mut gone: Vec<OrphanEntry> = Vec::new();
    let mut k: usize = 0;
    while orphans.len() > 0
        invariant
            page_size > 0,
            src.len() == n,
            k <= n,
            orphans@ == src.subrange(k as int, n as int),
            forall|i: int| 0 <= i < n ==> sweepable_orphan(#[trigger] src[i], page_size as int),
            kept.len() == kept_orphans(src.take(k as int)).len(),
            forall|q: int| 0 <= q < kept.len() ==> marks_cleared(#[trigger] kept_orphans(src.take(k as int))[q], kept@[q]),
            gone@ == reclaimed_orphans(src.take(k as int)),
            forall|q: int| 0 <= q < gone.len() ==> sweepable_orphan(#[trigger] gone@[q], page_size as int),
        decreases orphans.len(),
    {
        proof {
            assert(orphans@.len() == n - k);
        }
        let e = orphans.remove(0);
        proof {
            assert(e == src[k as int]);
            assert(src.take(k + 1).drop_last() =~= src.take(k as int));
            assert(src.take(k + 1).last() == e);
            assert(sweepable_orphan(src[k as int], page_size as int));
        }
        let keep = has_survivors(&e.page) || has_weak_refs(&e.page);
        if keep {
            let ghost before = e;
            let ghost kept_before = kept@;
            let OrphanEntry { info, page } = e;
            let Page { header, slots } = page;
            let mut header = header;
            header.clear_all_marks();
            kept.push(OrphanEntry { info, page: Page { header, slots } });
            proof {
                assert(kept_orphans(src.take(k + 1)) == kept_orphans(src.take(k as int)).push(before));
                assert forall|q: int| 0 <= q < kept.len() implies marks_cleared(#[trigger] kept_orphans(src.take(k + 1))[q], kept@[q]) by {
                    if q < kept_before.len() {
                        assert(kept@[q] == kept_before[q]);
                        assert(kept_orphans(src.take(k + 1))[q] == kept_orphans(src.take(k as int))[q]);
                    }
                }
            }
        } else {
            let ghost gone_before = gone@;
            gone.push(e);
            proof {
                assert forall|q: int| 0 <= q < gone.len() implies sweepable_orphan(#[trigger] gone@[q], page_size as int) by {
                    if q < gone_before.len() {
                        assert(gone@[q] == gone_before[q]);
                    }
                }
            }
        }
        proof {
            assert(orphans@ =~= src.subrange(k + 1, n as int));
        }
        k = k + 1;
    }
    proof {
        assert(src.take(n as int) =~= src);
    }
    std::mem::swap(orphans, &mut kept);

    let ghost rec = gone@;
    let mut dropped: Vec<usize> = Vec::new();
    let mut j: usize = 0;
    while j < gone.len()
        invariant
            gone@ == rec,
            rec == reclaimed_orphans(src),
            forall|i: int| 0 <= i < rec.len() ==> sweepable_orphan(#[trigger] rec[i], page_size as int),
            j <= rec.len(),
            dropped@ == orphan_drops(rec.take(j as int)),
        decreases rec.len() - j,
    {
        proof {
            assert(rec.take(j + 1).drop_last() =~= rec.take(j as int));
            assert(rec.take(j + 1).last() == rec[j as int]);
            assert(sweepable_orphan(rec[j as int], page_size as int));
        }
        push_orphan_drops(&gone[j], &mut dropped, page_size);
        j = j + 1;
    }
    proof {
        assert(rec.take(rec.len() as int) =~= rec);
    }

    let ghost global0 = global@;
    let mut released: Vec<(usize, usize, bool)> = Vec::new();
    let mut m: usize = 0;
    while m < gone.len()
        invariant
            page_size > 0,
            gone@ == rec,
            forall|i: int| 0 <= i < rec.len() ==> sweepable_orphan(#[trigger] rec[i], page_size as int),
            m <= rec.len(),
            released@ == orphan_releases(rec.take(m as int)),
            global@ == global0.remove_keys(orphan_span_keys(released@, page_size)),
        decreases rec.len() - m,
    {
        let e = &gone[m];
        proof {
            assert(rec.take(m + 1).drop_last() =~= rec.take(m as int));
            assert(rec.take(m + 1).last() == rec[m as int]);
            assert(sweepable_orphan(rec[m as int], page_size as int));
        }
        let is_large = e.page.header.is_large_object();
        let entry = (e.info.addr, e.info.size, is_large);
        let ghost g_before = global@;
        let ghost r_before = released@;
        if is_large {
            let pages = e.info.size / page_size;
            global.unregister(e.info.addr, pages, page_size);
        }
        released.push(entry);
        proof {
            assert(released@.drop_last() =~= r_before);
            assert(released@.last() == entry);
            if is_large {
                assert(orphan_span_keys(released@, page_size) == orphan_span_keys(r_before, page_size).union(
                    span_keys(entry.0, (entry.1 / page_size) as int, page_size),
                ));
            } else {
                assert(orphan_span_keys(released@, page_size) == orphan_span_keys(r_before, page_size));
            }
            assert(global@ =~= global0.remove_keys(orphan_span_keys(released@, page_size)));
        }
        m = m + 1;
    }
    proof {
        assert(rec.take(rec.len() as int) =~= rec);
    }
    OrphanSweep { dropped, released }
}

/// An orphan sweep splits the registry: every page is kept or reclaimed,
/// and a reclaimed page held no marked object and no object named by a weak
/// reference.
pub proof fn law_orphan_sweep_partition(s: Seq<OrphanEntry>)
    ensures
        kept_orphans(s).len() + reclaimed_orphans(s).len() == s.len(),
        forall|i: int| 0 <= i < reclaimed_orphans(s).len() ==> {
            &&& !orphan_has_survivors((#[trigger] reclaimed_orphans(s)[i]).page)
            &&& !orphan_has_weak(reclaimed_orphans(s)[i].page)
        },
        forall|i: int| 0 <= i < kept_orphans(s).len() ==> orphan_kept(#[trigger] kept_orphans(s)[i]),
    decreases s.len(),
{
    if s.len() > 0 {
        law_orphan_sweep_partition(s.drop_last());
        let r0 = reclaimed_orphans(s.drop_last());
        let k0 = kept_orphans(s.drop_last());
        if orphan_kept(s.last()) {
            assert forall|i: int| 0 <= i < kept_orphans(s).len() implies orphan_kept(#[trigger] kept_orphans(s)[i]) by {
                if i < k0.len() {
                    assert(kept_orphans(s)[i] == k0[i]);
                }
            }
        } else {
            assert forall|i: int| 0 <= i < reclaimed_orphans(s).len() implies {
                &&& !orphan_has_survivors((#[trigger] reclaimed_orphans(s)[i]).page)
                &&& !orphan_has_weak(reclaimed_orphans(s)[i].page)
            } by {
                if i < r0.len() {
                    assert(reclaimed_orphans(s)[i] == r0[i]);
                }
            }
        }
    }
}



} // verus!
