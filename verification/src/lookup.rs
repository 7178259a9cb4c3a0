//! Resolving a possible pointer to the start of the object that holds it:
//! the core of conservative stack scanning. A pointer may point anywhere
//! inside an object; the lookup goes through the large-object map, the
//! heap's small pages and, for pages no live heap owns, the orphan pages.

use vstd::prelude::*;
use std::collections::HashSet;
use crate::page::{PageHeader, spec_header_size, flag_set, spec_page_mask, PAGE_FLAG_LARGE, MAGIC_GC_PAGE, PAGE_SLOTS};
use crate::sweep::Page;
use crate::large::{LargeObjectMap, release_large_span, pages_for, span_keys};
use crate::local_heap::HeapBuffers;

verus! {

broadcast use vstd::std_specs::hash::group_hash_axioms;

/// Lowest address a lookup accepts: the zero page is never a heap page.
pub const MIN_HEAP_ADDR: usize = 4096;

/// A page of the heap at its address.
pub struct PageAt {
    /// Address of the page (of its header).
    pub addr: usize,
    /// The page.
    pub page: Page,
}

/// A page whose owner thread has ended, as the global registry keeps it.
#[derive(Clone, Copy)]
pub struct OrphanPage {
    /// Address of the page.
    pub addr: usize,
    /// Bytes mapped for the page.
    pub size: usize,
    /// The page holds one large object.
    pub is_large: bool,
    /// Stable id of the thread that owned the page.
    pub original_owner: u64,
}

/// An orphan page with its contents.
pub struct OrphanEntry {
    /// The registry record.
    pub info: OrphanPage,
    /// The page.
    pub page: Page,
}

/// An optional address as an optional integer.
pub open spec fn as_int_opt(r: Option<usize>) -> Option<int> {
    match r {
        Some(v) => Some(v as int),
        None => None,
    }
}

/// Index of the first page at address `a`, searching from `i`.
pub open spec fn page_index(pages: Seq<PageAt>, a: usize, i: int) -> Option<int>
    decreases pages.len() - i,
{
    if i >= pages.len() || i < 0 {
        None
    } else if pages[i].addr == a {
        Some(i)
    } else {
        page_index(pages, a, i + 1)
    }
}

/// Index of the first orphan page at address `a`, searching from `i`.
pub open spec fn orphan_index(orphans: Seq<OrphanEntry>, a: usize, i: int) -> Option<int>
    decreases orphans.len() - i,
{
    if i >= orphans.len() || i < 0 {
        None
    } else if orphans[i].info.addr == a {
        Some(i)
    } else {
        orphan_index(orphans, a, i + 1)
    }
}

/// The object that `addr` points into, for objects of `bs` bytes laid out
/// from `base + hs` in a page with header `h`: the slot the offset falls
/// in, which must exist, be allocated on a small page, and on a large page
/// hold the offset within the object.
pub open spec fn resolve_box(h: PageHeader, base: int, hs: int, bs: int, addr: int) -> Option<int> {
    if addr < base + hs {
        None
    } else {
        let off = addr - (base + hs);
        let idx = off / bs;
        if idx >= h.obj_count {
            None
        } else if !flag_set(h.flags, PAGE_FLAG_LARGE) && !h.allocated().contains(idx) {
            None
        } else if flag_set(h.flags, PAGE_FLAG_LARGE) && off >= bs {
            None
        } else {
            Some(base + hs + idx * bs)
        }
    }
}

/// The object an address points into when no live heap claims it: a span
/// of the global large-object map (the object must hold the address), or
/// an allocated slot of a small orphan page.
pub open spec fn orphan_box(
    global: Map<usize, (usize, usize, usize)>,
    orphans: Seq<OrphanEntry>,
    addr: usize,
    mask: usize,
) -> Option<int> {
    let pa = addr & mask;
    if addr < MIN_HEAP_ADDR {
        None
    } else if global.contains_key(pa) {
        let e = global[pa];
        if addr < e.0 + e.2 || addr - (e.0 + e.2) >= e.1 {
            None
        } else {
            Some(e.0 + e.2)
        }
    } else {
        match orphan_index(orphans, pa, 0) {
            None => None,
            Some(i) => {
                let o = orphans[i];
                let h = o.page.header;
                let hs = spec_header_size(h.block_size as int);
                if o.info.is_large || h.magic != MAGIC_GC_PAGE || addr < o.info.addr + hs {
                    None
                } else {
                    let idx = (addr - (o.info.addr + hs)) / (h.block_size as int);
                    if idx >= h.obj_count || !h.allocated().contains(idx) {
                        None
                    } else {
                        Some(o.info.addr + hs + idx * h.block_size)
                    }
                }
            },
        }
    }
}

/// The object an address points into, for a heap whose address range is
/// `[lo, hi)`: outside the range the orphan pages are asked; otherwise a
/// span of the heap's large-object map, or a small page of the heap (an
/// address on no page of the heap goes to the orphan pages too).
pub open spec fn heap_box(
    lo: usize,
    hi: usize,
    local: Map<usize, (usize, usize, usize)>,
    small: Set<usize>,
    pages: Seq<PageAt>,
    global: Map<usize, (usize, usize, usize)>,
    orphans: Seq<OrphanEntry>,
    addr: usize,
    mask: usize,
) -> Option<int> {
    let pa = addr & mask;
    if !(lo <= addr && addr < hi) {
        orphan_box(global, orphans, addr, mask)
    } else if addr < MIN_HEAP_ADDR {
        None
    } else if local.contains_key(pa) {
        let e = local[pa];
        match page_index(pages, e.0, 0) {
            Some(i) => resolve_box(pages[i].page.header, e.0 as int, e.2 as int, e.1 as int, addr as int),
            None => None,
        }
    } else if !small.contains(pa) {
        orphan_box(global, orphans, addr, mask)
    } else if pa % 4096 != 0 || pa < 4096 {
        None
    } else {
        match page_index(pages, pa, 0) {
            Some(i) => {
                let h = pages[i].page.header;
                if h.magic != MAGIC_GC_PAGE {
                    None
                } else {
                    resolve_box(h, pa as int, spec_header_size(h.block_size as int), h.block_size as int, addr as int)
                }
            },
            None => None,
        }
    }
}

/// A heap page the lookup may read: its header's bitmaps are whole, and a
/// GC page has a nonzero block size.
pub open spec fn readable_page(p: PageAt) -> bool {
    &&& p.page.header.wf()
    &&& p.page.header.obj_count <= PAGE_SLOTS
    &&& (p.page.header.magic == MAGIC_GC_PAGE ==> p.page.header.block_size > 0)
}

/// The lookup's view of the heap is consistent: every large span's header
/// page is a heap page and its object is not empty, and every small page
/// is a heap page.
pub open spec fn lookup_ready(
    local: Map<usize, (usize, usize, usize)>,
    small: Set<usize>,
    pages: Seq<PageAt>,
) -> bool {
    &&& forall|i: int| 0 <= i < pages.len() ==> readable_page(#[trigger] pages[i])
    &&& forall|k: usize| #[trigger] local.contains_key(k) ==> local[k].1 > 0 && page_index(pages, local[k].0, 0) is Some
    &&& forall|k: usize| #[trigger] small.contains(k) ==> page_index(pages, k, 0) is Some
}

/// The orphan registry's pages are readable: whole bitmaps, nonzero block
/// size on a GC page.
pub open spec fn orphans_readable(orphans: Seq<OrphanEntry>) -> bool {
    forall|i: int| 0 <= i < orphans.len() ==> {
        let h = (#[trigger] orphans[i]).page.header;
        h.wf() && h.obj_count <= PAGE_SLOTS && (h.magic == MAGIC_GC_PAGE ==> h.block_size > 0)
    }
}

/// The first page of `pages` at address `a`.
pub fn find_page(pages: &Vec<PageAt>, a: usize) -> (r: Option<usize>)
    ensures
        match r {
            Some(i) => page_index(pages@, a, 0) == Some(i as int),
            None => page_index(pages@, a, 0) is None,
        },
        r matches Some(i) ==> i < pages.len() && pages@[i as int].addr == a,
{
    let mut i: usize = 0;
    while i < pages.len()
        invariant
            i <= pages.len(),
            page_index(pages@, a, 0) == page_index(pages@, a, i as int),
        decreases pages.len() - i,
    {
        if pages[i].addr == a {
            return Some(i);
        }
        i = i + 1;
    }
    None
}

/// The first orphan page at address `a`.
pub fn find_orphan(orphans: &Vec<OrphanEntry>, a: usize) -> (r: Option<usize>)
    ensures
        match r {
            Some(i) => orphan_index(orphans@, a, 0) == Some(i as int),
            None => orphan_index(orphans@, a, 0) is None,
        },
        r matches Some(i) ==> i < orphans.len() && orphans@[i as int].info.addr == a,
{
    let mut i: usize = 0;
    while i < orphans.len()
        invariant
            i <= orphans.len(),
            orphan_index(orphans@, a, 0) == orphan_index(orphans@, a, i as int),
        decreases orphans.len() - i,
    {
        if orphans[i].info.addr == a {
            return Some(i);
        }
        i = i + 1;
    }
    None
}

/// `(x / d) * d` lies between `x - d` and `x`.
pub proof fn lemma_div_mul_bounds(x: int, d: int)
    requires
        x >= 0,
        d > 0,
    ensures
        0 <= (x / d) * d <= x,
        x / d >= 0,
{
    assert(0 <= (x / d) * d <= x && x / d >= 0) by (nonlinear_arith)
        requires
            x >= 0,
            d > 0,
    ;
}

/// Object start for `addr` in objects of `bs` bytes laid out from
/// `base + hs` in a page with header `h`.
fn resolve_in(h: &PageHeader, base: usize, hs: usize, bs: usize, addr: usize) -> (r: Option<usize>)
    requires
        h.wf(),
        h.obj_count <= PAGE_SLOTS,
        bs > 0,
        base + hs <= usize::MAX,
    ensures
        as_int_opt(r) == resolve_box(*h, base as int, hs as int, bs as int, addr as int),
{
    if addr < base + hs {
        return None;
    }
    let off = addr - (base + hs);
    let idx = off / bs;
    if idx >= h.obj_count as usize {
        return None;
    }
    proof {
        lemma_div_mul_bounds(off as int, bs as int);
    }
    let large = h.is_large_object();
    if !large && !h.is_allocated(idx) {
        return None;
    }
    if large && off >= bs {
        return None;
    }
    Some(base + hs + idx * bs)
}

/// The object that `addr` points into when no live heap claims it, with
/// `mask` as the page mask: a span of the global large-object map, or an
/// allocated slot of a small orphan page.
pub fn find_gc_box_in_orphans(
    global: &LargeObjectMap,
    orphans: &Vec<OrphanEntry>,
    addr: usize,
    mask: usize,
) -> (r: Option<usize>)
    requires
        orphans_readable(orphans@),
    ensures
        as_int_opt(r) == orphan_box(global@, orphans@, addr, mask),
{
    if addr < MIN_HEAP_ADDR {
        return None;
    }
    let pa = addr & mask;
    match global.lookup(pa) {
        Some(e) => {
            let (head, size, h_size) = e;
            if head as u128 + h_size as u128 > addr as u128 {
                return None;
            }
            if addr - (head + h_size) >= size {
                return None;
            }
            Some(head + h_size)
        },
        None => {
            match find_orphan(orphans, pa) {
                None => None,
                Some(i) => {
                    let o = &orphans[i];
                    proof {
                        assert(orphans_readable(orphans@));
                        let _ = orphans@[i as int].page;
                    }
                    if o.info.is_large || o.page.header.magic != MAGIC_GC_PAGE {
                        return None;
                    }
                    let bs = o.page.header.block_size as usize;
                    let hs = PageHeader::header_size(bs);
                    if o.info.addr as u128 + hs as u128 > addr as u128 {
                        return None;
                    }
                    let off = addr - (o.info.addr + hs);
                    let idx = off / bs;
                    if idx >= o.page.header.obj_count as usize {
                        return None;
                    }
                    proof {
                        lemma_div_mul_bounds(off as int, bs as int);
                    }
                    if !o.page.header.is_allocated(idx) {
                        return None;
                    }
                    Some(o.info.addr + hs + idx * bs)
                },
            }
        },
    }
}

/// The object that `addr` points into when no live heap claims it. Gives
/// the answer of `find_gc_box_in_orphans` for the machine's page mask.
pub fn find_gc_box_from_orphan(global: &LargeObjectMap, orphans: &Vec<OrphanEntry>, addr: usize) -> (r: Option<usize>)
    requires
        orphans_readable(orphans@),
    ensures
        exists|ps: usize| as_int_opt(r) == orphan_box(global@, orphans@, addr, #[trigger] spec_page_mask(ps)),
{
    let ps = crate::page::page_size();
    let mask = crate::page::page_mask_for(ps);
    find_gc_box_in_orphans(global, orphans, addr, mask)
}

/// The object that `addr` points into, with `mask` as the page mask: see
/// `heap_box`. A large span's object holds any address inside it; a small
/// page's slot holds any address of its block.
pub fn find_gc_box_in(
    buffers: &HeapBuffers,
    local: &LargeObjectMap,
    small: &HashSet<usize>,
    pages: &Vec<PageAt>,
    global: &LargeObjectMap,
    orphans: &Vec<OrphanEntry>,
    addr: usize,
    mask: usize,
) -> (r: Option<usize>)
    requires
        lookup_ready(local@, small@, pages@),
        orphans_readable(orphans@),
    ensures
        as_int_opt(r) == heap_box(buffers.min_addr, buffers.max_addr, local@, small@, pages@, global@, orphans@, addr, mask),
{
    if !buffers.is_in_range(addr) {
        return find_gc_box_in_orphans(global, orphans, addr, mask);
    }
    if addr < MIN_HEAP_ADDR {
        return None;
    }
    let pa = addr & mask;
    match local.lookup(pa) {
        Some(e) => {
            let (head, size, h_size) = e;
            proof {
                assert(local@.contains_key(pa));
            }
            match find_page(pages, head) {
                None => None,
                Some(i) => {
                    proof {
                        assert(readable_page(pages@[i as int]));
                    }
                    if head as u128 + h_size as u128 > addr as u128 {
                        return None;
                    }
                    resolve_in(&pages[i].page.header, head, h_size, size, addr)
                },
            }
        },
        None => {
            if !small.contains(&pa) {
                return find_gc_box_in_orphans(global, orphans, addr, mask);
            }
            if pa % 4096 != 0 || pa < 4096 {
                return None;
            }
            match find_page(pages, pa) {
                None => None,
                Some(i) => {
                    proof {
                        assert(readable_page(pages@[i as int]));
                    }
                    let h = &pages[i].page.header;
                    if h.magic != MAGIC_GC_PAGE {
                        return None;
                    }
                    let bs = h.block_size as usize;
                    let hs = PageHeader::header_size(bs);
                    if pa as u128 + hs as u128 > addr as u128 {
                        return None;
                    }
                    resolve_in(h, pa, hs, bs, addr)
                },
            }
        },
    }
}

/// The object that a possible pointer points into, or `None`: the core of
/// conservative stack scanning. Gives the answer of `find_gc_box_in` for
/// the machine's page mask.
pub fn find_gc_box_from_ptr(
    buffers: &HeapBuffers,
    local: &LargeObjectMap,
    small: &HashSet<usize>,
    pages: &Vec<PageAt>,
    global: &LargeObjectMap,
    orphans: &Vec<OrphanEntry>,
    addr: usize,
) -> (r: Option<usize>)
    requires
        lookup_ready(local@, small@, pages@),
        orphans_readable(orphans@),
    ensures
        exists|ps: usize| as_int_opt(r) == heap_box(
            buffers.min_addr,
            buffers.max_addr,
            local@,
            small@,
            pages@,
            global@,
            orphans@,
            addr,
            #[trigger] spec_page_mask(ps),
        ),
{
    let ps = crate::page::page_size();
    let mask = crate::page::page_mask_for(ps);
    find_gc_box_in(buffers, local, small, pages, global, orphans, addr, mask)
}

/// The thread that allocated the object at `gc_box_addr`, read from the
/// header of its page: 0 when the address lies outside the heap range
/// `[heap_start, heap_end]`.
pub fn get_allocating_thread_id(gc_box_addr: usize, heap_start: usize, heap_end: usize, header: &PageHeader) -> (r: u64)
    ensures
        r == (if gc_box_addr < heap_start || gc_box_addr > heap_end { 0 } else { header.owner_thread }),
{
    if gc_box_addr < heap_start || gc_box_addr > heap_end {
        return 0;
    }
    header.owner_thread
}

/// Whether the page a pointer falls in is a GC page: its header carries
/// the GC magic number.
pub fn is_gc_pointer(header: &PageHeader) -> (r: bool)
    ensures
        r == (header.magic == MAGIC_GC_PAGE),
{
    header.magic == MAGIC_GC_PAGE
}

/// Object index of `addr` in the GC page at `page_addr` with header
/// `header`: the offset past the header (as laid out for the page's block
/// size) over the block size; `None` for a page without the GC magic, an
/// address in the header, or an index past the last object.
pub fn ptr_to_object_index(header: &PageHeader, page_addr: usize, addr: usize) -> (r: Option<usize>)
    requires
        header.magic == MAGIC_GC_PAGE ==> header.block_size > 0,
        page_addr + 2048 <= usize::MAX,
    ensures
        header.magic != MAGIC_GC_PAGE ==> r is None,
        header.magic == MAGIC_GC_PAGE ==> as_int_opt(r) == crate::page::spec_object_index(
            page_addr as int,
            spec_header_size(header.block_size as int),
            header.block_size as int,
            header.obj_count as int,
            addr as int,
        ),
{
    if header.magic != MAGIC_GC_PAGE {
        return None;
    }
    let bs = header.block_size as usize;
    let hs = PageHeader::header_size(bs);
    proof {
        crate::page::lemma_header_size_bound(bs as int);
    }
    crate::page::object_index_in_page(page_addr, hs, bs, header.obj_count as usize, addr)
}

/// Lists the page of a pointer as dirty when it is one of the heap's small
/// pages (containers call this when they are traced, so that the page is
/// scanned). A null pointer, or a pointer elsewhere, changes nothing.
pub fn mark_page_dirty_for_ptr(
    buffers: &mut HeapBuffers,
    small: &HashSet<usize>,
    pages: &mut Vec<PageAt>,
    ptr: usize,
    mask: usize,
)
    requires
        forall|k: usize| #[trigger] small@.contains(k) ==> page_index(old(pages)@, k, 0) is Some,
    ensures
        final(pages).len() == old(pages).len(),
        final(buffers).dirty_pages_snapshot@ == old(buffers).dirty_pages_snapshot@,
        final(buffers).remembered_buffer@ == old(buffers).remembered_buffer@,
        ptr == 0 || !small@.contains(ptr & mask) ==> {
            &&& final(buffers).dirty_pages@ == old(buffers).dirty_pages@
            &&& final(pages)@ == old(pages)@
        },
        ptr != 0 && small@.contains(ptr & mask) ==> {
            let i = page_index(old(pages)@, ptr & mask, 0).unwrap();
            let h = old(pages)@[i].page.header;
            &&& forall|q: int| 0 <= q < old(pages).len() && q != i ==> #[trigger] final(pages)@[q] == old(pages)@[q]
            &&& final(pages)@[i].addr == old(pages)@[i].addr
            &&& final(pages)@[i].page.slots == old(pages)@[i].page.slots
            &&& if crate::page::flag_set(h.flags, crate::page::PAGE_FLAG_DIRTY_LISTED) {
                &&& final(buffers).dirty_pages@ == old(buffers).dirty_pages@
                &&& final(pages)@[i].page.header == h
            } else {
                &&& final(buffers).dirty_pages@ == old(buffers).dirty_pages@.push(ptr & mask)
                &&& final(pages)@[i].page.header.flags == h.flags | crate::page::PAGE_FLAG_DIRTY_LISTED
                &&& crate::page::same_page(final(pages)@[i].page.header, PageHeader { flags: final(pages)@[i].page.header.flags, ..h })
            }
        },
{
    if ptr == 0 {
        return;
    }
    let page_addr = ptr & mask;
    if !small.contains(&page_addr) {
        return;
    }
    match find_page(pages, page_addr) {
        None => {},
        Some(i) => {
            let mut pa = pages.remove(i);
            buffers.add_to_dirty_pages(&mut pa.page.header, page_addr);
            pages.insert(i, pa);
        },
    }
}

/// Any address inside an allocated object of a small page (or inside the
/// object of a large page) resolves to the object's start.
pub proof fn law_interior_pointer(h: PageHeader, base: int, hs: int, bs: int, idx: int, o: int)
    requires
        bs > 0,
        0 <= o < bs,
        0 <= idx < h.obj_count,
        flag_set(h.flags, PAGE_FLAG_LARGE) ==> idx == 0,
        !flag_set(h.flags, PAGE_FLAG_LARGE) ==> h.allocated().contains(idx),
    ensures
        resolve_box(h, base, hs, bs, base + hs + idx * bs + o) == Some(base + hs + idx * bs),
{
    assert((idx * bs + o) / bs == idx) by (nonlinear_arith)
        requires
            bs > 0,
            0 <= o < bs,
            idx >= 0,
    ;
    assert(idx * bs >= 0) by (nonlinear_arith)
        requires
            bs > 0,
            idx >= 0,
    ;
}


/// What freeing an object from its heap did.
#[derive(Clone, Copy, Debug, PartialEq, Eq, Structural)]
pub enum Dealloc {
    /// A large object: every page of its span left both span maps. The
    /// caller drops the value (unless it is already dead) and unmaps the
    /// `bytes` the span took.
    Large { header_addr: usize, bytes: usize },
    /// A small object: its slot went back to its page's free list;
    /// `must_drop` tells whether its value still has to be dropped.
    Small { must_drop: bool },
    /// The address lies in no page of this heap: nothing changed.
    Untouched,
}

/// What freeing the object at `addr` leaves: `pages`, `local` and `global`
/// before (`p0`, `l0`, `g0`) and after (`p1`, `l1`, `g1`), `small` the
/// small-page addresses and `r` the outcome. When the page at `addr` belongs
/// to a large object, every page of its span leaves both maps; when it is a
/// small page, the object's slot goes back to that page's free list;
/// otherwise nothing changes.
pub open spec fn freed_at(
    p0: Seq<PageAt>,
    p1: Seq<PageAt>,
    small: Set<usize>,
    l0: Map<usize, (usize, usize, usize)>,
    l1: Map<usize, (usize, usize, usize)>,
    g0: Map<usize, (usize, usize, usize)>,
    g1: Map<usize, (usize, usize, usize)>,
    addr: usize,
    page_size: usize,
    r: Dealloc,
) -> bool {
    let pa = addr & spec_page_mask(page_size);
    if l0.contains_key(pa) {
        let e = l0[pa];
        let n = pages_for(e.2 + e.1, page_size as int);
        &&& r == (Dealloc::Large { header_addr: e.0, bytes: (n * page_size) as usize })
        &&& l1 == l0.remove_keys(span_keys(e.0, n, page_size))
        &&& g1 == g0.remove_keys(span_keys(e.0, n, page_size))
        &&& p1 == p0
    } else if small.contains(pa) {
        let i = page_index(p0, pa, 0).unwrap();
        &&& r matches Dealloc::Small { must_drop }
        &&& Page::deallocated(p0[i].page, p1[i].page, pa as int, addr as int, must_drop)
        &&& p1[i].addr == pa
        &&& p1.len() == p0.len()
        &&& forall|q: int| 0 <= q < p0.len() && q != i ==> #[trigger] p1[q] == p0[q]
        &&& l1 == l0
        &&& g1 == g0
    } else {
        &&& r == Dealloc::Untouched
        &&& p1 == p0
        &&& l1 == l0
        &&& g1 == g0
    }
}

/// Frees the object at `addr`, which the heap handed out and whose value
/// was never published. When the page at `addr` belongs to a large object
/// the whole span is given back; when it is one of the heap's small pages
/// the object's slot returns to that page's free list; otherwise nothing
/// happens.
pub fn free_object_at(
    pages: &mut Vec<PageAt>,
    small: &HashSet<usize>,
    local: &mut LargeObjectMap,
    global: &mut LargeObjectMap,
    addr: usize,
    page_size: usize,
) -> (r: Dealloc)
    requires
        page_size > 0,
        old(local).entries_fit(page_size),
        forall|k: usize| #[trigger] small@.contains(k) ==> page_index(old(pages)@, k, 0) is Some,
        forall|i: int| 0 <= i < old(pages).len() ==> (#[trigger] old(pages)@[i]).page.wf(),
        ({
            let pa = addr & spec_page_mask(page_size);
            small@.contains(pa) && !old(local)@.contains_key(pa) ==> {
                let p = old(pages)@[page_index(old(pages)@, pa, 0).unwrap()].page;
                &&& p.header.block_size > 0
                &&& pa + spec_header_size(p.header.block_size as int) <= addr
            }
        }),
    ensures
        freed_at(old(pages)@, final(pages)@, small@, old(local)@, final(local)@, old(global)@, final(global)@, addr, page_size, r),
        final(local).entries_fit(page_size),
        forall|i: int| 0 <= i < final(pages).len() ==> (#[trigger] final(pages)@[i]).page.wf(),
{
    let m: usize = page_size - 1;
    let pa = addr & !m;
    proof {
        assert(pa == addr & spec_page_mask(page_size));
    }
    if let Some((header_addr, bytes)) = release_large_span(local, global, pa, page_size) {
        return Dealloc::Large { header_addr, bytes };
    }
    if !small.contains(&pa) {
        return Dealloc::Untouched;
    }
    let i = match find_page(pages, pa) {
        Some(i) => i,
        None => {
            return Dealloc::Untouched;
        },
    };
    let mut at = pages.remove(i);
    let must_drop = at.page.dealloc_object(pa, addr);
    pages.insert(i, at);
    Dealloc::Small { must_drop }
}

} // verus!
