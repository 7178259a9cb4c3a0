//! Write barriers. The generational barrier marks the object that holds a
//! mutated field dirty when it lives in an old page, so the next minor
//! collection treats it as a root; the incremental barrier records the
//! page of the mutated field in the remembered buffer while incremental
//! marking is on. The caller resolves the page header of the field's
//! address (for a large object, the header of its first page).

use vstd::prelude::*;
use crate::page::{PageHeader, same_page, MAGIC_GC_PAGE, PAGE_SLOTS};
use crate::local_heap::HeapBuffers;
use crate::large::LargeObjectMap;

verus! {

/// Index of the object holding address `ptr` in a page at `page_addr`,
/// or `None` when `ptr` lies in the header or past the last object.
pub open spec fn field_object(header: PageHeader, page_addr: usize, ptr: usize) -> Option<int> {
    if ptr < page_addr + header.header_size {
        None
    } else if (ptr - (page_addr + header.header_size)) / (header.block_size as int) >= header.obj_count {
        None
    } else {
        Some((ptr - (page_addr + header.header_size)) / (header.block_size as int))
    }
}

/// The generational barrier records a write at `ptr`: a non-null address
/// inside the heap, in a real page of the old generation, within an object.
pub open spec fn generational_hit(
    header: PageHeader,
    page_addr: usize,
    ptr: usize,
    heap_start: usize,
    heap_end: usize,
) -> bool {
    &&& ptr != 0
    &&& heap_start <= ptr <= heap_end
    &&& header.magic == MAGIC_GC_PAGE
    &&& header.generation > 0
    &&& field_object(header, page_addr, ptr) is Some
}

/// The header's fields allow computing an object index.
pub open spec fn header_addressable(header: PageHeader, page_addr: usize) -> bool {
    &&& header.wf()
    &&& header.block_size > 0
    &&& header.obj_count <= PAGE_SLOTS
    &&& page_addr + header.header_size <= usize::MAX
}

/// Generational write barrier for a write at `ptr` into the page with
/// `header` at `page_addr`: marks the holding object dirty and lists the
/// page as dirty when `generational_hit` holds; does nothing otherwise.
pub fn simple_write_barrier(
    ptr: usize,
    heap_start: usize,
    heap_end: usize,
    header: &mut PageHeader,
    page_addr: usize,
    heap: &mut HeapBuffers,
)
    requires
        header_addressable(*old(header), page_addr),
    ensures
        final(header).wf(),
        generational_hit(*old(header), page_addr, ptr, heap_start, heap_end) ==> {
            &&& final(header).dirty() == old(header).dirty().insert(field_object(*old(header), page_addr, ptr)->Some_0)
            &&& final(header).marked() == old(header).marked()
            &&& final(header).allocated() == old(header).allocated()
            &&& crate::page::flag_set(final(header).flags, crate::page::PAGE_FLAG_DIRTY_LISTED)
            &&& (crate::page::flag_set(old(header).flags, crate::page::PAGE_FLAG_DIRTY_LISTED) ==> final(heap).dirty_pages@
                == old(heap).dirty_pages@)
            &&& (!crate::page::flag_set(old(header).flags, crate::page::PAGE_FLAG_DIRTY_LISTED) ==> final(heap).dirty_pages@
                == old(heap).dirty_pages@.push(page_addr))
        },
        !generational_hit(*old(header), page_addr, ptr, heap_start, heap_end) ==> {
            &&& same_page(*final(header), *old(header))
            &&& final(heap).dirty_pages@ == old(heap).dirty_pages@
        },
        final(heap).remembered_buffer@ == old(heap).remembered_buffer@,
{
    if ptr == 0 {
        return;
    }
    if ptr < heap_start || ptr > heap_end {
        return;
    }
    if header.magic != MAGIC_GC_PAGE {
        return;
    }
    if header.generation == 0 {
        return;
    }
    let block_size = header.block_size as usize;
    let header_size = header.header_size as usize;
    if ptr < page_addr + header_size {
        return;
    }
    let offset = ptr - (page_addr + header_size);
    let index = offset / block_size;
    let obj_count = header.obj_count as usize;
    if index >= obj_count {
        return;
    }
    header.set_dirty(index);
    let ghost dirtied = *header;
    heap.add_to_dirty_pages(header, page_addr);
    proof {
        assert(header.dirty() == dirtied.dirty());
        assert(crate::page::flag_set(old(header).flags, crate::page::PAGE_FLAG_DIRTY_LISTED) ==> crate::page::flag_set(
            dirtied.flags,
            crate::page::PAGE_FLAG_DIRTY_LISTED,
        ));
        assert(crate::page::flag_set(header.flags, crate::page::PAGE_FLAG_DIRTY_LISTED)) by {
            crate::page::law_flags_independent(dirtied.flags, crate::page::PAGE_FLAG_DIRTY_LISTED, crate::page::PAGE_FLAG_LARGE);
        }
    }
}

/// The incremental barrier records the page of a write at `ptr`: a
/// non-null address inside the heap, in a real page of the old generation.
pub open spec fn incremental_hit(header: PageHeader, ptr: usize, heap_start: usize, heap_end: usize) -> bool {
    &&& ptr != 0
    &&& heap_start <= ptr <= heap_end
    &&& header.magic == MAGIC_GC_PAGE
    &&& header.generation > 0
}

/// Incremental write barrier for a write at `ptr` into the page with
/// `header` at `page_addr`: records the page in the remembered buffer when
/// `incremental_hit` holds (see `HeapBuffers::record_in_remembered_buffer`).
pub fn incremental_write_barrier(
    ptr: usize,
    heap_start: usize,
    heap_end: usize,
    header: &PageHeader,
    page_addr: usize,
    heap: &mut HeapBuffers,
) -> (recorded: bool)
    ensures
        recorded == incremental_hit(*header, ptr, heap_start, heap_end),
        !recorded ==> final(heap).remembered_buffer@ == old(heap).remembered_buffer@ && final(heap).dirty_pages@
            == old(heap).dirty_pages@,
        recorded && old(heap).remembered_buffer@.len() + 1 < old(heap).remembered_buffer_capacity
            ==> final(heap).remembered_buffer@ == old(heap).remembered_buffer@.push(page_addr)
            && final(heap).dirty_pages@ == old(heap).dirty_pages@,
        recorded && old(heap).remembered_buffer@.len() + 1 >= old(heap).remembered_buffer_capacity ==> {
            &&& final(heap).remembered_buffer@ == Seq::<usize>::empty()
            &&& forall|p: usize| #[trigger] final(heap).dirty_pages@.contains(p) <==> (old(heap).dirty_pages@.contains(p)
                || old(heap).remembered_buffer@.contains(p) || p == page_addr)
        },
        final(heap).remembered_buffer_capacity == old(heap).remembered_buffer_capacity,
{
    if ptr == 0 {
        return false;
    }
    if ptr < heap_start || ptr > heap_end {
        return false;
    }
    if header.magic != MAGIC_GC_PAGE {
        return false;
    }
    if header.generation == 0 {
        return false;
    }
    heap.record_in_remembered_buffer(page_addr);
    true
}

/// Whether `ptr` points into a page of the collected heap.
pub fn is_gc_heap_pointer(ptr: usize, heap_start: usize, heap_end: usize, header: &PageHeader) -> (r: bool)
    ensures
        r == (heap_start <= ptr <= heap_end && header.magic == MAGIC_GC_PAGE),
{
    if ptr < heap_start || ptr > heap_end {
        return false;
    }
    header.magic == MAGIC_GC_PAGE
}

/// The cell's incremental barrier: for a cell inside the heap, while
/// incremental marking is enabled and no fallback was requested, records an
/// old page in the remembered buffer. Returns whether it recorded.
pub fn cell_incremental_write_barrier(
    cell: usize,
    heap_start: usize,
    heap_end: usize,
    header: &PageHeader,
    page_addr: usize,
    incremental_enabled: bool,
    fallback_requested: bool,
    heap: &mut HeapBuffers,
) -> (recorded: bool)
    ensures
        recorded == (heap_start <= cell <= heap_end && header.magic == MAGIC_GC_PAGE && incremental_enabled
            && !fallback_requested && header.generation > 0),
        !recorded ==> final(heap).remembered_buffer@ == old(heap).remembered_buffer@ && final(heap).dirty_pages@
            == old(heap).dirty_pages@,
        recorded && old(heap).remembered_buffer@.len() + 1 < old(heap).remembered_buffer_capacity
            ==> final(heap).remembered_buffer@ == old(heap).remembered_buffer@.push(page_addr),
        final(heap).remembered_buffer_capacity == old(heap).remembered_buffer_capacity,
{
    if !is_gc_heap_pointer(cell, heap_start, heap_end, header) {
        return false;
    }
    if !incremental_enabled || fallback_requested {
        return false;
    }
    if header.magic != MAGIC_GC_PAGE {
        return false;
    }
    if header.generation > 0 {
        heap.record_in_remembered_buffer(page_addr);
        return true;
    }
    false
}

/// Whether a cell at `cell` may be used by thread `current`: cells outside
/// the heap and cells of pages with no owner are shared; others belong to
/// the owner thread alone.
pub fn thread_affinity_ok(cell: usize, heap_start: usize, heap_end: usize, owner: u64, current: u64) -> (r: bool)
    ensures
        r == (cell < heap_start || cell > heap_end || owner == 0 || owner == current),
{
    if cell < heap_start || cell > heap_end {
        return true;
    }
    owner == 0 || owner == current
}

/// The page whose header a write barrier for a write at `ptr` works on,
/// with `mask` as the page mask: the first page of the large object's span
/// when the written page belongs to one, the written page otherwise.
pub fn barrier_page(local: &LargeObjectMap, ptr: usize, mask: usize) -> (r: usize)
    ensures
        r == (if local@.contains_key(ptr & mask) { local@[ptr & mask].0 } else { ptr & mask }),
{
    let page_addr = ptr & mask;
    match local.lookup(page_addr) {
        Some(e) => e.0,
        None => page_addr,
    }
}

} // verus!
