//! Page header of the BiBOP heap: per-page metadata with one mark, dirty and
//! allocation bit per object slot, page flags, a lazy-sweep dead counter and
//! the head of the page's free list.

use vstd::prelude::*;
use crate::bitmap::{set_slots, word_bit, words_test, words_set, words_clear, words_clear_all, zero_words};
use crate::bits::{has_bit, lemma_covers};

verus! {

/// Magic number of a GC page ("RUDG" in ASCII).
pub const MAGIC_GC_PAGE: u32 = 0x5255_4447;
/// Flag: the page holds one large object.
pub const PAGE_FLAG_LARGE: u8 = 0x01;
/// Flag: the owner thread has terminated.
pub const PAGE_FLAG_ORPHAN: u8 = 0x02;
/// Flag: the page has dead objects waiting for a lazy sweep.
pub const PAGE_FLAG_NEEDS_SWEEP: u8 = 0x04;
/// Flag: every object of the page is dead.
pub const PAGE_FLAG_ALL_DEAD: u8 = 0x08;
/// Flag: the page is in the dirty-page list.
pub const PAGE_FLAG_DIRTY_LISTED: u8 = 0x10;
/// Number of 64-bit words in each page bitmap.
pub const BITMAP_SIZE: usize = 64;
/// Number of object slots a page bitmap can describe.
pub const PAGE_SLOTS: usize = 4096;
/// Raw free-list head value meaning "no free slot".
pub const FREE_LIST_NONE: u16 = 0xffff;
/// Objects larger than this live in the large object space.
pub const MAX_SMALL_OBJECT_SIZE: usize = 2048;
/// Size in bytes of the page header's in-memory layout.
pub const PAGE_HEADER_BYTES: usize = 1576;

/// Whether flag `f` is set in `flags`.
pub open spec fn flag_set(flags: u8, f: u8) -> bool {
    flags & f != 0u8
}

/// The raw free-list head that stands for an optional slot index.
pub open spec fn encode_head(o: Option<u16>) -> u16 {
    match o {
        Some(v) => v,
        None => FREE_LIST_NONE,
    }
}

/// The optional slot index that a raw free-list head stands for.
pub open spec fn decode_head(v: u16) -> Option<u16> {
    if v == FREE_LIST_NONE {
        None
    } else {
        Some(v)
    }
}

/// `n` rounded up to a multiple of `m`.
pub open spec fn round_up(n: int, m: int) -> int {
    ((n + m - 1) / m) * m
}

/// The small power-of-two size classes a block size can take.
pub open spec fn is_small_pow2(n: int) -> bool {
    n == 1 || n == 2 || n == 4 || n == 8 || n == 16 || n == 32 || n == 64 || n == 128 || n == 256
        || n == 512 || n == 1024 || n == 2048
}

/// Offset of the first object of a page with the given block size: the
/// header layout rounded up to the block size for power-of-two size classes,
/// to 16 bytes otherwise.
pub open spec fn spec_header_size(block_size: int) -> int {
    if is_small_pow2(block_size) {
        round_up(PAGE_HEADER_BYTES as int, block_size)
    } else {
        round_up(PAGE_HEADER_BYTES as int, 16)
    }
}

/// The header never takes more than 2048 bytes.
pub proof fn lemma_header_size_bound(b: int)
    ensures
        PAGE_HEADER_BYTES <= spec_header_size(b) <= 2048,
{
    if is_small_pow2(b) {
        if b == 1 {} else if b == 2 {} else if b == 4 {} else if b == 8 {} else if b == 16 {} else if b == 32 {}
        else if b == 64 {} else if b == 128 {} else if b == 256 {} else if b == 512 {} else if b == 1024 {} else {}
    }
}

/// Objects of `block_size` bytes that fit in a page of `page_size` bytes
/// after the header.
pub open spec fn spec_max_objects(page_size: int, block_size: int) -> int {
    if page_size < spec_header_size(block_size) {
        0
    } else {
        (page_size - spec_header_size(block_size)) / block_size
    }
}

/// Whether `n` is a power of two no larger than 2048.
pub fn small_power_of_two(n: usize) -> (r: bool)
    ensures
        r == is_small_pow2(n as int),
{
    n == 1 || n == 2 || n == 4 || n == 8 || n == 16 || n == 32 || n == 64 || n == 128 || n == 256
        || n == 512 || n == 1024 || n == 2048
}

/// Size of a memory page, as the operating system reports it.
#[verifier::external_body]
pub fn page_size() -> (r: usize) {
    sys_alloc::allocation_granularity()
}

/// The mask that keeps the page address of a pointer for page size `ps`.
pub open spec fn spec_page_mask(ps: usize) -> usize {
    !(if ps == 0 { usize::MAX } else { (ps - 1) as usize })
}

/// The mask that keeps the page address of a pointer for page size `ps`:
/// every bit above the in-page offset.
pub fn page_mask_for(ps: usize) -> (r: usize)
    ensures
        r == spec_page_mask(ps),
{
    let m: usize = if ps == 0 { usize::MAX } else { ps - 1 };
    !m
}

/// Mask that keeps the page address of a pointer, for this machine's page
/// size: `page_mask_for` of what `page_size` reports. The page size depends
/// on the machine, so the result is stated for some page size.
pub fn page_mask() -> (r: usize)
    ensures
        exists|ps: usize| r == spec_page_mask(ps),
{
    let ps: usize = page_size();
    let r: usize = page_mask_for(ps);
    proof {
        assert(r == spec_page_mask(ps));
    }
    r
}

/// Object index of address `addr` in a page at `page_addr` whose objects of
/// `block_size` bytes start `header_size` bytes in.
pub open spec fn spec_object_index(
    page_addr: int,
    header_size: int,
    block_size: int,
    obj_count: int,
    addr: int,
) -> Option<int> {
    if addr < page_addr + header_size {
        None
    } else if (addr - (page_addr + header_size)) / block_size >= obj_count {
        None
    } else {
        Some((addr - (page_addr + header_size)) / block_size)
    }
}

/// Object index of an address inside a page, or `None` when it points into
/// the header or past the last object.
pub fn object_index_in_page(
    page_addr: usize,
    header_size: usize,
    block_size: usize,
    obj_count: usize,
    addr: usize,
) -> (r: Option<usize>)
    requires
        block_size > 0,
        page_addr + header_size <= usize::MAX,
    ensures
        match r {
            Some(i) => spec_object_index(
                page_addr as int,
                header_size as int,
                block_size as int,
                obj_count as int,
                addr as int,
            ) == Some(i as int),
            None => spec_object_index(
                page_addr as int,
                header_size as int,
                block_size as int,
                obj_count as int,
                addr as int,
            ) is None,
        },
        r matches Some(i) ==> i < obj_count,
{
    if addr < page_addr + header_size {
        return None;
    }
    let offset = addr - (page_addr + header_size);
    let index = offset / block_size;
    if index >= obj_count {
        return None;
    }
    Some(index)
}

/// Metadata at the start of each page.
pub struct PageHeader {
    /// Magic number identifying a GC page.
    pub magic: u32,
    /// Size of each object slot in bytes.
    pub block_size: u32,
    /// Number of object slots in the page.
    pub obj_count: u16,
    /// Offset from the page start to the first object.
    pub header_size: u16,
    /// Generation: 0 is young, 1 is old.
    pub generation: u8,
    /// Page flags.
    pub flags: u8,
    /// Stable id of the thread that allocated the page.
    pub owner_thread: u64,
    /// Number of dead objects waiting for a lazy sweep.
    pub dead_count: u16,
    /// Raw index of the first free slot, `FREE_LIST_NONE` when there is none.
    pub free_list_head: u16,
    /// Mark bits, one per slot.
    pub mark_bitmap: Vec<u64>,
    /// Dirty bits, one per slot.
    pub dirty_bitmap: Vec<u64>,
    /// Allocation bits, one per slot.
    pub allocated_bitmap: Vec<u64>,
}

/// The scalar fields of two headers agree.
pub open spec fn same_scalars(a: PageHeader, b: PageHeader) -> bool {
    &&& a.magic == b.magic
    &&& a.block_size == b.block_size
    &&& a.obj_count == b.obj_count
    &&& a.header_size == b.header_size
    &&& a.generation == b.generation
    &&& a.flags == b.flags
    &&& a.owner_thread == b.owner_thread
    &&& a.dead_count == b.dead_count
    &&& a.free_list_head == b.free_list_head
}

/// Two headers agree on everything.
pub open spec fn same_page(a: PageHeader, b: PageHeader) -> bool {
    &&& same_scalars(a, b)
    &&& a.mark_bitmap@ == b.mark_bitmap@
    &&& a.dirty_bitmap@ == b.dirty_bitmap@
    &&& a.allocated_bitmap@ == b.allocated_bitmap@
}

impl PageHeader {
    /// The three bitmaps each hold `BITMAP_SIZE` words.
    pub open spec fn wf(&self) -> bool {
        &&& self.mark_bitmap.len() == BITMAP_SIZE
        &&& self.dirty_bitmap.len() == BITMAP_SIZE
        &&& self.allocated_bitmap.len() == BITMAP_SIZE
    }

    /// Slots whose mark bit is set.
    pub open spec fn marked(&self) -> Set<int> {
        set_slots(self.mark_bitmap@, PAGE_SLOTS as int)
    }

    /// Slots whose dirty bit is set.
    pub open spec fn dirty(&self) -> Set<int> {
        set_slots(self.dirty_bitmap@, PAGE_SLOTS as int)
    }

    /// Slots whose allocation bit is set.
    pub open spec fn allocated(&self) -> Set<int> {
        set_slots(self.allocated_bitmap@, PAGE_SLOTS as int)
    }

    /// A fresh header: no bit set, empty free list, young generation.
    pub fn new(block_size: u32, obj_count: u16, header_size: u16, flags: u8, owner_thread: u64) -> (h: Self)
        ensures
            h.wf(),
            h.magic == MAGIC_GC_PAGE,
            h.block_size == block_size,
            h.obj_count == obj_count,
            h.header_size == header_size,
            h.generation == 0,
            h.flags == flags,
            h.owner_thread == owner_thread,
            h.dead_count == 0,
            h.free_list_head == FREE_LIST_NONE,
            h.marked() == Set::<int>::empty(),
            h.dirty() == Set::<int>::empty(),
            h.allocated() == Set::<int>::empty(),
    {
        let h = PageHeader {
            magic: MAGIC_GC_PAGE,
            block_size,
            obj_count,
            header_size,
            generation: 0,
            flags,
            owner_thread,
            dead_count: 0,
            free_list_head: FREE_LIST_NONE,
            mark_bitmap: zero_words(BITMAP_SIZE),
            dirty_bitmap: zero_words(BITMAP_SIZE),
            allocated_bitmap: zero_words(BITMAP_SIZE),
        };
        proof {
            assert(h.marked() =~= Set::<int>::empty());
            assert(h.dirty() =~= Set::<int>::empty());
            assert(h.allocated() =~= Set::<int>::empty());
        }
        h
    }

    /// Offset of the first object for a block size, rounded up to the block
    /// alignment for small size classes and to 16 bytes otherwise.
    pub fn header_size(block_size: usize) -> (r: usize)
        ensures
            r == spec_header_size(block_size as int),
    {
        if block_size > 0 && small_power_of_two(block_size) && block_size <= MAX_SMALL_OBJECT_SIZE {
            ((PAGE_HEADER_BYTES + block_size - 1) / block_size) * block_size
        } else {
            ((PAGE_HEADER_BYTES + 15) / 16) * 16
        }
    }

    /// Objects of `block_size` bytes that fit in a page of `page_size` bytes.
    pub fn max_objects_in(page_size: usize, block_size: usize) -> (r: usize)
        requires
            block_size > 0,
        ensures
            r == spec_max_objects(page_size as int, block_size as int),
    {
        let h = Self::header_size(block_size);
        if page_size < h {
            0
        } else {
            (page_size - h) / block_size
        }
    }

    /// Objects of `block_size` bytes that fit in a page of the system page size.
    pub fn max_objects(block_size: usize) -> (r: usize)
        requires
            block_size > 0,
        ensures
            exists|ps: usize| r == spec_max_objects(ps as int, block_size as int),
    {
        let ps: usize = page_size();
        Self::max_objects_in(ps, block_size)
    }

    /// Whether the object at `index` is marked.
    pub fn is_marked(&self, index: usize) -> (r: bool)
        requires
            self.wf(),
            index < PAGE_SLOTS,
        ensures
            r == self.marked().contains(index as int),
    {
        words_test(&self.mark_bitmap, index)
    }

    /// Sets the mark bit; returns whether it was newly set.
    pub fn set_mark(&mut self, index: usize) -> (newly: bool)
        requires
            old(self).wf(),
            index < PAGE_SLOTS,
        ensures
            final(self).wf(),
            newly == !old(self).marked().contains(index as int),
            final(self).marked() == old(self).marked().insert(index as int),
            final(self).dirty() == old(self).dirty(),
            final(self).allocated() == old(self).allocated(),
            same_scalars(*final(self), *old(self)),
    {
        let r = words_set(&mut self.mark_bitmap, index);
        proof {
            assert(self.marked() =~= old(self).marked().insert(index as int));
        }
        r
    }

    /// Marks the object; `Ok(true)` when this call marked it, `Ok(false)` when
    /// it was already marked.
    pub fn try_mark(&mut self, index: usize) -> (r: Result<bool, ()>)
        requires
            old(self).wf(),
            index < PAGE_SLOTS,
        ensures
            final(self).wf(),
            r == Ok::<bool, ()>(!old(self).marked().contains(index as int)),
            final(self).marked() == old(self).marked().insert(index as int),
            final(self).dirty() == old(self).dirty(),
            final(self).allocated() == old(self).allocated(),
            same_scalars(*final(self), *old(self)),
    {
        if self.is_marked(index) {
            proof {
                assert(old(self).marked().insert(index as int) =~= old(self).marked());
            }
            return Ok(false);
        }
        let newly = self.set_mark(index);
        Ok(newly)
    }

    /// Whether every allocated object is marked.
    pub fn is_fully_marked(&self) -> (r: bool)
        requires
            self.wf(),
        ensures
            r == self.allocated().subset_of(self.marked()),
    {
        let mut w: usize = 0;
        while w < BITMAP_SIZE
            invariant
                self.wf(),
                w <= BITMAP_SIZE,
                forall|i: int| 0 <= i < w * 64 && #[trigger] self.allocated().contains(i) ==> self.marked().contains(i),
            decreases BITMAP_SIZE - w,
        {
            let m = self.mark_bitmap[w];
            let a = self.allocated_bitmap[w];
            proof {
                lemma_covers(a, m);
            }
            if (m & a) != a {
                proof {
                    let j = choose|j: u64| j < 64 && #[trigger] has_bit(a, j) && !has_bit(m, j);
                    let i = w * 64 + j;
                    assert(i / 64 == w as int && i % 64 == j as int);
                    assert(self.allocated().contains(i));
                    assert(!self.marked().contains(i));
                }
                return false;
            }
            proof {
                assert forall|i: int| 0 <= i < (w + 1) * 64 && #[trigger] self.allocated().contains(i) implies self.marked().contains(i) by {
                    if i >= w * 64 {
                        assert(i / 64 == w as int);
                        assert(has_bit(a, (i % 64) as u64));
                    }
                }
            }
            w = w + 1;
        }
        true
    }

    /// Clears the mark bit of one object.
    pub fn clear_mark(&mut self, index: usize)
        requires
            old(self).wf(),
            index < PAGE_SLOTS,
        ensures
            final(self).wf(),
            final(self).marked() == old(self).marked().remove(index as int),
            final(self).dirty() == old(self).dirty(),
            final(self).allocated() == old(self).allocated(),
            same_scalars(*final(self), *old(self)),
    {
        words_clear(&mut self.mark_bitmap, index);
        proof {
            assert(self.marked() =~= old(self).marked().remove(index as int));
        }
    }

    /// Clears every mark bit.
    pub fn clear_all_marks(&mut self)
        requires
            old(self).wf(),
        ensures
            final(self).wf(),
            final(self).marked() == Set::<int>::empty(),
            final(self).dirty() == old(self).dirty(),
            final(self).allocated() == old(self).allocated(),
            same_scalars(*final(self), *old(self)),
    {
        words_clear_all(&mut self.mark_bitmap);
        proof {
            assert(self.marked() =~= Set::<int>::empty());
        }
    }

    /// Whether the object at `index` is dirty.
    pub fn is_dirty(&self, index: usize) -> (r: bool)
        requires
            self.wf(),
            index < PAGE_SLOTS,
        ensures
            r == self.dirty().contains(index as int),
    {
        words_test(&self.dirty_bitmap, index)
    }

    /// Sets the dirty bit of one object.
    pub fn set_dirty(&mut self, index: usize)
        requires
            old(self).wf(),
            index < PAGE_SLOTS,
        ensures
            final(self).wf(),
            final(self).dirty() == old(self).dirty().insert(index as int),
            final(self).marked() == old(self).marked(),
            final(self).allocated() == old(self).allocated(),
            same_scalars(*final(self), *old(self)),
    {
        let _ = words_set(&mut self.dirty_bitmap, index);
        proof {
            assert(self.dirty() =~= old(self).dirty().insert(index as int));
        }
    }

    /// Clears the dirty bit of one object.
    pub fn clear_dirty(&mut self, index: usize)
        requires
            old(self).wf(),
            index < PAGE_SLOTS,
        ensures
            final(self).wf(),
            final(self).dirty() == old(self).dirty().remove(index as int),
            final(self).marked() == old(self).marked(),
            final(self).allocated() == old(self).allocated(),
            same_scalars(*final(self), *old(self)),
    {
        words_clear(&mut self.dirty_bitmap, index);
        proof {
            assert(self.dirty() =~= old(self).dirty().remove(index as int));
        }
    }

    /// Clears every dirty bit.
    pub fn clear_all_dirty(&mut self)
        requires
            old(self).wf(),
        ensures
            final(self).wf(),
            final(self).dirty() == Set::<int>::empty(),
            final(self).marked() == old(self).marked(),
            final(self).allocated() == old(self).allocated(),
            same_scalars(*final(self), *old(self)),
    {
        words_clear_all(&mut self.dirty_bitmap);
        proof {
            assert(self.dirty() =~= Set::<int>::empty());
        }
    }

    /// Whether the object at `index` is allocated.
    pub fn is_allocated(&self, index: usize) -> (r: bool)
        requires
            self.wf(),
            index < PAGE_SLOTS,
        ensures
            r == self.allocated().contains(index as int),
    {
        words_test(&self.allocated_bitmap, index)
    }

    /// Sets the allocation bit of one object.
    pub fn set_allocated(&mut self, index: usize)
        requires
            old(self).wf(),
            index < PAGE_SLOTS,
        ensures
            final(self).wf(),
            final(self).allocated() == old(self).allocated().insert(index as int),
            final(self).marked() == old(self).marked(),
            final(self).dirty() == old(self).dirty(),
            same_scalars(*final(self), *old(self)),
    {
        let _ = words_set(&mut self.allocated_bitmap, index);
        proof {
            assert(self.allocated() =~= old(self).allocated().insert(index as int));
        }
    }

    /// Clears the allocation bit of one object.
    pub fn clear_allocated(&mut self, index: usize)
        requires
            old(self).wf(),
            index < PAGE_SLOTS,
        ensures
            final(self).wf(),
            final(self).allocated() == old(self).allocated().remove(index as int),
            final(self).marked() == old(self).marked(),
            final(self).dirty() == old(self).dirty(),
            same_scalars(*final(self), *old(self)),
    {
        words_clear(&mut self.allocated_bitmap, index);
        proof {
            assert(self.allocated() =~= old(self).allocated().remove(index as int));
        }
    }

    /// Clears every allocation bit.
    pub fn clear_all_allocated(&mut self)
        requires
            old(self).wf(),
        ensures
            final(self).wf(),
            final(self).allocated() == Set::<int>::empty(),
            final(self).marked() == old(self).marked(),
            final(self).dirty() == old(self).dirty(),
            same_scalars(*final(self), *old(self)),
    {
        words_clear_all(&mut self.allocated_bitmap);
        proof {
            assert(self.allocated() =~= Set::<int>::empty());
        }
    }
}


impl PageHeader {
    /// Whether the page is in the dirty-page list.
    pub fn is_dirty_listed(&self) -> (r: bool)
        ensures
            r == flag_set(self.flags, PAGE_FLAG_DIRTY_LISTED),
    {
        (self.flags & PAGE_FLAG_DIRTY_LISTED) != 0
    }

    /// Records that the page is in the dirty-page list.
    pub fn set_dirty_listed(&mut self)
        ensures
            final(self).flags == old(self).flags | PAGE_FLAG_DIRTY_LISTED,
            same_page(*final(self), PageHeader { flags: final(self).flags, ..*old(self) }),
    {
        self.flags = self.flags | PAGE_FLAG_DIRTY_LISTED;
    }

    /// Records that it no longer holds that the page is in the dirty-page list.
    pub fn clear_dirty_listed(&mut self)
        ensures
            final(self).flags == old(self).flags & !PAGE_FLAG_DIRTY_LISTED,
            same_page(*final(self), PageHeader { flags: final(self).flags, ..*old(self) }),
    {
        self.flags = self.flags & !PAGE_FLAG_DIRTY_LISTED;
    }

    /// Whether the page waits for a lazy sweep.
    pub fn needs_sweep(&self) -> (r: bool)
        ensures
            r == flag_set(self.flags, PAGE_FLAG_NEEDS_SWEEP),
    {
        (self.flags & PAGE_FLAG_NEEDS_SWEEP) != 0
    }

    /// Records that the page waits for a lazy sweep.
    pub fn set_needs_sweep(&mut self)
        ensures
            final(self).flags == old(self).flags | PAGE_FLAG_NEEDS_SWEEP,
            same_page(*final(self), PageHeader { flags: final(self).flags, ..*old(self) }),
    {
        self.flags = self.flags | PAGE_FLAG_NEEDS_SWEEP;
    }

    /// Records that it no longer holds that the page waits for a lazy sweep.
    pub fn clear_needs_sweep(&mut self)
        ensures
            final(self).flags == old(self).flags & !PAGE_FLAG_NEEDS_SWEEP,
            same_page(*final(self), PageHeader { flags: final(self).flags, ..*old(self) }),
    {
        self.flags = self.flags & !PAGE_FLAG_NEEDS_SWEEP;
    }

    /// Whether every object of the page is dead.
    pub fn all_dead(&self) -> (r: bool)
        ensures
            r == flag_set(self.flags, PAGE_FLAG_ALL_DEAD),
    {
        (self.flags & PAGE_FLAG_ALL_DEAD) != 0
    }

    /// Records that every object of the page is dead.
    pub fn set_all_dead(&mut self)
        ensures
            final(self).flags == old(self).flags | PAGE_FLAG_ALL_DEAD,
            same_page(*final(self), PageHeader { flags: final(self).flags, ..*old(self) }),
    {
        self.flags = self.flags | PAGE_FLAG_ALL_DEAD;
    }

    /// Records that it no longer holds that every object of the page is dead.
    pub fn clear_all_dead(&mut self)
        ensures
            final(self).flags == old(self).flags & !PAGE_FLAG_ALL_DEAD,
            same_page(*final(self), PageHeader { flags: final(self).flags, ..*old(self) }),
    {
        self.flags = self.flags & !PAGE_FLAG_ALL_DEAD;
    }

    /// The raw flags byte.
    pub fn flags(&self) -> (r: u8)
        ensures
            r == self.flags,
    {
        self.flags
    }

    /// Whether this page holds one large object.
    pub fn is_large_object(&self) -> (r: bool)
        ensures
            r == flag_set(self.flags, PAGE_FLAG_LARGE),
    {
        (self.flags & PAGE_FLAG_LARGE) != 0
    }

    /// Records that the page holds one large object.
    pub fn set_large_object(&mut self)
        ensures
            final(self).flags == old(self).flags | PAGE_FLAG_LARGE,
            same_page(*final(self), PageHeader { flags: final(self).flags, ..*old(self) }),
    {
        self.flags = self.flags | PAGE_FLAG_LARGE;
    }

    /// Whether the page's owner thread has terminated.
    pub fn is_orphan(&self) -> (r: bool)
        ensures
            r == flag_set(self.flags, PAGE_FLAG_ORPHAN),
    {
        (self.flags & PAGE_FLAG_ORPHAN) != 0
    }

    /// Records that the page's owner thread has terminated.
    pub fn set_orphan(&mut self)
        ensures
            final(self).flags == old(self).flags | PAGE_FLAG_ORPHAN,
            same_page(*final(self), PageHeader { flags: final(self).flags, ..*old(self) }),
    {
        self.flags = self.flags | PAGE_FLAG_ORPHAN;
    }

    /// Number of dead objects waiting for a lazy sweep.
    pub fn dead_count(&self) -> (r: u16)
        ensures
            r == self.dead_count,
    {
        self.dead_count
    }

    /// Sets the dead-object count.
    pub fn set_dead_count(&mut self, count: u16)
        ensures
            final(self).dead_count == count,
            same_page(*final(self), PageHeader { dead_count: count, ..*old(self) }),
    {
        self.dead_count = count;
    }

    /// Adds one to the dead-object count, wrapping at `u16::MAX` as an atomic
    /// add does.
    pub fn increment_dead_count(&mut self)
        ensures
            final(self).dead_count == (if old(self).dead_count == 0xffff { 0 } else { old(self).dead_count + 1 }),
            same_page(*final(self), PageHeader { dead_count: final(self).dead_count, ..*old(self) }),
    {
        self.dead_count = self.dead_count.wrapping_add(1);
    }

    /// The raw free-list head, `FREE_LIST_NONE` when the list is empty.
    pub fn free_list_head_raw(&self) -> (r: u16)
        ensures
            r == self.free_list_head,
    {
        self.free_list_head
    }

    /// The first free slot, `None` when the free list is empty.
    pub fn free_list_head(&self) -> (r: Option<u16>)
        ensures
            r == decode_head(self.free_list_head),
    {
        let val = self.free_list_head_raw();
        if val == FREE_LIST_NONE {
            None
        } else {
            Some(val)
        }
    }

    /// Replaces the free-list head with `new` if it is `current`: `Ok` with
    /// the previous head on success, `Err` with the actual head otherwise.
    pub fn compare_exchange_free_list(&mut self, current: Option<u16>, new: Option<u16>) -> (r: Result<
        Option<u16>,
        Option<u16>,
    >)
        ensures
            old(self).free_list_head == encode_head(current) ==> {
                &&& r == Ok::<Option<u16>, Option<u16>>(decode_head(old(self).free_list_head))
                &&& final(self).free_list_head == encode_head(new)
            },
            old(self).free_list_head != encode_head(current) ==> {
                &&& r == Err::<Option<u16>, Option<u16>>(decode_head(old(self).free_list_head))
                &&& final(self).free_list_head == old(self).free_list_head
            },
            same_page(*final(self), PageHeader { free_list_head: final(self).free_list_head, ..*old(self) }),
    {
        let current_val = match current {
            Some(v) => v,
            None => FREE_LIST_NONE,
        };
        let new_val = match new {
            Some(v) => v,
            None => FREE_LIST_NONE,
        };
        let actual = self.free_list_head;
        if actual == current_val {
            self.free_list_head = new_val;
            Ok(if actual == FREE_LIST_NONE { None } else { Some(actual) })
        } else {
            Err(if actual == FREE_LIST_NONE { None } else { Some(actual) })
        }
    }

    /// Sets the free-list head.
    pub fn set_free_list_head(&mut self, head: Option<u16>)
        ensures
            final(self).free_list_head == encode_head(head),
            same_page(*final(self), PageHeader { free_list_head: encode_head(head), ..*old(self) }),
    {
        let val = match head {
            Some(v) => v,
            None => FREE_LIST_NONE,
        };
        self.free_list_head = val;
    }
}

/// Setting a page flag makes it read back as set and leaves every other flag
/// as it was; clearing it makes it read back as clear, again leaving the
/// others alone.
pub proof fn law_flags_independent(flags: u8, f: u8, g: u8)
    requires
        f == PAGE_FLAG_LARGE || f == PAGE_FLAG_ORPHAN || f == PAGE_FLAG_NEEDS_SWEEP || f == PAGE_FLAG_ALL_DEAD
            || f == PAGE_FLAG_DIRTY_LISTED,
        g == PAGE_FLAG_LARGE || g == PAGE_FLAG_ORPHAN || g == PAGE_FLAG_NEEDS_SWEEP || g == PAGE_FLAG_ALL_DEAD
            || g == PAGE_FLAG_DIRTY_LISTED,
        f != g,
    ensures
        flag_set(flags | f, f),
        !flag_set(flags & !f, f),
        flag_set(flags | f, g) == flag_set(flags, g),
        flag_set(flags & !f, g) == flag_set(flags, g),
{
    assert(flag_set(flags | f, f)) by (bit_vector)
        requires
            f == 1u8 || f == 2u8 || f == 4u8 || f == 8u8 || f == 16u8,
    ;
    assert(!flag_set(flags & !f, f)) by (bit_vector);
    assert(flag_set(flags | f, g) == flag_set(flags, g)) by (bit_vector)
        requires
            f == 1u8 || f == 2u8 || f == 4u8 || f == 8u8 || f == 16u8,
            g == 1u8 || g == 2u8 || g == 4u8 || g == 8u8 || g == 16u8,
            f != g,
    ;
    assert(flag_set(flags & !f, g) == flag_set(flags, g)) by (bit_vector)
        requires
            f == 1u8 || f == 2u8 || f == 4u8 || f == 8u8 || f == 16u8,
            g == 1u8 || g == 2u8 || g == 4u8 || g == 8u8 || g == 16u8,
            f != g,
    ;
}

/// A free-list head written through `set_free_list_head` reads back as the
/// same slot, for every slot other than the raw "none" value.
pub proof fn law_free_list_head_round_trip(head: Option<u16>)
    requires
        head != Some(FREE_LIST_NONE),
    ensures
        decode_head(encode_head(head)) == head,
{
}

/// The mark bit set by `set_mark` reads back through `is_marked`, and
/// `clear_mark` undoes a `set_mark` of a slot that was not marked.
pub proof fn law_set_then_clear_mark(before: Set<int>, index: int)
    requires
        !before.contains(index),
    ensures
        before.insert(index).contains(index),
        before.insert(index).remove(index) == before,
{
    assert(before.insert(index).remove(index) =~= before);
}
} // verus!
