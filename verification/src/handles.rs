//! Per-thread handle storage for explicit rooting.
//!
//! Handles live in blocks of `HANDLE_BLOCK_SIZE` slots; each slot holds the
//! address of an object (0 for none). Blocks are chained in the order they
//! were added. A slot is named by its address: slot `o` of block `b` sits at
//! `(b + 1) * HANDLE_BLOCK_SIZE + o`, so address 0 never names a slot. The
//! scope data holds the next free slot and the end of the block it lies in;
//! scopes save and restore them, so the slots a scope handed out are reused
//! once it ends.

use vstd::prelude::*;

verus! {

/// Slots per handle block.
pub const HANDLE_BLOCK_SIZE: usize = 256;

/// One handle: the address of the object it roots, 0 for none.
#[derive(Clone, Copy)]
pub struct HandleSlot {
    gc_box_ptr: usize,
}

impl View for HandleSlot {
    type V = usize;

    closed spec fn view(&self) -> usize {
        self.gc_box_ptr
    }
}

impl HandleSlot {
    /// A slot rooting `gc_box_ptr`.
    pub fn new(gc_box_ptr: usize) -> (s: Self)
        ensures
            s@ == gc_box_ptr,
    {
        HandleSlot { gc_box_ptr }
    }

    /// An empty slot.
    pub fn null() -> (s: Self)
        ensures
            s@ == 0,
    {
        HandleSlot { gc_box_ptr: 0 }
    }

    /// The rooted address.
    pub fn as_ptr(&self) -> (p: usize)
        ensures
            p == self@,
    {
        self.gc_box_ptr
    }

    /// Whether the slot roots nothing.
    pub fn is_null(&self) -> (r: bool)
        ensures
            r == (self@ == 0),
    {
        self.gc_box_ptr == 0
    }

    /// Roots `ptr` in this slot.
    pub fn set(&mut self, ptr: usize)
        ensures
            final(self)@ == ptr,
    {
        self.gc_box_ptr = ptr;
    }
}

impl Default for HandleSlot {
    fn default() -> (s: Self)
        ensures
            s@ == 0,
    {
        HandleSlot::null()
    }
}

/// A block of handle slots and the index of the block chained after it.
pub struct HandleBlock {
    slots: Vec<HandleSlot>,
    next: Option<usize>,
}

impl HandleBlock {
    /// The rooted addresses of the block's slots.
    pub closed spec fn spec_slots(&self) -> Seq<usize> {
        self.slots@.map_values(|s: HandleSlot| s@)
    }

    /// The block chained after this one.
    pub closed spec fn spec_next(&self) -> Option<usize> {
        self.next
    }

    /// `HANDLE_BLOCK_SIZE` empty slots, nothing chained after.
    fn empty() -> (b: Self)
        ensures
            b.spec_slots().len() == HANDLE_BLOCK_SIZE,
            forall|k: int| 0 <= k < HANDLE_BLOCK_SIZE ==> #[trigger] b.spec_slots()[k] == 0,
            b.spec_next() is None,
    {
        let mut slots: Vec<HandleSlot> = Vec::new();
        let mut k: usize = 0;
        while k < HANDLE_BLOCK_SIZE
            invariant
                k <= HANDLE_BLOCK_SIZE,
                slots.len() == k,
                forall|j: int| 0 <= j < k ==> (#[trigger] slots@[j])@ == 0,
            decreases HANDLE_BLOCK_SIZE - k,
        {
            slots.push(HandleSlot::null());
            k = k + 1;
        }
        HandleBlock { slots, next: None }
    }

    /// A fresh block of empty slots, nothing chained after.
    pub fn new() -> (b: Box<Self>)
        ensures
            b.spec_slots().len() == HANDLE_BLOCK_SIZE,
            forall|k: int| 0 <= k < HANDLE_BLOCK_SIZE ==> #[trigger] b.spec_slots()[k] == 0,
            b.spec_next() is None,
    {
        Box::new(HandleBlock::empty())
    }

    /// The block chained after this one.
    pub fn next(&self) -> (r: Option<usize>)
        ensures
            r == self.spec_next(),
    {
        self.next
    }

    /// Chains `next` after this block.
    pub fn set_next(&mut self, next: Option<usize>)
        ensures
            final(self).spec_next() == next,
            final(self).spec_slots() == old(self).spec_slots(),
    {
        self.next = next;
    }
}

impl Default for HandleBlock {
    fn default() -> (b: Self)
        ensures
            b.spec_slots().len() == HANDLE_BLOCK_SIZE,
            forall|k: int| 0 <= k < HANDLE_BLOCK_SIZE ==> #[trigger] b.spec_slots()[k] == 0,
            b.spec_next() is None,
    {
        HandleBlock::empty()
    }
}

/// Scope bookkeeping: the next free slot, the end of its block (both 0
/// before the first allocation), the nesting level and the level at or
/// below which allocation is sealed (0 for none).
#[derive(Debug)]
pub struct HandleScopeData {
    /// Address of the next free slot, 0 for none.
    pub next: usize,
    /// Address one past the last slot of the block `next` lies in.
    pub limit: usize,
    /// Number of open scopes.
    pub level: u32,
    /// Level of the innermost sealed scope, 0 for none.
    pub sealed_level: u32,
}

impl HandleScopeData {
    /// No slot, no scope, nothing sealed.
    pub fn new() -> (d: Self)
        ensures
            d.next == 0 && d.limit == 0 && d.level == 0 && d.sealed_level == 0,
    {
        HandleScopeData { next: 0, limit: 0, level: 0, sealed_level: 0 }
    }

    /// Whether a scope is open.
    pub fn is_active(&self) -> (r: bool)
        ensures
            r == (self.level > 0),
    {
        self.level > 0
    }

    /// Whether allocation is sealed at the current level.
    pub fn is_sealed(&self) -> (r: bool)
        ensures
            r == (self.level <= self.sealed_level && self.sealed_level > 0),
    {
        self.level <= self.sealed_level && self.sealed_level > 0
    }
}

impl Default for HandleScopeData {
    fn default() -> (d: Self)
        ensures
            d.next == 0 && d.limit == 0 && d.level == 0 && d.sealed_level == 0,
    {
        HandleScopeData::new()
    }
}

/// Address of slot `o` of block `b`.
pub open spec fn slot_addr(b: int, o: int) -> int {
    (b + 1) * HANDLE_BLOCK_SIZE + o
}

/// Index of the block the slot at `addr` lies in.
pub open spec fn slot_block(addr: int) -> int {
    addr / (HANDLE_BLOCK_SIZE as int) - 1
}

/// Position of the slot at `addr` within its block.
pub open spec fn slot_offset(addr: int) -> int {
    addr % (HANDLE_BLOCK_SIZE as int)
}

/// `next` and `limit` describe a position inside one of `n_blocks` blocks,
/// or none.
pub open spec fn scope_in_blocks(next: usize, limit: usize, n_blocks: int) -> bool {
    ||| next == 0 && limit == 0
    ||| {
        &&& limit % HANDLE_BLOCK_SIZE == 0
        &&& 2 * HANDLE_BLOCK_SIZE <= limit <= (n_blocks + 1) * HANDLE_BLOCK_SIZE
        &&& limit - HANDLE_BLOCK_SIZE <= next <= limit
    }
}

/// Per-thread handle storage: the chain of blocks, the block allocation
/// currently draws from, and the scope data.
pub struct LocalHandles {
    blocks: Vec<HandleBlock>,
    current_block: Option<usize>,
    scope_data: HandleScopeData,
}

impl LocalHandles {
    /// The rooted addresses, block by block.
    pub closed spec fn spec_blocks(&self) -> Seq<Seq<usize>> {
        self.blocks@.map_values(|b: HandleBlock| b.spec_slots())
    }

    /// Number of blocks.
    pub closed spec fn n_blocks(&self) -> int {
        self.blocks@.len() as int
    }

    /// The block allocation draws from.
    pub closed spec fn spec_current(&self) -> Option<usize> {
        self.current_block
    }

    /// The scope data.
    pub closed spec fn spec_scope(&self) -> HandleScopeData {
        self.scope_data
    }

    /// The rooted address of the slot at `addr`.
    pub open spec fn slot_value(&self, addr: int) -> usize {
        self.spec_blocks()[slot_block(addr)][slot_offset(addr)]
    }

    /// `addr` names a slot of one of the blocks.
    pub open spec fn is_slot(&self, addr: int) -> bool {
        HANDLE_BLOCK_SIZE <= addr < (self.n_blocks() + 1) * HANDLE_BLOCK_SIZE
    }

    /// Blocks are full-sized and chained in order, the current block is the
    /// last one, every slot address fits a machine word, and the scope data
    /// points inside a block or nowhere.
    pub open spec fn wf(&self) -> bool {
        &&& self.wf_blocks()
        &&& scope_in_blocks(self.spec_scope().next, self.spec_scope().limit, self.n_blocks())
    }

    /// The block part of `wf`.
    pub closed spec fn wf_blocks(&self) -> bool {
        &&& (self.blocks.len() + 2) * HANDLE_BLOCK_SIZE <= usize::MAX
        &&& forall|b: int| 0 <= b < self.blocks.len() ==> (#[trigger] self.blocks@[b]).slots.len() == HANDLE_BLOCK_SIZE
        &&& forall|b: int| 0 <= b < self.blocks.len() - 1 ==> (#[trigger] self.blocks@[b]).next == Some((b + 1) as usize)
        &&& self.blocks.len() > 0 ==> self.blocks@[self.blocks.len() - 1].next is None
        &&& self.current_block == if self.blocks.len() == 0 { None::<usize> } else { Some((self.blocks.len() - 1) as usize) }
    }

    /// Another block fits under the address limit.
    pub open spec fn has_room(&self) -> bool {
        (self.n_blocks() + 3) * HANDLE_BLOCK_SIZE <= usize::MAX
    }

    /// No block, no scope.
    pub fn new() -> (h: Self)
        ensures
            h.wf(),
            h.n_blocks() == 0,
            h.spec_current() is None,
            h.spec_scope() == (HandleScopeData { next: 0, limit: 0, level: 0, sealed_level: 0 }),
    {
        LocalHandles { blocks: Vec::new(), current_block: None, scope_data: HandleScopeData::new() }
    }

    /// The scope data, for update.
    pub fn scope_data_mut(&mut self) -> (d: &mut HandleScopeData)
        ensures
            *d == old(self).spec_scope(),
            final(self).spec_scope() == *final(d),
            final(self).spec_blocks() == old(self).spec_blocks(),
            final(self).spec_current() == old(self).spec_current(),
            final(self).n_blocks() == old(self).n_blocks(),
            final(self).wf_blocks() == old(self).wf_blocks(),
    {
        &mut self.scope_data
    }

    /// The scope data.
    pub fn scope_data(&self) -> (d: &HandleScopeData)
        ensures
            *d == self.spec_scope(),
    {
        &self.scope_data
    }

    /// Appends a fresh block, chains it after the current one and makes it
    /// current. Returns the addresses of its first slot and one past its
    /// last slot.
    pub fn add_block(&mut self) -> (r: (usize, usize))
        requires
            old(self).wf(),
            old(self).has_room(),
        ensures
            final(self).wf(),
            final(self).n_blocks() == old(self).n_blocks() + 1,
            final(self).spec_blocks() == old(self).spec_blocks().push(Seq::new(HANDLE_BLOCK_SIZE as nat, |k: int| 0usize)),
            final(self).spec_current() == Some(old(self).n_blocks() as usize),
            final(self).spec_scope() == old(self).spec_scope(),
            r.0 == slot_addr(old(self).n_blocks(), 0),
            r.1 == slot_addr(old(self).n_blocks(), HANDLE_BLOCK_SIZE as int),
    {
        let n = self.blocks.len();
        let new_block = HandleBlock::empty();
        proof {
            assert(new_block.spec_slots() =~= Seq::new(HANDLE_BLOCK_SIZE as nat, |k: int| 0usize));
        }
        if let Some(c) = self.current_block {
            let mut cur = self.blocks.remove(c);
            cur.set_next(Some(n));
            self.blocks.insert(c, cur);
            proof {
                assert(self.blocks@ =~= old(self).blocks@.update(c as int, cur));
                assert(cur.spec_slots() == old(self).blocks@[c as int].spec_slots());
            }
        }
        proof {
            assert(self.spec_blocks() =~= old(self).spec_blocks());
        }
        self.blocks.push(new_block);
        self.current_block = Some(n);
        proof {
            assert(self.spec_blocks() =~= old(self).spec_blocks().push(Seq::new(HANDLE_BLOCK_SIZE as nat, |k: int| 0usize)));
            assert forall|b: int| 0 <= b < self.blocks.len() - 1 implies (#[trigger] self.blocks@[b]).next == Some((b + 1) as usize) by {
                if b < n - 1 {
                    assert(self.blocks@[b] == old(self).blocks@[b]);
                }
            }
        }
        proof {
            assert((self.blocks.len() + 2) * HANDLE_BLOCK_SIZE <= usize::MAX);
            assert forall|b: int| 0 <= b < self.blocks.len() implies (#[trigger] self.blocks@[b]).slots.len() == HANDLE_BLOCK_SIZE by {
                assert(self.blocks@[b].spec_slots().len() == self.blocks@[b].slots@.len());
                if b < n {
                    assert(self.spec_blocks()[b] == old(self).spec_blocks()[b]);
                    assert(old(self).blocks@[b].spec_slots().len() == old(self).blocks@[b].slots@.len());
                }
            }
            assert(self.blocks@[self.blocks.len() - 1].next is None);
            assert(self.wf_blocks());
            assert(scope_in_blocks(self.spec_scope().next, self.spec_scope().limit, self.n_blocks()));
        }
        let start = (n + 1) * HANDLE_BLOCK_SIZE;
        let end = start + HANDLE_BLOCK_SIZE;
        (start, end)
    }

    /// Allocation adds a block: there is none yet, or the scope's position
    /// reached the end of its block.
    pub open spec fn adds_block(&self) -> bool {
        self.n_blocks() == 0 || (self.spec_scope().next != 0 && self.spec_scope().next >= self.spec_scope().limit)
    }

    /// The slot the next allocation hands out: the scope's position when it
    /// has room; the first slot of the last block when no scope holds a
    /// position; the first slot of a new block otherwise.
    pub open spec fn next_slot(&self) -> int {
        if self.spec_scope().next != 0 && self.spec_scope().next < self.spec_scope().limit {
            self.spec_scope().next as int
        } else if self.spec_scope().next == 0 && self.n_blocks() > 0 {
            slot_addr(self.n_blocks() - 1, 0)
        } else {
            slot_addr(self.n_blocks(), 0)
        }
    }

    /// Hands out the next free slot. When no scope holds a position (every
    /// scope that used the blocks has exited) allocation starts again at the
    /// first slot of the last block, so scopes that come and go reuse it; a
    /// block is added when there is none yet or the current one is used up.
    /// Allocation in a sealed scope is a bug and is excluded here.
    pub fn allocate(&mut self) -> (slot: usize)
        requires
            old(self).wf(),
            old(self).has_room(),
            !(old(self).spec_scope().level <= old(self).spec_scope().sealed_level && old(self).spec_scope().sealed_level > 0),
        ensures
            final(self).wf(),
            final(self).is_slot(slot as int),
            slot == old(self).next_slot(),
            final(self).spec_scope().level == old(self).spec_scope().level,
            final(self).spec_scope().sealed_level == old(self).spec_scope().sealed_level,
            final(self).spec_scope().next == slot + 1,
            final(self).n_blocks() == old(self).n_blocks() + if old(self).adds_block() { 1int } else { 0int },
            !old(self).adds_block() ==> {
                &&& final(self).spec_blocks() == old(self).spec_blocks()
                &&& final(self).spec_current() == old(self).spec_current()
            },
            old(self).spec_scope().next != 0 && old(self).spec_scope().next < old(self).spec_scope().limit
                ==> final(self).spec_scope().limit == old(self).spec_scope().limit,
            old(self).spec_scope().next == 0 && old(self).n_blocks() > 0
                ==> final(self).spec_scope().limit == slot_addr(old(self).n_blocks() - 1, HANDLE_BLOCK_SIZE as int),
            old(self).adds_block() ==> {
                &&& final(self).spec_scope().limit == slot_addr(old(self).n_blocks(), HANDLE_BLOCK_SIZE as int)
                &&& final(self).spec_blocks() == old(self).spec_blocks().push(Seq::new(HANDLE_BLOCK_SIZE as nat, |k: int| 0usize))
                &&& final(self).spec_current() == Some(old(self).n_blocks() as usize)
            },
    {
        if self.scope_data.next == 0 && self.blocks.len() > 0 {
            let n: usize = self.blocks.len();
            let start: usize = n * HANDLE_BLOCK_SIZE;
            let end: usize = start + HANDLE_BLOCK_SIZE;
            self.scope_data.next = start;
            self.scope_data.limit = end;
            proof {
                assert(end % HANDLE_BLOCK_SIZE == 0) by (nonlinear_arith)
                    requires
                        end == (n + 1) * HANDLE_BLOCK_SIZE,
                ;
                assert(scope_in_blocks(self.scope_data.next, self.scope_data.limit, self.n_blocks()));
            }
        } else if self.scope_data.next >= self.scope_data.limit || self.scope_data.next == 0 {
            let ghost nb = old(self).n_blocks();
            let (start, end) = self.add_block();
            self.scope_data.next = start;
            self.scope_data.limit = end;
            proof {
                assert(end % HANDLE_BLOCK_SIZE == 0) by (nonlinear_arith)
                    requires
                        end == (nb + 2) * HANDLE_BLOCK_SIZE,
                ;
            }
        }
        let slot = self.scope_data.next;
        proof {
            assert(self.scope_data.limit <= (self.blocks.len() + 1) * HANDLE_BLOCK_SIZE);
        }
        self.scope_data.next = self.scope_data.next + 1;
        slot
    }

    /// The rooted address of the slot at `addr`.
    pub fn get_slot(&self, addr: usize) -> (p: usize)
        requires
            self.wf(),
            self.is_slot(addr as int),
        ensures
            p == self.slot_value(addr as int),
    {
        let b = addr / HANDLE_BLOCK_SIZE - 1;
        let o = addr % HANDLE_BLOCK_SIZE;
        self.blocks[b].slots[o].as_ptr()
    }

    /// Roots `ptr` in the slot at `addr`.
    pub fn set_slot(&mut self, addr: usize, ptr: usize)
        requires
            old(self).wf(),
            old(self).is_slot(addr as int),
        ensures
            final(self).wf(),
            final(self).spec_blocks() == old(self).spec_blocks().update(
                slot_block(addr as int),
                old(self).spec_blocks()[slot_block(addr as int)].update(
                    slot_offset(addr as int),
                    ptr,
                ),
            ),
            final(self).spec_current() == old(self).spec_current(),
            final(self).spec_scope() == old(self).spec_scope(),
    {
        let b = addr / HANDLE_BLOCK_SIZE - 1;
        let o = addr % HANDLE_BLOCK_SIZE;
        let mut block = self.blocks.remove(b);
        let mut slot = block.slots[o];
        slot.set(ptr);
        block.slots.set(o, slot);
        self.blocks.insert(b, block);
        proof {
            let bi = slot_block(addr as int);
            assert(self.blocks@[bi].spec_slots() =~= old(self).spec_blocks()[bi].update(slot_offset(addr as int), ptr));
            assert(self.spec_blocks() =~= old(self).spec_blocks().update(bi, old(self).spec_blocks()[bi].update(slot_offset(addr as int), ptr)));
            assert forall|k: int| 0 <= k < self.blocks.len() - 1 implies (#[trigger] self.blocks@[k]).next == Some((k + 1) as usize) by {
                assert(self.blocks@[k].next == old(self).blocks@[k].next);
            }
            assert forall|k: int| 0 <= k < self.blocks.len() implies (#[trigger] self.blocks@[k]).slots.len() == HANDLE_BLOCK_SIZE by {
                assert(self.blocks@[k].slots.len() == old(self).blocks@[k].slots.len());
            }
        }
    }

    /// The rooted slot at global position `g` (block `g / HANDLE_BLOCK_SIZE`,
    /// slot `g % HANDLE_BLOCK_SIZE`) is visited by `iterate`: it roots
    /// something and lies in an earlier block or below the next free slot.
    pub open spec fn visited(&self, g: int) -> bool {
        &&& self.slot_value(g + HANDLE_BLOCK_SIZE) != 0
        &&& (g / (HANDLE_BLOCK_SIZE as int) != self.n_blocks() - 1 || g + HANDLE_BLOCK_SIZE < self.spec_scope().next)
    }

    /// What `iterate` hands out from the first `g` global positions.
    pub open spec fn visits(&self, g: int) -> Seq<usize>
        decreases g,
    {
        if g <= 0 {
            Seq::empty()
        } else if self.visited(g - 1) {
            self.visits(g - 1).push(self.slot_value(g - 1 + HANDLE_BLOCK_SIZE))
        } else {
            self.visits(g - 1)
        }
    }

    /// The rooted addresses of all handles, block by block in chain order;
    /// in the current block only the slots below the next free slot; empty
    /// slots skipped.
    pub fn iterate(&self) -> (r: Vec<usize>)
        requires
            self.wf(),
        ensures
            r@ == self.visits(self.n_blocks() * HANDLE_BLOCK_SIZE),
    {
        let mut result: Vec<usize> = Vec::new();
        let n = self.blocks.len();
        let mut block_opt: Option<usize> = if n > 0 { Some(0) } else { None };
        let mut g: usize = 0;
        while block_opt.is_some()
            invariant
                self.wf(),
                n == self.blocks.len(),
                g % HANDLE_BLOCK_SIZE == 0,
                g <= n * HANDLE_BLOCK_SIZE,
                block_opt is Some ==> block_opt->Some_0 * HANDLE_BLOCK_SIZE == g && block_opt->Some_0 < n,
                block_opt is None ==> g == n * HANDLE_BLOCK_SIZE,
                result@ == self.visits(g as int),
            decreases n * HANDLE_BLOCK_SIZE - g,
        {
            let b = block_opt.unwrap();
            let is_current = self.current_block == Some(b);
            let mut o: usize = 0;
            while o < HANDLE_BLOCK_SIZE
                invariant
                    self.wf(),
                    n == self.blocks.len(),
                    b < n,
                    b * HANDLE_BLOCK_SIZE == g,
                    is_current == (b == n - 1),
                    o <= HANDLE_BLOCK_SIZE,
                    result@ == self.visits(g + o),
                decreases HANDLE_BLOCK_SIZE - o,
            {
                let addr = (b + 1) * HANDLE_BLOCK_SIZE + o;
                let p = self.blocks[b].slots[o].as_ptr();
                proof {
                    let gg = g + o;
                    assert(gg / (HANDLE_BLOCK_SIZE as int) == b && gg % (HANDLE_BLOCK_SIZE as int) == o) by (nonlinear_arith)
                        requires
                            gg == b * HANDLE_BLOCK_SIZE + o,
                            0 <= o < HANDLE_BLOCK_SIZE,
                    ;
                    assert((gg + HANDLE_BLOCK_SIZE) / (HANDLE_BLOCK_SIZE as int) == b + 1
                        && (gg + HANDLE_BLOCK_SIZE) % (HANDLE_BLOCK_SIZE as int) == o) by (nonlinear_arith)
                        requires
                            gg == b * HANDLE_BLOCK_SIZE + o,
                            0 <= o < HANDLE_BLOCK_SIZE,
                    ;
                    assert(self.slot_value(gg + HANDLE_BLOCK_SIZE) == p);
                    assert(addr == gg + HANDLE_BLOCK_SIZE);
                }
                let below = !is_current || addr < self.scope_data.next;
                if p != 0 && below {
                    result.push(p);
                }
                o = o + 1;
            }
            g = g + HANDLE_BLOCK_SIZE;
            block_opt = self.blocks[b].next();
        }
        result
    }
}

impl Default for LocalHandles {
    fn default() -> (h: Self)
        ensures
            h.wf(),
            h.n_blocks() == 0,
    {
        LocalHandles::new()
    }
}

/// A rooted object: the address of its slot.
#[derive(Clone, Copy)]
pub struct Handle {
    /// Address of the handle's slot.
    pub slot: usize,
}

impl Handle {
    /// The address the handle roots.
    pub fn as_ptr(&self, handles: &LocalHandles) -> (p: usize)
        requires
            handles.wf(),
            handles.is_slot(self.slot as int),
        ensures
            p == handles.slot_value(self.slot as int),
    {
        handles.get_slot(self.slot)
    }
}

/// A handle that may be empty (slot address 0).
#[derive(Clone, Copy)]
pub struct MaybeHandle {
    /// Address of the handle's slot, 0 for none.
    pub slot: usize,
}

impl MaybeHandle {
    /// No handle.
    pub fn empty() -> (m: Self)
        ensures
            m.slot == 0,
    {
        MaybeHandle { slot: 0 }
    }

    /// The given handle.
    pub fn from_handle(handle: Handle) -> (m: Self)
        ensures
            m.slot == handle.slot,
    {
        MaybeHandle { slot: handle.slot }
    }

    /// Whether there is no handle.
    pub fn is_empty(&self) -> (r: bool)
        ensures
            r == (self.slot == 0),
    {
        self.slot == 0
    }

    /// The handle, if there is one.
    pub fn to_handle(self) -> (r: Option<Handle>)
        ensures
            self.slot == 0 ==> r is None,
            self.slot != 0 ==> r == Some(Handle { slot: self.slot }),
    {
        if self.slot == 0 {
            None
        } else {
            Some(Handle { slot: self.slot })
        }
    }
}

impl Default for MaybeHandle {
    fn default() -> (m: Self)
        ensures
            m.slot == 0,
    {
        MaybeHandle::empty()
    }
}

/// An open handle scope: the scope data it restores when it ends.
pub struct HandleScope {
    /// Next free slot when the scope opened.
    pub prev_next: usize,
    /// Block end when the scope opened.
    pub prev_limit: usize,
    /// Level when the scope opened.
    pub prev_level: u32,
}

impl HandleScope {
    /// Opens a scope one level deeper. Too many nested scopes is a bug and
    /// is excluded here.
    pub fn new(handles: &mut LocalHandles) -> (s: Self)
        requires
            old(handles).spec_scope().level < u32::MAX,
        ensures
            s.prev_next == old(handles).spec_scope().next,
            s.prev_limit == old(handles).spec_scope().limit,
            s.prev_level == old(handles).spec_scope().level,
            final(handles).spec_scope() == (HandleScopeData {
                level: (old(handles).spec_scope().level + 1) as u32,
                ..old(handles).spec_scope()
            }),
            final(handles).spec_blocks() == old(handles).spec_blocks(),
            final(handles).spec_current() == old(handles).spec_current(),
            old(handles).wf() ==> final(handles).wf(),
    {
        let data = handles.scope_data_mut();
        let prev_next = data.next;
        let prev_limit = data.limit;
        let prev_level = data.level;
        data.level = prev_level + 1;
        HandleScope { prev_next, prev_limit, prev_level }
    }

    /// Roots `gc_box_ptr` in a fresh slot of the scope.
    pub fn handle(&self, handles: &mut LocalHandles, gc_box_ptr: usize) -> (h: Handle)
        requires
            old(handles).wf(),
            old(handles).has_room(),
            !(old(handles).spec_scope().level <= old(handles).spec_scope().sealed_level
                && old(handles).spec_scope().sealed_level > 0),
        ensures
            final(handles).wf(),
            final(handles).is_slot(h.slot as int),
            final(handles).slot_value(h.slot as int) == gc_box_ptr,
            final(handles).spec_scope().level == old(handles).spec_scope().level,
            final(handles).spec_scope().sealed_level == old(handles).spec_scope().sealed_level,
            final(handles).spec_scope().next == h.slot + 1,
            h.slot == old(handles).next_slot(),
            final(handles).n_blocks() == old(handles).n_blocks() + if old(handles).adds_block() { 1int } else { 0int },
    {
        let slot = handles.allocate();
        handles.set_slot(slot, gc_box_ptr);
        Handle { slot }
    }

    /// The current nesting level.
    pub fn level(&self, handles: &LocalHandles) -> (l: u32)
        ensures
            l == handles.spec_scope().level,
    {
        handles.scope_data().level
    }

    /// Ends the scope: the next free slot, the block end and the level are
    /// back to what they were when it opened.
    pub fn exit(self, handles: &mut LocalHandles)
        requires
            scope_in_blocks(self.prev_next, self.prev_limit, old(handles).n_blocks()),
        ensures
            final(handles).spec_scope() == (HandleScopeData {
                next: self.prev_next,
                limit: self.prev_limit,
                level: self.prev_level,
                ..old(handles).spec_scope()
            }),
            final(handles).spec_blocks() == old(handles).spec_blocks(),
            final(handles).spec_current() == old(handles).spec_current(),
            old(handles).wf() ==> final(handles).wf(),
    {
        let data = handles.scope_data_mut();
        data.next = self.prev_next;
        data.limit = self.prev_limit;
        data.level = self.prev_level;
    }
}

/// A sealed region: no handle may be allocated until it ends.
pub struct SealedHandleScope {
    /// Sealed level when the region began.
    pub prev_sealed_level: u32,
}

impl SealedHandleScope {
    /// Seals allocation at the current level.
    pub fn new(handles: &mut LocalHandles) -> (s: Self)
        ensures
            s.prev_sealed_level == old(handles).spec_scope().sealed_level,
            final(handles).spec_scope() == (HandleScopeData {
                sealed_level: old(handles).spec_scope().level,
                ..old(handles).spec_scope()
            }),
            final(handles).spec_blocks() == old(handles).spec_blocks(),
            final(handles).spec_current() == old(handles).spec_current(),
            old(handles).wf() ==> final(handles).wf(),
    {
        let data = handles.scope_data_mut();
        let prev = data.sealed_level;
        data.sealed_level = data.level;
        SealedHandleScope { prev_sealed_level: prev }
    }

    /// Ends the sealed region, restoring the previous sealed level.
    pub fn exit(self, handles: &mut LocalHandles)
        ensures
            final(handles).spec_scope() == (HandleScopeData {
                sealed_level: self.prev_sealed_level,
                ..old(handles).spec_scope()
            }),
            final(handles).spec_blocks() == old(handles).spec_blocks(),
            old(handles).wf() ==> final(handles).wf(),
    {
        let data = handles.scope_data_mut();
        data.sealed_level = self.prev_sealed_level;
    }
}

/// A scope that can hand one handle out to its enclosing scope: the escape
/// slot is reserved in the enclosing scope before the inner scope opens.
pub struct EscapeableHandleScope {
    /// The inner scope.
    pub inner: HandleScope,
    /// A handle already escaped.
    pub escaped: bool,
    /// Address of the reserved slot in the enclosing scope.
    pub escape_slot: usize,
}

impl EscapeableHandleScope {
    /// Reserves the escape slot in the current scope, then opens a scope one
    /// level deeper.
    pub fn new(handles: &mut LocalHandles) -> (s: Self)
        requires
            old(handles).wf(),
            old(handles).has_room(),
            !(old(handles).spec_scope().level <= old(handles).spec_scope().sealed_level
                && old(handles).spec_scope().sealed_level > 0),
            old(handles).spec_scope().level < u32::MAX,
        ensures
            final(handles).wf(),
            final(handles).is_slot(s.escape_slot as int),
            !s.escaped,
            s.inner.prev_level == old(handles).spec_scope().level,
            s.inner.prev_next == s.escape_slot + 1,
            final(handles).spec_scope().next == s.escape_slot + 1,
            final(handles).spec_scope().level == old(handles).spec_scope().level + 1,
            final(handles).spec_scope().sealed_level == old(handles).spec_scope().sealed_level,
            s.escape_slot == old(handles).next_slot(),
            final(handles).n_blocks() == old(handles).n_blocks() + if old(handles).adds_block() { 1int } else { 0int },
    {
        let escape_slot = handles.allocate();
        let inner = HandleScope::new(handles);
        EscapeableHandleScope { inner, escaped: false, escape_slot }
    }

    /// Roots `gc_box_ptr` in a fresh slot of the inner scope.
    pub fn handle(&self, handles: &mut LocalHandles, gc_box_ptr: usize) -> (h: Handle)
        requires
            old(handles).wf(),
            old(handles).has_room(),
            !(old(handles).spec_scope().level <= old(handles).spec_scope().sealed_level
                && old(handles).spec_scope().sealed_level > 0),
        ensures
            final(handles).wf(),
            final(handles).is_slot(h.slot as int),
            final(handles).slot_value(h.slot as int) == gc_box_ptr,
            final(handles).spec_scope().level == old(handles).spec_scope().level,
            final(handles).spec_scope().sealed_level == old(handles).spec_scope().sealed_level,
            final(handles).spec_scope().next == h.slot + 1,
            h.slot == old(handles).next_slot(),
            final(handles).n_blocks() == old(handles).n_blocks() + if old(handles).adds_block() { 1int } else { 0int },
    {
        self.inner.handle(handles, gc_box_ptr)
    }

    /// Hands `handle`'s object out to the enclosing scope `parent`: the
    /// object is rooted in the reserved escape slot, which the returned
    /// handle names. A scope escapes at most once (a second escape is a
    /// bug and is excluded here).
    pub fn escape(&mut self, handles: &mut LocalHandles, parent: &HandleScope, handle: Handle) -> (h: Handle)
        requires
            !old(self).escaped,
            parent.prev_level + 1 == old(self).inner.prev_level,
            old(handles).wf(),
            old(handles).is_slot(old(self).escape_slot as int),
            old(handles).is_slot(handle.slot as int),
        ensures
            h.slot == old(self).escape_slot,
            final(self).escaped,
            final(self).escape_slot == old(self).escape_slot,
            final(self).inner == old(self).inner,
            final(handles).wf(),
            final(handles).slot_value(h.slot as int) == old(handles).slot_value(handle.slot as int),
            final(handles).spec_blocks() == old(handles).spec_blocks().update(
                slot_block(h.slot as int),
                old(handles).spec_blocks()[slot_block(h.slot as int)].update(
                    slot_offset(h.slot as int),
                    old(handles).slot_value(handle.slot as int),
                ),
            ),
            final(handles).spec_scope() == old(handles).spec_scope(),
    {
        self.escaped = true;
        let ptr = handles.get_slot(handle.slot);
        handles.set_slot(self.escape_slot, ptr);
        Handle { slot: self.escape_slot }
    }

    /// Ends the inner scope.
    pub fn exit(self, handles: &mut LocalHandles)
        requires
            scope_in_blocks(self.inner.prev_next, self.inner.prev_limit, old(handles).n_blocks()),
        ensures
            final(handles).spec_scope() == (HandleScopeData {
                next: self.inner.prev_next,
                limit: self.inner.prev_limit,
                level: self.inner.prev_level,
                ..old(handles).spec_scope()
            }),
            final(handles).spec_blocks() == old(handles).spec_blocks(),
            old(handles).wf() ==> final(handles).wf(),
    {
        self.inner.exit(handles)
    }
}

/// A scope that lies within `n` blocks lies within any more blocks.
pub proof fn lemma_scope_in_more_blocks(next: usize, limit: usize, n: int, m: int)
    requires
        scope_in_blocks(next, limit, n),
        n <= m,
    ensures
        scope_in_blocks(next, limit, m),
{
}

/// The rooted addresses come in one sequence per block.
pub proof fn lemma_blocks_len(h: LocalHandles)
    ensures
        h.spec_blocks().len() == h.n_blocks(),
{
}

/// Opening a scope, rooting one handle in it and ending it leaves the
/// scope data as they were, whether or not the handle needed a new block.
pub proof fn law_scope_handle_exit(before: HandleScopeData, inside: HandleScopeData, s: HandleScope, n0: int, n1: int)
    requires
        scope_in_blocks(before.next, before.limit, n0),
        n0 <= n1,
        s.prev_next == before.next,
        s.prev_limit == before.limit,
        s.prev_level == before.level,
    ensures
        scope_in_blocks(s.prev_next, s.prev_limit, n1),
        (HandleScopeData { next: s.prev_next, limit: s.prev_limit, level: s.prev_level, ..inside }) == (
        HandleScopeData { sealed_level: inside.sealed_level, ..before }),
{
}

/// An escaped handle outlives the inner scope: ending the inner scope puts
/// the next free slot back just past the escape slot, so the escape slot
/// stays in use in the enclosing scope.
pub proof fn law_escape_outlives_scope(s: EscapeableHandleScope, inside: HandleScopeData)
    requires
        s.inner.prev_next == s.escape_slot + 1,
    ensures
        (HandleScopeData { next: s.inner.prev_next, limit: s.inner.prev_limit, level: s.inner.prev_level, ..inside }).next
            > s.escape_slot,
{
}

/// Opening a scope and ending it leaves the scope data as it was, whatever
/// was allocated in between: the slots the scope handed out are free again.
pub proof fn law_scope_restores(before: HandleScopeData, opened: HandleScope, inside: HandleScopeData)
    requires
        opened.prev_next == before.next,
        opened.prev_limit == before.limit,
        opened.prev_level == before.level,
        inside.sealed_level == before.sealed_level,
    ensures
        (HandleScopeData {
            next: opened.prev_next,
            limit: opened.prev_limit,
            level: opened.prev_level,
            ..inside
        }) == before,
{
}

/// Blocks only grow, so a position recorded when a scope opened is still a
/// valid position when it ends.
pub proof fn law_scope_position_survives(next: usize, limit: usize, n: int, m: int)
    requires
        scope_in_blocks(next, limit, n),
        n <= m,
    ensures
        scope_in_blocks(next, limit, m),
{
    if limit != 0 {
        assert((n + 1) * HANDLE_BLOCK_SIZE <= (m + 1) * HANDLE_BLOCK_SIZE) by (nonlinear_arith)
            requires
                n <= m,
        ;
    }
}

/// A sealed scope forbids allocation at its own level and below, and a
/// scope opened inside it lifts the seal.
pub proof fn law_sealed_level(d: HandleScopeData)
    requires
        d.level > 0,
        d.level < u32::MAX,
    ensures
        ({
            let s = HandleScopeData { sealed_level: d.level, ..d };
            s.level <= s.sealed_level && s.sealed_level > 0
        }),
        ({
            let s = HandleScopeData { sealed_level: d.level, level: (d.level + 1) as u32, ..d };
            !(s.level <= s.sealed_level && s.sealed_level > 0)
        }),
{
}

/// What `iterate` hands out up to a position includes every visited slot
/// before it.
proof fn lemma_visits_contains(h: LocalHandles, q: int, g: int)
    requires
        0 <= q < g,
        h.visited(q),
    ensures
        h.visits(g).contains(h.slot_value(q + HANDLE_BLOCK_SIZE)),
    decreases g,
{
    if q == g - 1 {
        assert(h.visits(g) == h.visits(g - 1).push(h.slot_value(q + HANDLE_BLOCK_SIZE)));
        assert(h.visits(g)[h.visits(g - 1).len() as int] == h.slot_value(q + HANDLE_BLOCK_SIZE));
    } else {
        lemma_visits_contains(h, q, g - 1);
        let v = h.slot_value(q + HANDLE_BLOCK_SIZE);
        let prev = h.visits(g - 1);
        let i = choose|i: int| 0 <= i < prev.len() && #[trigger] prev[i] == v;
        assert(h.visits(g)[i] == v);
    }
}

/// Iterating the handles reports every rooted handle: a slot that roots an
/// object and lies in an earlier block, or below the next free slot of the
/// current one, is among what `iterate` returns.
pub proof fn law_iterate_reports_every_handle(h: LocalHandles, addr: int)
    requires
        h.is_slot(addr),
        h.slot_value(addr) != 0,
        slot_block(addr) != h.n_blocks() - 1 || addr < h.spec_scope().next,
    ensures
        h.visits(h.n_blocks() * HANDLE_BLOCK_SIZE).contains(h.slot_value(addr)),
{
    let q: int = addr - HANDLE_BLOCK_SIZE;
    assert(q / (HANDLE_BLOCK_SIZE as int) == slot_block(addr));
    assert(h.visited(q));
    assert(q < h.n_blocks() * HANDLE_BLOCK_SIZE);
    lemma_visits_contains(h, q, h.n_blocks() * HANDLE_BLOCK_SIZE);
}

/// Every block of well-formed handle storage has `HANDLE_BLOCK_SIZE` slots.
proof fn lemma_blocks_slots(h: LocalHandles)
    requires
        h.wf(),
    ensures
        forall|b: int| 0 <= b < h.n_blocks() ==> (#[trigger] h.spec_blocks()[b]).len() == HANDLE_BLOCK_SIZE,
{
    assert forall|b: int| 0 <= b < h.n_blocks() implies (#[trigger] h.spec_blocks()[b]).len() == HANDLE_BLOCK_SIZE by {
        assert(h.blocks@[b].slots.len() == HANDLE_BLOCK_SIZE);
    }
}

/// The handles handed out in the first block, up to the first `m` slots,
/// as `iterate` walks them while the block is the only one.
proof fn lemma_visits_one_block(h: LocalHandles, m: int, g: int)
    requires
        h.n_blocks() == 1,
        h.spec_blocks()[0].len() == HANDLE_BLOCK_SIZE,
        h.spec_scope().next == HANDLE_BLOCK_SIZE + m,
        0 <= m <= HANDLE_BLOCK_SIZE,
        0 <= g <= HANDLE_BLOCK_SIZE,
    ensures
        h.visits(g) == h.spec_blocks()[0].take(if g < m { g } else { m }).filter(|p: usize| p != 0),
    decreases g,
{
    reveal(Seq::filter);
    let b = h.spec_blocks()[0];
    if g == 0 {
        assert(b.take(0) =~= Seq::<usize>::empty());
    } else {
        lemma_visits_one_block(h, m, g - 1);
        let q = g - 1;
        assert((q + HANDLE_BLOCK_SIZE) / (HANDLE_BLOCK_SIZE as int) == 1);
        assert((q + HANDLE_BLOCK_SIZE) % (HANDLE_BLOCK_SIZE as int) == q);
        assert(q / (HANDLE_BLOCK_SIZE as int) == 0);
        assert(h.slot_value(q + HANDLE_BLOCK_SIZE) == b[q]);
        if q < m {
            assert(b.take(g).drop_last() =~= b.take(q));
            assert(b.take(g).last() == b[q]);
        }
    }
}

/// Iterating the handles of one block gives the rooted addresses of the
/// slots handed out so far, in the order they were handed out, skipping
/// empty slots.
pub proof fn law_iterate_one_block(h: LocalHandles, m: int)
    requires
        h.wf(),
        h.n_blocks() == 1,
        h.spec_scope().next == HANDLE_BLOCK_SIZE + m,
        0 <= m <= HANDLE_BLOCK_SIZE,
    ensures
        h.visits(h.n_blocks() * HANDLE_BLOCK_SIZE) == h.spec_blocks()[0].take(m).filter(|p: usize| p != 0),
{
    lemma_blocks_slots(h);
    lemma_visits_one_block(h, m, HANDLE_BLOCK_SIZE as int);
}

} // verus!
