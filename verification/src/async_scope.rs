//! Rooting for asynchronous tasks.
//!
//! An async handle scope owns one block of handle slots that fills from the
//! front; a `GcScope` collects objects (address and type) before a task is
//! spawned and roots them all in a fresh async scope when it starts.

use vstd::prelude::*;
use std::any::TypeId;
use crate::handles::{HandleSlot, HANDLE_BLOCK_SIZE};

verus! {

#[verifier::external_type_specification]
#[verifier::external_body]
pub struct ExTypeId(TypeId);

/// The slots and fill level of one async scope.
pub struct AsyncScopeData {
    /// The scope's block of slots.
    pub slots: Vec<HandleSlot>,
    /// Slots handed out so far, from the front.
    pub used: usize,
}

/// The non-zero entries of `s`, in order.
pub open spec fn non_zero(s: Seq<usize>) -> Seq<usize>
    decreases s.len(),
{
    if s.len() == 0 {
        s
    } else if s.last() != 0 {
        non_zero(s.drop_last()).push(s.last())
    } else {
        non_zero(s.drop_last())
    }
}

/// The rooted addresses of a list of slots.
pub open spec fn slot_values(slots: Seq<HandleSlot>) -> Seq<usize> {
    slots.map_values(|s: HandleSlot| s@)
}

impl AsyncScopeData {
    /// The block has `HANDLE_BLOCK_SIZE` slots and the fill level lies
    /// within it.
    pub open spec fn wf(&self) -> bool {
        self.slots.len() == HANDLE_BLOCK_SIZE && self.used <= HANDLE_BLOCK_SIZE
    }

    /// An empty block.
    pub fn new() -> (d: Self)
        ensures
            d.wf(),
            d.used == 0,
            forall|k: int| 0 <= k < HANDLE_BLOCK_SIZE ==> #[trigger] slot_values(d.slots@)[k] == 0,
    {
        let mut slots: Vec<HandleSlot> = Vec::new();
        let mut k: usize = 0;
        while k < HANDLE_BLOCK_SIZE
            invariant
                k <= HANDLE_BLOCK_SIZE,
                slots.len() == k,
                forall|j: int| 0 <= j < k ==> (#[trigger] slots@[j])@ == 0,
            decreases HANDLE_BLOCK_SIZE - k,
        {
            slots.push(HandleSlot::null());
            k = k + 1;
        }
        AsyncScopeData { slots, used: 0 }
    }

    /// Roots `gc_box_ptr` in the next slot and returns the slot's index.
    /// A full block is a bug and is excluded here.
    pub fn root(&mut self, gc_box_ptr: usize) -> (idx: usize)
        requires
            old(self).wf(),
            old(self).used < HANDLE_BLOCK_SIZE,
        ensures
            final(self).wf(),
            idx == old(self).used,
            final(self).used == old(self).used + 1,
            slot_values(final(self).slots@) == slot_values(old(self).slots@).update(idx as int, gc_box_ptr),
    {
        let idx = self.used;
        self.used = self.used + 1;
        let mut slot = self.slots[idx];
        slot.set(gc_box_ptr);
        self.slots.set(idx, slot);
        proof {
            assert(slot_values(self.slots@) =~= slot_values(old(self).slots@).update(idx as int, gc_box_ptr));
        }
        idx
    }

    /// The rooted addresses of the slots handed out, empty slots skipped.
    pub fn iterate(&self) -> (r: Vec<usize>)
        requires
            self.wf(),
        ensures
            r@ == non_zero(slot_values(self.slots@).take(self.used as int)),
    {
        let mut result: Vec<usize> = Vec::new();
        let mut k: usize = 0;
        let ghost vals = slot_values(self.slots@);
        while k < self.used
            invariant
                self.wf(),
                vals == slot_values(self.slots@),
                k <= self.used,
                result@ == non_zero(vals.take(k as int)),
            decreases self.used - k,
        {
            let p = self.slots[k].as_ptr();
            proof {
                assert(vals.take(k + 1).drop_last() =~= vals.take(k as int));
            }
            if p != 0 {
                result.push(p);
            }
            k = k + 1;
        }
        result
    }
}

/// A handle into an async scope: the slot index and the scope's id.
#[derive(Clone, Copy)]
pub struct AsyncHandle {
    /// Index of the slot in the scope's block.
    pub slot: usize,
    /// Id of the scope.
    pub scope_id: u64,
}

/// A registered async scope: its id and data.
pub struct AsyncScopeEntry {
    /// Unique scope id.
    pub id: u64,
    /// The scope's slots.
    pub data: AsyncScopeData,
}

impl AsyncScopeEntry {
    /// A fresh scope taking the next id from `counter` (wrapping).
    pub fn new(counter: &mut u64) -> (e: Self)
        ensures
            e.id == *old(counter),
            *final(counter) == old(counter).wrapping_add(1),
            e.data.wf(),
            e.data.used == 0,
    {
        let id = *counter;
        *counter = counter.wrapping_add(1);
        AsyncScopeEntry { id, data: AsyncScopeData::new() }
    }

    /// Roots `gc_box_ptr` in the scope.
    pub fn handle(&mut self, gc_box_ptr: usize) -> (h: AsyncHandle)
        requires
            old(self).data.wf(),
            old(self).data.used < HANDLE_BLOCK_SIZE,
        ensures
            final(self).data.wf(),
            h.slot == old(self).data.used,
            h.scope_id == old(self).id,
            final(self).id == old(self).id,
            final(self).data.used == old(self).data.used + 1,
            slot_values(final(self).data.slots@) == slot_values(old(self).data.slots@).update(h.slot as int, gc_box_ptr),
    {
        let slot = self.data.root(gc_box_ptr);
        AsyncHandle { slot, scope_id: self.id }
    }
}

/// An object a `GcScope` tracks: its address and type.
#[derive(Clone, Copy)]
pub struct TrackedGc {
    /// Address of the object.
    pub ptr: usize,
    /// Type of the object.
    pub type_id: TypeId,
}

/// A rooted object handed to a spawned task: its slot and type.
#[derive(Clone, Copy)]
pub struct AsyncGcHandle {
    /// Index of the slot in the task's async scope.
    pub slot: usize,
    /// Type of the object.
    pub type_id: TypeId,
}

impl AsyncGcHandle {
    /// The type of the rooted object.
    pub fn type_id(&self) -> (t: TypeId)
        ensures
            t == self.type_id,
    {
        self.type_id
    }
}

/// Objects to root when a task is spawned.
pub struct GcScope {
    entries: Vec<TrackedGc>,
}

impl View for GcScope {
    type V = Seq<TrackedGc>;

    closed spec fn view(&self) -> Seq<TrackedGc> {
        self.entries@
    }
}

impl GcScope {
    /// Nothing recorded.
    pub fn new() -> (s: Self)
        ensures
            s@ == Seq::<TrackedGc>::empty(),
    {
        GcScope { entries: Vec::new() }
    }

    /// Tracks one object; returns the scope for chaining.
    pub fn track(&mut self, gc_box_ptr: usize, type_id: TypeId) -> (r: &mut Self)
        ensures
            r@ == old(self)@.push(TrackedGc { ptr: gc_box_ptr, type_id }),
            *final(self) == *final(r),
    {
        self.entries.push(TrackedGc { ptr: gc_box_ptr, type_id });
        self
    }

    /// Tracks every object of a slice, all of one type, in order.
    pub fn track_slice(&mut self, gc_box_ptrs: &[usize], type_id: TypeId) -> (r: &mut Self)
        ensures
            r@ == old(self)@ + gc_box_ptrs@.map_values(|p: usize| TrackedGc { ptr: p, type_id }),
            *final(self) == *final(r),
    {
        let mut k: usize = 0;
        while k < gc_box_ptrs.len()
            invariant
                k <= gc_box_ptrs.len(),
                self.entries@ == old(self)@ + gc_box_ptrs@.take(k as int).map_values(|p: usize| TrackedGc { ptr: p, type_id }),
            decreases gc_box_ptrs.len() - k,
        {
            self.entries.push(TrackedGc { ptr: gc_box_ptrs[k], type_id });
            k = k + 1;
            proof {
                assert(self.entries@ =~= old(self)@ + gc_box_ptrs@.take(k as int).map_values(|p: usize| TrackedGc { ptr: p, type_id }));
            }
        }
        proof {
            assert(gc_box_ptrs@.take(gc_box_ptrs.len() as int) =~= gc_box_ptrs@);
        }
        self
    }

    /// Tracks everything `other` tracks, after what this scope tracks.
    pub fn track_from(&mut self, other: &Self) -> (r: &mut Self)
        ensures
            r@ == old(self)@ + other@,
            *final(self) == *final(r),
    {
        let mut k: usize = 0;
        while k < other.entries.len()
            invariant
                k <= other.entries.len(),
                self.entries@ == old(self)@ + other@.take(k as int),
            decreases other.entries.len() - k,
        {
            self.entries.push(other.entries[k]);
            k = k + 1;
            proof {
                assert(self.entries@ =~= old(self)@ + other@.take(k as int));
            }
        }
        proof {
            assert(other@.take(other.entries.len() as int) =~= other@);
        }
        self
    }

    /// Number of recorded objects.
    pub fn len(&self) -> (n: usize)
        ensures
            n == self@.len(),
    {
        self.entries.len()
    }

    /// Whether nothing is recorded.
    pub fn is_empty(&self) -> (r: bool)
        ensures
            r == (self@.len() == 0),
    {
        self.entries.len() == 0
    }

    /// Roots every recorded object, in order, in the next slots of the
    /// spawned task's scope and returns their handles. More objects than
    /// free slots is a bug and is excluded here.
    pub fn root_in(&self, data: &mut AsyncScopeData) -> (handles: Vec<AsyncGcHandle>)
        requires
            old(data).wf(),
            old(data).used + self@.len() <= HANDLE_BLOCK_SIZE,
        ensures
            final(data).wf(),
            final(data).used == old(data).used + self@.len(),
            handles.len() == self@.len(),
            forall|k: int| 0 <= k < self@.len() ==> {
                &&& (#[trigger] handles@[k]).slot == old(data).used + k
                &&& handles@[k].type_id == self@[k].type_id
                &&& slot_values(final(data).slots@)[old(data).used + k] == self@[k].ptr
            },
            forall|j: int| 0 <= j < HANDLE_BLOCK_SIZE && !(old(data).used <= j < final(data).used)
                ==> #[trigger] slot_values(final(data).slots@)[j] == slot_values(old(data).slots@)[j],
    {
        let mut handles: Vec<AsyncGcHandle> = Vec::new();
        let mut k: usize = 0;
        while k < self.entries.len()
            invariant
                data.wf(),
                k <= self.entries.len(),
                old(data).used + self@.len() <= HANDLE_BLOCK_SIZE,
                data.used == old(data).used + k,
                handles.len() == k,
                forall|i: int| 0 <= i < k ==> {
                    &&& (#[trigger] handles@[i]).slot == old(data).used + i
                    &&& handles@[i].type_id == self@[i].type_id
                    &&& slot_values(data.slots@)[old(data).used + i] == self@[i].ptr
                },
                forall|j: int| 0 <= j < HANDLE_BLOCK_SIZE && !(old(data).used <= j < data.used)
                    ==> #[trigger] slot_values(data.slots@)[j] == slot_values(old(data).slots@)[j],
            decreases self.entries.len() - k,
        {
            let t = self.entries[k];
            let ghost before = slot_values(data.slots@);
            let slot = data.root(t.ptr);
            handles.push(AsyncGcHandle { slot, type_id: t.type_id });
            proof {
                assert forall|j: int| 0 <= j < HANDLE_BLOCK_SIZE && !(old(data).used <= j < data.used)
                    implies #[trigger] slot_values(data.slots@)[j] == slot_values(old(data).slots@)[j] by {
                    assert(slot_values(data.slots@)[j] == before[j]);
                }
                assert forall|i: int| 0 <= i < k + 1 implies {
                    &&& (#[trigger] handles@[i]).slot == old(data).used + i
                    &&& handles@[i].type_id == self@[i].type_id
                    &&& slot_values(data.slots@)[old(data).used + i] == self@[i].ptr
                } by {
                    if i < k {
                        assert(slot_values(data.slots@)[old(data).used + i] == before[old(data).used + i]);
                    }
                }
            }
            k = k + 1;
        }
        handles
    }
}

impl Default for GcScope {
    fn default() -> (s: Self)
        ensures
            s@ == Seq::<TrackedGc>::empty(),
    {
        GcScope::new()
    }
}

/// What the async scopes `scopes` root, scope after scope.
pub open spec fn async_roots(scopes: Seq<AsyncScopeData>) -> Seq<usize>
    decreases scopes.len(),
{
    if scopes.len() == 0 {
        Seq::empty()
    } else {
        let last = scopes.last();
        async_roots(scopes.drop_last()) + non_zero(slot_values(last.slots@).take(last.used as int))
    }
}

} // verus!
