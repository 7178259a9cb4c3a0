//! Sweeping, promotion and free-list management of one small-object page.
//!
//! A page is its header plus, for every object slot, the object metadata the
//! collector reads (weak count, whether the value was already dropped) and
//! the free-list link that a free slot stores in its first bytes.

use vstd::prelude::*;
use crate::page::{
    PageHeader, same_scalars, same_page, flag_set, encode_head, decode_head, PAGE_FLAG_LARGE, PAGE_FLAG_ALL_DEAD, PAGE_FLAG_NEEDS_SWEEP,
    PAGE_SLOTS, FREE_LIST_NONE, spec_header_size,
};

verus! {

/// Collector-visible metadata of one object slot.
#[derive(Clone, Copy)]
pub struct GcSlot {
    /// Number of weak references to the object.
    pub weak_count: usize,
    /// The value was already dropped; only the allocation remains.
    pub value_dead: bool,
    /// Free-list link stored in the slot while it is free.
    pub next_free: Option<u16>,
}

/// A small-object page: header and slot metadata.
pub struct Page {
    /// The page header.
    pub header: PageHeader,
    /// One entry per object slot.
    pub slots: Vec<GcSlot>,
}

/// The indices below `n` that satisfy `p`, in ascending order.
pub open spec fn indices_where(n: int, p: spec_fn(int) -> bool) -> Seq<usize>
    decreases n,
{
    if n <= 0 {
        Seq::empty()
    } else if p(n - 1) {
        indices_where(n - 1, p).push((n - 1) as usize)
    } else {
        indices_where(n - 1, p)
    }
}

/// The first index in `[from, n)` that satisfies `p`.
pub open spec fn first_where(p: spec_fn(int) -> bool, from: int, n: int) -> Option<u16>
    decreases n - from,
{
    if from >= n {
        None
    } else if p(from) {
        Some(from as u16)
    } else {
        first_where(p, from + 1, n)
    }
}

/// The first index found lies in the searched range.
pub proof fn lemma_first_where_range(p: spec_fn(int) -> bool, from: int, n: int)
    requires
        0 <= from,
        n <= 0xffff,
    ensures
        first_where(p, from, n) matches Some(v) ==> from <= v < n && p(v as int),
    decreases n - from,
{
    if from < n && !p(from) {
        lemma_first_where_range(p, from + 1, n);
    }
}

/// At most `n` indices below `n` satisfy a predicate.
pub proof fn lemma_indices_where_len(n: int, p: spec_fn(int) -> bool)
    ensures
        indices_where(n, p).len() <= if n < 0 { 0 } else { n },
    decreases n,
{
    if n > 0 {
        lemma_indices_where_len(n - 1, p);
    }
}

/// A link is `None` or names a slot below `n`.
pub open spec fn link_in_range(l: Option<u16>, n: int) -> bool {
    match l {
        Some(v) => (v as int) < n,
        None => true,
    }
}

impl Page {
    /// Slot metadata matches the header, every bitmap index is in range and
    /// every free-list link names a slot of the page.
    pub open spec fn wf(&self) -> bool {
        &&& self.header.wf()
        &&& self.slots.len() == self.header.obj_count
        &&& self.header.obj_count as int <= PAGE_SLOTS
        &&& link_in_range(decode_head(self.header.free_list_head), self.header.obj_count as int)
        &&& forall|i: int| 0 <= i < self.slots.len() ==> link_in_range(#[trigger] self.slots@[i].next_free, self.header.obj_count as int)
    }

    /// Number of slots.
    pub open spec fn n(&self) -> int {
        self.header.obj_count as int
    }

    /// The page takes part in a sweep: it is a small-object page and, for a
    /// young-only sweep, it is young.
    pub open spec fn swept_by(&self, only_young: bool) -> bool {
        !flag_set(self.header.flags, PAGE_FLAG_LARGE) && !(only_young && self.header.generation > 0)
    }

    /// Slot `i` holds an unreachable object: allocated and not marked.
    pub open spec fn dying(&self, i: int) -> bool {
        self.header.allocated().contains(i) && !self.header.marked().contains(i)
    }

    /// Slot `i` is reclaimed by the second sweep phase: unreachable, its value
    /// dropped, no weak reference left.
    pub open spec fn reclaimable(&self, i: int) -> bool {
        self.dying(i) && self.slots@[i].weak_count == 0 && self.slots@[i].value_dead
    }

    /// Slot `i` is threaded into the free list rebuilt by the second phase:
    /// reclaimed now, or already free and not the current list head.
    pub open spec fn relinked(&self, i: int) -> bool {
        ||| self.reclaimable(i)
        ||| (!self.header.allocated().contains(i) && decode_head(self.header.free_list_head) != Some(i as u16))
    }

    /// `after` is `before` after the first sweep phase.
    pub open spec fn finalized(before: Page, after: Page, only_young: bool) -> bool {
        &&& after.wf()
        &&& if !before.swept_by(only_young) {
            &&& after.header == before.header
            &&& after.slots@ == before.slots@
        } else {
            &&& same_scalars(after.header, before.header)
            &&& after.header.marked() == before.header.marked().difference(vstd::set_lib::set_int_range(0, before.n()))
            &&& after.header.allocated() == before.header.allocated()
            &&& after.header.dirty() == before.header.dirty()
            &&& after.slots.len() == before.slots.len()
            &&& forall|i: int| 0 <= i < before.n() ==> {
                &&& (#[trigger] after.slots@[i]).weak_count == before.slots@[i].weak_count
                &&& after.slots@[i].next_free == before.slots@[i].next_free
                &&& after.slots@[i].value_dead == (before.slots@[i].value_dead || before.dying(i))
            }
        }
    }

    /// The slots whose value the first sweep phase drops.
    pub open spec fn finalize_drops(self, only_young: bool) -> Seq<usize> {
        if self.swept_by(only_young) {
            indices_where(self.n(), |i: int| self.dying(i) && !self.slots@[i].value_dead)
        } else {
            Seq::empty()
        }
    }

    /// `after` is `before` after the second sweep phase.
    pub open spec fn reclaimed_into(before: Page, after: Page, only_young: bool) -> bool {
        &&& after.wf()
        &&& if !before.swept_by(only_young) {
            &&& after.header == before.header
            &&& after.slots@ == before.slots@
        } else {
            &&& after.header.allocated() == before.header.allocated().difference(
                Set::new(|i: int| 0 <= i < before.n() && before.reclaimable(i)),
            )
            &&& after.header.marked() == before.header.marked()
            &&& after.header.dirty() == before.header.dirty()
            &&& same_scalars(after.header, PageHeader { free_list_head: after.header.free_list_head, ..before.header })
            &&& after.header.free_list_head == encode_head(first_where(|i: int| before.relinked(i), 0, before.n()))
            &&& after.slots.len() == before.slots.len()
            &&& forall|i: int| 0 <= i < before.n() ==> {
                &&& (#[trigger] after.slots@[i]).weak_count == before.slots@[i].weak_count
                &&& after.slots@[i].value_dead == before.slots@[i].value_dead
                &&& after.slots@[i].next_free == (if before.relinked(i) {
                    first_where(|j: int| before.relinked(j), i + 1, before.n())
                } else {
                    before.slots@[i].next_free
                })
            }
        }
    }

    /// How many slots the second sweep phase reclaims.
    pub open spec fn reclaim_count(self, only_young: bool) -> int {
        if self.swept_by(only_young) {
            indices_where(self.n(), |i: int| self.reclaimable(i)).len() as int
        } else {
            0
        }
    }

    /// First sweep phase: clears the mark of every reachable object and
    /// retires every unreachable one. Returns the slots whose value must be
    /// dropped now and the slots left for the second phase to reclaim.
    pub fn sweep_phase1_finalize(&mut self, only_young: bool) -> (r: (Vec<usize>, Vec<usize>))
        requires
            old(self).wf(),
        ensures
            final(self).wf(),
            Page::finalized(*old(self), *final(self), only_young),
            r.0@ == old(self).finalize_drops(only_young),
            !old(self).swept_by(only_young) ==> {
                &&& r.0@ == Seq::<usize>::empty()
                &&& r.1@ == Seq::<usize>::empty()
                &&& final(self).header == old(self).header
                &&& final(self).slots@ == old(self).slots@
            },
            old(self).swept_by(only_young) ==> {
                &&& same_scalars(final(self).header, old(self).header)
                &&& final(self).header.marked() == old(self).header.marked().difference(
                    vstd::set_lib::set_int_range(0, old(self).n()),
                )
                &&& final(self).header.allocated() == old(self).header.allocated()
                &&& final(self).header.dirty() == old(self).header.dirty()
                &&& final(self).slots.len() == old(self).slots.len()
                &&& forall|i: int| 0 <= i < old(self).n() ==> {
                    &&& (#[trigger] final(self).slots@[i]).weak_count == old(self).slots@[i].weak_count
                    &&& final(self).slots@[i].next_free == old(self).slots@[i].next_free
                    &&& final(self).slots@[i].value_dead == (old(self).slots@[i].value_dead || old(self).dying(i))
                }
                &&& r.0@ == indices_where(old(self).n(), |i: int| old(self).dying(i) && !old(self).slots@[i].value_dead)
                &&& r.1@ == indices_where(old(self).n(), |i: int| old(self).dying(i) && old(self).slots@[i].weak_count == 0)
            },
    {
        let mut dropped: Vec<usize> = Vec::new();
        let mut pending: Vec<usize> = Vec::new();
        if self.header.is_large_object() {
            return (dropped, pending);
        }
        if only_young && self.header.generation > 0 {
            return (dropped, pending);
        }
        let ghost pre = *self;
        let n: usize = self.header.obj_count as usize;
        let mut i: usize = 0;
        while i < n
            invariant
                pre.wf(),
                self.wf(),
                n == pre.n(),
                i <= n,
                same_scalars(self.header, pre.header),
                self.header.allocated() == pre.header.allocated(),
                self.header.dirty() == pre.header.dirty(),
                self.header.marked() == pre.header.marked().difference(vstd::set_lib::set_int_range(0, i as int)),
                self.slots.len() == pre.slots.len(),
                forall|k: int| 0 <= k < n ==> {
                    &&& (#[trigger] self.slots@[k]).weak_count == pre.slots@[k].weak_count
                    &&& self.slots@[k].next_free == pre.slots@[k].next_free
                    &&& self.slots@[k].value_dead == (if k < i { pre.slots@[k].value_dead || pre.dying(k) } else { pre.slots@[k].value_dead })
                },
                dropped@ == indices_where(i as int, |k: int| pre.dying(k) && !pre.slots@[k].value_dead),
                pending@ == indices_where(i as int, |k: int| pre.dying(k) && pre.slots@[k].weak_count == 0),
            decreases n - i,
        {
            let ghost before = *self;
            if self.header.is_marked(i) {
                self.header.clear_mark(i);
                proof {
                    assert(self.header.marked() =~= pre.header.marked().difference(vstd::set_lib::set_int_range(0, i + 1)));
                }
            } else {
                if self.header.is_allocated(i) {
                    let slot = self.slots[i];
                    if slot.weak_count > 0 {
                        if !slot.value_dead {
                            dropped.push(i);
                            self.slots.set(i, GcSlot { value_dead: true, ..slot });
                        }
                    } else {
                        if !slot.value_dead {
                            dropped.push(i);
                        }
                        self.slots.set(i, GcSlot { value_dead: true, ..slot });
                        pending.push(i);
                    }
                }
                proof {
                    assert(self.header.marked() =~= pre.header.marked().difference(vstd::set_lib::set_int_range(0, i + 1)));
                }
            }
            proof {
                assert forall|k: int| 0 <= k < self.slots.len() implies link_in_range(#[trigger] self.slots@[k].next_free, self.header.obj_count as int) by {
                    assert(self.slots@[k].next_free == pre.slots@[k].next_free);
                }
            }
            i = i + 1;
        }
        (dropped, pending)
    }

    /// Second sweep phase: reclaims every unreachable slot whose value is
    /// dropped and that no weak reference names, and rebuilds the free list
    /// from scratch in ascending slot order. Returns the number reclaimed.
    pub fn sweep_phase2_reclaim(&mut self, only_young: bool) -> (reclaimed: usize)
        requires
            old(self).wf(),
        ensures
            final(self).wf(),
            Page::reclaimed_into(*old(self), *final(self), only_young),
            reclaimed == old(self).reclaim_count(only_young),
            !old(self).swept_by(only_young) ==> {
                &&& reclaimed == 0
                &&& final(self).header == old(self).header
                &&& final(self).slots@ == old(self).slots@
            },
            old(self).swept_by(only_young) ==> {
                &&& reclaimed == indices_where(old(self).n(), |i: int| old(self).reclaimable(i)).len()
                &&& final(self).header.allocated() == old(self).header.allocated().difference(
                    Set::new(|i: int| 0 <= i < old(self).n() && old(self).reclaimable(i)),
                )
                &&& final(self).header.marked() == old(self).header.marked()
                &&& final(self).header.dirty() == old(self).header.dirty()
                &&& same_scalars(
                    final(self).header,
                    PageHeader { free_list_head: final(self).header.free_list_head, ..old(self).header },
                )
                &&& final(self).header.free_list_head == encode_head(
                    first_where(|i: int| old(self).relinked(i), 0, old(self).n()),
                )
                &&& final(self).slots.len() == old(self).slots.len()
                &&& forall|i: int| 0 <= i < old(self).n() ==> {
                    &&& (#[trigger] final(self).slots@[i]).weak_count == old(self).slots@[i].weak_count
                    &&& final(self).slots@[i].value_dead == old(self).slots@[i].value_dead
                    &&& final(self).slots@[i].next_free == (if old(self).relinked(i) {
                        first_where(|j: int| old(self).relinked(j), i + 1, old(self).n())
                    } else {
                        old(self).slots@[i].next_free
                    })
                }
            },
    {
        if self.header.is_large_object() {
            return 0;
        }
        if only_young && self.header.generation > 0 {
            return 0;
        }
        let ghost pre = *self;
        let ghost linked = |j: int| pre.relinked(j);
        let ghost reclaim = |j: int| pre.reclaimable(j);
        let n: usize = self.header.obj_count as usize;
        let current_head = self.header.free_list_head();
        let mut free_head: Option<u16> = None;
        let mut reclaimed: usize = 0;
        let mut i: usize = n;
        proof {
            assert(indices_where(n as int, reclaim).len() == indices_where(n as int, reclaim).len());
        }
        while i > 0
            invariant
                pre.wf(),
                self.wf(),
                n == pre.n(),
                i <= n,
                current_head == decode_head(pre.header.free_list_head),
                same_scalars(self.header, pre.header),
                self.header.marked() == pre.header.marked(),
                self.header.dirty() == pre.header.dirty(),
                self.header.allocated() == pre.header.allocated().difference(
                    Set::new(|k: int| i <= k < n && pre.reclaimable(k)),
                ),
                free_head == first_where(linked, i as int, n as int),
                linked == (|j: int| pre.relinked(j)),
                reclaim == (|j: int| pre.reclaimable(j)),
                reclaimed + indices_where(i as int, reclaim).len() == indices_where(n as int, reclaim).len(),
                self.slots.len() == pre.slots.len(),
                forall|k: int| 0 <= k < n ==> {
                    &&& (#[trigger] self.slots@[k]).weak_count == pre.slots@[k].weak_count
                    &&& self.slots@[k].value_dead == pre.slots@[k].value_dead
                    &&& self.slots@[k].next_free == (if i <= k && pre.relinked(k) {
                        first_where(linked, k + 1, n as int)
                    } else {
                        pre.slots@[k].next_free
                    })
                },
            decreases i,
        {
            i = i - 1;
            let is_alloc = self.header.is_allocated(i);
            let is_marked = self.header.is_marked(i);
            let slot = self.slots[i];
            proof {
                assert(is_alloc == pre.header.allocated().contains(i as int));
                assert(is_marked == pre.header.marked().contains(i as int));
                assert(self.header.marked() == pre.header.marked());
            }
            let ghost old_head = free_head;
            proof {
                lemma_indices_where_len(n as int, reclaim);
                lemma_indices_where_len(i as int, reclaim);
            }
            if is_alloc && !is_marked && slot.weak_count == 0 && slot.value_dead {
                self.slots.set(i, GcSlot { next_free: free_head, ..slot });
                free_head = Some(i as u16);
                self.header.clear_allocated(i);
                reclaimed = reclaimed + 1;
                proof {
                    assert(self.header.allocated() =~= pre.header.allocated().difference(
                        Set::new(|k: int| i <= k < n && pre.reclaimable(k)),
                    ));
                }
            } else if !is_alloc {
                let head_written = match current_head {
                    Some(h) => h as usize == i,
                    None => false,
                };
                if !head_written {
                    self.slots.set(i, GcSlot { next_free: free_head, ..slot });
                    free_head = Some(i as u16);
                }
                proof {
                    assert(self.header.allocated() =~= pre.header.allocated().difference(
                        Set::new(|k: int| i <= k < n && pre.reclaimable(k)),
                    ));
                }
            } else {
                proof {
                    assert(self.header.allocated() =~= pre.header.allocated().difference(
                        Set::new(|k: int| i <= k < n && pre.reclaimable(k)),
                    ));
                }
            }
            proof {
                assert(linked(i as int) == pre.relinked(i as int));
                assert(free_head == first_where(linked, i as int, n as int));
                lemma_first_where_range(linked, i + 1, n as int);
                assert forall|k: int| 0 <= k < self.slots.len() implies link_in_range(#[trigger] self.slots@[k].next_free, self.header.obj_count as int) by {
                    if i <= k && pre.relinked(k) {
                        lemma_first_where_range(linked, k + 1, n as int);
                    }
                }
            }
        }
        proof {
            lemma_first_where_range(linked, 0, n as int);
        }
        self.header.set_free_list_head(free_head);
        reclaimed
    }
}


/// The indices in `[k, n)` that satisfy `p`, in ascending order.
pub open spec fn indices_from(k: int, n: int, p: spec_fn(int) -> bool) -> Seq<int>
    decreases n - k,
{
    if k >= n {
        Seq::empty()
    } else if p(k) {
        seq![k].add(indices_from(k + 1, n, p))
    } else {
        indices_from(k + 1, n, p)
    }
}

/// The slots visited by following free-list links from `head`, at most
/// `fuel` of them.
pub open spec fn free_walk(slots: Seq<GcSlot>, head: Option<u16>, fuel: nat) -> Seq<int>
    decreases fuel,
{
    if fuel == 0 {
        Seq::empty()
    } else {
        match head {
            None => Seq::empty(),
            Some(h) => if (h as int) < slots.len() {
                seq![h as int].add(free_walk(slots, slots[h as int].next_free, (fuel - 1) as nat))
            } else {
                seq![h as int]
            },
        }
    }
}

proof fn lemma_walk_threaded(slots: Seq<GcSlot>, p: spec_fn(int) -> bool, k: int, n: int, fuel: nat)
    requires
        0 <= k <= n,
        n <= 0xffff,
        slots.len() == n,
        fuel >= n - k,
        forall|i: int| 0 <= i < n && p(i) ==> #[trigger] slots[i].next_free == first_where(p, i + 1, n),
    ensures
        free_walk(slots, first_where(p, k, n), fuel) == indices_from(k, n, p),
    decreases n - k,
{
    if k >= n {
    } else if p(k) {
        lemma_walk_threaded(slots, p, k + 1, n, (fuel - 1) as nat);
        assert(first_where(p, k, n) == Some(k as u16));
        assert((k as u16) as int == k);
    } else {
        lemma_walk_threaded(slots, p, k + 1, n, fuel);
    }
}

/// After the second sweep phase the free list threads exactly the slots it
/// relinked, in ascending order: following links from the new head visits
/// each of them once and nothing else.
pub proof fn law_rebuilt_free_list_is_ascending(before: Page, after: Page)
    requires
        before.wf(),
        after.wf(),
        after.slots.len() == before.slots.len(),
        after.header.free_list_head == encode_head(first_where(|i: int| before.relinked(i), 0, before.n())),
        forall|i: int| 0 <= i < before.n() ==> (#[trigger] after.slots@[i]).next_free == (if before.relinked(i) {
            first_where(|j: int| before.relinked(j), i + 1, before.n())
        } else {
            before.slots@[i].next_free
        }),
    ensures
        free_walk(after.slots@, decode_head(after.header.free_list_head), before.n() as nat)
            == indices_from(0, before.n(), |i: int| before.relinked(i)),
{
    let p = |i: int| before.relinked(i);
    let n = before.n();
    lemma_first_where_range(p, 0, n);
    assert forall|i: int| 0 <= i < n && p(i) implies #[trigger] after.slots@[i].next_free == first_where(p, i + 1, n) by {
    }
    lemma_walk_threaded(after.slots@, p, 0, n, n as nat);
}

impl Page {
    /// Number of allocated slots among the first `k` bitmap positions.
    pub open spec fn allocated_below(&self, k: int) -> Set<int> {
        self.header.allocated().intersect(vstd::set_lib::set_int_range(0, k))
    }

    /// Promotes a young page with survivors to the old generation; returns
    /// the bytes promoted (survivors times block size).
    pub fn promote_if_young(&mut self) -> (promoted: usize)
        requires
            old(self).wf(),
            old(self).header.block_size as int * PAGE_SLOTS <= usize::MAX,
        ensures
            final(self).wf(),
            final(self).slots@ == old(self).slots@,
            old(self).header.generation == 0 && !old(self).header.allocated().is_empty() ==> {
                &&& final(self).header == (PageHeader { generation: 1, ..old(self).header })
                &&& promoted == old(self).header.allocated().len() * old(self).header.block_size
            },
            !(old(self).header.generation == 0 && !old(self).header.allocated().is_empty()) ==> {
                &&& final(self).header == old(self).header
                &&& promoted == 0
            },
    {
        if self.header.generation != 0 {
            return 0;
        }
        let mut survivors: usize = 0;
        let mut i: usize = 0;
        proof {
            assert(self.allocated_below(0) =~= Set::<int>::empty());
        }
        while i < PAGE_SLOTS
            invariant
                self.wf(),
                i <= PAGE_SLOTS,
                self.allocated_below(i as int).finite(),
                survivors == self.allocated_below(i as int).len(),
                survivors <= i,
            decreases PAGE_SLOTS - i,
        {
            let ghost before = self.allocated_below(i as int);
            if self.header.is_allocated(i) {
                proof {
                    assert(self.allocated_below(i + 1) =~= before.insert(i as int));
                    assert(!before.contains(i as int));
                }
                survivors = survivors + 1;
            } else {
                proof {
                    assert(self.allocated_below(i + 1) =~= before);
                }
            }
            i = i + 1;
        }
        proof {
            assert(self.allocated_below(PAGE_SLOTS as int) =~= self.header.allocated());
            if self.header.allocated().is_empty() {
                assert(self.header.allocated() =~= Set::<int>::empty());
            } else {
                let x = self.header.allocated().choose();
                assert(self.header.allocated().contains(x));
                assert(self.header.allocated().remove(x).len() + 1 == self.header.allocated().len());
            }
            assert(survivors * (self.header.block_size as int) <= PAGE_SLOTS * (self.header.block_size as int)) by (nonlinear_arith)
                requires
                    survivors <= PAGE_SLOTS,
            ;
        }
        if survivors == 0 {
            return 0;
        }
        self.header.generation = 1;
        survivors * (self.header.block_size as usize)
    }

    /// What popping the page's free list returns for block size `bs`: the
    /// head slot and whether the list is then empty, or nothing when the
    /// page is a large-object page (unless `known_small`), has another block
    /// size, has an empty list or an allocated head slot.
    pub open spec fn pop_result(self, bs: usize, known_small: bool) -> Option<(usize, bool)> {
        let h = self.header;
        if (!known_small && flag_set(h.flags, PAGE_FLAG_LARGE)) || h.block_size as int != bs as int || h.free_list_head
            == FREE_LIST_NONE {
            None
        } else if h.allocated().contains(h.free_list_head as int) {
            None
        } else {
            Some((h.free_list_head as usize, self.slots@[h.free_list_head as int].next_free is None))
        }
    }

    /// `after` is `before` once its free-list head was popped.
    pub open spec fn popped(before: Page, after: Page) -> bool {
        let idx = before.header.free_list_head as int;
        let next = before.slots@[idx].next_free;
        &&& after.wf()
        &&& after.slots@ == before.slots@
        &&& after.header.free_list_head == encode_head(next)
        &&& after.header.allocated() == before.header.allocated().insert(idx)
        &&& after.header.marked() == before.header.marked()
        &&& after.header.dirty() == before.header.dirty()
        &&& after.header.flags == (if flag_set(before.header.flags, PAGE_FLAG_ALL_DEAD) {
            before.header.flags & !PAGE_FLAG_ALL_DEAD
        } else {
            before.header.flags
        })
        &&& after.header.dead_count == (if flag_set(before.header.flags, PAGE_FLAG_ALL_DEAD) {
            0
        } else {
            before.header.dead_count
        })
        &&& after.header.generation == before.header.generation
        &&& after.header.obj_count == before.header.obj_count
        &&& after.header.block_size == before.header.block_size
        &&& after.header.header_size == before.header.header_size
        &&& after.header.magic == before.header.magic
        &&& after.header.owner_thread == before.header.owner_thread
    }

    /// `after` is `before` after a pop that found nothing: unchanged, or
    /// with its stale free list dropped.
    pub open spec fn pop_left(before: Page, after: Page) -> bool {
        &&& after.wf()
        &&& after.slots@ == before.slots@
        &&& (same_scalars(after.header, before.header) || same_scalars(
            after.header,
            PageHeader { free_list_head: FREE_LIST_NONE, ..before.header },
        ))
        &&& after.header.marked() == before.header.marked()
        &&& after.header.dirty() == before.header.dirty()
        &&& after.header.allocated() == before.header.allocated()
    }

    /// Pops the first slot of the page's free list and marks it allocated.
    /// Returns the slot and whether the free list is now empty, or `None`
    /// when the page is a large-object page (unless `known_small`), has
    /// another block size, has an empty free list, or its head slot is
    /// already allocated; in that last case the free list is dropped.
    pub fn try_pop_from_page(&mut self, block_size: usize, known_small: bool) -> (r: Option<(usize, bool)>)
        requires
            old(self).wf(),
        ensures
            final(self).wf(),
            final(self).slots@ == old(self).slots@,
            r == old(self).pop_result(block_size, known_small),
            r is Some ==> Page::popped(*old(self), *final(self)),
            r is None ==> Page::pop_left(*old(self), *final(self)),
            (!known_small && flag_set(old(self).header.flags, PAGE_FLAG_LARGE))
                || old(self).header.block_size as int != block_size as int
                || old(self).header.free_list_head == FREE_LIST_NONE ==> {
                &&& r is None
                &&& final(self).header == old(self).header
            },
            !(!known_small && flag_set(old(self).header.flags, PAGE_FLAG_LARGE))
                && old(self).header.block_size as int == block_size as int
                && old(self).header.free_list_head != FREE_LIST_NONE
                && old(self).header.allocated().contains(old(self).header.free_list_head as int) ==> {
                &&& r is None
                &&& same_page(final(self).header, PageHeader { free_list_head: FREE_LIST_NONE, ..old(self).header })
            },
            !(!known_small && flag_set(old(self).header.flags, PAGE_FLAG_LARGE))
                && old(self).header.block_size as int == block_size as int
                && old(self).header.free_list_head != FREE_LIST_NONE
                && !old(self).header.allocated().contains(old(self).header.free_list_head as int) ==> {
                let idx = old(self).header.free_list_head as int;
                let next = old(self).slots@[idx].next_free;
                &&& r == Some((idx as usize, next is None))
                &&& final(self).header.free_list_head == encode_head(next)
                &&& final(self).header.allocated() == old(self).header.allocated().insert(idx)
                &&& final(self).header.marked() == old(self).header.marked()
                &&& final(self).header.dirty() == old(self).header.dirty()
                &&& final(self).header.flags == (if flag_set(old(self).header.flags, PAGE_FLAG_ALL_DEAD) {
                    old(self).header.flags & !PAGE_FLAG_ALL_DEAD
                } else {
                    old(self).header.flags
                })
                &&& final(self).header.dead_count == (if flag_set(old(self).header.flags, PAGE_FLAG_ALL_DEAD) {
                    0
                } else {
                    old(self).header.dead_count
                })
                &&& final(self).header.generation == old(self).header.generation
                &&& final(self).header.obj_count == old(self).header.obj_count
                &&& final(self).header.block_size == old(self).header.block_size
            },
    {
        if !known_small && self.header.is_large_object() {
            return None;
        }
        if self.header.block_size as usize != block_size {
            return None;
        }
        let idx = self.header.free_list_head_raw();
        if idx == FREE_LIST_NONE {
            return None;
        }
        let i: usize = idx as usize;
        if self.header.is_allocated(i) {
            let _ = self.header.compare_exchange_free_list(Some(idx), None);
            return None;
        }
        let next_head = self.slots[i].next_free;
        let exhausted = next_head.is_none();
        let _ = self.header.compare_exchange_free_list(Some(idx), next_head);
        self.header.set_allocated(i);
        if self.header.all_dead() {
            self.header.clear_all_dead();
            self.header.set_dead_count(0);
        }
        Some((i, exhausted))
    }

    /// Returns a slot to the page: pushes it on the free list and clears its
    /// allocation bit. Returns whether the slot's value still has to be
    /// dropped (it was not dropped before); a slot index past the last object
    /// leaves the page unchanged.
    pub fn free_slot(&mut self, idx: usize) -> (must_drop: bool)
        requires
            old(self).wf(),
        ensures
            final(self).wf(),
            idx < old(self).n() ==> Page::slot_freed(*old(self), *final(self), idx as int),
            idx >= old(self).n() ==> {
                &&& !must_drop
                &&& final(self).header == old(self).header
                &&& final(self).slots@ == old(self).slots@
            },
            idx < old(self).n() ==> {
                &&& must_drop == !old(self).slots@[idx as int].value_dead
                &&& same_scalars(final(self).header, PageHeader { free_list_head: idx as u16, ..old(self).header })
                &&& final(self).header.marked() == old(self).header.marked()
                &&& final(self).header.dirty() == old(self).header.dirty()
                &&& final(self).header.allocated() == old(self).header.allocated().remove(idx as int)
                &&& final(self).slots@ == old(self).slots@.update(
                    idx as int,
                    GcSlot { next_free: decode_head(old(self).header.free_list_head), ..old(self).slots@[idx as int] },
                )
            },
    {
        let n: usize = self.header.obj_count as usize;
        if idx >= n {
            return false;
        }
        let slot = self.slots[idx];
        let must_drop = !slot.value_dead;
        let next_head = self.header.free_list_head();
        self.slots.set(idx, GcSlot { next_free: next_head, ..slot });
        let _ = self.header.compare_exchange_free_list(next_head, Some(idx as u16));
        self.header.clear_allocated(idx);
        proof {
            assert forall|k: int| 0 <= k < self.slots.len() implies link_in_range(#[trigger] self.slots@[k].next_free, self.header.obj_count as int) by {
                if k != idx as int {
                    assert(self.slots@[k] == old(self).slots@[k]);
                }
            }
        }
        must_drop
    }
}

impl Page {
    /// `after` is `before` once the object at `addr` was freed from the page
    /// at `page_addr`, and `must_drop` tells whether its value still has to
    /// be dropped: the slot is the offset past the header divided by the
    /// block size; a large-object page, or an index past the last slot,
    /// stays as it was.
    pub open spec fn deallocated(before: Page, after: Page, page_addr: int, addr: int, must_drop: bool) -> bool {
        let idx = (addr - page_addr - spec_header_size(before.header.block_size as int)) / (before.header.block_size as int);
        if flag_set(before.header.flags, PAGE_FLAG_LARGE) || idx >= before.n() {
            &&& !must_drop
            &&& after.header == before.header
            &&& after.slots@ == before.slots@
        } else {
            &&& must_drop == !before.slots@[idx].value_dead
            &&& same_scalars(after.header, PageHeader { free_list_head: idx as u16, ..before.header })
            &&& after.header.marked() == before.header.marked()
            &&& after.header.dirty() == before.header.dirty()
            &&& after.header.allocated() == before.header.allocated().remove(idx)
            &&& after.slots@ == before.slots@.update(
                idx,
                GcSlot { next_free: decode_head(before.header.free_list_head), ..before.slots@[idx] },
            )
        }
    }
}

impl Page {
    /// Frees the object at `addr` of this page, which lies at `page_addr`:
    /// the slot is the offset past the header (as laid out for the page's
    /// block size) divided by the block size, and it is returned as
    /// `free_slot` returns it. A large-object page, or an index past the last
    /// slot, leaves the page unchanged. Returns whether the slot's value
    /// still has to be dropped.
    pub fn dealloc_object(&mut self, page_addr: usize, addr: usize) -> (must_drop: bool)
        requires
            old(self).wf(),
            old(self).header.block_size > 0,
            page_addr + spec_header_size(old(self).header.block_size as int) <= addr,
        ensures
            final(self).wf(),
            Page::deallocated(*old(self), *final(self), page_addr as int, addr as int, must_drop),
    {
        if self.header.is_large_object() {
            return false;
        }
        let block_size = self.header.block_size as usize;
        let header_size = PageHeader::header_size(block_size);
        let idx = (addr - page_addr - header_size) / block_size;
        self.free_slot(idx)
    }
}

impl Page {
    /// Slot `i` would be handed back to the free list by a lazy sweep of a
    /// page with survivors: unreachable and no weak reference left.
    pub open spec fn lazily_reclaimable(&self, i: int) -> bool {
        self.dying(i) && self.slots@[i].weak_count == 0
    }

    /// Slot `i` would be handed back to the free list by the lazy sweep of
    /// an all-dead page: allocated and no weak reference left.
    pub open spec fn reclaimable_when_all_dead(&self, i: int) -> bool {
        self.header.allocated().contains(i) && self.slots@[i].weak_count == 0
    }

    /// The last index below `n` that satisfies `p`.
    pub open spec fn last_below(n: int, p: spec_fn(int) -> bool) -> Option<int>
        decreases n,
    {
        if n <= 0 {
            None
        } else if p(n - 1) {
            Some(n - 1)
        } else {
            Page::last_below(n - 1, p)
        }
    }

    /// The raw free-list head once the slots below `i` satisfying `reclaim`
    /// were pushed, in ascending order, onto the free list of `before`.
    pub open spec fn head_after(before: Page, i: int, reclaim: spec_fn(int) -> bool) -> u16 {
        match Page::last_below(i, reclaim) {
            Some(j) => j as u16,
            None => before.header.free_list_head,
        }
    }

    /// The link a slot `i` satisfying `reclaim` gets when it is pushed: the
    /// last such slot below it, or the head of `before`.
    pub open spec fn link_below(before: Page, i: int, reclaim: spec_fn(int) -> bool) -> Option<u16> {
        match Page::last_below(i, reclaim) {
            Some(j) => Some(j as u16),
            None => decode_head(before.header.free_list_head),
        }
    }

    /// The page after a lazy sweep that dropped the values of the slots
    /// satisfying `hit`, pushed the slots satisfying `reclaim` in ascending
    /// order onto the free list (clearing their allocation bits), and
    /// cleared the marks of those satisfying `clear`; every other header
    /// field, the dirty bits, weak counts and the links of other slots are
    /// unchanged.
    pub open spec fn lazily_reclaimed(
        before: Page,
        after: Page,
        hit: spec_fn(int) -> bool,
        reclaim: spec_fn(int) -> bool,
        clear: spec_fn(int) -> bool,
    ) -> bool {
        &&& same_scalars(
            after.header,
            PageHeader { free_list_head: Page::head_after(before, before.n(), reclaim), ..before.header },
        )
        &&& after.header.allocated() == before.header.allocated().difference(
            Set::new(|k: int| 0 <= k < before.n() && reclaim(k)),
        )
        &&& after.header.dirty() == before.header.dirty()
        &&& after.header.marked() == before.header.marked().difference(
            Set::new(|k: int| 0 <= k < before.n() && clear(k)),
        )
        &&& after.slots.len() == before.slots.len()
        &&& forall|i: int| 0 <= i < before.n() ==> {
            &&& (#[trigger] after.slots@[i]).weak_count == before.slots@[i].weak_count
            &&& after.slots@[i].next_free == (if reclaim(i) {
                Page::link_below(before, i, reclaim)
            } else {
                before.slots@[i].next_free
            })
            &&& after.slots@[i].value_dead == (before.slots@[i].value_dead || hit(i))
        }
    }

    /// Slots a lazy sweep of a page with survivors reclaims.
    pub open spec fn lazy_reclaim_count(&self) -> int {
        indices_where(self.n(), |i: int| self.lazily_reclaimable(i)).len() as int
    }

    /// Lazy sweep of a page with survivors: every unreachable object has its
    /// value dropped; one that no weak reference names is also reclaimed:
    /// pushed onto the free list and its allocation bit cleared; every
    /// other slot loses its mark. Returns how many slots were reclaimed and
    /// whether every slot was.
    pub fn lazy_sweep_page(&mut self) -> (r: (usize, bool))
        requires
            old(self).wf(),
        ensures
            final(self).wf(),
            r.0 == old(self).lazy_reclaim_count(),
            r.1 == (forall|i: int| 0 <= i < old(self).n() ==> #[trigger] old(self).lazily_reclaimable(i)),
            Page::lazily_reclaimed(
                *old(self),
                *final(self),
                |i: int| old(self).dying(i),
                |i: int| old(self).lazily_reclaimable(i),
                |i: int| !old(self).dying(i),
            ),
    {
        let ghost pre = *self;
        let ghost rec = |i: int| pre.lazily_reclaimable(i);
        let n: usize = self.header.obj_count as usize;
        let mut reclaimed: usize = 0;
        let mut all_dead = true;
        let mut i: usize = 0;
        while i < n
            invariant
                pre.wf(),
                self.wf(),
                n == pre.n(),
                n <= PAGE_SLOTS,
                i <= n,
                rec == (|i: int| pre.lazily_reclaimable(i)),
                reclaimed == indices_where(i as int, rec).len(),
                all_dead == (forall|k: int| 0 <= k < i ==> #[trigger] pre.lazily_reclaimable(k)),
                same_scalars(self.header, PageHeader { free_list_head: Page::head_after(pre, i as int, rec), ..pre.header }),
                self.header.allocated() == pre.header.allocated().difference(Set::new(|k: int| 0 <= k < i && rec(k))),
                self.header.dirty() == pre.header.dirty(),
                self.header.marked() == pre.header.marked().difference(
                    Set::new(|k: int| 0 <= k < i && !pre.dying(k)),
                ),
                self.slots.len() == pre.slots.len(),
                forall|k: int| 0 <= k < n ==> {
                    &&& (#[trigger] self.slots@[k]).weak_count == pre.slots@[k].weak_count
                    &&& self.slots@[k].next_free == (if k < i && rec(k) {
                        Page::link_below(pre, k, rec)
                    } else {
                        pre.slots@[k].next_free
                    })
                    &&& self.slots@[k].value_dead == (if k < i {
                        pre.slots@[k].value_dead || pre.dying(k)
                    } else {
                        pre.slots@[k].value_dead
                    })
                },
            decreases n - i,
        {
            proof {
                crate::sweep::lemma_indices_where_len(i as int, rec);
                Page::lemma_last_below_range(i as int, rec);
            }
            let is_allocated = self.header.is_allocated(i);
            let is_marked = self.header.is_marked(i);
            if is_allocated && !is_marked {
                let slot = self.slots[i];
                if slot.weak_count > 0 {
                    if !slot.value_dead {
                        self.slots.set(i, GcSlot { value_dead: true, ..slot });
                    }
                    all_dead = false;
                    proof {
                        assert(self.header.marked() =~= pre.header.marked().difference(
                            Set::new(|k: int| 0 <= k < i + 1 && !pre.dying(k)),
                        ));
                        assert(self.header.allocated() =~= pre.header.allocated().difference(
                            Set::new(|k: int| 0 <= k < i + 1 && rec(k)),
                        ));
                    }
                } else {
                    self.slots.set(i, GcSlot { value_dead: true, ..slot });
                    let ghost mid = *self;
                    proof {
                        assert forall|k: int| 0 <= k < self.slots.len() implies link_in_range(#[trigger] self.slots@[k].next_free, self.header.obj_count as int) by {
                            assert(self.slots@[k].next_free == mid.slots@[k].next_free);
                        }
                        assert(self.wf());
                    }
                    let _ = self.free_slot(i);
                    reclaimed = reclaimed + 1;
                    proof {
                        assert(self.header.marked() =~= pre.header.marked().difference(
                            Set::new(|k: int| 0 <= k < i + 1 && !pre.dying(k)),
                        ));
                        assert(self.header.allocated() =~= pre.header.allocated().difference(
                            Set::new(|k: int| 0 <= k < i + 1 && rec(k)),
                        ));
                    }
                }
            } else {
                self.header.clear_mark(i);
                all_dead = false;
                proof {
                    assert(self.header.marked() =~= pre.header.marked().difference(
                        Set::new(|k: int| 0 <= k < i + 1 && !pre.dying(k)),
                    ));
                    assert(self.header.allocated() =~= pre.header.allocated().difference(
                        Set::new(|k: int| 0 <= k < i + 1 && rec(k)),
                    ));
                }
            }
            proof {
                assert forall|k: int| 0 <= k < self.slots.len() implies link_in_range(#[trigger] self.slots@[k].next_free, self.header.obj_count as int) by {
                    Page::lemma_last_below_range(k, rec);
                }
            }
            i = i + 1;
        }
        proof {
            let clear = |i: int| !pre.dying(i);
            assert(self.header.marked() =~= pre.header.marked().difference(
                Set::new(|k: int| 0 <= k < pre.n() && clear(k)),
            ));
            assert(self.header.allocated() =~= pre.header.allocated().difference(
                Set::new(|k: int| 0 <= k < pre.n() && rec(k)),
            ));
        }
        (reclaimed, all_dead)
    }

    /// The last index found lies below the bound and satisfies the
    /// predicate.
    pub proof fn lemma_last_below_range(n: int, p: spec_fn(int) -> bool)
        ensures
            Page::last_below(n, p) matches Some(j) ==> 0 <= j < n && p(j),
        decreases n,
    {
        if n > 0 && !p(n - 1) {
            Page::lemma_last_below_range(n - 1, p);
        }
    }

    /// Lazy sweep of a page flagged all dead: every allocated object has
    /// its value dropped and its mark cleared; one that no weak reference
    /// names is also reclaimed (pushed onto the free list, allocation bit
    /// cleared). Returns how many slots were reclaimed.
    pub fn lazy_sweep_page_all_dead(&mut self) -> (reclaimed: usize)
        requires
            old(self).wf(),
        ensures
            final(self).wf(),
            reclaimed == indices_where(old(self).n(), |i: int| old(self).reclaimable_when_all_dead(i)).len(),
            Page::lazily_reclaimed(
                *old(self),
                *final(self),
                |i: int| old(self).header.allocated().contains(i),
                |i: int| old(self).reclaimable_when_all_dead(i),
                |i: int| old(self).header.allocated().contains(i),
            ),
    {
        let ghost pre = *self;
        let ghost rec = |i: int| pre.reclaimable_when_all_dead(i);
        let n: usize = self.header.obj_count as usize;
        let mut reclaimed: usize = 0;
        let mut i: usize = 0;
        while i < n
            invariant
                pre.wf(),
                self.wf(),
                n == pre.n(),
                n <= PAGE_SLOTS,
                i <= n,
                rec == (|i: int| pre.reclaimable_when_all_dead(i)),
                reclaimed == indices_where(i as int, rec).len(),
                same_scalars(self.header, PageHeader { free_list_head: Page::head_after(pre, i as int, rec), ..pre.header }),
                self.header.allocated() == pre.header.allocated().difference(Set::new(|k: int| 0 <= k < i && rec(k))),
                self.header.dirty() == pre.header.dirty(),
                self.header.marked() == pre.header.marked().difference(
                    Set::new(|k: int| 0 <= k < i && pre.header.allocated().contains(k)),
                ),
                self.slots.len() == pre.slots.len(),
                forall|k: int| 0 <= k < n ==> {
                    &&& (#[trigger] self.slots@[k]).weak_count == pre.slots@[k].weak_count
                    &&& self.slots@[k].next_free == (if k < i && rec(k) {
                        Page::link_below(pre, k, rec)
                    } else {
                        pre.slots@[k].next_free
                    })
                    &&& self.slots@[k].value_dead == (if k < i {
                        pre.slots@[k].value_dead || pre.header.allocated().contains(k)
                    } else {
                        pre.slots@[k].value_dead
                    })
                },
            decreases n - i,
        {
            proof {
                crate::sweep::lemma_indices_where_len(i as int, rec);
                Page::lemma_last_below_range(i as int, rec);
            }
            if self.header.is_allocated(i) {
                let slot = self.slots[i];
                if slot.weak_count > 0 {
                    if !slot.value_dead {
                        self.slots.set(i, GcSlot { value_dead: true, ..slot });
                    }
                } else {
                    self.slots.set(i, GcSlot { value_dead: true, ..slot });
                    let ghost mid = *self;
                    proof {
                        assert forall|k: int| 0 <= k < self.slots.len() implies link_in_range(#[trigger] self.slots@[k].next_free, self.header.obj_count as int) by {
                            assert(self.slots@[k].next_free == mid.slots@[k].next_free);
                        }
                        assert(self.wf());
                    }
                    let _ = self.free_slot(i);
                    reclaimed = reclaimed + 1;
                }
                self.header.clear_mark(i);
            }
            proof {
                assert(self.header.marked() =~= pre.header.marked().difference(
                    Set::new(|k: int| 0 <= k < i + 1 && pre.header.allocated().contains(k)),
                ));
                assert(self.header.allocated() =~= pre.header.allocated().difference(
                    Set::new(|k: int| 0 <= k < i + 1 && rec(k)),
                ));
                assert forall|k: int| 0 <= k < self.slots.len() implies link_in_range(#[trigger] self.slots@[k].next_free, self.header.obj_count as int) by {
                    Page::lemma_last_below_range(k, rec);
                }
            }
            i = i + 1;
        }
        proof {
            let clear = |i: int| pre.header.allocated().contains(i);
            assert(self.header.marked() =~= pre.header.marked().difference(
                Set::new(|k: int| 0 <= k < pre.n() && clear(k)),
            ));
            assert(self.header.allocated() =~= pre.header.allocated().difference(
                Set::new(|k: int| 0 <= k < pre.n() && rec(k)),
            ));
        }
        reclaimed
    }

    /// What a lazy sweep of this page reports reclaimed: every slot of an
    /// all-dead page; otherwise the slots it reclaims.
    pub open spec fn reported_reclaimed(&self) -> int {
        if flag_set(self.header.flags, PAGE_FLAG_ALL_DEAD) { self.n() } else { self.lazy_reclaim_count() }
    }

    /// `after` is `before` lazily swept with its sweep flags settled (see
    /// `sweep_specific_page`).
    pub open spec fn sweep_outcome(before: Page, after: Page) -> bool {
        let unflagged = Page {
            header: PageHeader { flags: before.header.flags, dead_count: before.header.dead_count, ..after.header },
            ..after
        };
        if flag_set(before.header.flags, PAGE_FLAG_ALL_DEAD) {
            &&& after.header.flags == before.header.flags & !PAGE_FLAG_ALL_DEAD & !PAGE_FLAG_NEEDS_SWEEP
            &&& after.header.dead_count == 0
            &&& Page::lazily_reclaimed(
                before,
                unflagged,
                |i: int| before.header.allocated().contains(i),
                |i: int| before.reclaimable_when_all_dead(i),
                |i: int| before.header.allocated().contains(i),
            )
        } else {
            let rc = before.lazy_reclaim_count();
            let dc = before.header.dead_count;
            let cleared = after.header.allocated().subset_of(after.header.marked());
            &&& after.header.flags == (if rc > 0 && rc == before.n() {
                before.header.flags & !PAGE_FLAG_NEEDS_SWEEP & !PAGE_FLAG_ALL_DEAD
            } else if rc > 0 {
                before.header.flags
            } else if cleared {
                before.header.flags & !PAGE_FLAG_NEEDS_SWEEP
            } else {
                before.header.flags
            })
            &&& after.header.dead_count == (if rc > 0 && rc == before.n() {
                0
            } else if rc > 0 {
                if rc <= dc { (dc - rc) as u16 } else { dc }
            } else if cleared {
                0
            } else {
                dc
            })
            &&& Page::lazily_reclaimed(
                before,
                unflagged,
                |i: int| before.dying(i),
                |i: int| before.lazily_reclaimable(i),
                |i: int| !before.dying(i),
            )
        }
    }

    /// Lazily sweeps this page and settles its sweep flags. An all-dead
    /// page is swept whole, loses its all-dead and needs-sweep flags and
    /// dead count, and reports every slot reclaimed. Any other page is swept
    /// object by object; it reclaims nothing (see `lazy_sweep_page`) and
    /// loses its needs-sweep flag and dead count when no allocated object is
    /// left unmarked. Returns the number reported reclaimed.
    pub fn sweep_specific_page(&mut self) -> (reclaimed: usize)
        requires
            old(self).wf(),
        ensures
            final(self).wf(),
            reclaimed == old(self).reported_reclaimed(),
            Page::sweep_outcome(*old(self), *final(self)),
    {
        let ghost pre = *self;
        let obj_count: usize = self.header.obj_count as usize;
        if self.header.all_dead() {
            self.lazy_sweep_page_all_dead();
            self.header.clear_all_dead();
            self.header.clear_needs_sweep();
            self.header.set_dead_count(0);
            return obj_count;
        }
        let (reclaimed_count, all_dead) = self.lazy_sweep_page();
        proof {
            crate::sweep::lemma_indices_where_len(pre.n(), |i: int| pre.lazily_reclaimable(i));
            lemma_flag_clears(pre.header.flags);
        }
        let mut reclaimed: usize = 0;
        if reclaimed_count > 0 {
            if all_dead && reclaimed_count == obj_count {
                self.header.set_all_dead();
            }
            if reclaimed_count == obj_count {
                self.header.clear_needs_sweep();
                self.header.set_dead_count(0);
                self.header.clear_all_dead();
            } else {
                let dc = self.header.dead_count();
                if (reclaimed_count as u16) <= dc {
                    self.header.set_dead_count(dc - reclaimed_count as u16);
                }
            }
            reclaimed = reclaimed_count;
        } else if self.header.is_fully_marked() {
            self.header.clear_needs_sweep();
            self.header.set_dead_count(0);
        }
        reclaimed
    }
}

/// Setting the all-dead flag and then clearing it with the needs-sweep
/// flag leaves the flags as clearing both would.
proof fn lemma_flag_clears(f: u8)
    ensures
        ((f | PAGE_FLAG_ALL_DEAD) & !PAGE_FLAG_NEEDS_SWEEP) & !PAGE_FLAG_ALL_DEAD == f & !PAGE_FLAG_NEEDS_SWEEP
            & !PAGE_FLAG_ALL_DEAD,
{
    assert(((f | 0x08u8) & !0x04u8) & !0x08u8 == (f & !0x04u8) & !0x08u8) by (bit_vector);
}

/// A lazy sweep counts the page as swept: it is all dead, or it reclaims
/// a slot.
pub open spec fn counts_swept(p: Page) -> bool {
    flag_set(p.header.flags, PAGE_FLAG_ALL_DEAD) || p.lazy_reclaim_count() > 0
}

/// The page waits for a lazy sweep: a small-object page flagged as
/// needing one.
pub open spec fn awaits_sweep(p: Page) -> bool {
    !flag_set(p.header.flags, PAGE_FLAG_LARGE) && flag_set(p.header.flags, PAGE_FLAG_NEEDS_SWEEP)
}

/// The pages a lazy sweep of at most `num_pages` pages picks: the first
/// ones that wait for it.
pub open spec fn pages_to_sweep(pages: Seq<Page>, num_pages: usize) -> Seq<usize> {
    let all = indices_where(pages.len() as int, |k: int| awaits_sweep(pages[k]));
    if all.len() <= num_pages { all } else { all.take(num_pages as int) }
}

/// The number of pages that wait for a lazy sweep.
pub fn pending_sweep_count(pages: &Vec<Page>) -> (n: usize)
    ensures
        n == indices_where(pages.len() as int, |k: int| awaits_sweep(pages@[k])).len(),
{
    let mut n: usize = 0;
    let mut k: usize = 0;
    while k < pages.len()
        invariant
            k <= pages.len(),
            n == indices_where(k as int, |j: int| awaits_sweep(pages@[j])).len(),
            n <= k,
        decreases pages.len() - k,
    {
        if !pages[k].header.is_large_object() && pages[k].header.needs_sweep() {
            n = n + 1;
        }
        k = k + 1;
    }
    n
}

/// Lazily sweeps the first `num_pages` pages that wait for it (see
/// `Page::sweep_specific_page`). Returns how many were swept: an all-dead
/// page counts, another page counts when it reclaimed something.
pub fn sweep_pending(pages: &mut Vec<Page>, num_pages: usize) -> (swept: usize)
    requires
        forall|j: int| 0 <= j < pages_to_sweep(old(pages)@, num_pages).len() ==> {
            let p = old(pages)@[#[trigger] pages_to_sweep(old(pages)@, num_pages)[j] as int];
            p.wf()
        },
    ensures
        final(pages).len() == old(pages).len(),
        swept == indices_where(
            pages_to_sweep(old(pages)@, num_pages).len() as int,
            |j: int| counts_swept(old(pages)@[pages_to_sweep(old(pages)@, num_pages)[j] as int]),
        ).len(),
        forall|k: int| 0 <= k < old(pages).len() ==> {
            if pages_to_sweep(old(pages)@, num_pages).contains(k as usize) {
                Page::sweep_outcome(old(pages)@[k], #[trigger] final(pages)@[k])
            } else {
                final(pages)@[k] == old(pages)@[k]
            }
        },
{
    let ghost sel = pages_to_sweep(pages@, num_pages);
    let ghost all = indices_where(pages@.len() as int, |k: int| awaits_sweep(pages@[k]));
    let mut chosen: Vec<usize> = Vec::new();
    let mut k: usize = 0;
    while k < pages.len() && chosen.len() < num_pages
        invariant
            k <= pages.len(),
            chosen.len() <= num_pages,
            all == indices_where(pages@.len() as int, |k: int| awaits_sweep(pages@[k])),
            chosen@ == indices_where(k as int, |j: int| awaits_sweep(pages@[j])),
        decreases pages.len() - k,
    {
        if !pages[k].header.is_large_object() && pages[k].header.needs_sweep() {
            chosen.push(k);
        }
        k = k + 1;
    }
    proof {
        lemma_indices_where_prefix(pages@.len() as int, k as int, |j: int| awaits_sweep(pages@[j]));
        lemma_indices_where_ascending(pages@.len() as int, |j: int| awaits_sweep(pages@[j]));
        if chosen.len() < num_pages {
            assert(k == pages.len());
            assert(chosen@ == all);
        } else {
            assert(chosen@ == all.take(num_pages as int));
        }
        assert(chosen@ == sel);
    }
    let ghost pre = pages@;
    let mut swept: usize = 0;
    let mut j: usize = 0;
    while j < chosen.len()
        invariant
            chosen@ == sel,
            sel == pages_to_sweep(pre, num_pages),
            j <= chosen.len(),
            pages.len() == pre.len(),
            forall|a: int, b: int| 0 <= a < b < sel.len() ==> sel[a] < sel[b],
            forall|a: int| 0 <= a < sel.len() ==> sel[a] < pre.len(),
            forall|a: int| 0 <= a < sel.len() ==> {
                let p = pre[#[trigger] sel[a] as int];
                p.wf()
            },
            swept == indices_where(j as int, |i: int| counts_swept(pre[sel[i] as int])).len(),
            swept <= j,
            forall|q: int| 0 <= q < pre.len() ==> {
                if sel.subrange(0, j as int).contains(q as usize) {
                    Page::sweep_outcome(pre[q], #[trigger] pages@[q])
                } else {
                    pages@[q] == pre[q]
                }
            },
        decreases chosen.len() - j,
    {
        let idx = chosen[j];
        proof {
            assert(!sel.subrange(0, j as int).contains(idx)) by {
                if sel.subrange(0, j as int).contains(idx) {
                    let w = choose|w: int| 0 <= w < j && #[trigger] sel.subrange(0, j as int)[w] == idx;
                    assert(sel[w] < sel[j as int]);
                }
            }
            assert(pages@[idx as int] == pre[idx as int]);
        }
        let mut page = pages.remove(idx);
        let all_dead = page.header.all_dead();
        let reclaimed = page.sweep_specific_page();
        pages.insert(idx, page);
        if all_dead || reclaimed > 0 {
            swept = swept + 1;
        }
        proof {
            assert(sel.subrange(0, j + 1) =~= sel.subrange(0, j as int).push(idx));
            assert forall|q: int| 0 <= q < pre.len() implies {
                if sel.subrange(0, j + 1).contains(q as usize) {
                    Page::sweep_outcome(pre[q], #[trigger] pages@[q])
                } else {
                    pages@[q] == pre[q]
                }
            } by {
                if q != idx as int {
                    if sel.subrange(0, j + 1).contains(q as usize) {
                        let w = choose|w: int| 0 <= w < j + 1 && #[trigger] sel.subrange(0, j + 1)[w] == q as usize;
                        assert(sel.subrange(0, j as int)[w] == q as usize);
                    } else {
                        assert(!sel.subrange(0, j as int).contains(q as usize)) by {
                            if sel.subrange(0, j as int).contains(q as usize) {
                                let w = choose|w: int| 0 <= w < j && #[trigger] sel.subrange(0, j as int)[w] == q as usize;
                                assert(sel.subrange(0, j + 1)[w] == q as usize);
                            }
                        }
                    }
                } else {
                    assert(sel.subrange(0, j + 1)[j as int] == idx);
                }
            }
        }
        j = j + 1;
    }
    proof {
        assert(sel.subrange(0, sel.len() as int) =~= sel);
    }
    swept
}

/// The indices below `n` satisfying `p`, taken up to `k`, are the prefix
/// of those below `n` that lie below `k`.
pub proof fn lemma_indices_where_prefix(n: int, k: int, p: spec_fn(int) -> bool)
    requires
        0 <= k <= n <= usize::MAX,
    ensures
        indices_where(n, p).len() >= indices_where(k, p).len(),
        indices_where(k, p) == indices_where(n, p).take(indices_where(k, p).len() as int),
        forall|a: int| indices_where(k, p).len() <= a < indices_where(n, p).len() ==> #[trigger] indices_where(n, p)[a] >= k,
    decreases n - k,
{
    if k < n {
        lemma_indices_where_prefix(n - 1, k, p);
        lemma_indices_where_len(n - 1, p);
        let s = indices_where(n - 1, p);
        let l = indices_where(k, p).len() as int;
        if p(n - 1) {
            assert(indices_where(n, p) == s.push((n - 1) as usize));
            assert(indices_where(n, p).take(l) =~= s.take(l));
            assert forall|a: int| l <= a < indices_where(n, p).len() implies #[trigger] indices_where(n, p)[a] >= k by {
                if a < s.len() {
                    assert(indices_where(n, p)[a] == s[a]);
                }
            }
        } else {
            assert(indices_where(n, p) == s);
        }
    } else {
        assert(indices_where(n, p).take(indices_where(n, p).len() as int) =~= indices_where(n, p));
    }
}

/// The indices satisfying a predicate come in strictly ascending order and
/// lie below the bound.
pub proof fn lemma_indices_where_ascending(n: int, p: spec_fn(int) -> bool)
    requires
        n <= usize::MAX,
    ensures
        forall|a: int, b: int| 0 <= a < b < indices_where(n, p).len() ==> indices_where(n, p)[a] < indices_where(n, p)[b],
        forall|a: int| 0 <= a < indices_where(n, p).len() ==> 0 <= #[trigger] indices_where(n, p)[a] < n
            && p(indices_where(n, p)[a] as int),
    decreases n,
{
    if n > 0 {
        lemma_indices_where_ascending(n - 1, p);
        let s = indices_where(n - 1, p);
        if p(n - 1) {
            assert(indices_where(n, p) == s.push((n - 1) as usize));
            assert forall|a: int| 0 <= a < indices_where(n, p).len() implies 0 <= #[trigger] indices_where(n, p)[a] < n
                && p(indices_where(n, p)[a] as int) by {
                if a < s.len() {
                    assert(indices_where(n, p)[a] == s[a]);
                }
            }
            assert forall|a: int, b: int| 0 <= a < b < indices_where(n, p).len() implies indices_where(n, p)[a] < indices_where(n, p)[b] by {
                assert(indices_where(n, p)[a] == s[a]);
                if b < s.len() {
                    assert(indices_where(n, p)[b] == s[b]);
                }
            }
        } else {
            assert(indices_where(n, p) == s);
        }
    }
}

/// The slots a batch pop takes, walking the free list from slot `idx` with
/// `rem` pops left, and the free-list head left behind (`nh` when the batch
/// runs out first). A slot found allocated ends the walk and leaves no head.
pub open spec fn batch_walk(slots: Seq<GcSlot>, allocated: Set<int>, idx: u16, rem: nat, nh: Option<u16>) -> (Seq<usize>, Option<u16>)
    decreases rem,
{
    if rem == 0 {
        (Seq::empty(), nh)
    } else if allocated.contains(idx as int) {
        (Seq::empty(), None)
    } else {
        match slots[idx as int].next_free {
            None => (seq![idx as usize], None),
            Some(n) => {
                let rest = batch_walk(slots, allocated, n, (rem - 1) as nat, Some(n));
                (seq![idx as usize] + rest.0, rest.1)
            },
        }
    }
}

/// Every slot a batch walk takes lies on the page and is free.
pub proof fn lemma_batch_walk_in_range(p: Page, idx: u16, rem: nat, nh: Option<u16>)
    requires
        p.wf(),
        (idx as int) < p.n(),
    ensures
        forall|k: int| 0 <= k < batch_walk(p.slots@, p.header.allocated(), idx, rem, nh).0.len() ==> {
            let j = #[trigger] batch_walk(p.slots@, p.header.allocated(), idx, rem, nh).0[k] as int;
            0 <= j < p.n() && !p.header.allocated().contains(j)
        },
        link_in_range(nh, p.n()) ==> link_in_range(batch_walk(p.slots@, p.header.allocated(), idx, rem, nh).1, p.n()),
    decreases rem,
{
    if rem > 0 && !p.header.allocated().contains(idx as int) {
        assert(link_in_range(p.slots@[idx as int].next_free, p.n()));
        match p.slots@[idx as int].next_free {
            None => {},
            Some(n) => {
                lemma_batch_walk_in_range(p, n, (rem - 1) as nat, Some(n));
                let rest = batch_walk(p.slots@, p.header.allocated(), n, (rem - 1) as nat, Some(n));
                let all = seq![idx as usize] + rest.0;
                assert forall|k: int| 0 <= k < all.len() implies {
                    let j = #[trigger] all[k] as int;
                    0 <= j < p.n() && !p.header.allocated().contains(j)
                } by {
                    if k > 0 {
                        assert(all[k] == rest.0[k - 1]);
                    }
                }
            },
        }
    }
}

impl Page {
    /// `after` is `before` once slot `idx` was handed back by `free_slot`.
    pub open spec fn slot_freed(before: Page, after: Page, idx: int) -> bool {
        &&& 0 <= idx < before.n()
        &&& same_scalars(after.header, PageHeader { free_list_head: idx as u16, ..before.header })
        &&& after.header.marked() == before.header.marked()
        &&& after.header.dirty() == before.header.dirty()
        &&& after.header.allocated() == before.header.allocated().remove(idx)
        &&& after.slots@ == before.slots@.update(
            idx,
            GcSlot { next_free: decode_head(before.header.free_list_head), ..before.slots@[idx] },
        )
    }
}

/// Allocation never hands out a slot that is still allocated: a pop
/// returns a slot of the page whose allocation bit is clear.
pub proof fn law_pop_gives_free_slot(p: Page, bs: usize, known_small: bool)
    requires
        p.wf(),
        p.pop_result(bs, known_small) is Some,
    ensures
        ({
            let s = p.pop_result(bs, known_small).unwrap().0;
            &&& (s as int) < p.n()
            &&& !p.header.allocated().contains(s as int)
        }),
{
}

/// The free list is last in, first out: a slot handed back is the next one
/// a pop returns, and the list then goes on as before.
pub proof fn law_free_then_pop(before: Page, after: Page, idx: int, bs: usize, known_small: bool)
    requires
        before.wf(),
        Page::slot_freed(before, after, idx),
        before.header.block_size as int == bs as int,
        !flag_set(before.header.flags, PAGE_FLAG_LARGE),
        idx != FREE_LIST_NONE as int,
    ensures
        after.pop_result(bs, known_small) == Some((idx as usize, before.header.free_list_head == FREE_LIST_NONE)),
{
    assert(after.slots@[idx].next_free == decode_head(before.header.free_list_head));
    assert(after.header.free_list_head as int == idx);
}

impl Page {
    /// The slots a batch pop of up to `n` slots takes, and the head it leaves.
    pub open spec fn batch_of(self, n: usize) -> (Seq<usize>, Option<u16>) {
        batch_walk(self.slots@, self.header.allocated(), self.header.free_list_head, n as nat, None)
    }

    /// `after` is `before` once a batch of up to `n` slots was popped.
    pub open spec fn batch_popped(before: Page, after: Page, n: usize) -> bool {
        let walk = before.batch_of(n);
        &&& after.wf()
        &&& after.slots@ == before.slots@
        &&& after.header.free_list_head == encode_head(walk.1)
        &&& after.header.allocated() == before.header.allocated().union(
            Set::new(|j: int| 0 <= j <= usize::MAX && walk.0.contains(j as usize)),
        )
        &&& after.header.marked() == before.header.marked()
        &&& after.header.dirty() == before.header.dirty()
        &&& after.header.flags == (if flag_set(before.header.flags, PAGE_FLAG_ALL_DEAD) {
            before.header.flags & !PAGE_FLAG_ALL_DEAD
        } else {
            before.header.flags
        })
        &&& after.header.dead_count == (if flag_set(before.header.flags, PAGE_FLAG_ALL_DEAD) {
            0
        } else {
            before.header.dead_count
        })
        &&& after.header.generation == before.header.generation
        &&& after.header.obj_count == before.header.obj_count
        &&& after.header.block_size == before.header.block_size
        &&& after.header.header_size == before.header.header_size
        &&& after.header.magic == before.header.magic
        &&& after.header.owner_thread == before.header.owner_thread
    }

    /// Pops up to `batch_size` slots from the page's free list at once and
    /// marks them allocated; returns the slots in list order and whether the
    /// list is now empty, or `None` when the page is a large-object page
    /// (unless `known_small`), has another block size, has an empty list, or
    /// its head slot is already allocated (the list is then dropped). A slot
    /// found allocated further down ends the batch and drops the rest of the
    /// list; a batch of size zero also drops the list.
    pub fn try_pop_batch_from_page(&mut self, block_size: usize, batch_size: usize, known_small: bool) -> (r: Option<(Vec<usize>, bool)>)
        requires
            old(self).wf(),
        ensures
            final(self).wf(),
            final(self).slots@ == old(self).slots@,
            (r matches Some((t, _)) && t@.len() > 0) == (old(self).pop_result(block_size, known_small) is Some && batch_size > 0),
            (r matches Some((t, _)) && t@.len() > 0) ==> Page::batch_popped(*old(self), *final(self), batch_size),
            !(r matches Some((t, _)) && t@.len() > 0) ==> Page::pop_left(*old(self), *final(self)),
            (!known_small && flag_set(old(self).header.flags, PAGE_FLAG_LARGE))
                || old(self).header.block_size as int != block_size as int
                || old(self).header.free_list_head == FREE_LIST_NONE ==> {
                &&& r is None
                &&& final(self).header == old(self).header
            },
            !(!known_small && flag_set(old(self).header.flags, PAGE_FLAG_LARGE))
                && old(self).header.block_size as int == block_size as int
                && old(self).header.free_list_head != FREE_LIST_NONE
                && old(self).header.allocated().contains(old(self).header.free_list_head as int) ==> {
                &&& r is None
                &&& same_page(final(self).header, PageHeader { free_list_head: FREE_LIST_NONE, ..old(self).header })
            },
            !(!known_small && flag_set(old(self).header.flags, PAGE_FLAG_LARGE))
                && old(self).header.block_size as int == block_size as int
                && old(self).header.free_list_head != FREE_LIST_NONE
                && !old(self).header.allocated().contains(old(self).header.free_list_head as int) ==> {
                let walk = batch_walk(old(self).slots@, old(self).header.allocated(), old(self).header.free_list_head, batch_size as nat, None);
                &&& r matches Some((taken, exhausted)) && taken@ == walk.0 && exhausted == (walk.1 is None)
                &&& final(self).header.free_list_head == encode_head(walk.1)
                &&& final(self).header.allocated() == old(self).header.allocated().union(
                    Set::new(|j: int| 0 <= j <= usize::MAX && walk.0.contains(j as usize)),
                )
                &&& final(self).header.marked() == old(self).header.marked()
                &&& final(self).header.dirty() == old(self).header.dirty()
                &&& final(self).header.flags == (if walk.0.len() > 0 && flag_set(old(self).header.flags, PAGE_FLAG_ALL_DEAD) {
                    old(self).header.flags & !PAGE_FLAG_ALL_DEAD
                } else {
                    old(self).header.flags
                })
                &&& final(self).header.dead_count == (if walk.0.len() > 0 && flag_set(old(self).header.flags, PAGE_FLAG_ALL_DEAD) {
                    0
                } else {
                    old(self).header.dead_count
                })
                &&& final(self).header.generation == old(self).header.generation
                &&& final(self).header.obj_count == old(self).header.obj_count
                &&& final(self).header.block_size == old(self).header.block_size
            },
    {
        if !known_small && self.header.is_large_object() {
            return None;
        }
        if self.header.block_size as usize != block_size {
            return None;
        }
        let first = self.header.free_list_head_raw();
        if first == FREE_LIST_NONE {
            return None;
        }
        if self.header.is_allocated(first as usize) {
            let _ = self.header.compare_exchange_free_list(Some(first), None);
            return None;
        }
        let ghost pre = *self;
        let ghost target = batch_walk(pre.slots@, pre.header.allocated(), first, batch_size as nat, None);
        proof {
            lemma_batch_walk_in_range(pre, first, batch_size as nat, None);
        }
        let mut taken: Vec<usize> = Vec::new();
        let mut idx: u16 = first;
        let mut next_head: Option<u16> = None;
        let mut k: usize = 0;
        while k < batch_size
            invariant_except_break
                taken@ + batch_walk(pre.slots@, pre.header.allocated(), idx, (batch_size - k) as nat, next_head).0 == target.0,
                batch_walk(pre.slots@, pre.header.allocated(), idx, (batch_size - k) as nat, next_head).1 == target.1,
            invariant
                pre.wf(),
                *self == pre,
                k <= batch_size,
                (idx as int) < pre.n(),
                link_in_range(next_head, pre.n()),
            ensures
                taken@ == target.0,
                next_head == target.1,
            decreases batch_size - k,
        {
            let ghost rem = (batch_size - k) as nat;
            let ghost nh0 = next_head;
            if self.header.is_allocated(idx as usize) {
                proof {
                    assert(batch_walk(pre.slots@, pre.header.allocated(), idx, rem, nh0) == (Seq::<usize>::empty(), None::<u16>));
                }
                next_head = None;
                proof {
                    assert(taken@ + Seq::<usize>::empty() =~= taken@);
                }
                break;
            }
            let next = self.slots[idx as usize].next_free;
            let ghost before = taken@;
            taken.push(idx as usize);
            next_head = next;
            proof {
                assert(link_in_range(pre.slots@[idx as int].next_free, pre.n()));
            }
            match next {
                Some(n) => {
                    proof {
                        assert(batch_walk(pre.slots@, pre.header.allocated(), idx, rem, nh0).0 == seq![idx as usize]
                            + batch_walk(pre.slots@, pre.header.allocated(), n, (batch_size - k - 1) as nat, Some(n)).0);
                        assert(before + (seq![idx as usize] + batch_walk(pre.slots@, pre.header.allocated(), n, (batch_size - k - 1) as nat, Some(n)).0)
                            =~= taken@ + batch_walk(pre.slots@, pre.header.allocated(), n, (batch_size - k - 1) as nat, Some(n)).0);
                    }
                    idx = n;
                },
                None => {
                    proof {
                        assert(batch_walk(pre.slots@, pre.header.allocated(), idx, rem, nh0) == (seq![idx as usize], None::<u16>));
                        assert(before + seq![idx as usize] =~= taken@);
                        assert(taken@ + Seq::<usize>::empty() =~= taken@);
                    }
                    break;
                },
            }
            k = k + 1;
        }
        proof {
            if k == batch_size {
                assert(taken@ + Seq::<usize>::empty() =~= taken@);
            }
        }
        let exhausted = next_head.is_none();
        let _ = self.header.compare_exchange_free_list(Some(first), next_head);
        let mut j: usize = 0;
        while j < taken.len()
            invariant
                pre.wf(),
                self.header.wf(),
                self.slots@ == pre.slots@,
                taken@ == target.0,
                j <= taken.len(),
                forall|q: int| 0 <= q < target.0.len() ==> {
                    let v = #[trigger] target.0[q] as int;
                    0 <= v < pre.n() && !pre.header.allocated().contains(v)
                },
                same_scalars(self.header, PageHeader { free_list_head: encode_head(next_head), ..pre.header }),
                next_head == target.1,
                self.header.allocated() == pre.header.allocated().union(Set::new(|v: int| 0 <= v <= usize::MAX && taken@.take(j as int).contains(v as usize))),
                self.header.marked() == pre.header.marked(),
                self.header.dirty() == pre.header.dirty(),
            decreases taken.len() - j,
        {
            let slot = taken[j];
            proof {
                assert(pre.n() <= PAGE_SLOTS);
            }
            self.header.set_allocated(slot);
            proof {
                assert forall|v: int| 0 <= v <= usize::MAX implies (#[trigger] taken@.take(j + 1).contains(v as usize) <==> (taken@.take(j as int).contains(v as usize) || v == slot as int)) by {
                    assert(taken@.take(j + 1) =~= taken@.take(j as int).push(slot));
                    if taken@.take(j + 1).contains(v as usize) {
                        let w = choose|w: int| 0 <= w < j + 1 && #[trigger] taken@.take(j + 1)[w] == v as usize;
                        if w < j {
                            assert(taken@.take(j as int)[w] == v as usize);
                        }
                    }
                    if taken@.take(j as int).contains(v as usize) {
                        let w = choose|w: int| 0 <= w < j && #[trigger] taken@.take(j as int)[w] == v as usize;
                        assert(taken@.take(j + 1)[w] == v as usize);
                    }
                    if v == slot as int {
                        assert(taken@.take(j + 1)[j as int] == slot);
                    }
                }
                assert(self.header.allocated() =~= pre.header.allocated().union(Set::new(|v: int| 0 <= v <= usize::MAX && taken@.take(j + 1).contains(v as usize))));
            }
            j = j + 1;
        }
        proof {
            assert(taken@.take(taken.len() as int) =~= taken@);
            if taken.len() == 0 {
                assert(self.header.allocated() =~= pre.header.allocated());
            }
        }
        if taken.len() > 0 && self.header.all_dead() {
            self.header.clear_all_dead();
            self.header.set_dead_count(0);
        }
        Some((taken, exhausted))
    }
}

} // verus!
