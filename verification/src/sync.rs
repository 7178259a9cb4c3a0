//! Lock-order discipline that rules out deadlock between the collector's
//! locks.
//!
//! Every lock has a level: the allocation locks (`LocalHeap`,
//! `SegmentManager`) are level 1, `GlobalMarkState` is level 2 and
//! `GcRequest` is level 3. A thread may take a lock of the same or a higher
//! level than the lowest level it holds, never a lower one. The levels a
//! thread holds are kept on a per-thread stack that guards push and pop.

use vstd::prelude::*;

verus! {

/// Largest number of nested guards the per-thread stack is sized for.
pub const MAX_LOCK_DEPTH: usize = 16;

/// Lock kinds, in acquisition order.
#[derive(Clone, Copy, Debug, PartialEq, Eq, Structural)]
pub enum LockOrder {
    /// Per-thread allocation lock (level 1).
    LocalHeap,
    /// Global memory-management lock (level 1).
    SegmentManager,
    /// Mark-phase coordination lock (level 2).
    GlobalMarkState,
    /// Collection request lock (level 3).
    GcRequest,
}

/// The unique order value of a lock kind (1 to 4).
pub open spec fn spec_order_value(o: LockOrder) -> u8 {
    match o {
        LockOrder::LocalHeap => 1,
        LockOrder::SegmentManager => 2,
        LockOrder::GlobalMarkState => 3,
        LockOrder::GcRequest => 4,
    }
}

/// The level of a lock kind in the acquisition hierarchy.
pub open spec fn spec_level(o: LockOrder) -> u8 {
    match o {
        LockOrder::LocalHeap => 1,
        LockOrder::SegmentManager => 1,
        LockOrder::GlobalMarkState => 2,
        LockOrder::GcRequest => 3,
    }
}

/// Taking `tag` while the lowest level held is that of `current_min` keeps
/// the discipline: same level, or higher.
pub open spec fn order_allowed(tag: LockOrder, current_min: LockOrder) -> bool {
    spec_level(tag) == spec_level(current_min) || !(spec_level(tag) < spec_level(current_min))
}

impl LockOrder {
    /// The order value of this lock kind.
    pub fn order_value(self) -> (r: u8)
        ensures
            r == spec_order_value(self),
    {
        match self {
            LockOrder::LocalHeap => 1,
            LockOrder::SegmentManager => 2,
            LockOrder::GlobalMarkState => 3,
            LockOrder::GcRequest => 4,
        }
    }

    /// The level of this lock kind.
    pub fn level(self) -> (r: u8)
        ensures
            r == spec_level(self),
    {
        match self {
            LockOrder::LocalHeap => 1,
            LockOrder::SegmentManager => 1,
            LockOrder::GlobalMarkState => 2,
            LockOrder::GcRequest => 3,
        }
    }
}

/// The smallest level on a stack of levels (1 for an empty stack).
pub open spec fn min_level(s: Seq<u8>) -> u8
    decreases s.len(),
{
    if s.len() == 0 {
        1
    } else if s.len() == 1 {
        s[0]
    } else {
        let m = min_level(s.drop_last());
        if s.last() < m { s.last() } else { m }
    }
}

/// The lock kind that stands for a level.
pub open spec fn order_of_level(level: u8) -> LockOrder {
    if level == 2 {
        LockOrder::GlobalMarkState
    } else if level == 3 {
        LockOrder::GcRequest
    } else {
        LockOrder::LocalHeap
    }
}

/// Per-thread lock-order bookkeeping: the levels of the guards held, in
/// acquisition order, and whether the thread is shutting down.
pub struct LockOrderState {
    /// Levels of the guards held, oldest first.
    pub stack: Vec<u8>,
    /// Tracking is off once the thread started shutting down.
    pub is_shutdown: bool,
}

/// The lowest lock kind held according to `st`: `LocalHeap` when nothing is
/// tracked or the thread is shutting down.
pub open spec fn spec_min_lock_order(st: LockOrderState) -> LockOrder {
    if st.is_shutdown || st.stack@.len() == 0 {
        LockOrder::LocalHeap
    } else {
        order_of_level(min_level(st.stack@))
    }
}

impl LockOrderState {
    /// No guard held, tracking on.
    pub fn new() -> (s: Self)
        ensures
            s.stack@ == Seq::<u8>::empty(),
            !s.is_shutdown,
    {
        LockOrderState { stack: Vec::new(), is_shutdown: false }
    }
}

/// Whether taking `tag` while holding `current_min` keeps the lock order.
pub fn lock_order_allowed(tag: LockOrder, current_min: LockOrder) -> (r: bool)
    ensures
        r == order_allowed(tag, current_min),
{
    let same_level = tag.level() == current_min.level();
    let is_downgrade = tag.level() < current_min.level();
    same_level || !is_downgrade
}

/// Checks that taking `tag` while holding `current_min` keeps the lock
/// order; a violation is a bug in the caller and is excluded here.
pub fn validate_lock_order(tag: LockOrder, current_min: LockOrder)
    requires
        order_allowed(tag, current_min),
{
    let ok = lock_order_allowed(tag, current_min);
    assert(ok);
}

/// Checks the order before a lock is taken.
pub fn acquire_lock(lock_tag: LockOrder, current_min: LockOrder)
    requires
        order_allowed(lock_tag, current_min),
{
    validate_lock_order(lock_tag, current_min);
}

/// Records that a guard of kind `order` is held (nothing once the thread is
/// shutting down).
pub fn set_min_lock_order(state: &mut LockOrderState, order: LockOrder)
    ensures
        old(state).is_shutdown ==> final(state).stack@ == old(state).stack@,
        !old(state).is_shutdown ==> final(state).stack@ == old(state).stack@.push(spec_level(order)),
        final(state).is_shutdown == old(state).is_shutdown,
{
    if state.is_shutdown {
        return;
    }
    state.stack.push(order.level());
}

/// The lowest lock kind the thread holds.
pub fn get_min_lock_order(state: &LockOrderState) -> (r: LockOrder)
    ensures
        r == spec_min_lock_order(*state),
{
    if state.is_shutdown {
        return LockOrder::LocalHeap;
    }
    if state.stack.len() == 0 {
        return LockOrder::LocalHeap;
    }
    let mut m: u8 = state.stack[0];
    let mut i: usize = 1;
    while i < state.stack.len()
        invariant
            1 <= i <= state.stack.len(),
            m == min_level(state.stack@.subrange(0, i as int)),
        decreases state.stack.len() - i,
    {
        proof {
            assert(state.stack@.subrange(0, i + 1).drop_last() =~= state.stack@.subrange(0, i as int));
        }
        let v = state.stack[i];
        if v < m {
            m = v;
        }
        i = i + 1;
    }
    proof {
        assert(state.stack@.subrange(0, state.stack.len() as int) =~= state.stack@);
    }
    if m == 2 {
        LockOrder::GlobalMarkState
    } else if m == 3 {
        LockOrder::GcRequest
    } else {
        LockOrder::LocalHeap
    }
}

/// Turns lock-order tracking off for a thread that is shutting down.
pub fn enter_thread_shutdown(state: &mut LockOrderState)
    ensures
        final(state).is_shutdown,
        final(state).stack@ == old(state).stack@,
{
    state.is_shutdown = true;
}

/// A held lock kind; releasing it pops the thread's level stack.
pub struct LockGuard {
    /// The kind of lock guarded.
    pub tag: LockOrder,
}

impl LockGuard {
    /// Takes a guard for `tag`: checks it against the lowest level held and
    /// pushes its level.
    pub fn new(state: &mut LockOrderState, tag: LockOrder) -> (g: Self)
        requires
            order_allowed(tag, spec_min_lock_order(*old(state))),
        ensures
            g.tag == tag,
            final(state).is_shutdown == old(state).is_shutdown,
            old(state).is_shutdown ==> final(state).stack@ == old(state).stack@,
            !old(state).is_shutdown ==> final(state).stack@ == old(state).stack@.push(spec_level(tag)),
    {
        let current_min = get_min_lock_order(state);
        validate_lock_order(tag, current_min);
        set_min_lock_order(state, tag);
        LockGuard { tag }
    }

    /// Releases the guard: the most recent level is popped (nothing once the
    /// thread is shutting down).
    pub fn release(self, state: &mut LockOrderState)
        ensures
            final(state).is_shutdown == old(state).is_shutdown,
            old(state).is_shutdown || old(state).stack@.len() == 0 ==> final(state).stack@ == old(state).stack@,
            !old(state).is_shutdown && old(state).stack@.len() > 0 ==> final(state).stack@ == old(state).stack@.drop_last(),
    {
        if !state.is_shutdown {
            state.stack.pop();
        }
    }
}

/// Validation accepts exactly the acquisitions at the same or a higher
/// level than the lowest held.
pub proof fn law_order_allowed_iff_not_lower(tag: LockOrder, current_min: LockOrder)
    ensures
        order_allowed(tag, current_min) <==> spec_level(tag) >= spec_level(current_min),
        order_allowed(tag, tag),
        order_allowed(LockOrder::GcRequest, current_min),
        order_allowed(tag, LockOrder::LocalHeap),
{
}

/// Taking a guard and releasing it leaves the thread's level stack as it was.
pub proof fn law_guard_round_trip(before: Seq<u8>, tag: LockOrder)
    ensures
        before.push(spec_level(tag)).drop_last() == before,
{
    assert(before.push(spec_level(tag)).drop_last() =~= before);
}

/// The lowest level held is one of the levels held and no level held is
/// lower; holding only level-1 locks means any lock may follow.
pub proof fn law_min_level_is_minimum(s: Seq<u8>)
    requires
        s.len() > 0,
    ensures
        s.contains(min_level(s)),
        forall|k: int| 0 <= k < s.len() ==> min_level(s) <= #[trigger] s[k],
    decreases s.len(),
{
    if s.len() > 1 {
        law_min_level_is_minimum(s.drop_last());
        assert forall|k: int| 0 <= k < s.len() implies min_level(s) <= #[trigger] s[k] by {
            if k < s.len() - 1 {
                assert(s[k] == s.drop_last()[k]);
            }
        }
        let m = min_level(s.drop_last());
        if !(s.last() < m) {
            let j = choose|j: int| 0 <= j < s.drop_last().len() && s.drop_last()[j] == m;
            assert(s[j] == m);
        }
    }
}

} // verus!
