//! Work-stealing deque in the style of Chase and Lev: the owner pushes and
//! pops at the bottom (LIFO), thieves steal at the top (FIFO). The bottom
//! index belongs to the owner and is handed to every operation.

use vstd::prelude::*;

verus! {

/// `n` is a power of two.
pub open spec fn is_pow2(n: usize) -> bool {
    n > 0 && (n & ((n - 1) as usize)) == 0
}

/// Two positions of a ring of `n` slots that are less than `n` apart land
/// in different slots.
pub proof fn lemma_distinct_mod(j: int, b: int, n: int)
    requires
        0 <= j < b,
        b - j < n,
    ensures
        j % n != b % n,
{
    vstd::arithmetic::div_mod::lemma_mod_equivalence(b, j, n);
    vstd::arithmetic::div_mod::lemma_small_mod((b - j) as nat, n as nat);
}

/// Bounded work-stealing queue of capacity `N` over a ring buffer.
pub struct StealQueue<T: Copy, const N: usize> {
    buffer: Vec<Option<T>>,
    top: usize,
}

impl<T: Copy, const N: usize> StealQueue<T, N> {
    /// The ring buffer holds `N` slots, the queue spans `top..bottom` and
    /// never more than `N` items, and every slot in that span is filled.
    pub closed spec fn wf(&self, bottom: usize) -> bool {
        &&& N > 0
        &&& self.buffer.len() == N
        &&& self.top <= bottom
        &&& bottom - self.top <= N
        &&& forall|k: int| self.top <= k < bottom ==> (#[trigger] self.buffer@[k % (N as int)]) is Some
    }

    /// The queued items from top (oldest) to bottom (newest).
    pub closed spec fn items(&self, bottom: usize) -> Seq<T> {
        Seq::new(
            (bottom - self.top) as nat,
            |k: int| self.buffer@[(self.top + k) % (N as int)]->Some_0,
        )
    }

    /// A well-formed queue holds at most `N` items.
    pub proof fn lemma_len_bound(&self, bottom: usize)
        requires
            self.wf(bottom),
        ensures
            self.items(bottom).len() <= N,
    {
    }

    /// The index thieves steal from.
    pub closed spec fn spec_top(&self) -> usize {
        self.top
    }

    /// Creates an empty queue; the owner starts its bottom index at zero.
    pub fn new() -> (q: Self)
        requires
            is_pow2(N),
        ensures
            q.wf(0),
            q.items(0) == Seq::<T>::empty(),
            q.spec_top() == 0,
    {
        let mut buffer: Vec<Option<T>> = Vec::new();
        let mut k: usize = 0;
        while k < N
            invariant
                k <= N,
                buffer.len() == k,
            decreases N - k,
        {
            buffer.push(None);
            k = k + 1;
        }
        let q = StealQueue { buffer, top: 0 };
        proof {
            assert(q.items(0) =~= Seq::<T>::empty());
        }
        q
    }

    /// Pushes an item at the bottom; `false` when the queue is full.
    pub fn push(&mut self, bottom: &mut usize, item: T) -> (ok: bool)
        requires
            old(self).wf(*old(bottom)),
            *old(bottom) < usize::MAX,
        ensures
            final(self).wf(*final(bottom)),
            final(self).spec_top() == old(self).spec_top(),
            ok == (old(self).items(*old(bottom)).len() < N),
            ok ==> *final(bottom) == *old(bottom) + 1,
            ok ==> final(self).items(*final(bottom)) == old(self).items(*old(bottom)).push(item),
            !ok ==> *final(bottom) == *old(bottom) && final(self).items(*final(bottom)) == old(self).items(*old(bottom)),
    {
        let b = *bottom;
        let t = self.top;
        if b - t >= N {
            return false;
        }
        let index = b % N;
        self.buffer.set(index, Some(item));
        *bottom = b + 1;
        proof {
            assert forall|k: int| self.top <= k < *bottom implies (#[trigger] self.buffer@[k % (N as int)]) is Some by {
                if k < b {
                    lemma_distinct_mod(k, b as int, N as int);
                }
            }
            assert forall|k: int| 0 <= k < old(self).items(b).len() implies self.items(*bottom)[k] == old(self).items(b)[k] by {
                lemma_distinct_mod(t + k, b as int, N as int);
            }
            assert(self.items(*bottom) =~= old(self).items(b).push(item));
        }
        true
    }

    /// Pops the newest item from the bottom; `None` when empty.
    pub fn pop(&mut self, bottom: &mut usize) -> (r: Option<T>)
        requires
            old(self).wf(*old(bottom)),
            *old(bottom) < usize::MAX,
        ensures
            final(self).wf(*final(bottom)),
            *final(bottom) < usize::MAX,
            *final(bottom) <= *old(bottom),
            old(self).items(*old(bottom)).len() == 0 ==> r is None && final(self).items(*final(bottom)) == old(self).items(*old(bottom))
                && *final(bottom) == *old(bottom) && final(self).spec_top() == old(self).spec_top(),
            old(self).items(*old(bottom)).len() > 0 ==> {
                &&& r == Some(old(self).items(*old(bottom)).last())
                &&& final(self).items(*final(bottom)) == old(self).items(*old(bottom)).drop_last()
            },
    {
        let b = *bottom;
        let t = self.top;
        if b == t {
            return None;
        }
        let new_b = b - 1;
        *bottom = new_b;
        let index = new_b % N;
        let item = self.buffer[index].unwrap();
        proof {
            assert(self.buffer@[(new_b as int) % (N as int)] is Some);
        }
        if new_b != t {
            proof {
                assert(self.items(*bottom) =~= old(self).items(b).drop_last());
                assert(old(self).items(b).last() == self.buffer@[((t + (b - t - 1)) as int) % (N as int)]->Some_0);
            }
            return Some(item);
        }
        // The last item: the owner claims it by advancing the top.
        self.top = t + 1;
        *bottom = t + 1;
        proof {
            assert(self.items(*bottom) =~= old(self).items(b).drop_last());
        }
        Some(item)
    }

    /// Steals the oldest item from the top; `None` when empty.
    pub fn steal(&mut self, bottom: &usize) -> (r: Option<T>)
        requires
            old(self).wf(*bottom),
        ensures
            final(self).wf(*bottom),
            old(self).items(*bottom).len() == 0 ==> r is None && final(self).items(*bottom) == old(self).items(*bottom),
            old(self).items(*bottom).len() > 0 ==> {
                &&& r == Some(old(self).items(*bottom).first())
                &&& final(self).items(*bottom) == old(self).items(*bottom).drop_first()
            },
    {
        let t = self.top;
        let b = *bottom;
        if t == b {
            return None;
        }
        self.top = t + 1;
        let index = t % N;
        proof {
            assert(old(self).buffer@[(t as int) % (N as int)] is Some);
        }
        let item = self.buffer[index].unwrap();
        proof {
            assert(self.items(*bottom) =~= old(self).items(b).drop_first());
            assert(old(self).items(b).first() == old(self).buffer@[((t + 0) as int) % (N as int)]->Some_0);
        }
        Some(item)
    }

    /// Number of queued items.
    pub fn len(&self, bottom: &usize) -> (n: usize)
        requires
            self.wf(*bottom),
        ensures
            n == self.items(*bottom).len(),
    {
        *bottom - self.top
    }

    /// Whether the queue is empty.
    pub fn is_empty(&self, bottom: &usize) -> (r: bool)
        requires
            self.wf(*bottom),
        ensures
            r == (self.items(*bottom).len() == 0),
    {
        self.len(bottom) == 0
    }

    /// Whether the queue holds `N` items.
    pub fn is_full(&self, bottom: &usize) -> (r: bool)
        requires
            self.wf(*bottom),
        ensures
            r == (self.items(*bottom).len() >= N),
    {
        self.len(bottom) >= N
    }
}

/// The owner's end is last in, first out: popping right after a push hands
/// back the pushed item and leaves the queue as it was before the push.
pub proof fn law_push_then_pop<T>(before: Seq<T>, pushed: Seq<T>, popped: Seq<T>, x: T, r: Option<T>)
    requires
        pushed == before.push(x),
        r == Some(pushed.last()),
        popped == pushed.drop_last(),
    ensures
        r == Some(x),
        popped == before,
{
    assert(popped =~= before);
}

/// Thieves take items first in, first out: a push at the bottom does not
/// change what the next steal takes from a non-empty queue, and the pushed
/// item stays behind everything queued before it.
pub proof fn law_steal_after_push<T>(before: Seq<T>, x: T)
    requires
        before.len() > 0,
    ensures
        before.push(x).first() == before.first(),
        before.push(x).drop_first() == before.drop_first().push(x),
{
    assert(before.push(x).drop_first() =~= before.drop_first().push(x));
}

} // verus!
