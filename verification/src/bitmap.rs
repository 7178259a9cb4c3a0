//! Page-level mark bitmap: one bit per pointer-sized slot, with a running
//! count of the slots that are marked.

use vstd::prelude::*;
use crate::bits::{has_bit, lemma_or_bit, lemma_zero_word};

verus! {

/// Whether slot `i` is set in a sequence of 64-bit words.
pub open spec fn word_bit(words: Seq<u64>, i: int) -> bool {
    0 <= i && i / 64 < words.len() && has_bit(words[i / 64], (i % 64) as u64)
}

/// The slots below `cap` whose bit is set.
pub open spec fn set_slots(words: Seq<u64>, cap: int) -> Set<int> {
    Set::new(|i: int| 0 <= i < cap && word_bit(words, i))
}

/// Number of 64-bit words a bitmap of `capacity` slots is built with.
pub open spec fn bitmap_words(capacity: int) -> int {
    (capacity + 63 + 63) / 64
}

/// A mark bitmap for the slots of one page.
pub struct MarkBitmap {
    bitmap: Vec<u64>,
    capacity: usize,
    marked_count: usize,
}

impl MarkBitmap {
    /// Structural invariant: enough words for every slot and a count that
    /// equals the number of marked slots.
    pub closed spec fn wf(&self) -> bool {
        &&& self.bitmap.len() == bitmap_words(self.capacity as int)
        &&& self.capacity % 64 == 0
        &&& self.marked_count == self.view().len()
    }

    /// The marked slots.
    pub closed spec fn view(&self) -> Set<int> {
        set_slots(self.bitmap@, self.capacity as int)
    }

    /// Number of slots.
    pub closed spec fn spec_capacity(&self) -> nat {
        self.capacity as nat
    }

    proof fn lemma_view_finite(&self)
        ensures
            self.view().finite(),
            self.view().subset_of(vstd::set_lib::set_int_range(0, self.capacity as int)),
            self.view().len() <= self.capacity,
    {
        assert(self.view().subset_of(vstd::set_lib::set_int_range(0, self.capacity as int)));
        vstd::set_lib::lemma_int_range(0, self.capacity as int);
        vstd::set_lib::lemma_len_subset(self.view(), vstd::set_lib::set_int_range(0, self.capacity as int));
    }

    /// Creates a bitmap of `capacity` slots, none marked.
    pub fn new(capacity: usize) -> (b: Self)
        requires
            capacity % 64 == 0,
            capacity + 126 <= usize::MAX,
        ensures
            b.wf(),
            b.spec_capacity() == capacity,
            b@ == Set::<int>::empty(),
    {
        let bits: usize = (capacity + 63 + 63) / 64;
        let mut bitmap: Vec<u64> = Vec::with_capacity(bits);
        let mut k: usize = 0;
        while k < bits
            invariant
                k <= bits,
                bitmap.len() == k,
                forall|j: int| 0 <= j < k ==> bitmap@[j] == 0u64,
            decreases bits - k,
        {
            bitmap.push(0u64);
            k = k + 1;
        }
        let b = MarkBitmap { bitmap, capacity, marked_count: 0 };
        proof {
            assert forall|i: int| !b@.contains(i) by {
                if 0 <= i < capacity {
                    lemma_zero_word((i % 64) as u64);
                }
            }
            assert(b@ =~= Set::<int>::empty());
        }
        b
    }

    /// Number of slots in the page.
    pub fn capacity(&self) -> (c: usize)
        ensures
            c == self.spec_capacity(),
    {
        self.capacity
    }

    /// Number of marked slots.
    pub fn marked_count(&self) -> (n: usize)
        requires
            self.wf(),
        ensures
            n == self@.len(),
    {
        self.marked_count
    }

    /// Marks a slot; marking an already marked slot changes nothing.
    pub fn mark(&mut self, slot_index: usize)
        requires
            old(self).wf(),
            slot_index < old(self).spec_capacity(),
        ensures
            final(self).wf(),
            final(self).spec_capacity() == old(self).spec_capacity(),
            final(self)@ == old(self)@.insert(slot_index as int),
    {
        let word: usize = slot_index / 64;
        let bit: usize = slot_index % 64;
        let mask: u64 = 1u64 << (bit as u64);
        let prev: u64 = self.bitmap[word];
        let ghost old_view = self@;
        proof {
            lemma_or_bit(prev, bit as u64, bit as u64);
            self.lemma_view_finite();
        }
        self.bitmap.set(word, prev | mask);
        proof {
            assert forall|i: int| self@.contains(i) == old_view.insert(slot_index as int).contains(i) by {
                if 0 <= i < self.capacity {
                    lemma_or_bit(prev, bit as u64, (i % 64) as u64);
                    if i / 64 != word as int {
                        assert(self.bitmap@[i / 64] == old(self).bitmap@[i / 64]);
                    }
                }
            }
            assert(self@ =~= old_view.insert(slot_index as int));
            self.lemma_view_finite();
        }
        if prev & mask == 0 {
            proof {
                assert(!old_view.contains(slot_index as int));
            }
            self.marked_count = self.marked_count + 1;
        } else {
            proof {
                assert(old_view.contains(slot_index as int));
                assert(old_view.insert(slot_index as int) =~= old_view);
            }
        }
    }

    /// Whether a slot is marked.
    pub fn is_marked(&self, slot_index: usize) -> (r: bool)
        requires
            self.wf(),
            slot_index < self.spec_capacity(),
        ensures
            r == self@.contains(slot_index as int),
    {
        let word: usize = slot_index / 64;
        let bit: usize = slot_index % 64;
        proof {
            lemma_or_bit(self.bitmap@[word as int], bit as u64, bit as u64);
        }
        (self.bitmap[word] >> (bit as u64)) & 1 != 0
    }

    /// Clears every mark.
    pub fn clear(&mut self)
        requires
            old(self).wf(),
        ensures
            final(self).wf(),
            final(self).spec_capacity() == old(self).spec_capacity(),
            final(self)@ == Set::<int>::empty(),
    {
        let n: usize = self.bitmap.len();
        let mut k: usize = 0;
        while k < n
            invariant
                k <= n,
                n == self.bitmap.len(),
                self.bitmap.len() == bitmap_words(self.capacity as int),
                self.capacity % 64 == 0,
                self.capacity == old(self).capacity,
                forall|j: int| 0 <= j < k ==> self.bitmap@[j] == 0u64,
            decreases n - k,
        {
            self.bitmap.set(k, 0u64);
            k = k + 1;
        }
        proof {
            assert forall|i: int| !self@.contains(i) by {
                if 0 <= i < self.capacity {
                    lemma_zero_word((i % 64) as u64);
                }
            }
            assert(self@ =~= Set::<int>::empty());
        }
        self.marked_count = 0;
    }
}

/// Marking a slot (as `mark` does: the marks gain the slot) marks it, leaves
/// every other slot as it was and raises the marked count by one exactly
/// when the slot was not marked yet; so marking the same slot again leaves
/// the bitmap and its count as they were.
pub proof fn law_mark_idempotent(before: MarkBitmap, after: MarkBitmap, slot: int)
    requires
        before.wf(),
        after.wf(),
        after@ == before@.insert(slot),
    ensures
        after@.contains(slot),
        forall|j: int| j != slot ==> after@.contains(j) == before@.contains(j),
        after@.len() == before@.len() + (if before@.contains(slot) { 0int } else { 1int }),
        after@.insert(slot) == after@,
{
    before.lemma_view_finite();
    assert(after@.insert(slot) =~= after@);
    if before@.contains(slot) {
        assert(after@ =~= before@);
    }
}

} // verus!

verus! {

/// Whether bit `i` of a word vector is set (word `i / 64`, bit `i % 64`).
pub fn words_test(v: &Vec<u64>, i: usize) -> (r: bool)
    requires
        i / 64 < v.len(),
    ensures
        r == word_bit(v@, i as int),
{
    let word: usize = i / 64;
    let bit: usize = i % 64;
    proof {
        lemma_or_bit(v@[word as int], bit as u64, bit as u64);
    }
    (v[word] & (1u64 << (bit as u64))) != 0
}

/// Sets bit `i`; returns whether it was clear before.
pub fn words_set(v: &mut Vec<u64>, i: usize) -> (newly: bool)
    requires
        i / 64 < old(v).len(),
    ensures
        final(v).len() == old(v).len(),
        newly == !word_bit(old(v)@, i as int),
        forall|j: int| #[trigger] word_bit(final(v)@, j) == (j == i || word_bit(old(v)@, j)),
{
    let word: usize = i / 64;
    let bit: usize = i % 64;
    let mask: u64 = 1u64 << (bit as u64);
    let prev: u64 = v[word];
    proof {
        lemma_or_bit(prev, bit as u64, bit as u64);
    }
    v.set(word, prev | mask);
    proof {
        assert forall|j: int| #[trigger] word_bit(v@, j) == (j == i || word_bit(old(v)@, j)) by {
            if 0 <= j && j / 64 < v.len() {
                lemma_or_bit(prev, bit as u64, (j % 64) as u64);
            }
        }
    }
    (prev & mask) == 0
}

/// Clears bit `i`.
pub fn words_clear(v: &mut Vec<u64>, i: usize)
    requires
        i / 64 < old(v).len(),
    ensures
        final(v).len() == old(v).len(),
        forall|j: int| #[trigger] word_bit(final(v)@, j) == (j != i && word_bit(old(v)@, j)),
{
    let word: usize = i / 64;
    let bit: usize = i % 64;
    let mask: u64 = 1u64 << (bit as u64);
    let prev: u64 = v[word];
    v.set(word, prev & !mask);
    proof {
        assert forall|j: int| #[trigger] word_bit(v@, j) == (j != i && word_bit(old(v)@, j)) by {
            if 0 <= j && j / 64 < v.len() {
                crate::bits::lemma_and_not_bit(prev, bit as u64, (j % 64) as u64);
            }
        }
    }
}

/// Clears every bit.
pub fn words_clear_all(v: &mut Vec<u64>)
    ensures
        final(v).len() == old(v).len(),
        forall|j: int| !#[trigger] word_bit(final(v)@, j),
{
    let n: usize = v.len();
    let mut k: usize = 0;
    while k < n
        invariant
            k <= n,
            n == v.len(),
            n == old(v).len(),
            forall|j: int| 0 <= j < k ==> v@[j] == 0u64,
        decreases n - k,
    {
        v.set(k, 0u64);
        k = k + 1;
    }
    proof {
        assert forall|j: int| !#[trigger] word_bit(v@, j) by {
            if 0 <= j && j / 64 < v.len() {
                lemma_zero_word((j % 64) as u64);
            }
        }
    }
}

/// A vector of `n` zero words.
pub fn zero_words(n: usize) -> (v: Vec<u64>)
    ensures
        v.len() == n,
        forall|j: int| !#[trigger] word_bit(v@, j),
{
    let mut v: Vec<u64> = Vec::with_capacity(n);
    let mut k: usize = 0;
    while k < n
        invariant
            k <= n,
            v.len() == k,
            forall|j: int| 0 <= j < k ==> v@[j] == 0u64,
        decreases n - k,
    {
        v.push(0u64);
        k = k + 1;
    }
    proof {
        assert forall|j: int| !#[trigger] word_bit(v@, j) by {
            if 0 <= j && j / 64 < v.len() {
                lemma_zero_word((j % 64) as u64);
            }
        }
    }
    v
}

} // verus!
