//! Taking fresh memory without false roots. A new mapping is rejected (and
//! kept aside) when a value on the allocating thread's stack or in its
//! registers already points into it, since conservative scanning would take
//! that stale value for a root. While it checks, the allocator keeps the
//! mapping's bounds XOR-masked, so that they do not look like pointers
//! themselves.

use vstd::prelude::*;

verus! {

/// A word found by the stack scan: its value, where it was found, and
/// whether it came from a register.
#[derive(Clone, Copy)]
pub struct StackWord {
    /// The word's value.
    pub value: usize,
    /// Address of the stack slot that held it.
    pub slot_addr: usize,
    /// The word came from a saved register.
    pub is_reg: bool,
}

/// The masked bounds of a mapping of `size` bytes at `ptr`.
pub fn calculate_masked_range(ptr: usize, size: usize, mask: usize) -> (r: (usize, usize))
    requires
        ptr + size <= usize::MAX,
    ensures
        r == (ptr ^ mask, ((ptr + size) as usize) ^ mask),
{
    (ptr ^ mask, (ptr + size) ^ mask)
}

/// Masking twice with the same mask gives the bound back.
pub proof fn law_mask_round_trip(x: usize, mask: usize)
    ensures
        (x ^ mask) ^ mask == x,
{
    assert((x ^ mask) ^ mask == x) by (bit_vector);
}

/// The scan takes the word into account: a register, or a stack slot at or
/// above the allocator's own frame.
pub open spec fn word_counts(w: StackWord, boundary: usize) -> bool {
    w.is_reg || w.slot_addr >= boundary
}

/// Some counted word points into `[start, end)`.
pub open spec fn conflict(words: Seq<StackWord>, start: usize, end: usize, boundary: usize) -> bool {
    exists|i: int| 0 <= i < words.len() && word_counts(#[trigger] words[i], boundary) && start <= words[i].value && words[i].value < end
}

/// Whether a word of the scanned stack or registers points into the
/// mapping whose masked bounds are given: registers always count, stack
/// slots only at or above `boundary`.
pub fn check_stack_conflict(
    words: &Vec<StackWord>,
    masked_start: usize,
    masked_end: usize,
    mask: usize,
    boundary: usize,
) -> (found: bool)
    ensures
        found == conflict(words@, masked_start ^ mask, masked_end ^ mask, boundary),
{
    let start = masked_start ^ mask;
    let end = masked_end ^ mask;
    let mut found = false;
    let mut i: usize = 0;
    while i < words.len()
        invariant
            i <= words.len(),
            start == masked_start ^ mask,
            end == masked_end ^ mask,
            found == exists|k: int| 0 <= k < i && word_counts(#[trigger] words@[k], boundary) && start <= words@[k].value && words@[k].value < end,
        decreases words.len() - i,
    {
        let w = words[i];
        if w.is_reg || w.slot_addr >= boundary {
            if w.value >= start && w.value < end {
                found = true;
            }
        }
        proof {
            if word_counts(words@[i as int], boundary) && start <= words@[i as int].value && words@[i as int].value < end {
                assert(found);
            }
            if found {
                if !(word_counts(words@[i as int], boundary) && start <= words@[i as int].value && words@[i as int].value < end) {
                    let k = choose|k: int| 0 <= k < i && word_counts(#[trigger] words@[k], boundary) && start <= words@[k].value && words@[k].value < end;
                    assert(0 <= k < i + 1);
                }
            }
        }
        i = i + 1;
    }
    found
}

} // verus!
