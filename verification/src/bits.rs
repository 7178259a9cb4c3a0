//! Bit-level facts about 64-bit words used by every bitmap of the collector.

use vstd::prelude::*;

verus! {

/// Bit `b` of word `w` is set.
pub open spec fn has_bit(w: u64, b: u64) -> bool {
    (w >> b) & 1u64 == 1u64
}

/// Setting bit `b` adds exactly bit `b`.
pub proof fn lemma_or_bit(w: u64, b: u64, j: u64)
    requires
        b < 64,
        j < 64,
    ensures
        has_bit(w | (1u64 << b), j) == (j == b || has_bit(w, j)),
        (w & (1u64 << b)) == 0u64 <==> !has_bit(w, b),
        ((w >> b) & 1u64 != 0u64) <==> has_bit(w, b),
{
    assert(has_bit(w | (1u64 << b), j) == (j == b || has_bit(w, j))) by (bit_vector)
        requires
            b < 64,
            j < 64,
    ;
    assert((w & (1u64 << b)) == 0u64 <==> !has_bit(w, b)) by (bit_vector)
        requires
            b < 64,
    ;
    assert(((w >> b) & 1u64 != 0u64) <==> has_bit(w, b)) by (bit_vector);
}

/// Clearing bit `b` removes exactly bit `b`.
pub proof fn lemma_and_not_bit(w: u64, b: u64, j: u64)
    requires
        b < 64,
        j < 64,
    ensures
        has_bit(w & !(1u64 << b), j) == (j != b && has_bit(w, j)),
{
    assert(has_bit(w & !(1u64 << b), j) == (j != b && has_bit(w, j))) by (bit_vector)
        requires
            b < 64,
            j < 64,
    ;
}

/// The zero word has no bit set.
pub proof fn lemma_zero_word(j: u64)
    ensures
        !has_bit(0u64, j),
{
    assert(!has_bit(0u64, j)) by (bit_vector);
}


/// Where `a` has a bit that `m` lacks, such a bit can be named.
pub proof fn lemma_missing_bit(a: u64, m: u64, hi: u64) -> (j: u64)
    requires
        (m & a) != a,
        hi <= 64,
        a >> hi == 0u64,
    ensures
        j < hi,
        has_bit(a, j),
        !has_bit(m, j),
    decreases hi,
{
    assert(hi != 0u64) by (bit_vector)
        requires
            (m & a) != a,
            hi <= 64,
            a >> hi == 0u64,
    ;
    if (a & 1u64) == 1u64 && (m & 1u64) == 0u64 {
        assert(has_bit(a, 0u64) && !has_bit(m, 0u64)) by (bit_vector)
            requires
                (a & 1u64) == 1u64 && (m & 1u64) == 0u64,
        ;
        0u64
    } else {
        let h1: u64 = (hi - 1) as u64;
        assert(((m >> 1u64) & (a >> 1u64)) != (a >> 1u64) && (a >> 1u64) >> h1 == 0u64) by (bit_vector)
            requires
                !((a & 1u64) == 1u64 && (m & 1u64) == 0u64),
                (m & a) != a,
                a >> hi == 0u64,
                hi <= 64,
                hi != 0u64,
                h1 == hi - 1,
        ;
        let k = lemma_missing_bit(a >> 1u64, m >> 1u64, h1);
        assert(has_bit(a, (k + 1) as u64) && !has_bit(m, (k + 1) as u64)) by (bit_vector)
            requires
                has_bit(a >> 1u64, k),
                !has_bit(m >> 1u64, k),
                k < 63,
        ;
        (k + 1) as u64
    }
}

/// A word contains another exactly when it holds every bit of it.
pub proof fn lemma_covers(a: u64, m: u64)
    ensures
        (m & a) == a ==> forall|j: u64| j < 64 && #[trigger] has_bit(a, j) ==> has_bit(m, j),
        (m & a) != a ==> exists|j: u64| j < 64 && #[trigger] has_bit(a, j) && !has_bit(m, j),
{
    if (m & a) == a {
        assert forall|j: u64| j < 64 && #[trigger] has_bit(a, j) implies has_bit(m, j) by {
            assert(has_bit(a, j) ==> has_bit(m, j)) by (bit_vector)
                requires
                    (m & a) == a,
                    j < 64,
            ;
        }
    } else {
        assert(a >> 64u64 == 0u64) by (bit_vector);
        let j = lemma_missing_bit(a, m, 64u64);
        assert(j < 64 && has_bit(a, j) && !has_bit(m, j));
    }
}

} // verus!
