//! Size-class routing: every small object goes to the smallest of eight
//! power-of-two block sizes that holds it.

use vstd::prelude::*;
use vstd::std_specs::bits::{u64_trailing_zeros, axiom_u64_trailing_zeros};

verus! {

/// Size classes for small objects, in bytes.
pub const SIZE_CLASSES: [usize; 8] = [16, 32, 64, 128, 256, 512, 1024, 2048];

/// Block size of size class `i`.
pub open spec fn class_block_size(i: int) -> int {
    if i == 0 {
        16
    } else if i == 1 {
        32
    } else if i == 2 {
        64
    } else if i == 3 {
        128
    } else if i == 4 {
        256
    } else if i == 5 {
        512
    } else if i == 6 {
        1024
    } else {
        2048
    }
}

/// Index of the smallest class whose block holds `size` bytes (the last
/// class for anything larger).
pub open spec fn spec_class_index(size: int) -> int {
    if size <= 16 {
        0
    } else if size <= 32 {
        1
    } else if size <= 64 {
        2
    } else if size <= 128 {
        3
    } else if size <= 256 {
        4
    } else if size <= 512 {
        5
    } else if size <= 1024 {
        6
    } else {
        7
    }
}

/// Block size of the class that `size` is routed to.
pub open spec fn spec_size_class(size: int) -> int {
    class_block_size(spec_class_index(size))
}

/// Block size of size class `i`.
pub fn size_class_block(i: usize) -> (r: usize)
    requires
        i < 8,
    ensures
        r == class_block_size(i as int),
{
    SIZE_CLASSES[i]
}

/// The smallest size class that holds `size` bytes.
pub fn compute_size_class(size: usize) -> (r: usize)
    ensures
        r == spec_size_class(size as int),
{
    if size <= 16 {
        16
    } else if size <= 32 {
        32
    } else if size <= 64 {
        64
    } else if size <= 128 {
        128
    } else if size <= 256 {
        256
    } else if size <= 512 {
        512
    } else if size <= 1024 {
        1024
    } else {
        2048
    }
}

/// The name a size class is shown under.
pub open spec fn class_name(class: int) -> Seq<char> {
    if class == 16 {
        "16-byte"@
    } else if class == 32 {
        "32-byte"@
    } else if class == 64 {
        "64-byte"@
    } else if class == 128 {
        "128-byte"@
    } else if class == 256 {
        "256-byte"@
    } else if class == 512 {
        "512-byte"@
    } else if class == 1024 {
        "1024-byte"@
    } else if class == 2048 {
        "2048-byte"@
    } else {
        "large-object"@
    }
}

/// The size class of objects of `size` bytes and its name, for checking
/// which segment a type goes to.
pub fn debug_size_class(size: usize) -> (r: (usize, &'static str))
    ensures
        r.0 == spec_size_class(size as int),
        r.1@ == class_name(r.0 as int),
{
    let class = compute_size_class(size);
    let name = if class == 16 {
        "16-byte"
    } else if class == 32 {
        "32-byte"
    } else if class == 64 {
        "64-byte"
    } else if class == 128 {
        "128-byte"
    } else if class == 256 {
        "256-byte"
    } else if class == 512 {
        "512-byte"
    } else if class == 1024 {
        "1024-byte"
    } else if class == 2048 {
        "2048-byte"
    } else {
        "large-object"
    };
    (class, name)
}

/// Index of the smallest size class that holds `size` bytes.
pub fn compute_class_index(size: usize) -> (r: usize)
    ensures
        r == spec_class_index(size as int),
{
    if size <= 16 {
        0
    } else if size <= 32 {
        1
    } else if size <= 64 {
        2
    } else if size <= 128 {
        3
    } else if size <= 256 {
        4
    } else if size <= 512 {
        5
    } else if size <= 1024 {
        6
    } else {
        7
    }
}

/// Class index of a block size: its number of trailing zero bits less four
/// (zero when there are fewer than four).
pub fn block_size_to_class_index(block_size: usize) -> (r: usize)
    ensures
        r == (if u64_trailing_zeros(block_size as u64) >= 4 { u64_trailing_zeros(block_size as u64) - 4 } else { 0 }),
{
    let tz: u32 = (block_size as u64).trailing_zeros();
    proof {
        axiom_u64_trailing_zeros(block_size as u64);
    }
    (tz.saturating_sub(4)) as usize
}

/// Size class index for an object of `size` bytes, `None` for a large object.
pub fn size_class_for(size: usize) -> (r: Option<usize>)
    ensures
        size > 2048 ==> r is None,
        size <= 2048 ==> r == Some(spec_class_index(size as int) as usize),
{
    if size > 2048 {
        None
    } else {
        Some(compute_class_index(size))
    }
}

proof fn lemma_trailing_zeros_of_class(i: u64)
    requires
        i < 8,
    ensures
        u64_trailing_zeros(class_block_size(i as int) as u64) == i + 4,
{
    let x: u64 = class_block_size(i as int) as u64;
    let p: u64 = (i + 4) as u64;
    assert(x == 1u64 << p) by (bit_vector)
        requires
            p == i + 4,
            i < 8,
            i == 0 ==> x == 16,
            i == 1 ==> x == 32,
            i == 2 ==> x == 64,
            i == 3 ==> x == 128,
            i == 4 ==> x == 256,
            i == 5 ==> x == 512,
            i == 6 ==> x == 1024,
            i == 7 ==> x == 2048,
    ;
    axiom_u64_trailing_zeros(x);
    let t: u64 = u64_trailing_zeros(x) as u64;
    assert(x != 0u64) by (bit_vector)
        requires
            x == 1u64 << p,
            p < 12,
    ;
    if t < p {
        assert((x >> t) & 1u64 == 0u64) by (bit_vector)
            requires
                x == 1u64 << p,
                t < p,
                p < 12,
        ;
    } else if t > p {
        assert((x >> p) & 1u64 == 1u64) by (bit_vector)
            requires
                x == 1u64 << p,
                p < 12,
        ;
    }
}

/// Every small object is routed to a class that holds it and to the
/// smallest such class; the class block size maps back to the class index.
pub proof fn law_size_class_routing(size: int)
    requires
        0 <= size <= 2048,
    ensures
        0 <= spec_class_index(size) < 8,
        size <= spec_size_class(size),
        spec_class_index(size) == 0 || class_block_size(spec_class_index(size) - 1) < size,
        u64_trailing_zeros(spec_size_class(size) as u64) - 4 == spec_class_index(size),
{
    lemma_trailing_zeros_of_class(spec_class_index(size) as u64);
}

} // verus!
