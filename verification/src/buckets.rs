//! The eleven size classes of the bucketed content store.
//!
//! Small entries live in one of eleven bucket files; class `c` stores its
//! entries at a fixed stride of `4 << c` bytes (4 for class 0, doubling per
//! class, 4096 for class 10). Entries larger than the largest class go to the
//! direct store instead.

use vstd::prelude::*;

verus! {

/// How many size-classed bucket files there are.
pub const NUM_BUCKETS: usize = 11;

/// The slot length (stride) of a bucket class, `4 << b`.
pub open spec fn spec_bucket_len(b: int) -> u32 {
    if b == 0 {
        4
    } else if b == 1 {
        8
    } else if b == 2 {
        16
    } else if b == 3 {
        32
    } else if b == 4 {
        64
    } else if b == 5 {
        128
    } else if b == 6 {
        256
    } else if b == 7 {
        512
    } else if b == 8 {
        1024
    } else if b == 9 {
        2048
    } else {
        4096
    }
}

/// The slot length in bytes of the bucket class `bucket`.
pub fn bucket_to_length(bucket: u8) -> (r: u32)
    requires
        bucket < 11,
    ensures
        r == spec_bucket_len(bucket as int),
{
    proof {
        assert(bucket < 11 ==> (4u32 << bucket) == (if bucket == 0 {
            4u32
        } else if bucket == 1 {
            8u32
        } else if bucket == 2 {
            16u32
        } else if bucket == 3 {
            32u32
        } else if bucket == 4 {
            64u32
        } else if bucket == 5 {
            128u32
        } else if bucket == 6 {
            256u32
        } else if bucket == 7 {
            512u32
        } else if bucket == 8 {
            1024u32
        } else if bucket == 9 {
            2048u32
        } else {
            4096u32
        })) by (bit_vector);
    }
    4u32 << bucket
}

/// The smallest class whose slot length holds `size` bytes, or `NUM_BUCKETS`
/// (11) when no class does and the entry must go to the direct store.
pub open spec fn spec_size_to_bucket(size: u32) -> u8 {
    if size <= 4 {
        0
    } else if size <= 8 {
        1
    } else if size <= 16 {
        2
    } else if size <= 32 {
        3
    } else if size <= 64 {
        4
    } else if size <= 128 {
        5
    } else if size <= 256 {
        6
    } else if size <= 512 {
        7
    } else if size <= 1024 {
        8
    } else if size <= 2048 {
        9
    } else if size <= 4096 {
        10
    } else {
        11
    }
}

/// Maps an entry size to its bucket class; see `spec_size_to_bucket`.
pub fn size_to_bucket(size: u32) -> (r: u8)
    ensures
        r == spec_size_to_bucket(size),
{
    if size <= 4 {
        0
    } else if size <= 8 {
        1
    } else if size <= 16 {
        2
    } else if size <= 32 {
        3
    } else if size <= 64 {
        4
    } else if size <= 128 {
        5
    } else if size <= 256 {
        6
    } else if size <= 512 {
        7
    } else if size <= 1024 {
        8
    } else if size <= 2048 {
        9
    } else if size <= 4096 {
        10
    } else {
        11
    }
}

/// For all sizes that fit a bucket, `size_to_bucket(size)` is a valid class,
/// its slot length holds `size` bytes, and no smaller class does; sizes past
/// the largest class map to `NUM_BUCKETS`.
pub proof fn lemma_size_to_bucket_smallest(size: u32)
    ensures
        size <= 4096 ==> {
            let b = spec_size_to_bucket(size);
            &&& b < 11
            &&& spec_bucket_len(b as int) >= size
            &&& forall|c: int| 0 <= c < b ==> spec_bucket_len(c) < size
        },
        size > 4096 ==> spec_size_to_bucket(size) == 11,
{
}

} // verus!
