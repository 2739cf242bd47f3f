//! Size classes and the packed bucket-and-index word.

use ringboard::buckets::{bucket_to_length, size_to_bucket};
use ringboard::search::BucketAndIndex;

#[test]
fn class_lengths_double_from_four() {
    assert_eq!(bucket_to_length(0), 4);
    assert_eq!(bucket_to_length(1), 8);
    assert_eq!(bucket_to_length(5), 128);
    assert_eq!(bucket_to_length(10), 4096);
}

#[test]
fn smallest_class_that_fits() {
    // the empty size maps to class 0
    assert_eq!(size_to_bucket(0), 0);
    assert_eq!(size_to_bucket(1), 0);
    assert_eq!(size_to_bucket(2), 0);
    assert_eq!(size_to_bucket(4), 0);
    assert_eq!(size_to_bucket(5), 1);
    assert_eq!(size_to_bucket(4096), 10);
    // anything bigger goes to the direct store
    assert_eq!(size_to_bucket(4097), 11);
    assert_eq!(size_to_bucket(u32::MAX), 11);
}

#[test]
fn classes_hold_their_sizes() {
    for s in 1u32..=4096 {
        let c = size_to_bucket(s);
        assert!(c < 11);
        assert!(bucket_to_length(c) >= s);
        if c > 0 {
            assert!(bucket_to_length(c - 1) < s);
        }
    }
}

#[test]
fn bucket_and_index_roundtrip() {
    let w = BucketAndIndex::new(3, 77);
    assert_eq!(w.bucket(), 3);
    assert_eq!(w.index(), 77);
    let w2 = BucketAndIndex::new(10, 0x00FF_FFFF - 1);
    assert_eq!(w2.bucket(), 10);
    assert_eq!(w2.index(), 0x00FF_FFFF - 1);
    assert!(w < w2);
}
