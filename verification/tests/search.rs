//! The search engine: literal needles, regular expressions, the direct
//! store walk, and the NUL-trim boundary.

use regex::bytes::Regex;
use ringboard::allocator::Allocator;
use ringboard::protocol::decompose_id;
use ringboard::ring_reader::{DatabaseReader, Kind};
use ringboard::search::{search, EntryLocation, Query, QueryResult};

fn bucket_location_of(alloc: &Allocator, id: u64) -> (u8, u32) {
    let reader = DatabaseReader::open(alloc.database());
    match reader.get(id).unwrap().kind() {
        Kind::Bucket(be) => (
            ringboard::buckets::size_to_bucket(be.size),
            be.index,
        ),
        Kind::File => panic!("expected a bucketed entry"),
    }
}

#[test]
fn literal_search_finds_bar_and_baz() {
    let mut alloc = Allocator::open(8);
    let _foo = alloc.add(b"foo".to_vec(), Vec::new()).unwrap();
    let bar = alloc.add(b"bar".to_vec(), Vec::new()).unwrap();
    let baz = alloc.add(b"baz".to_vec(), Vec::new()).unwrap();
    let results = search(Query::Plain(b"a".to_vec()), alloc.database()).unwrap();
    assert_eq!(results.len(), 2);
    for r in &results {
        assert_eq!(r.end - r.start, 1);
    }
    let mut hit: Vec<(u8, u32)> = results
        .iter()
        .map(|r| match r.location {
            EntryLocation::Bucketed { bucket, index } => (bucket, index),
            EntryLocation::File { .. } => panic!("small entries are bucketed"),
        })
        .collect();
    hit.sort();
    let mut expected = vec![bucket_location_of(&alloc, bar), bucket_location_of(&alloc, baz)];
    expected.sort();
    assert_eq!(hit, expected);
}

#[test]
fn empty_needle_matches_every_entry_at_zero() {
    let mut alloc = Allocator::open(8);
    alloc.add(b"foo".to_vec(), Vec::new()).unwrap();
    alloc.add(b"bar".to_vec(), Vec::new()).unwrap();
    alloc.add(b"baz".to_vec(), Vec::new()).unwrap();
    let results = search(Query::Plain(Vec::new()), alloc.database()).unwrap();
    assert_eq!(results.len(), 3);
    for r in &results {
        assert_eq!((r.start, r.end), (0, 0));
    }
}

#[test]
fn needle_in_one_entry_is_found_there() {
    let mut alloc = Allocator::open(8);
    alloc.add(b"nothing here".to_vec(), Vec::new()).unwrap();
    let hit_id = alloc.add(b"xxNEEDLExx".to_vec(), Vec::new()).unwrap();
    let results = search(Query::Plain(b"NEEDLE".to_vec()), alloc.database()).unwrap();
    assert_eq!(results.len(), 1);
    let r: QueryResult = results[0];
    assert_eq!((r.start, r.end), (2, 8));
    assert_eq!(
        match r.location {
            EntryLocation::Bucketed { bucket, index } => (bucket, index),
            EntryLocation::File { .. } => panic!("bucketed"),
        },
        bucket_location_of(&alloc, hit_id)
    );
}

#[test]
fn regex_search_spans_lie_in_the_entry() {
    let mut alloc = Allocator::open(8);
    alloc.add(b"foo".to_vec(), Vec::new()).unwrap();
    alloc.add(b"bar".to_vec(), Vec::new()).unwrap();
    alloc.add(b"baz".to_vec(), Vec::new()).unwrap();
    let re = Regex::new("ba.").unwrap();
    let results = search(Query::Regex(re), alloc.database()).unwrap();
    assert_eq!(results.len(), 2);
    for r in &results {
        assert_eq!(r.end - r.start, 3);
        assert_eq!(r.start, 0);
    }
}

#[test]
fn direct_store_walk_searches_textual_files() {
    let mut alloc = Allocator::open(8);
    let mut big = vec![b'x'; 5000];
    big[4000..4006].copy_from_slice(b"needle");
    let id = alloc.add(big, b"text/plain".to_vec()).unwrap();
    let results = search(Query::Plain(b"needle".to_vec()), alloc.database()).unwrap();
    assert_eq!(results.len(), 1);
    assert_eq!(results[0].location, EntryLocation::File { entry_id: id });
    assert_eq!((results[0].start, results[0].end), (4000, 4006));
    let (kind, slot) = decompose_id(id).unwrap();
    assert!(alloc.database().direct.get_file(kind, slot).is_some());
}

#[test]
fn direct_store_walk_skips_binary_files() {
    let mut alloc = Allocator::open(8);
    let mut big = vec![b'x'; 5000];
    big[0..6].copy_from_slice(b"needle");
    alloc.add(big, b"image/png".to_vec()).unwrap();
    let results = search(Query::Plain(b"needle".to_vec()), alloc.database()).unwrap();
    assert!(results.is_empty());
}

#[test]
fn search_sees_only_the_text_before_a_nul() {
    let mut alloc = Allocator::open(8);
    alloc.add(b"a\x00b".to_vec(), Vec::new()).unwrap();
    // the slot is trimmed at its first NUL, so the tail is invisible
    assert!(search(Query::Plain(b"b".to_vec()), alloc.database()).unwrap().is_empty());
    let hits = search(Query::Plain(b"a".to_vec()), alloc.database()).unwrap();
    assert_eq!(hits.len(), 1);
}

#[test]
fn needle_longer_than_every_bucket_matches_nothing_small() {
    let mut alloc = Allocator::open(8);
    alloc.add(b"short".to_vec(), Vec::new()).unwrap();
    let needle = vec![b'q'; 5000];
    assert!(search(Query::Plain(needle), alloc.database()).unwrap().is_empty());
}
