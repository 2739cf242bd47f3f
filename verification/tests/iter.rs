//! The ring iterator: write-head order, each slot once, both directions.

use ringboard::allocator::Allocator;
use ringboard::ring_reader::{DatabaseReader, RingReader};
use ringboard::protocol::RingKind;

#[test]
fn forward_iteration_yields_each_slot_once() {
    let mut alloc = Allocator::open(8);
    let a = alloc.add(b"a".to_vec(), Vec::new()).unwrap();
    let b = alloc.add(b"b".to_vec(), Vec::new()).unwrap();
    let c = alloc.add(b"c".to_vec(), Vec::new()).unwrap();
    alloc.delete(b).unwrap();
    let db = alloc.database();
    let reader = DatabaseReader::open(db);
    let mut main = reader.main();
    let entries = main.collect_from_head();
    let ids: Vec<u64> = entries.iter().map(|e| e.id()).collect();
    assert_eq!(ids, vec![a, c]);
}

#[test]
fn wrapped_iteration_starts_at_the_head() {
    let mut alloc = Allocator::open(4);
    for n in 0..6u8 {
        alloc.add(vec![n], Vec::new()).unwrap();
    }
    // slots 0..3 hold entries 4, 5, 2, 3; the write head sits at slot 2
    let db = alloc.database();
    let reader = DatabaseReader::open(db);
    let mut main = reader.main();
    let indices: Vec<u32> = main.collect_from_head().iter().map(|e| e.index).collect();
    assert_eq!(indices, vec![2, 3, 0, 1]);
}

#[test]
fn backward_iteration_yields_newest_first() {
    let mut alloc = Allocator::open(8);
    let a = alloc.add(b"old".to_vec(), Vec::new()).unwrap();
    let b = alloc.add(b"mid".to_vec(), Vec::new()).unwrap();
    let c = alloc.add(b"new".to_vec(), Vec::new()).unwrap();
    alloc.delete(b).unwrap();
    let db = alloc.database();
    let mut it = RingReader::from_ring(&db.main, RingKind::Main);
    let first = it.next_back().unwrap();
    let second = it.next_back().unwrap();
    assert_eq!(first.id(), c);
    assert_eq!(second.id(), a);
    assert!(it.next_back().is_none());
}

#[test]
fn empty_ring_yields_nothing() {
    let alloc = Allocator::open(8);
    let db = alloc.database();
    let reader = DatabaseReader::open(db);
    let mut main = reader.main();
    assert!(main.collect_from_head().is_empty());
    let mut favs = reader.favorites();
    assert!(favs.next().is_none());
}

#[test]
fn size_hint_reports_the_window() {
    let mut alloc = Allocator::open(8);
    alloc.add(b"x".to_vec(), Vec::new()).unwrap();
    let db = alloc.database();
    let it = RingReader::from_ring(&db.main, RingKind::Main);
    // from the head the whole capacity is still ahead
    assert_eq!(it.size_hint(), 7);
}

#[test]
fn window_from_midway_stops_at_the_captured_head() {
    let mut alloc = Allocator::open(8);
    for n in 0..3u8 {
        alloc.add(vec![n], Vec::new()).unwrap();
    }
    // entries sit in slots 0..3 and the write head is at slot 3
    let db = alloc.database();
    let mut it = RingReader::from_ring(&db.main, RingKind::Main);
    it.reset_to(db.main.write_head, 1);
    assert_eq!(it.next().unwrap().index, 1);
    assert_eq!(it.next().unwrap().index, 2);
    assert!(it.next().is_none());
}

#[test]
fn reset_to_restarts_midway() {
    let mut alloc = Allocator::open(8);
    alloc.add(b"a".to_vec(), Vec::new()).unwrap();
    alloc.add(b"b".to_vec(), Vec::new()).unwrap();
    alloc.add(b"c".to_vec(), Vec::new()).unwrap();
    let db = alloc.database();
    let mut it = RingReader::from_ring(&db.main, RingKind::Main);
    assert_eq!(it.kind(), RingKind::Main);
    it.reset_to(db.main.write_head, 1);
    let e = it.next().unwrap();
    assert_eq!(e.index, 1);
}
