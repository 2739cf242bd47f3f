//! The store end to end: add, get, favorite, delete, overwrite, remap.

use ringboard::allocator::Allocator;
use ringboard::error::IdNotFoundError;
use ringboard::names::direct_file_name;
use ringboard::protocol::{decompose_id, RingKind};
use ringboard::ring_reader::{DatabaseReader, EntryReader, Kind};

fn get_bytes(alloc: &Allocator, id: u64) -> Result<Vec<u8>, IdNotFoundError> {
    let db = alloc.database();
    let reader = DatabaseReader::open(db);
    let entry = reader.get(id)?;
    let mut entries = EntryReader::open(db);
    Ok(entry.to_slice_growable(&mut entries, db).unwrap().into_inner())
}

#[test]
fn add_hello_then_get() {
    let mut alloc = Allocator::open(16);
    let id = alloc.add(b"hello".to_vec(), Vec::new()).unwrap();
    // the first entry lands on the main ring: high half zero
    assert_eq!(id >> 32, 0);
    assert_eq!(get_bytes(&alloc, id).unwrap(), b"hello".to_vec());
}

#[test]
fn favorite_moves_the_entry() {
    let mut alloc = Allocator::open(16);
    // size 2 lands in class 0, whose slots are 4 bytes
    let id = alloc.add(b"hi".to_vec(), Vec::new()).unwrap();
    {
        let reader = DatabaseReader::open(alloc.database());
        match reader.get(id).unwrap().kind() {
            Kind::Bucket(be) => {
                assert_eq!(be.size, 2);
            },
            Kind::File => panic!("small entries are bucketed"),
        }
    }
    let new_id = alloc.favorite(id).unwrap();
    assert_eq!(new_id >> 32, 1);
    assert_eq!(get_bytes(&alloc, new_id).unwrap(), b"hi".to_vec());
    assert_eq!(get_bytes(&alloc, id), Err(IdNotFoundError::Entry(0)));
}

#[test]
fn double_favorite_is_a_no_op() {
    let mut alloc = Allocator::open(16);
    let id = alloc.add(b"pin me".to_vec(), Vec::new()).unwrap();
    let fav = alloc.favorite(id).unwrap();
    let again = alloc.favorite(fav).unwrap();
    assert_eq!(again, fav);
    // no duplicate appeared on the favorites ring
    let db = alloc.database();
    let reader = DatabaseReader::open(db);
    let mut favs = reader.favorites();
    let entries = favs.collect_from_head();
    assert_eq!(entries.len(), 1);
    assert_eq!(get_bytes(&alloc, fav).unwrap(), b"pin me".to_vec());
}

#[test]
fn unfavorite_moves_it_back() {
    let mut alloc = Allocator::open(16);
    let id = alloc.add(b"back and forth".to_vec(), Vec::new()).unwrap();
    let fav = alloc.favorite(id).unwrap();
    let main_again = alloc.unfavorite(fav).unwrap();
    assert_eq!(main_again >> 32, 0);
    assert_eq!(get_bytes(&alloc, main_again).unwrap(), b"back and forth".to_vec());
    assert_eq!(get_bytes(&alloc, fav), Err(IdNotFoundError::Entry(0)));
}

#[test]
fn delete_then_delete_again() {
    let mut alloc = Allocator::open(16);
    let id = alloc.add(b"short lived".to_vec(), Vec::new()).unwrap();
    assert!(alloc.delete(id).is_ok());
    let (_, slot) = decompose_id(id).unwrap();
    assert_eq!(alloc.delete(id), Err(IdNotFoundError::Entry(slot)));
}

#[test]
fn large_entry_goes_to_the_direct_store() {
    let mut alloc = Allocator::open(16);
    // 10 MiB of pseudo-random bytes
    let mut bytes = Vec::with_capacity(10 << 20);
    let mut x: u32 = 0x2545_F491;
    for _ in 0..(10 << 20) {
        x = x.wrapping_mul(1103515245).wrapping_add(12345);
        bytes.push((x >> 16) as u8);
    }
    let id = alloc.add(bytes.clone(), b"application/octet-stream".to_vec()).unwrap();
    let db = alloc.database();
    let reader = DatabaseReader::open(db);
    let entry = reader.get(id).unwrap();
    assert!(matches!(entry.kind(), Kind::File));
    // the payload lives under the file <ring>_<slot>
    let (kind, slot) = decompose_id(id).unwrap();
    assert_eq!(kind, RingKind::Main);
    let name = direct_file_name(kind, slot);
    assert_eq!(name, format!("0_{slot}").into_bytes());
    assert!(db.direct.get_file(kind, slot).is_some());
    // the bytes and the MIME xattr read back
    let mut entries = EntryReader::open(db);
    let loaded = entry.to_slice_growable(&mut entries, db).unwrap();
    assert_eq!(loaded.mime_type(db), b"application/octet-stream".to_vec());
    assert_eq!(loaded.into_inner(), bytes);
}

#[test]
fn ring_full_overwrites_the_oldest() {
    let mut alloc = Allocator::open(4);
    let id0 = alloc.add(b"one".to_vec(), Vec::new()).unwrap();
    alloc.add(b"two".to_vec(), Vec::new()).unwrap();
    alloc.add(b"three".to_vec(), Vec::new()).unwrap();
    alloc.add(b"four".to_vec(), Vec::new()).unwrap();
    // the fifth insertion wraps onto the oldest slot
    let id4 = alloc.add(b"five".to_vec(), Vec::new()).unwrap();
    assert_eq!(id4, id0);
    assert_eq!(get_bytes(&alloc, id0).unwrap(), b"five".to_vec());
    // readers iterating by write-head never see the overwritten bytes
    let db = alloc.database();
    let reader = DatabaseReader::open(db);
    let mut main = reader.main();
    let entries = main.collect_from_head();
    assert_eq!(entries.len(), 4);
    let mut entry_reader = EntryReader::open(db);
    let mut seen = Vec::new();
    for e in entries {
        seen.push(e.to_slice_growable(&mut entry_reader, db).unwrap().into_inner());
    }
    assert!(!seen.contains(&b"one".to_vec()));
    assert!(seen.contains(&b"five".to_vec()));
}

#[test]
fn stale_bucket_mapping_remaps_and_retries() {
    let mut alloc = Allocator::open(16);
    // size 3000 lands in class 9 (2048-byte strides... 3000 needs 4096):
    // use size 1500: class 9? 1500 <= 2048 -> class 9 holds 2048-byte slots
    let a = alloc.add(vec![7u8; 1500], Vec::new()).unwrap();
    let b = alloc.add(vec![8u8; 1500], Vec::new()).unwrap();
    // map the buckets now: class 9's file holds two slots (4096 bytes)
    let mut entries = EntryReader::open(alloc.database());
    // the server extends the file past the reader's mapping
    let c = alloc.add(vec![9u8; 1500], Vec::new()).unwrap();
    let db = alloc.database();
    let reader = DatabaseReader::open(db);
    let e3 = reader.get(c).unwrap();
    // the stale mapping is detected...
    assert!(e3.to_slice(&entries, db).unwrap().is_none());
    // ...and the growable path remaps to at least max(needed, 2 * len)
    let loaded = e3.to_slice_growable(&mut entries, db).unwrap();
    assert_eq!(loaded.into_inner(), vec![9u8; 1500]);
    assert!(entries.bucket_len(9) >= 8192);
    // earlier entries were always resolvable
    let e1 = reader.get(a).unwrap();
    assert_eq!(e1.to_slice(&entries, db).unwrap().unwrap().into_inner(), vec![7u8; 1500]);
    let _ = b;
}

#[test]
fn bucket_entries_carry_no_mime() {
    let mut alloc = Allocator::open(8);
    let id = alloc.add(b"text".to_vec(), b"text/plain".to_vec()).unwrap();
    let db = alloc.database();
    let reader = DatabaseReader::open(db);
    let mut entries = EntryReader::open(db);
    let loaded = reader.get(id).unwrap().to_slice_growable(&mut entries, db).unwrap();
    assert_eq!(loaded.mime_type(db), Vec::<u8>::new());
}
