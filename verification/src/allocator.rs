//! The server-side writer: add, favorite, unfavorite and delete.
//!
//! Every operation keeps the database well-formed and is specified against
//! `spec_lookup`: adding publishes the bytes under a fresh composite id (the
//! slot under the write head, releasing whatever it held), a favorite move
//! carries the bytes to the favorites ring and vacates the source slot, and
//! a delete vacates the slot and frees its backing storage.

use vstd::prelude::*;

use crate::buckets::{spec_bucket_len, spec_size_to_bucket};
use crate::database::{
    entry_preserved, lemma_region_frame, preserves_entries_except, Database,
};
use crate::direct::key_preserved;
use crate::error::{Error, IdNotFoundError};
use crate::protocol::{
    composite_id, decompose_id, lemma_compose_decompose, lemma_decompose_unique,
    spec_composite_id, spec_decompose_id, RingKind,
};
use crate::ring::{BucketEntry, RingEntry, MAX_ENTRIES};

verus! {

/// The writer: owns the database state.
pub struct Allocator {
    pub db: Database,
}

/// Releases whatever the slot `i` of ring `k` holds: a bucket slot goes back
/// on its free list, a direct file is unlinked, and the slot record becomes
/// uninitialised. Bucket file bytes are untouched.
fn release_slot(db: &mut Database, k: RingKind, i: u32)
    requires
        old(db).wf(),
        (i as int) < old(db).spec_ring(k).spec_len(),
    ensures
        final(db).wf(),
        // the slot is vacated; everything else resolves as before
        final(db).slot_ref(k, i as int) == RingEntry::Uninitialized,
        final(db).spec_lookup(spec_composite_id(k, i)) is None,
        preserves_entries_except(
            *old(db),
            *final(db),
            spec_composite_id(k, i),
            spec_composite_id(k, i),
        ),
        // ring shape: only this slot record changed, heads kept
        final(db).spec_ring(k).slots@ == old(db).spec_ring(k).slots@.update(
            i as int,
            RingEntry::Uninitialized,
        ),
        k != RingKind::Main ==> final(db).main == old(db).main,
        k != RingKind::Favorites ==> final(db).favorites == old(db).favorites,
        final(db).main.write_head == old(db).main.write_head,
        final(db).favorites.write_head == old(db).favorites.write_head,
        final(db).main.spec_len() == old(db).main.spec_len(),
        final(db).favorites.spec_len() == old(db).favorites.spec_len(),
        // bucket file bytes are untouched; only a free list may grow
        final(db).buckets.files@ == old(db).buckets.files@,
        (match old(db).slot_ref(k, i as int) {
            RingEntry::Bucketed(be) => {
                let c = spec_size_to_bucket(be.size) as int;
                &&& final(db).buckets.free@[c]@ == old(db).buckets.free@[c]@.push(be.index)
                &&& forall|c2: int|
                    0 <= c2 < 11 && c2 != c ==> final(db).buckets.free@[c2] == old(
                        db,
                    ).buckets.free@[c2]
            },
            _ => final(db).buckets.free@ == old(db).buckets.free@,
        }),
        // direct store: the key (k, i) is gone, all others kept
        !final(db).direct.spec_has(k, i),
        crate::direct::preserves_other_keys(old(db).direct, final(db).direct, k, i, k, i),
{
    let ghost pre = *old(db);
    let entry = match k {
        RingKind::Main => db.main.get(i),
        RingKind::Favorites => db.favorites.get(i),
    };
    let entry = entry.unwrap();
    assert(entry == pre.slot_ref(k, i as int));

    match entry {
        RingEntry::Uninitialized => {},
        RingEntry::Bucketed(be) => {
            proof {
                assert(pre.is_bucketed(k, i as int));
                assert(pre.bucket_at(k, i as int) == be);
                assert(pre.bucket_ref_valid(be));
                crate::buckets::lemma_size_to_bucket_smallest(be.size);
            }
            let c = crate::buckets::size_to_bucket(be.size);
            db.buckets.free_slot(c, be.index);
        },
        RingEntry::File => {
            db.direct.unlink(k, i);
        },
    }
    match k {
        RingKind::Main => db.main.set_slot(i, RingEntry::Uninitialized),
        RingKind::Favorites => db.favorites.set_slot(i, RingEntry::Uninitialized),
    }
    proof {
        let post = *final(db);
        let ii = i as int;
        assert(post.spec_ring(k).slots@ == pre.spec_ring(k).slots@.update(
            ii,
            RingEntry::Uninitialized,
        )) by {
            if k == RingKind::Main {
                assert(post.spec_ring(k) == post.main);
            } else {
                assert(k == RingKind::Favorites);
                assert(post.spec_ring(k) == post.favorites);
            }
        };
        // slots of both rings agree with pre everywhere but (k, i)
        assert forall|k2: RingKind, i2: int|
            0 <= i2 < post.spec_ring(k2).spec_len() && !(k2 == k && i2 == ii) implies #[trigger]
        post.slot_ref(k2, i2) == pre.slot_ref(k2, i2) by {}

        assert(post.wf()) by {
            lemma_release_wf(pre, post, k, ii, entry);
        }
        assert forall|x: u64|
            x != spec_composite_id(k, i) implies #[trigger] entry_preserved(pre, post, x) by {
            lemma_decompose_unique(x);
            if let Some((k2, i2)) = spec_decompose_id(x) {
                if (i2 as int) < post.spec_ring(k2).spec_len() {
                    assert(!(k2 == k && i2 == i));
                    assert(post.slot_ref(k2, i2 as int) == pre.slot_ref(k2, i2 as int));
                    match pre.slot_ref(k2, i2 as int) {
                        RingEntry::Uninitialized => {},
                        RingEntry::Bucketed(be2) => {
                            assert(post.buckets.spec_region(
                                spec_size_to_bucket(be2.size) as int,
                                be2.index as int,
                                be2.size as int,
                            ) == pre.buckets.spec_region(
                                spec_size_to_bucket(be2.size) as int,
                                be2.index as int,
                                be2.size as int,
                            ));
                        },
                        RingEntry::File => {
                            assert(key_preserved(pre.direct, post.direct, k2, i2));
                        },
                    }
                }
            }
        }
    }
}

/// After a release, the database is still well-formed.
proof fn lemma_release_wf(pre: Database, post: Database, k: RingKind, ii: int, entry: RingEntry)
    requires
        pre.wf(),
        0 <= ii < pre.spec_ring(k).spec_len(),
        entry == pre.slot_ref(k, ii),
        post.main.wf(),
        post.favorites.wf(),
        post.buckets.wf(),
        post.direct.wf(),
        post.main.spec_len() == pre.main.spec_len(),
        post.favorites.spec_len() == pre.favorites.spec_len(),
        post.slot_ref(k, ii) == RingEntry::Uninitialized,
        forall|k2: RingKind, i2: int|
            0 <= i2 < post.spec_ring(k2).spec_len() && !(k2 == k && i2 == ii)
                ==> #[trigger] post.slot_ref(k2, i2) == pre.slot_ref(k2, i2),
        post.buckets.files@ == pre.buckets.files@,
        (match entry {
            RingEntry::Bucketed(be) => {
                let c = spec_size_to_bucket(be.size) as int;
                &&& post.buckets.free@[c]@ == pre.buckets.free@[c]@.push(be.index)
                &&& forall|c2: int|
                    0 <= c2 < 11 && c2 != c ==> post.buckets.free@[c2] == pre.buckets.free@[c2]
            },
            _ => post.buckets.free@ == pre.buckets.free@,
        }),
        !post.direct.spec_has(k, ii as u32),
        crate::direct::preserves_other_keys(
            pre.direct,
            post.direct,
            k,
            ii as u32,
            k,
            ii as u32,
        ),
        (entry is File ==> post.direct.files@.len() == pre.direct.files@.len() - 1),
        (!(entry is File) ==> post.direct.files@ == pre.direct.files@),
    ensures
        post.wf(),
{
    // a post-bucketed slot is the same record it was in pre
    assert forall|k2: RingKind, i2: int| #[trigger]
        post.is_bucketed(k2, i2) implies pre.is_bucketed(k2, i2) && post.bucket_at(k2, i2)
        == pre.bucket_at(k2, i2) by {
        assert(!(k2 == k && i2 == ii));
    }
    // validity of bucket references: files and nslots unchanged
    assert forall|k2: RingKind, i2: int| #[trigger] post.is_bucketed(k2, i2) implies post
        .bucket_ref_valid(post.bucket_at(k2, i2)) by {
        let be2 = post.bucket_at(k2, i2);
        assert(pre.bucket_ref_valid(be2));
        assert(post.buckets.spec_nslots(spec_size_to_bucket(be2.size) as int)
            == pre.buckets.spec_nslots(spec_size_to_bucket(be2.size) as int));
    }
    // free lists stay disjoint from live slots
    assert forall|k2: RingKind, i2: int| #[trigger] post.is_bucketed(k2, i2) implies !post
        .buckets
        .free@[spec_size_to_bucket(post.bucket_at(k2, i2).size) as int]@.contains(
        post.bucket_at(k2, i2).index,
    ) by {
        let be2 = post.bucket_at(k2, i2);
        let c2 = spec_size_to_bucket(be2.size) as int;
        match entry {
            RingEntry::Bucketed(be) => {
                let c = spec_size_to_bucket(be.size) as int;
                if c2 == c {
                    // the freed index belonged to the released slot only
                    assert(pre.is_bucketed(k, ii));
                    assert(!(k2 == k && i2 == ii));
                    assert(!(spec_size_to_bucket(pre.bucket_at(k, ii).size)
                        == spec_size_to_bucket(pre.bucket_at(k2, i2).size) && pre.bucket_at(
                        k,
                        ii,
                    ).index == pre.bucket_at(k2, i2).index));
                    assert(be2.index != be.index);
                    assert(forall|x: u32|
                        post.buckets.free@[c]@.contains(x) ==> pre.buckets.free@[c]@.contains(x)
                            || x == be.index);
                } else {
                    assert(post.buckets.free@[c2] == pre.buckets.free@[c2]);
                }
            },
            _ => {
                assert(post.buckets.free@[c2] == pre.buckets.free@[c2]);
            },
        }
    }
    // File slots still have their direct files
    assert forall|k2: RingKind, i2: int|
        0 <= i2 < post.spec_ring(k2).spec_len() && (#[trigger] post.slot_ref(k2, i2)) is File
            implies post.direct.spec_has(k2, i2 as u32) by {
        assert(!(k2 == k && i2 == ii));
        assert(pre.slot_ref(k2, i2) is File);
        assert(pre.direct.spec_has(k2, i2 as u32));
        assert(!(k2 == k && i2 as u32 == ii as u32));
        assert(key_preserved(pre.direct, post.direct, k2, i2 as u32));
    }
    // and direct files still belong to File slots
    assert forall|d: int| 0 <= d < post.direct.files@.len() implies {
        let kd = (#[trigger] post.direct.files@[d]).ring;
        let id = post.direct.files@[d].slot;
        &&& (id as int) < post.spec_ring(kd).spec_len()
        &&& post.slot_ref(kd, id as int) is File
    } by {
        let kd = post.direct.files@[d].ring;
        let id = post.direct.files@[d].slot;
        assert(post.direct.spec_has(kd, id));
        assert(!(kd == k && id == ii as u32));
        assert(key_preserved(pre.direct, post.direct, kd, id));
        assert(pre.direct.spec_has(kd, id));
        let dp = pre.direct.spec_index_of(kd, id);
        assert(pre.direct.files@[dp].ring == kd && pre.direct.files@[dp].slot == id);
        assert((id as int) < pre.spec_ring(kd).spec_len());
        assert(pre.slot_ref(kd, id as int) is File);
        assert(post.slot_ref(kd, id as int) == pre.slot_ref(kd, id as int));
    }
    // uniqueness of bucket references survives a removal
    assert forall|ka: RingKind, ia: int, kb: RingKind, ib: int|
        #[trigger] post.is_bucketed(ka, ia) && #[trigger] post.is_bucketed(kb, ib) && !(ka == kb
            && ia == ib) implies !(spec_size_to_bucket(post.bucket_at(ka, ia).size)
        == spec_size_to_bucket(post.bucket_at(kb, ib).size) && post.bucket_at(ka, ia).index
        == post.bucket_at(kb, ib).index) by {
        assert(pre.is_bucketed(ka, ia) && pre.is_bucketed(kb, ib));
    }
}

/// After publishing a bucketed record in a vacated slot, the database is
/// still well-formed.
proof fn lemma_add_bucketed_wf(s1: Database, post: Database, k: RingKind, wh: int, be: BucketEntry)
    requires
        s1.wf(),
        0 <= wh < s1.spec_ring(k).spec_len(),
        s1.slot_ref(k, wh) == RingEntry::Uninitialized,
        be.wf(),
        post.main.wf(),
        post.favorites.wf(),
        post.buckets.wf(),
        post.direct.wf(),
        post.spec_ring(k).slots@ == s1.spec_ring(k).slots@.update(wh, RingEntry::Bucketed(be)),
        k != RingKind::Main ==> post.main == s1.main,
        k != RingKind::Favorites ==> post.favorites == s1.favorites,
        post.main.spec_len() == s1.main.spec_len(),
        post.favorites.spec_len() == s1.favorites.spec_len(),
        post.direct == s1.direct,
        ({
            let c = spec_size_to_bucket(be.size) as int;
            let st = spec_bucket_len(c) as int;
            let j = be.index as int;
            &&& j < post.buckets.spec_nslots(c)
            &&& forall|p: int|
                j * st + be.size <= p < (j + 1) * st ==> post.buckets.files@[c]@[p] == 0u8
            &&& forall|c2: int|
                0 <= c2 < 11 && c2 != c ==> post.buckets.files@[c2] == s1.buckets.files@[c2]
            &&& post.buckets.files@[c]@.len() >= s1.buckets.files@[c]@.len()
            &&& forall|p: int|
                0 <= p < s1.buckets.files@[c]@.len() && !(j * st <= p < (j + 1) * st)
                    ==> post.buckets.files@[c]@[p] == s1.buckets.files@[c]@[p]
            // free lists only shrank, and never hold the new slot
            &&& forall|c2: int, f: u32|
                0 <= c2 < 11 && (#[trigger] post.buckets.free@[c2]@.contains(f))
                    ==> s1.buckets.free@[c2]@.contains(f) && !(c2 == c && f == be.index)
            // the new slot is not referenced by any live record
            &&& forall|k2: RingKind, i2: int|
                #[trigger] s1.is_bucketed(k2, i2) ==> !(spec_size_to_bucket(
                    s1.bucket_at(k2, i2).size,
                ) as int == c && s1.bucket_at(k2, i2).index == be.index)
        }),
    ensures
        post.wf(),
{
    let c = spec_size_to_bucket(be.size) as int;
    let st = spec_bucket_len(c) as int;
    let j = be.index as int;
    crate::buckets::lemma_size_to_bucket_smallest(be.size);

    // slots of both rings agree with s1 everywhere but (k, wh)
    assert forall|k2: RingKind, i2: int|
        0 <= i2 < post.spec_ring(k2).spec_len() && !(k2 == k && i2 == wh) implies #[trigger]
    post.slot_ref(k2, i2) == s1.slot_ref(k2, i2) by {}
    assert(post.slot_ref(k, wh) == RingEntry::Bucketed(be));
    assert(post.is_bucketed(k, wh) && post.bucket_at(k, wh) == be);

    assert forall|k2: RingKind, i2: int| #[trigger]
        post.is_bucketed(k2, i2) && !(k2 == k && i2 == wh) implies s1.is_bucketed(k2, i2)
        && post.bucket_at(k2, i2) == s1.bucket_at(k2, i2) by {}

    // nslots never shrank
    assert forall|c2: int| 0 <= c2 < 11 implies #[trigger] post.buckets.spec_nslots(c2)
        >= s1.buckets.spec_nslots(c2) by {
        vstd::arithmetic::div_mod::lemma_div_is_ordered(
            s1.buckets.files@[c2]@.len() as int,
            post.buckets.files@[c2]@.len() as int,
            spec_bucket_len(c2) as int,
        );
    }

    // every bucketed record is valid
    assert forall|k2: RingKind, i2: int| #[trigger] post.is_bucketed(k2, i2) implies post
        .bucket_ref_valid(post.bucket_at(k2, i2)) by {
        if k2 == k && i2 == wh {
            assert(post.bucket_ref_valid(be));
        } else {
            let be2 = s1.bucket_at(k2, i2);
            assert(s1.bucket_ref_valid(be2));
            lemma_region_frame(s1.buckets, post.buckets, c, j, be2);
        }
    }

    // uniqueness
    assert forall|ka: RingKind, ia: int, kb: RingKind, ib: int|
        #[trigger] post.is_bucketed(ka, ia) && #[trigger] post.is_bucketed(kb, ib) && !(ka == kb
            && ia == ib) implies !(spec_size_to_bucket(post.bucket_at(ka, ia).size)
        == spec_size_to_bucket(post.bucket_at(kb, ib).size) && post.bucket_at(ka, ia).index
        == post.bucket_at(kb, ib).index) by {
        if ka == k && ia == wh {
            assert(s1.is_bucketed(kb, ib));
        } else if kb == k && ib == wh {
            assert(s1.is_bucketed(ka, ia));
        } else {
            assert(s1.is_bucketed(ka, ia) && s1.is_bucketed(kb, ib));
        }
    }

    // free lists stay disjoint from live slots
    assert forall|k2: RingKind, i2: int| #[trigger] post.is_bucketed(k2, i2) implies !post
        .buckets
        .free@[spec_size_to_bucket(post.bucket_at(k2, i2).size) as int]@.contains(
        post.bucket_at(k2, i2).index,
    ) by {
        let be2 = post.bucket_at(k2, i2);
        let c2 = spec_size_to_bucket(be2.size) as int;
        if post.buckets.free@[c2]@.contains(be2.index) {
            assert(s1.buckets.free@[c2]@.contains(be2.index));
            if k2 == k && i2 == wh {
            } else {
                assert(s1.is_bucketed(k2, i2));
            }
        }
    }

    // File slots and direct files still correspond
    assert forall|k2: RingKind, i2: int|
        0 <= i2 < post.spec_ring(k2).spec_len() && (#[trigger] post.slot_ref(k2, i2)) is File
            implies post.direct.spec_has(k2, i2 as u32) by {
        assert(!(k2 == k && i2 == wh));
        assert(s1.slot_ref(k2, i2) is File);
    }
    assert forall|d: int| 0 <= d < post.direct.files@.len() implies {
        let kd = (#[trigger] post.direct.files@[d]).ring;
        let id = post.direct.files@[d].slot;
        &&& (id as int) < post.spec_ring(kd).spec_len()
        &&& post.slot_ref(kd, id as int) is File
    } by {
        let kd = post.direct.files@[d].ring;
        let id = post.direct.files@[d].slot;
        assert(s1.slot_ref(kd, id as int) is File);
        assert(!(kd == k && id as int == wh));
    }
}

/// After publishing a `File` record in a vacated slot whose direct file was
/// just created, the database is still well-formed.
proof fn lemma_add_file_wf(s1: Database, post: Database, k: RingKind, wh: int)
    requires
        s1.wf(),
        0 <= wh < s1.spec_ring(k).spec_len(),
        s1.slot_ref(k, wh) == RingEntry::Uninitialized,
        post.main.wf(),
        post.favorites.wf(),
        post.buckets.wf(),
        post.direct.wf(),
        post.spec_ring(k).slots@ == s1.spec_ring(k).slots@.update(wh, RingEntry::File),
        k != RingKind::Main ==> post.main == s1.main,
        k != RingKind::Favorites ==> post.favorites == s1.favorites,
        post.main.spec_len() == s1.main.spec_len(),
        post.favorites.spec_len() == s1.favorites.spec_len(),
        post.buckets == s1.buckets,
        post.direct.spec_has(k, wh as u32),
        post.direct.files@.len() == s1.direct.files@.len() + 1,
        crate::direct::preserves_other_keys(
            s1.direct,
            post.direct,
            k,
            wh as u32,
            k,
            wh as u32,
        ),
    ensures
        post.wf(),
{
    assert forall|k2: RingKind, i2: int|
        0 <= i2 < post.spec_ring(k2).spec_len() && !(k2 == k && i2 == wh) implies #[trigger]
    post.slot_ref(k2, i2) == s1.slot_ref(k2, i2) by {}
    assert(post.slot_ref(k, wh) == RingEntry::File);

    assert forall|k2: RingKind, i2: int| #[trigger]
        post.is_bucketed(k2, i2) implies s1.is_bucketed(k2, i2) && post.bucket_at(k2, i2)
        == s1.bucket_at(k2, i2) by {
        assert(!(k2 == k && i2 == wh));
    }
    assert forall|k2: RingKind, i2: int| #[trigger] post.is_bucketed(k2, i2) implies post
        .bucket_ref_valid(post.bucket_at(k2, i2)) && !post.buckets.free@[spec_size_to_bucket(
        post.bucket_at(k2, i2).size,
    ) as int]@.contains(post.bucket_at(k2, i2).index) by {
        assert(s1.bucket_ref_valid(s1.bucket_at(k2, i2)));
    }
    assert forall|ka: RingKind, ia: int, kb: RingKind, ib: int|
        #[trigger] post.is_bucketed(ka, ia) && #[trigger] post.is_bucketed(kb, ib) && !(ka == kb
            && ia == ib) implies !(spec_size_to_bucket(post.bucket_at(ka, ia).size)
        == spec_size_to_bucket(post.bucket_at(kb, ib).size) && post.bucket_at(ka, ia).index
        == post.bucket_at(kb, ib).index) by {
        assert(s1.is_bucketed(ka, ia) && s1.is_bucketed(kb, ib));
    }
    assert forall|k2: RingKind, i2: int|
        0 <= i2 < post.spec_ring(k2).spec_len() && (#[trigger] post.slot_ref(k2, i2)) is File
            implies post.direct.spec_has(k2, i2 as u32) by {
        if k2 == k && i2 == wh {
        } else {
            assert(s1.slot_ref(k2, i2) is File);
            assert(s1.direct.spec_has(k2, i2 as u32));
            assert(key_preserved(s1.direct, post.direct, k2, i2 as u32));
        }
    }
    assert forall|d: int| 0 <= d < post.direct.files@.len() implies {
        let kd = (#[trigger] post.direct.files@[d]).ring;
        let id = post.direct.files@[d].slot;
        &&& (id as int) < post.spec_ring(kd).spec_len()
        &&& post.slot_ref(kd, id as int) is File
    } by {
        let kd = post.direct.files@[d].ring;
        let id = post.direct.files@[d].slot;
        assert(post.direct.spec_has(kd, id)) by {
            post.direct.lemma_at_index(kd, id, d);
        };
        if kd == k && id as int == wh {
        } else {
            assert(key_preserved(s1.direct, post.direct, kd, id));
            assert(s1.direct.spec_has(kd, id));
            let dp = s1.direct.spec_index_of(kd, id);
            assert(s1.direct.files@[dp].ring == kd && s1.direct.files@[dp].slot == id);
            assert(s1.slot_ref(kd, id as int) is File);
        }
    }
}

/// The other ring.
pub open spec fn spec_other(k: RingKind) -> RingKind {
    match k {
        RingKind::Main => RingKind::Favorites,
        RingKind::Favorites => RingKind::Main,
    }
}

fn other(k: RingKind) -> (r: RingKind)
    ensures
        r == spec_other(k),
{
    match k {
        RingKind::Main => RingKind::Favorites,
        RingKind::Favorites => RingKind::Main,
    }
}

/// After moving a slot record from (src, i) to the vacated (dst, j) of the
/// other ring (renaming its direct file when it has one), the database is
/// still well-formed.
proof fn lemma_move_wf(
    s1: Database,
    post: Database,
    src: RingKind,
    i: int,
    j: int,
    v: RingEntry,
)
    requires
        s1.wf(),
        0 <= i < s1.spec_ring(src).spec_len(),
        0 <= j < s1.spec_ring(spec_other(src)).spec_len(),
        s1.slot_ref(spec_other(src), j) == RingEntry::Uninitialized,
        v == s1.slot_ref(src, i),
        !(v is Uninitialized),
        post.main.wf(),
        post.favorites.wf(),
        post.buckets.wf(),
        post.direct.wf(),
        post.spec_ring(spec_other(src)).slots@ == s1.spec_ring(spec_other(src)).slots@.update(
            j,
            v,
        ),
        post.spec_ring(src).slots@ == s1.spec_ring(src).slots@.update(
            i,
            RingEntry::Uninitialized,
        ),
        post.main.spec_len() == s1.main.spec_len(),
        post.favorites.spec_len() == s1.favorites.spec_len(),
        post.buckets == s1.buckets,
        (v is File ==> {
            &&& post.direct.spec_has(spec_other(src), j as u32)
            &&& !post.direct.spec_has(src, i as u32)
            &&& crate::direct::preserves_other_keys(
                s1.direct,
                post.direct,
                src,
                i as u32,
                spec_other(src),
                j as u32,
            )
        }),
        (!(v is File) ==> post.direct == s1.direct),
    ensures
        post.wf(),
{
    let dst = spec_other(src);
    assert(src != dst);
    assert forall|k2: RingKind, i2: int|
        0 <= i2 < post.spec_ring(k2).spec_len() && !(k2 == src && i2 == i) && !(k2 == dst && i2
            == j) implies #[trigger] post.slot_ref(k2, i2) == s1.slot_ref(k2, i2) by {}
    assert(post.slot_ref(dst, j) == v);
    assert(post.slot_ref(src, i) == RingEntry::Uninitialized);

    // each post-bucketed slot maps to an s1-bucketed slot with the same record
    assert forall|k2: RingKind, i2: int| #[trigger]
        post.is_bucketed(k2, i2) implies post.bucket_at(k2, i2) == s1.bucket_at(
        source_of(src, i, j, k2, i2).0,
        source_of(src, i, j, k2, i2).1,
    ) && s1.is_bucketed(source_of(src, i, j, k2, i2).0, source_of(src, i, j, k2, i2).1) by {
        if k2 == dst && i2 == j {
            assert(s1.is_bucketed(src, i));
        }
    }

    assert forall|k2: RingKind, i2: int| #[trigger] post.is_bucketed(k2, i2) implies post
        .bucket_ref_valid(post.bucket_at(k2, i2)) && !post.buckets.free@[spec_size_to_bucket(
        post.bucket_at(k2, i2).size,
    ) as int]@.contains(post.bucket_at(k2, i2).index) by {
        let (ks, is_) = source_of(src, i, j, k2, i2);
        assert(s1.bucket_ref_valid(s1.bucket_at(ks, is_)));
    }

    // uniqueness: the set of live records is unchanged, only re-addressed
    assert forall|ka: RingKind, ia: int, kb: RingKind, ib: int|
        #[trigger] post.is_bucketed(ka, ia) && #[trigger] post.is_bucketed(kb, ib) && !(ka == kb
            && ia == ib) implies !(spec_size_to_bucket(post.bucket_at(ka, ia).size)
        == spec_size_to_bucket(post.bucket_at(kb, ib).size) && post.bucket_at(ka, ia).index
        == post.bucket_at(kb, ib).index) by {
        let (kas, ias) = source_of(src, i, j, ka, ia);
        let (kbs, ibs) = source_of(src, i, j, kb, ib);
        assert(s1.is_bucketed(kas, ias) && s1.is_bucketed(kbs, ibs));
        assert(!(kas == kbs && ias == ibs));
    }

    // File slots and direct files correspond
    assert forall|k2: RingKind, i2: int|
        0 <= i2 < post.spec_ring(k2).spec_len() && (#[trigger] post.slot_ref(k2, i2)) is File
            implies post.direct.spec_has(k2, i2 as u32) by {
        if k2 == dst && i2 == j {
            assert(v is File);
        } else {
            assert(!(k2 == src && i2 == i));
            assert(s1.slot_ref(k2, i2) is File);
            assert(s1.direct.spec_has(k2, i2 as u32));
            if v is File {
                assert(key_preserved(s1.direct, post.direct, k2, i2 as u32));
            }
        }
    }
    assert forall|d: int| 0 <= d < post.direct.files@.len() implies {
        let kd = (#[trigger] post.direct.files@[d]).ring;
        let id = post.direct.files@[d].slot;
        &&& (id as int) < post.spec_ring(kd).spec_len()
        &&& post.slot_ref(kd, id as int) is File
    } by {
        let kd = post.direct.files@[d].ring;
        let id = post.direct.files@[d].slot;
        assert(post.direct.spec_has(kd, id)) by {
            post.direct.lemma_at_index(kd, id, d);
        };
        if v is File {
            if kd == dst && id as int == j {
            } else {
                assert(!(kd == src && id as int == i)) by {
                    if kd == src && id as int == i {
                        assert(post.direct.spec_has(src, i as u32));
                    }
                };
                assert(key_preserved(s1.direct, post.direct, kd, id));
                assert(s1.direct.spec_has(kd, id));
                let dp = s1.direct.spec_index_of(kd, id);
                assert(s1.direct.files@[dp].ring == kd && s1.direct.files@[dp].slot == id);
                assert(s1.slot_ref(kd, id as int) is File);
            }
        } else {
            assert(s1.direct.spec_has(kd, id));
            let dp = s1.direct.spec_index_of(kd, id);
            assert(s1.direct.files@[dp].ring == kd && s1.direct.files@[dp].slot == id);
            assert(s1.slot_ref(kd, id as int) is File);
            assert(!(kd == src && id as int == i)) by {
                if kd == src && id as int == i {
                    assert(s1.slot_ref(src, i) == v);
                }
            };
            assert(!(kd == dst && id as int == j)) by {
                if kd == dst && id as int == j {
                    assert(s1.slot_ref(dst, j) == RingEntry::Uninitialized);
                }
            };
        }
    }
}

/// Where the record now at (k2, i2) lived before the move: the moved record
/// came from (src, i), everything else stayed put.
pub open spec fn source_of(src: RingKind, i: int, j: int, k2: RingKind, i2: int) -> (
    RingKind,
    int,
) {
    if k2 == spec_other(src) && i2 == j {
        (src, i)
    } else {
        (k2, i2)
    }
}

/// The store cannot take a `len`-byte entry under the main write head: the
/// entry is bucket-sized, its class's file already holds the largest
/// addressable slot count, the class's free list is empty, and vacating the
/// write-head slot frees no slot of that class either.
pub open spec fn add_saturated(db: Database, len: nat) -> bool {
    let c = spec_size_to_bucket(len as u32) as int;
    &&& len <= 4096
    &&& db.buckets.free@[c]@.len() == 0
    &&& db.buckets.files@[c]@.len() == crate::bucket_pool::MAX_BUCKET_SLOTS * spec_bucket_len(c)
    &&& !(db.slot_ref(RingKind::Main, db.main.write_head as int) matches RingEntry::Bucketed(be)
        && spec_size_to_bucket(be.size) as int == c)
}

impl Allocator {
    /// Opens a fresh, empty database of the given ring capacity.
    pub fn open(capacity: u32) -> (r: Allocator)
        requires
            1 <= capacity <= MAX_ENTRIES,
        ensures
            r.db.wf(),
            r.db.main.spec_len() == capacity,
            r.db.favorites.spec_len() == capacity,
            r.db.main.write_head == 0,
            r.db.favorites.write_head == 0,
            forall|id: u64| r.db.spec_lookup(id) is None,
    {
        Allocator { db: Database::open(capacity) }
    }

    /// The database, for readers.
    pub fn database(&self) -> (r: &Database)
        ensures
            r == &self.db,
    {
        &self.db
    }

    /// Records a new entry on the main ring: the slot under the write head
    /// is vacated (overwriting the oldest entry once the ring has wrapped),
    /// the bytes go to a bucket slot or, past the largest bucket, to the
    /// direct store (with the MIME hint), and the write head advances. The
    /// returned composite id resolves to exactly the added bytes. Fails
    /// exactly when the entry's bucket class has no free slot (not even from
    /// the vacated write-head slot) and its file cannot grow further.
    pub fn add(&mut self, bytes: Vec<u8>, mime: Vec<u8>) -> (r: Result<u64, Error>)
        requires
            old(self).db.wf(),
            1 <= bytes@.len() <= u32::MAX,
        ensures
            final(self).db.wf(),
            r is Err <==> add_saturated(old(self).db, bytes@.len()),
            ({
                let wh = old(self).db.main.write_head;
                let id = spec_composite_id(RingKind::Main, wh);
                match r {
                    Ok(rid) => {
                        &&& rid == id
                        &&& final(self).db.spec_lookup(id) == Some(bytes@)
                        &&& final(self).db.spec_mime_lookup(id) == Some(
                            if bytes@.len() > 4096 {
                                mime@
                            } else {
                                Seq::<u8>::empty()
                            },
                        )
                        &&& preserves_entries_except(old(self).db, final(self).db, id, id)
                        &&& final(self).db.main.write_head == old(self).db.main.spec_next(
                            wh as int,
                        )
                        &&& final(self).db.favorites.write_head == old(
                            self,
                        ).db.favorites.write_head
                        &&& final(self).db.main.spec_len() == old(self).db.main.spec_len()
                        &&& final(self).db.favorites.spec_len() == old(
                            self,
                        ).db.favorites.spec_len()
                    },
                    Err(e) => {
                        &&& e is Io
                        &&& bytes@.len() <= 4096
                        &&& final(self).db.buckets.free@[spec_size_to_bucket(
                            bytes@.len() as u32,
                        ) as int]@.len() == 0
                        &&& final(self).db.spec_lookup(id) is None
                        &&& preserves_entries_except(old(self).db, final(self).db, id, id)
                        &&& final(self).db.main.write_head == wh
                    },
                }
            }),
    {
        let ghost s0 = self.db;
        let wh = self.db.main.write_head();
        let ghost id = spec_composite_id(RingKind::Main, wh);
        proof {
            lemma_compose_decompose(RingKind::Main, wh);
        }
        release_slot(&mut self.db, RingKind::Main, wh);
        let ghost s1 = self.db;

        if bytes.len() <= 4096 {
            let size = bytes.len() as u32;
            let (c, j) = match self.db.buckets.alloc_slot(&bytes) {
                Err(()) => {
                    proof {
                        assert forall|x: u64| x != id implies #[trigger] entry_preserved(
                            s0,
                            final(self).db,
                            x,
                        ) by {
                            assert(entry_preserved(s0, s1, x));
                        }
                    }
                    return Err(Error::Io { context: "no free slot left in the bucket file" });
                },
                Ok(p) => p,
            };
            let ghost s2 = self.db;
            let be = BucketEntry { size, index: j };
            self.db.main.set_slot(wh, RingEntry::Bucketed(be));
            self.db.main.advance_head();
            proof {
                let post = final(self).db;
                let whi = wh as int;
                let ci = spec_size_to_bucket(size) as int;
                let st = spec_bucket_len(ci) as int;
                crate::buckets::lemma_size_to_bucket_smallest(size);
                // the new slot is not referenced by any live record
                assert forall|k2: RingKind, i2: int| #[trigger]
                    s1.is_bucketed(k2, i2) implies !(spec_size_to_bucket(
                    s1.bucket_at(k2, i2).size,
                ) as int == ci && s1.bucket_at(k2, i2).index == j) by {
                    let be2 = s1.bucket_at(k2, i2);
                    if s1.buckets.free@[ci]@.len() > 0 {
                        // j was the top of the free list, and live slots avoid the free list
                        assert(s1.buckets.free@[ci]@.contains(j)) by {
                            assert(s1.buckets.free@[ci]@.last() == j);
                        };
                    } else {
                        // j is the freshly appended slot, beyond every live index
                        assert((j as int) * st == s1.buckets.files@[ci]@.len());
                        vstd::arithmetic::div_mod::lemma_fundamental_div_mod_converse(
                            s1.buckets.files@[ci]@.len() as int,
                            st,
                            j as int,
                            0,
                        );
                        assert(s1.buckets.spec_nslots(ci) == j as int);
                        if spec_size_to_bucket(be2.size) as int == ci {
                            assert(s1.bucket_ref_valid(be2));
                        }
                    }
                }
                // free lists only shrank and never hold the new slot
                assert forall|c2: int, f: u32|
                    0 <= c2 < 11 && (#[trigger] post.buckets.free@[c2]@.contains(f)) implies s1
                    .buckets
                    .free@[c2]@.contains(f) && !(c2 == ci && f == j) by {
                    if c2 == ci {
                        if s1.buckets.free@[ci]@.len() > 0 {
                            let dropped = s1.buckets.free@[ci]@.drop_last();
                            assert(post.buckets.free@[ci]@ == dropped);
                            let x = choose|x: int|
                                0 <= x < dropped.len() && dropped[x] == f;
                            assert(s1.buckets.free@[ci]@[x] == f);
                            if f == j {
                                assert(s1.buckets.free@[ci]@.last() == j);
                                assert(!s1.buckets.free@[ci]@.no_duplicates());
                            }
                        }
                    }
                }
                lemma_add_bucketed_wf(s1, post, RingKind::Main, whi, be);
                // the new id resolves to the added bytes
                assert(post.spec_lookup(id) == Some(bytes@)) by {
                    assert(post.slot_ref(RingKind::Main, whi) == RingEntry::Bucketed(be));
                    assert(post.buckets.spec_region(ci, j as int, size as int) == bytes@);
                };
                assert(post.spec_mime_lookup(id) == Some(Seq::<u8>::empty()));
                // all other entries are preserved
                assert forall|x: u64| x != id implies #[trigger] entry_preserved(s0, post, x) by {
                    assert(entry_preserved(s0, s1, x));
                    lemma_decompose_unique(x);
                    if let Some((k2, i2)) = spec_decompose_id(x) {
                        if (i2 as int) < post.spec_ring(k2).spec_len() {
                            assert(!(k2 == RingKind::Main && i2 == wh));
                            assert(post.slot_ref(k2, i2 as int) == s1.slot_ref(k2, i2 as int));
                            match s1.slot_ref(k2, i2 as int) {
                                RingEntry::Uninitialized => {},
                                RingEntry::Bucketed(be2) => {
                                    assert(s1.is_bucketed(k2, i2 as int));
                                    assert(s1.bucket_at(k2, i2 as int) == be2);
                                    assert(s1.bucket_ref_valid(be2));
                                    lemma_region_frame(s1.buckets, post.buckets, ci, j as int, be2);
                                },
                                RingEntry::File => {
                                    assert(post.direct == s1.direct);
                                },
                            }
                        }
                    }
                }
            }
            Ok(composite_id(RingKind::Main, wh))
        } else {
            self.db.direct.put(RingKind::Main, wh, bytes, mime);
            self.db.main.set_slot(wh, RingEntry::File);
            self.db.main.advance_head();
            proof {
                let post = final(self).db;
                let whi = wh as int;
                lemma_add_file_wf(s1, post, RingKind::Main, whi);
                assert(post.spec_lookup(id) == Some(bytes@));
                assert(post.spec_mime_lookup(id) == Some(mime@));
                assert forall|x: u64| x != id implies #[trigger] entry_preserved(s0, post, x) by {
                    assert(entry_preserved(s0, s1, x));
                    lemma_decompose_unique(x);
                    if let Some((k2, i2)) = spec_decompose_id(x) {
                        if (i2 as int) < post.spec_ring(k2).spec_len() {
                            assert(!(k2 == RingKind::Main && i2 == wh));
                            assert(post.slot_ref(k2, i2 as int) == s1.slot_ref(k2, i2 as int));
                            match s1.slot_ref(k2, i2 as int) {
                                RingEntry::Uninitialized => {},
                                RingEntry::Bucketed(be2) => {
                                    assert(post.buckets == s1.buckets);
                                },
                                RingEntry::File => {
                                    assert(key_preserved(s1.direct, post.direct, k2, i2));
                                },
                            }
                        }
                    }
                }
            }
            Ok(composite_id(RingKind::Main, wh))
        }
    }

    /// Moves the initialised entry at (src, i) to the other ring: the
    /// destination's write-head slot is vacated, the slot record (and, for a
    /// file-backed entry, its direct file name) moves there, the source slot
    /// becomes uninitialised, and the destination head advances.
    fn move_entry(&mut self, src: RingKind, i: u32) -> (j: u32)
        requires
            old(self).db.wf(),
            (i as int) < old(self).db.spec_ring(src).spec_len(),
            !(old(self).db.slot_ref(src, i as int) is Uninitialized),
        ensures
            final(self).db.wf(),
            ({
                let dst = spec_other(src);
                let id_src = spec_composite_id(src, i);
                let id_dst = spec_composite_id(dst, j);
                &&& j == old(self).db.spec_ring(dst).write_head
                &&& final(self).db.spec_lookup(id_dst) == old(self).db.spec_lookup(id_src)
                &&& final(self).db.spec_mime_lookup(id_dst) == old(self).db.spec_mime_lookup(
                    id_src,
                )
                &&& final(self).db.spec_lookup(id_src) is None
                &&& preserves_entries_except(old(self).db, final(self).db, id_src, id_dst)
                &&& final(self).db.spec_ring(dst).write_head == old(self).db.spec_ring(
                    dst,
                ).spec_next(j as int)
                &&& final(self).db.spec_ring(src).write_head == old(self).db.spec_ring(
                    src,
                ).write_head
                &&& final(self).db.main.spec_len() == old(self).db.main.spec_len()
                &&& final(self).db.favorites.spec_len() == old(self).db.favorites.spec_len()
            }),
    {
        let ghost s0 = self.db;
        let dst = other(src);
        let j = match dst {
            RingKind::Main => self.db.main.write_head(),
            RingKind::Favorites => self.db.favorites.write_head(),
        };
        let ghost id_src = spec_composite_id(src, i);
        let ghost id_dst = spec_composite_id(dst, j);
        proof {
            lemma_compose_decompose(src, i);
            lemma_compose_decompose(dst, j);
            assert(id_src != id_dst) by {
                lemma_decompose_unique(id_src);
                lemma_decompose_unique(id_dst);
            };
        }
        release_slot(&mut self.db, dst, j);
        let ghost s1 = self.db;
        proof {
            assert(entry_preserved(s0, s1, id_src));
            assert(s1.slot_ref(src, i as int) == s0.slot_ref(src, i as int));
        }

        let v = match src {
            RingKind::Main => self.db.main.get(i),
            RingKind::Favorites => self.db.favorites.get(i),
        };
        let v = v.unwrap();
        assert(v == s1.slot_ref(src, i as int));

        if let RingEntry::File = v {
            proof {
                assert(s1.direct.spec_has(src, i));
            }
            self.db.direct.rename(src, i, dst, j);
        }
        match dst {
            RingKind::Main => self.db.main.set_slot(j, v),
            RingKind::Favorites => self.db.favorites.set_slot(j, v),
        }
        match src {
            RingKind::Main => self.db.main.set_slot(i, RingEntry::Uninitialized),
            RingKind::Favorites => self.db.favorites.set_slot(i, RingEntry::Uninitialized),
        }
        match dst {
            RingKind::Main => self.db.main.advance_head(),
            RingKind::Favorites => self.db.favorites.advance_head(),
        }

        proof {
            let post = final(self).db;
            let ii = i as int;
            let jj = j as int;
            assert(post.spec_ring(dst).slots@ == s1.spec_ring(dst).slots@.update(jj, v));
            assert(post.spec_ring(src).slots@ == s1.spec_ring(src).slots@.update(
                ii,
                RingEntry::Uninitialized,
            ));
            lemma_move_wf(s1, post, src, ii, jj, v);
            // the moved entry resolves at its new id with the same bytes
            assert(post.spec_lookup(id_dst) == s1.spec_lookup(id_src) && post.spec_mime_lookup(
                id_dst,
            ) == s1.spec_mime_lookup(id_src)) by {
                match v {
                    RingEntry::Bucketed(be) => {
                        assert(post.buckets == s1.buckets);
                    },
                    _ => {},
                }
            };
            assert(post.spec_lookup(id_src) is None);
            // everything else is preserved through both steps
            assert forall|x: u64|
                x != id_src && x != id_dst implies #[trigger] entry_preserved(s0, post, x) by {
                assert(entry_preserved(s0, s1, x));
                lemma_decompose_unique(x);
                if let Some((k2, i2)) = spec_decompose_id(x) {
                    if (i2 as int) < post.spec_ring(k2).spec_len() {
                        assert(!(k2 == src && i2 == i) && !(k2 == dst && i2 == j));
                        assert(post.slot_ref(k2, i2 as int) == s1.slot_ref(k2, i2 as int));
                        match s1.slot_ref(k2, i2 as int) {
                            RingEntry::Uninitialized => {},
                            RingEntry::Bucketed(be2) => {
                                assert(post.buckets == s1.buckets);
                            },
                            RingEntry::File => {
                                if v is File {
                                    assert(key_preserved(s1.direct, post.direct, k2, i2));
                                } else {
                                    assert(post.direct == s1.direct);
                                }
                            },
                        }
                    }
                }
            }
            assert(entry_preserved(s0, s1, id_src));
        }
        j
    }

    /// Moves the entry `id` from the main ring onto the favorites ring and
    /// returns its new composite id; the old id stops resolving. A favorite
    /// of an id already on the favorites ring is a no-op returning the same
    /// id. Fails with `Ring` when the id names no ring, with `Entry` when
    /// the slot holds no entry.
    pub fn favorite(&mut self, id: u64) -> (r: Result<u64, IdNotFoundError>)
        requires
            old(self).db.wf(),
        ensures
            final(self).db.wf(),
            match r {
                Ok(nid) => {
                    if spec_decompose_id(id) matches Some((RingKind::Favorites, _)) {
                        &&& nid == id
                        &&& final(self).db == old(self).db
                    } else {
                        &&& spec_decompose_id(id) matches Some((RingKind::Main, _))
                        &&& old(self).db.spec_lookup(id) is Some
                        &&& nid == spec_composite_id(
                            RingKind::Favorites,
                            old(self).db.favorites.write_head,
                        )
                        &&& final(self).db.spec_lookup(nid) == old(self).db.spec_lookup(id)
                        &&& final(self).db.spec_mime_lookup(nid) == old(
                            self,
                        ).db.spec_mime_lookup(id)
                        &&& final(self).db.spec_lookup(id) is None
                        &&& preserves_entries_except(old(self).db, final(self).db, id, nid)
                        &&& final(self).db.favorites.write_head == old(
                            self,
                        ).db.favorites.spec_next(old(self).db.favorites.write_head as int)
                        &&& final(self).db.main.write_head == old(self).db.main.write_head
                    }
                },
                Err(IdNotFoundError::Ring(h)) => {
                    &&& spec_decompose_id(id) is None
                    &&& h == id / 0x1_0000_0000
                    &&& final(self).db == old(self).db
                },
                Err(IdNotFoundError::Entry(i)) => {
                    &&& spec_decompose_id(id) matches Some((RingKind::Main, i2)) && i2 == i
                    &&& old(self).db.spec_lookup(id) is None
                    &&& final(self).db == old(self).db
                },
            },
    {
        self.move_to(id, RingKind::Favorites)
    }

    /// Moves the entry `id` from the favorites ring back onto the main ring;
    /// the mirror of `favorite`.
    pub fn unfavorite(&mut self, id: u64) -> (r: Result<u64, IdNotFoundError>)
        requires
            old(self).db.wf(),
        ensures
            final(self).db.wf(),
            match r {
                Ok(nid) => {
                    if spec_decompose_id(id) matches Some((RingKind::Main, _)) {
                        &&& nid == id
                        &&& final(self).db == old(self).db
                    } else {
                        &&& spec_decompose_id(id) matches Some((RingKind::Favorites, _))
                        &&& old(self).db.spec_lookup(id) is Some
                        &&& nid == spec_composite_id(
                            RingKind::Main,
                            old(self).db.main.write_head,
                        )
                        &&& final(self).db.spec_lookup(nid) == old(self).db.spec_lookup(id)
                        &&& final(self).db.spec_mime_lookup(nid) == old(
                            self,
                        ).db.spec_mime_lookup(id)
                        &&& final(self).db.spec_lookup(id) is None
                        &&& preserves_entries_except(old(self).db, final(self).db, id, nid)
                        &&& final(self).db.main.write_head == old(self).db.main.spec_next(
                            old(self).db.main.write_head as int,
                        )
                        &&& final(self).db.favorites.write_head == old(
                            self,
                        ).db.favorites.write_head
                    }
                },
                Err(IdNotFoundError::Ring(h)) => {
                    &&& spec_decompose_id(id) is None
                    &&& h == id / 0x1_0000_0000
                    &&& final(self).db == old(self).db
                },
                Err(IdNotFoundError::Entry(i)) => {
                    &&& spec_decompose_id(id) matches Some((RingKind::Favorites, i2)) && i2 == i
                    &&& old(self).db.spec_lookup(id) is None
                    &&& final(self).db == old(self).db
                },
            },
    {
        self.move_to(id, RingKind::Main)
    }

    /// The shared body of `favorite` and `unfavorite`: move `id` onto the
    /// ring `dst` (a no-op when it is already there).
    fn move_to(&mut self, id: u64, dst: RingKind) -> (r: Result<u64, IdNotFoundError>)
        requires
            old(self).db.wf(),
        ensures
            final(self).db.wf(),
            match r {
                Ok(nid) => {
                    if spec_decompose_id(id) matches Some((k, _)) && k == dst {
                        &&& nid == id
                        &&& final(self).db == old(self).db
                    } else {
                        &&& spec_decompose_id(id) matches Some((k, _)) && k == spec_other(dst)
                        &&& old(self).db.spec_lookup(id) is Some
                        &&& nid == spec_composite_id(dst, old(self).db.spec_ring(dst).write_head)
                        &&& final(self).db.spec_lookup(nid) == old(self).db.spec_lookup(id)
                        &&& final(self).db.spec_mime_lookup(nid) == old(
                            self,
                        ).db.spec_mime_lookup(id)
                        &&& final(self).db.spec_lookup(id) is None
                        &&& preserves_entries_except(old(self).db, final(self).db, id, nid)
                        &&& final(self).db.spec_ring(dst).write_head == old(self).db.spec_ring(
                            dst,
                        ).spec_next(old(self).db.spec_ring(dst).write_head as int)
                        &&& final(self).db.spec_ring(spec_other(dst)).write_head == old(
                            self,
                        ).db.spec_ring(spec_other(dst)).write_head
                    }
                },
                Err(IdNotFoundError::Ring(h)) => {
                    &&& spec_decompose_id(id) is None
                    &&& h == id / 0x1_0000_0000
                    &&& final(self).db == old(self).db
                },
                Err(IdNotFoundError::Entry(i)) => {
                    &&& spec_decompose_id(id) matches Some((k, i2)) && i2 == i && k == spec_other(
                        dst,
                    )
                    &&& old(self).db.spec_lookup(id) is None
                    &&& final(self).db == old(self).db
                },
            },
    {
        let (k, i) = match decompose_id(id) {
            Ok(p) => p,
            Err(e) => {
                return Err(e);
            },
        };
        if k == dst {
            return Ok(id);
        }
        proof {
            assert(k == spec_other(dst));
            assert(dst == spec_other(k));
        }
        let len = match k {
            RingKind::Main => self.db.main.len(),
            RingKind::Favorites => self.db.favorites.len(),
        };
        if i >= len {
            return Err(IdNotFoundError::Entry(i));
        }
        let entry = match k {
            RingKind::Main => self.db.main.get(i),
            RingKind::Favorites => self.db.favorites.get(i),
        };
        match entry.unwrap() {
            RingEntry::Uninitialized => Err(IdNotFoundError::Entry(i)),
            _ => {
                proof {
                    lemma_decompose_unique(id);
                    assert(old(self).db.spec_lookup(id) is Some) by {
                        if old(self).db.slot_ref(k, i as int) is File {
                            assert(old(self).db.direct.spec_has(k, i));
                        }
                    };
                }
                let j = self.move_entry(k, i);
                Ok(composite_id(dst, j))
            },
        }
    }

    /// Deletes the entry `id`: the slot record becomes uninitialised and its
    /// backing storage is released. Fails with `Ring` when the id names no
    /// ring, with `Entry` when the slot holds no entry (so a second delete
    /// of the same id fails with `Entry`).
    pub fn delete(&mut self, id: u64) -> (r: Result<(), IdNotFoundError>)
        requires
            old(self).db.wf(),
        ensures
            final(self).db.wf(),
            match r {
                Ok(()) => {
                    &&& old(self).db.spec_lookup(id) is Some
                    &&& final(self).db.spec_lookup(id) is None
                    &&& preserves_entries_except(old(self).db, final(self).db, id, id)
                    &&& final(self).db.main.write_head == old(self).db.main.write_head
                    &&& final(self).db.favorites.write_head == old(self).db.favorites.write_head
                },
                Err(IdNotFoundError::Ring(h)) => {
                    &&& spec_decompose_id(id) is None
                    &&& h == id / 0x1_0000_0000
                    &&& final(self).db == old(self).db
                },
                Err(IdNotFoundError::Entry(i)) => {
                    &&& spec_decompose_id(id) matches Some((_, i2)) && i2 == i
                    &&& old(self).db.spec_lookup(id) is None
                    &&& final(self).db == old(self).db
                },
            },
    {
        let (k, i) = match decompose_id(id) {
            Ok(p) => p,
            Err(e) => {
                return Err(e);
            },
        };
        let len = match k {
            RingKind::Main => self.db.main.len(),
            RingKind::Favorites => self.db.favorites.len(),
        };
        if i >= len {
            return Err(IdNotFoundError::Entry(i));
        }
        let entry = match k {
            RingKind::Main => self.db.main.get(i),
            RingKind::Favorites => self.db.favorites.get(i),
        };
        match entry.unwrap() {
            RingEntry::Uninitialized => Err(IdNotFoundError::Entry(i)),
            _ => {
                proof {
                    lemma_decompose_unique(id);
                    assert(old(self).db.spec_lookup(id) is Some) by {
                        if old(self).db.slot_ref(k, i as int) is File {
                            assert(old(self).db.direct.spec_has(k, i));
                        }
                    };
                }
                release_slot(&mut self.db, k, i);
                Ok(())
            },
        }
    }
}

} // verus!
