//! The whole on-disk state: two rings, the bucket pool, the direct store.
//!
//! `spec_lookup` is the abstraction every contract speaks of: the partial map
//! from composite ids to entry bytes. `wf` ties the pieces together: every
//! bucketed slot record points at a valid, NUL-padded, exclusively owned
//! bucket region, and `File` slot records correspond one-to-one with direct
//! store files.

use vstd::prelude::*;

use crate::bucket_pool::BucketPool;
use crate::buckets::{spec_bucket_len, spec_size_to_bucket};
use crate::direct::DirectStore;
use crate::protocol::{spec_decompose_id, RingKind};
use crate::ring::{BucketEntry, Ring, RingEntry};

verus! {

/// The ground truth of one data directory.
pub struct Database {
    pub main: Ring,
    pub favorites: Ring,
    pub buckets: BucketPool,
    pub direct: DirectStore,
}

impl Database {
    /// The ring of the given kind.
    pub open spec fn spec_ring(self, k: RingKind) -> Ring {
        match k {
            RingKind::Main => self.main,
            RingKind::Favorites => self.favorites,
        }
    }

    /// The slot record at position `i` of ring `k`.
    pub open spec fn slot_ref(self, k: RingKind, i: int) -> RingEntry {
        self.spec_ring(k).slots@[i]
    }

    /// Whether position `i` of ring `k` holds a bucketed record.
    pub open spec fn is_bucketed(self, k: RingKind, i: int) -> bool {
        &&& 0 <= i < self.spec_ring(k).spec_len()
        &&& self.slot_ref(k, i) is Bucketed
    }

    /// The bucketed record at position `i` of ring `k`.
    pub open spec fn bucket_at(self, k: RingKind, i: int) -> BucketEntry {
        self.slot_ref(k, i)->Bucketed_0
    }

    /// A bucketed record points into an allocated slot of its class, and the
    /// slot's tail past the entry's size is NUL.
    pub open spec fn bucket_ref_valid(self, be: BucketEntry) -> bool {
        let c = spec_size_to_bucket(be.size) as int;
        let st = spec_bucket_len(c) as int;
        &&& (be.index as int) < self.buckets.spec_nslots(c)
        &&& forall|p: int|
            be.index * st + be.size <= p < (be.index + 1) * st ==> self.buckets.files@[c]@[p]
                == 0u8
    }

    pub open spec fn wf(self) -> bool {
        &&& self.main.wf()
        &&& self.favorites.wf()
        &&& self.buckets.wf()
        &&& self.direct.wf()
        // every bucketed slot record is valid against the pool
        &&& forall|k: RingKind, i: int|
            #[trigger] self.is_bucketed(k, i) ==> self.bucket_ref_valid(self.bucket_at(k, i))
        // no two slot records share a bucket slot
        &&& forall|ka: RingKind, ia: int, kb: RingKind, ib: int|
            #[trigger] self.is_bucketed(ka, ia) && #[trigger] self.is_bucketed(kb, ib) && !(ka
                == kb && ia == ib) ==> !(spec_size_to_bucket(self.bucket_at(ka, ia).size)
                == spec_size_to_bucket(self.bucket_at(kb, ib).size) && self.bucket_at(
                ka,
                ia,
            ).index == self.bucket_at(kb, ib).index)
        // no live bucket slot sits on a free list
        &&& forall|k: RingKind, i: int|
            #[trigger] self.is_bucketed(k, i) ==> !self.buckets.free@[spec_size_to_bucket(
                self.bucket_at(k, i).size,
            ) as int]@.contains(self.bucket_at(k, i).index)
        // every File slot record has its direct file
        &&& forall|k: RingKind, i: int|
            0 <= i < self.spec_ring(k).spec_len() && (#[trigger] self.slot_ref(k, i)) is File
                ==> self.direct.spec_has(k, i as u32)
        // and every direct file belongs to a File slot record
        &&& forall|d: int|
            0 <= d < self.direct.files@.len() ==> {
                let k = (#[trigger] self.direct.files@[d]).ring;
                let i = self.direct.files@[d].slot;
                &&& (i as int) < self.spec_ring(k).spec_len()
                &&& self.slot_ref(k, i as int) is File
            }
    }

    /// The bytes of the live entry `id`, or `None` when the id does not
    /// resolve (invalid ring kind, slot out of range, or uninitialised).
    pub open spec fn spec_lookup(self, id: u64) -> Option<Seq<u8>> {
        match spec_decompose_id(id) {
            None => None,
            Some((k, i)) => {
                if (i as int) < self.spec_ring(k).spec_len() {
                    match self.slot_ref(k, i as int) {
                        RingEntry::Uninitialized => None,
                        RingEntry::Bucketed(be) => Some(
                            self.buckets.spec_region(
                                spec_size_to_bucket(be.size) as int,
                                be.index as int,
                                be.size as int,
                            ),
                        ),
                        RingEntry::File => if self.direct.spec_has(k, i) {
                            Some(self.direct.spec_data(k, i))
                        } else {
                            None
                        },
                    }
                } else {
                    None
                }
            },
        }
    }

    /// The MIME type of the live entry `id`: bucketed entries carry none
    /// (empty), file-backed entries carry their xattr.
    pub open spec fn spec_mime_lookup(self, id: u64) -> Option<Seq<u8>> {
        match spec_decompose_id(id) {
            None => None,
            Some((k, i)) => {
                if (i as int) < self.spec_ring(k).spec_len() {
                    match self.slot_ref(k, i as int) {
                        RingEntry::Uninitialized => None,
                        RingEntry::Bucketed(be) => Some(Seq::<u8>::empty()),
                        RingEntry::File => if self.direct.spec_has(k, i) {
                            Some(self.direct.spec_mime(k, i))
                        } else {
                            None
                        },
                    }
                } else {
                    None
                }
            },
        }
    }

    /// Opens a fresh data directory: empty rings of the given capacity,
    /// empty buckets, empty direct store.
    pub fn open(capacity: u32) -> (r: Database)
        requires
            1 <= capacity <= crate::ring::MAX_ENTRIES,
        ensures
            r.wf(),
            r.main.spec_len() == capacity,
            r.favorites.spec_len() == capacity,
            r.main.write_head == 0,
            r.favorites.write_head == 0,
            forall|id: u64| r.spec_lookup(id) is None,
    {
        let r = Database {
            main: Ring::open(capacity),
            favorites: Ring::open(capacity),
            buckets: BucketPool::open(),
            direct: DirectStore::open(),
        };
        proof {
            assert forall|k: RingKind, i: int|
                0 <= i < r.spec_ring(k).spec_len() implies #[trigger] r.slot_ref(k, i)
                == RingEntry::Uninitialized by {
                if k == RingKind::Main {
                    assert(r.main.spec_slot(i) == RingEntry::Uninitialized);
                } else {
                    assert(k == RingKind::Favorites);
                    assert(r.favorites.spec_slot(i) == RingEntry::Uninitialized);
                }
            }
            assert forall|id: u64| r.spec_lookup(id) is None by {
                if let Some((k, i)) = spec_decompose_id(id) {
                    if (i as int) < r.spec_ring(k).spec_len() {
                        assert(r.slot_ref(k, i as int) == RingEntry::Uninitialized);
                    }
                }
            }
            assert forall|k: RingKind, i: int| !(#[trigger] r.is_bucketed(k, i)) by {
                if 0 <= i < r.spec_ring(k).spec_len() {
                    assert(r.slot_ref(k, i) == RingEntry::Uninitialized);
                }
            }
        }
        r
    }
}

/// The id `x` resolves in `post` exactly as in `pre`, bytes and MIME type
/// alike.
pub open spec fn entry_preserved(pre: Database, post: Database, x: u64) -> bool {
    &&& post.spec_lookup(x) == pre.spec_lookup(x)
    &&& post.spec_mime_lookup(x) == pre.spec_mime_lookup(x)
}

/// Every id but `a` and `b` resolves in `post` exactly as in `pre`, bytes
/// and MIME type alike.
pub open spec fn preserves_entries_except(pre: Database, post: Database, a: u64, b: u64) -> bool {
    forall|x: u64| x != a && x != b ==> #[trigger] entry_preserved(pre, post, x)
}

/// In a well-formed database, every bucketed slot record sits in the class
/// `size_to_bucket(size)`, whose slot length holds the entry's size, at an
/// allocated index of that class's file.
pub proof fn lemma_bucketed_entry_fits(db: Database, k: RingKind, i: int)
    requires
        db.wf(),
        db.is_bucketed(k, i),
    ensures
        ({
            let be = db.bucket_at(k, i);
            let c = spec_size_to_bucket(be.size) as int;
            &&& c < 11
            &&& spec_bucket_len(c) >= be.size
            &&& (be.index as int) < db.buckets.spec_nslots(c)
        }),
{
    let be = db.bucket_at(k, i);
    assert(db.bucket_ref_valid(be));
    crate::buckets::lemma_size_to_bucket_smallest(be.size);
}

/// Stride regions of distinct slots do not overlap.
pub proof fn lemma_slot_order(st: int, j1: int, j2: int)
    by (nonlinear_arith)
    requires
        st >= 1,
        j1 < j2,
    ensures
        (j1 + 1) * st <= j2 * st,
{
}

/// A slot count bounds the file length from below.
pub proof fn lemma_nslots_bound(pool: BucketPool, c: int, j: int)
    requires
        pool.wf(),
        0 <= c < 11,
        0 <= j < pool.spec_nslots(c),
    ensures
        (j + 1) * (spec_bucket_len(c) as int) <= pool.files@[c]@.len(),
        j * (spec_bucket_len(c) as int) >= 0,
{
    let st = spec_bucket_len(c) as int;
    let n = pool.spec_nslots(c);
    vstd::arithmetic::div_mod::lemma_fundamental_div_mod(pool.files@[c]@.len() as int, st);
    assert((j + 1) * st <= n * st) by (nonlinear_arith)
        requires
            j < n,
            st >= 1,
    ;
    assert(j * st >= 0) by (nonlinear_arith)
        requires
            j >= 0,
            st >= 1,
    ;
}

/// If the pool changed only inside the slot (c, j) (and perhaps grew), then
/// the region and padding of any other allocated slot reference are
/// untouched.
pub proof fn lemma_region_frame(pre: BucketPool, post: BucketPool, c: int, j: int, be: BucketEntry)
    requires
        pre.wf(),
        0 <= c < 11,
        j >= 0,
        be.wf(),
        (be.index as int) < pre.spec_nslots(spec_size_to_bucket(be.size) as int),
        !(spec_size_to_bucket(be.size) as int == c && be.index as int == j),
        forall|c3: int| 0 <= c3 < 11 && c3 != c ==> post.files@[c3] == pre.files@[c3],
        post.files@[c]@.len() >= pre.files@[c]@.len(),
        forall|p: int|
            0 <= p < pre.files@[c]@.len() && !(j * (spec_bucket_len(c) as int) <= p < (j + 1) * (
            spec_bucket_len(c) as int)) ==> post.files@[c]@[p] == pre.files@[c]@[p],
    ensures
        ({
            let c2 = spec_size_to_bucket(be.size) as int;
            let st2 = spec_bucket_len(c2) as int;
            &&& post.spec_region(c2, be.index as int, be.size as int) == pre.spec_region(
                c2,
                be.index as int,
                be.size as int,
            )
            &&& forall|p: int|
                be.index * st2 + be.size <= p < (be.index + 1) * st2 ==> post.files@[c2]@[p]
                    == pre.files@[c2]@[p]
        }),
{
    let c2 = spec_size_to_bucket(be.size) as int;
    let st2 = spec_bucket_len(c2) as int;
    let idx = be.index as int;
    crate::buckets::lemma_size_to_bucket_smallest(be.size);
    lemma_nslots_bound(pre, c2, idx);
    if c2 != c {
        assert(post.files@[c2] == pre.files@[c2]);
        assert(post.spec_region(c2, idx, be.size as int) == pre.spec_region(
            c2,
            idx,
            be.size as int,
        ));
        assert(forall|p: int|
            idx * st2 + be.size <= p < (idx + 1) * st2 ==> post.files@[c2]@[p]
                == pre.files@[c2]@[p]);
    } else {
        // same class, different slot: the regions are disjoint
        if idx < j {
            lemma_slot_order(st2, idx, j);
        } else {
            lemma_slot_order(st2, j, idx);
        }
        assert(idx * st2 + st2 == (idx + 1) * st2) by (nonlinear_arith);
        assert(forall|p: int|
            idx * st2 <= p < (idx + 1) * st2 ==> post.files@[c2]@[p] == pre.files@[c2]@[p]);
        assert forall|q: int|
            idx * st2 <= q < idx * st2 + be.size implies #[trigger] post.files@[c2]@[q]
            == pre.files@[c2]@[q] by {
            assert(idx * st2 <= q < (idx + 1) * st2);
        }
        assert(post.spec_region(c2, idx, be.size as int) =~= pre.spec_region(
            c2,
            idx,
            be.size as int,
        ));
    }
}

} // verus!
