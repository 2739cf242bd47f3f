//! The eleven size-classed bucket files and their free lists.
//!
//! A bucketed entry of size `s` lives in the file of class
//! `size_to_bucket(s)` at byte offset `stride * slot`, where `stride` is the
//! class's slot length. The writer allocates slots LIFO from a per-class free
//! list, appending a fresh slot when the list is empty. The unused tail of a
//! slot is NUL-padded.

use vstd::prelude::*;

use crate::buckets::{bucket_to_length, size_to_bucket, spec_bucket_len, spec_size_to_bucket};

verus! {

/// The most slots one bucket file can address: indices are 32 bits.
pub const MAX_BUCKET_SLOTS: u64 = 0x1_0000_0000;

/// The writer's view of the bucket files: the file bytes and the per-class
/// free lists.
pub struct BucketPool {
    /// The eleven bucket files, flat bytes.
    pub files: Vec<Vec<u8>>,
    /// Per class, the slots released by deletes, reused LIFO.
    pub free: Vec<Vec<u32>>,
}

impl BucketPool {
    /// The number of slots the file of class `c` holds.
    pub open spec fn spec_nslots(self, c: int) -> int {
        self.files@[c]@.len() as int / spec_bucket_len(c) as int
    }

    pub open spec fn wf(self) -> bool {
        &&& self.files@.len() == 11
        &&& self.free@.len() == 11
        &&& forall|c: int|
            0 <= c < 11 ==> ((#[trigger] self.files@[c])@.len() as int) % (spec_bucket_len(
                c,
            ) as int) == 0
        &&& forall|c: int|
            0 <= c < 11 ==> (#[trigger] self.files@[c])@.len() <= MAX_BUCKET_SLOTS * spec_bucket_len(
                c,
            )
        &&& forall|c: int, k: int|
            0 <= c < 11 && 0 <= k < self.free@[c]@.len() ==> (#[trigger] self.free@[c]@[k])
                < self.spec_nslots(c)
        &&& forall|c: int| 0 <= c < 11 ==> (#[trigger] self.free@[c])@.no_duplicates()
    }

    /// The bytes of the slot `j` of class `c`, up to `size`.
    pub open spec fn spec_region(self, c: int, j: int, size: int) -> Seq<u8> {
        self.files@[c]@.subrange(
            j * spec_bucket_len(c),
            j * spec_bucket_len(c) + size,
        )
    }

    /// Opens a fresh, empty pool.
    pub fn open() -> (r: BucketPool)
        ensures
            r.wf(),
            forall|c: int| 0 <= c < 11 ==> (#[trigger] r.files@[c])@.len() == 0,
            forall|c: int| 0 <= c < 11 ==> (#[trigger] r.free@[c])@.len() == 0,
    {
        let mut files: Vec<Vec<u8>> = Vec::new();
        let mut free: Vec<Vec<u32>> = Vec::new();
        let mut n: usize = 0;
        while n < 11
            invariant
                n <= 11,
                files@.len() == n,
                free@.len() == n,
                forall|c: int| 0 <= c < n ==> (#[trigger] files@[c])@.len() == 0,
                forall|c: int| 0 <= c < n ==> (#[trigger] free@[c])@.len() == 0,
            decreases 11 - n,
        {
            files.push(Vec::new());
            free.push(Vec::new());
            n = n + 1;
        }
        let r = BucketPool { files, free };
        proof {
            assert forall|c: int| 0 <= c < 11 implies {
                &&& ((#[trigger] r.files@[c])@.len() as int) % (spec_bucket_len(c) as int) == 0
                &&& r.files@[c]@.len() <= MAX_BUCKET_SLOTS * spec_bucket_len(c)
            } by {
                let d = spec_bucket_len(c) as int;
                assert(r.files@[c]@.len() == 0);
                assert(0int % d == 0) by (nonlinear_arith)
                    requires
                        d >= 4,
                ;
                assert(MAX_BUCKET_SLOTS * d >= 0) by (nonlinear_arith)
                    requires
                        d >= 4,
                ;
            }
        }
        r
    }

    /// The length in bytes of the file of class `c` (a reader maps at least
    /// this much).
    pub fn file_len(&self, c: u8) -> (r: usize)
        requires
            self.wf(),
            c < 11,
        ensures
            r == self.files@[c as int]@.len(),
    {
        self.files[c as usize].len()
    }
}

/// Overwrites the slot `j` (stride `st`) of `file` with `bytes`, NUL-padding
/// the slot's tail.
fn write_slot(file: &mut Vec<u8>, st: usize, j: usize, bytes: &Vec<u8>)
    requires
        (j + 1) * st <= old(file)@.len(),
        bytes@.len() <= st,
    ensures
        final(file)@.len() == old(file)@.len(),
        final(file)@.subrange((j * st) as int, (j * st + bytes@.len()) as int) == bytes@,
        forall|p: int|
            j * st + bytes@.len() <= p < (j + 1) * st ==> final(file)@[p] == 0u8,
        forall|p: int|
            0 <= p < old(file)@.len() && !(j * st <= p < (j + 1) * st) ==> final(file)@[p] == old(file)@[p],
{
    proof {
        assert(j * st + st == (j + 1) * st) by (nonlinear_arith);
        assert(j * st >= 0) by (nonlinear_arith)
            requires
                j >= 0 && st >= 0,
        ;
    }
    let flen: usize = file.len();
    assert((j + 1) * st <= flen);
    let base = j * st;
    assert(base + st <= flen);
    let mut p: usize = 0;
    while p < st
        invariant
            p <= st,
            base == j * st,
            base + st <= file@.len(),
            base + st <= usize::MAX,
            bytes@.len() <= st,
            file@.len() == old(file)@.len(),
            forall|q: int|
                base <= q < base + p && q - base < bytes@.len() ==> #[trigger] file@[q]
                    == bytes@[q - base],
            forall|q: int|
                base + bytes@.len() <= q < base + p ==> #[trigger] file@[q] == 0u8,
            forall|q: int|
                0 <= q < old(file)@.len() && !(base <= q < base + st) ==> file@[q] == old(file)@[q],
        decreases st - p,
    {
        if p < bytes.len() {
            file.set(base + p, bytes[p]);
        } else {
            file.set(base + p, 0);
        }
        p = p + 1;
    }
    proof {
        assert(final(file)@.subrange((j * st) as int, (j * st + bytes@.len()) as int) =~= bytes@);
    }
}

/// Appends `st` zero bytes to `file`.
fn extend_zeros(file: &mut Vec<u8>, st: usize)
    ensures
        final(file)@.len() == old(file)@.len() + st,
        forall|p: int| 0 <= p < old(file)@.len() ==> final(file)@[p] == old(file)@[p],
        forall|p: int| old(file)@.len() <= p < final(file)@.len() ==> final(file)@[p] == 0u8,
{
    let mut p: usize = 0;
    while p < st
        invariant
            p <= st,
            file@.len() == old(file)@.len() + p,
            forall|q: int| 0 <= q < old(file)@.len() ==> file@[q] == old(file)@[q],
            forall|q: int| old(file)@.len() <= q < file@.len() ==> file@[q] == 0u8,
        decreases st - p,
    {
        file.push(0);
        p = p + 1;
    }
}

impl BucketPool {
    /// Allocates a slot for `bytes` in the class `size_to_bucket(len)`:
    /// reuses the most recently freed slot, or appends a fresh one. Fails
    /// only when the class's free list is empty and its file already holds
    /// the largest addressable slot count.
    pub fn alloc_slot(&mut self, bytes: &Vec<u8>) -> (r: Result<(u8, u32), ()>)
        requires
            old(self).wf(),
            1 <= bytes@.len() <= 4096,
        ensures
            final(self).wf(),
            ({
                let c = spec_size_to_bucket(bytes@.len() as u32) as int;
                let st = spec_bucket_len(c) as int;
                match r {
                    Ok((rc, j)) => {
                        &&& rc == c
                        &&& (j as int) < final(self).spec_nslots(c)
                        // where the slot came from: the top of the free list, or a fresh append
                        &&& (if old(self).free@[c]@.len() > 0 {
                            &&& j == old(self).free@[c]@.last()
                            &&& final(self).free@[c]@ == old(self).free@[c]@.drop_last()
                            &&& final(self).files@[c]@.len() == old(self).files@[c]@.len()
                        } else {
                            &&& j * st == old(self).files@[c]@.len()
                            &&& final(self).free@[c]@ == old(self).free@[c]@
                            &&& final(self).files@[c]@.len() == old(self).files@[c]@.len() + st
                        })
                        // the slot now holds the bytes, NUL-padded to the stride
                        &&& final(self).spec_region(c, j as int, bytes@.len() as int) == bytes@
                        &&& forall|p: int|
                            j * st + bytes@.len() <= p < (j + 1) * st
                                ==> final(self).files@[c]@[p] == 0u8
                        // bytes outside the slot are untouched
                        &&& forall|p: int|
                            0 <= p < old(self).files@[c]@.len() && !(j * st <= p < (j + 1) * st)
                                ==> final(self).files@[c]@[p] == old(self).files@[c]@[p]
                    },
                    Err(()) => {
                        &&& *final(self) == *old(self)
                        &&& old(self).free@[c]@.len() == 0
                        &&& old(self).files@[c]@.len() == MAX_BUCKET_SLOTS * st
                    },
                }
            }),
            // other classes are untouched either way
            forall|c2: int|
                0 <= c2 < 11 && c2 != spec_size_to_bucket(bytes@.len() as u32) as int ==> {
                    &&& final(self).files@[c2] == old(self).files@[c2]
                    &&& final(self).free@[c2] == old(self).free@[c2]
                },
    {
        let size = bytes.len() as u32;
        let c = size_to_bucket(size);
        let st = bucket_to_length(c) as usize;
        proof {
            crate::buckets::lemma_size_to_bucket_smallest(size);
        }

        if self.free[c as usize].len() == 0 {
            let slots_now = (self.files[c as usize].len() / st) as u64;
            if slots_now == MAX_BUCKET_SLOTS {
                proof {
                    let old_file = old(self).files@[c as int]@;
                    assert(old_file.len() as int == MAX_BUCKET_SLOTS * (spec_bucket_len(
                        c as int,
                    ) as int)) by {
                        vstd::arithmetic::div_mod::lemma_fundamental_div_mod(
                            old_file.len() as int,
                            st as int,
                        );
                    };
                }
                return Err(());
            }
        }

        let mut freelist = self.free.remove(c as usize);
        let mut file = self.files.remove(c as usize);
        let ghost old_free = old(self).free@[c as int]@;
        let ghost old_file = old(self).files@[c as int]@;
        assert(freelist@ == old_free);
        assert(file@ == old_file);

        let j: u32;
        if freelist.len() > 0 {
            j = freelist[freelist.len() - 1];
            freelist.truncate(freelist.len() - 1);
            assert(freelist@ == old_free.drop_last());
            proof {
                let ns = old(self).spec_nslots(c as int);
                assert((j as int) < ns);
                assert((j as int + 1) * (st as int) <= ns * (st as int)) by (nonlinear_arith)
                    requires
                        (j as int) < ns,
                        st >= 1,
                ;
                assert(ns * (st as int) <= old_file.len() as int) by {
                    vstd::arithmetic::div_mod::lemma_fundamental_div_mod(
                        old_file.len() as int,
                        st as int,
                    );
                };
            }
        } else {
            proof {
                assert(old_file.len() as int / (st as int) < MAX_BUCKET_SLOTS);
                vstd::arithmetic::div_mod::lemma_fundamental_div_mod(
                    old_file.len() as int,
                    st as int,
                );
            }
            j = (file.len() / st) as u32;
            extend_zeros(&mut file, st);
            proof {
                assert((j as int) * (st as int) == old_file.len() as int);
            }
        }

        proof {
            assert((j as int + 1) * (st as int) == (j as int) * (st as int) + st);
            assert((j as int) * (st as int) >= 0) by (nonlinear_arith)
                requires
                    j >= 0 && st >= 0,
            ;
        }
        write_slot(&mut file, st, j as usize, bytes);

        let ghost new_file = file@;
        self.free.insert(c as usize, freelist);
        self.files.insert(c as usize, file);

        proof {
            assert(final(self).files@[c as int]@ == new_file);
            assert(forall|c2: int|
                0 <= c2 < 11 && c2 != c as int ==> final(self).files@[c2] == old(self).files@[c2] && final(self).free@[c2] == old(self).free@[c2]);
            assert((new_file.len() as int) % (st as int) == 0) by {
                if old_free.len() == 0 {
                    assert(new_file.len() == old_file.len() + st);
                    vstd::arithmetic::div_mod::lemma_mod_adds(
                        old_file.len() as int,
                        st as int,
                        st as int,
                    );
                    assert((st as int) % (st as int) == 0) by {
                        vstd::arithmetic::div_mod::lemma_mod_self_0(st as int);
                    };
                }
            };
            assert((j as int) < final(self).spec_nslots(c as int)) by {
                vstd::arithmetic::div_mod::lemma_fundamental_div_mod(
                    new_file.len() as int,
                    st as int,
                );
                assert((j as int + 1) * (st as int) <= new_file.len() as int);
                assert(new_file.len() as int / (st as int) >= j + 1) by (nonlinear_arith)
                    requires
                        (j as int + 1) * (st as int) <= new_file.len() as int,
                        st >= 1,
                        (new_file.len() as int) % (st as int) == 0,
                ;
            };
            assert(final(self).wf()) by {
                assert(forall|cc: int, k: int|
                    0 <= cc < 11 && 0 <= k < final(self).free@[cc]@.len()
                        ==> (#[trigger] final(self).free@[cc]@[k]) < final(self).spec_nslots(
                        cc,
                    )) by {
                    assert(forall|k: int|
                        0 <= k < final(self).free@[c as int]@.len() ==> old_free.contains(
                            #[trigger] final(self).free@[c as int]@[k]));
                    assert(final(self).spec_nslots(c as int) >= old(self).spec_nslots(c as int))
                        by {
                        vstd::arithmetic::div_mod::lemma_fundamental_div_mod(
                            old_file.len() as int,
                            st as int,
                        );
                        vstd::arithmetic::div_mod::lemma_fundamental_div_mod(
                            new_file.len() as int,
                            st as int,
                        );
                    };
                };
                assert(final(self).free@[c as int]@.no_duplicates()) by {
                    if old_free.len() > 0 {
                        let dropped = old_free.drop_last();
                        assert(final(self).free@[c as int]@ == dropped);
                        assert forall|a: int, b: int|
                            0 <= a < dropped.len() && 0 <= b < dropped.len() && a
                                != b implies dropped[a] != dropped[b] by {
                            assert(dropped[a] == old_free[a]);
                            assert(dropped[b] == old_free[b]);
                        }
                    } else {
                        assert(final(self).free@[c as int]@ == old_free);
                    }
                };
                assert(forall|cc: int|
                    0 <= cc < 11 ==> (#[trigger] final(self).free@[cc])@.no_duplicates());
                assert(new_file.len() <= MAX_BUCKET_SLOTS * (st as int));
            };
            assert(final(self).spec_region(c as int, j as int, bytes@.len() as int) == bytes@);
        }
        Ok((c, j))
    }

    /// Returns the slot `j` of class `c` to the class's free list.
    pub fn free_slot(&mut self, c: u8, j: u32)
        requires
            old(self).wf(),
            c < 11,
            (j as int) < old(self).spec_nslots(c as int),
            !old(self).free@[c as int]@.contains(j),
        ensures
            final(self).wf(),
            final(self).files@ == old(self).files@,
            final(self).free@[c as int]@ == old(self).free@[c as int]@.push(j),
            forall|c2: int|
                0 <= c2 < 11 && c2 != c as int ==> final(self).free@[c2] == old(self).free@[c2],
    {
        let mut freelist = self.free.remove(c as usize);
        freelist.push(j);
        self.free.insert(c as usize, freelist);
        proof {
            assert(final(self).free@[c as int]@ == old(self).free@[c as int]@.push(j));
            assert(final(self).wf()) by {
                assert(forall|cc: int|
                    0 <= cc < 11 ==> (#[trigger] final(self).free@[cc])@.no_duplicates());
            };
        }
    }
}

} // verus!
