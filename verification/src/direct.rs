//! The direct store: one file per large entry, keyed by `<ring>_<slot>`.
//!
//! Entries too large for the biggest bucket live as their own files in the
//! `direct/` directory, named by the decimal ring and slot numbers; the MIME
//! type, if any, rides along in the `user.mime_type` extended attribute
//! (absent is modelled as empty).

use vstd::prelude::*;

use crate::protocol::RingKind;

verus! {

/// One file of the direct store.
pub struct DirectFile {
    pub ring: RingKind,
    pub slot: u32,
    pub data: Vec<u8>,
    pub mime: Vec<u8>,
}

/// The direct store's contents, keyed by (ring, slot).
pub struct DirectStore {
    pub files: Vec<DirectFile>,
}

/// The key (k, i) exists in `post` exactly as in `pre`, with the same
/// payload and MIME type.
pub open spec fn key_preserved(pre: DirectStore, post: DirectStore, k: RingKind, i: u32) -> bool {
    &&& post.spec_has(k, i) == pre.spec_has(k, i)
    &&& (pre.spec_has(k, i) ==> post.spec_data(k, i) == pre.spec_data(k, i) && post.spec_mime(
        k,
        i,
    ) == pre.spec_mime(k, i))
}

/// Every key other than (ka, ia) and (kb, ib) exists in `post` exactly as in
/// `pre`, with the same payload and MIME type.
pub open spec fn preserves_other_keys(
    pre: DirectStore,
    post: DirectStore,
    ka: RingKind,
    ia: u32,
    kb: RingKind,
    ib: u32,
) -> bool {
    forall|k: RingKind, i: u32|
        !(k == ka && i == ia) && !(k == kb && i == ib) ==> #[trigger] key_preserved(
            pre,
            post,
            k,
            i,
        )
}

impl DirectStore {
    /// Whether a file for the slot `i` of ring `k` exists.
    pub open spec fn spec_has(self, k: RingKind, i: u32) -> bool {
        exists|d: int|
            0 <= d < self.files@.len() && (#[trigger] self.files@[d]).ring == k
                && self.files@[d].slot == i
    }

    /// The index of the file for (k, i); meaningful only when `spec_has`.
    pub open spec fn spec_index_of(self, k: RingKind, i: u32) -> int {
        choose|d: int|
            0 <= d < self.files@.len() && (#[trigger] self.files@[d]).ring == k
                && self.files@[d].slot == i
    }

    /// The payload bytes of the file for (k, i).
    pub open spec fn spec_data(self, k: RingKind, i: u32) -> Seq<u8> {
        self.files@[self.spec_index_of(k, i)].data@
    }

    /// The MIME type of the file for (k, i).
    pub open spec fn spec_mime(self, k: RingKind, i: u32) -> Seq<u8> {
        self.files@[self.spec_index_of(k, i)].mime@
    }

    /// Keys are unique.
    pub open spec fn wf(self) -> bool {
        forall|d1: int, d2: int|
            0 <= d1 < self.files@.len() && 0 <= d2 < self.files@.len() && (
            #[trigger] self.files@[d1]).ring == (#[trigger] self.files@[d2]).ring
                && self.files@[d1].slot == self.files@[d2].slot ==> d1 == d2
    }

    /// Any index whose file matches (k, i) is the index `spec_index_of`
    /// names.
    pub proof fn lemma_at_index(self, k: RingKind, i: u32, d: int)
        requires
            self.wf(),
            0 <= d < self.files@.len(),
            self.files@[d].ring == k,
            self.files@[d].slot == i,
        ensures
            self.spec_has(k, i),
            self.spec_index_of(k, i) == d,
            self.spec_data(k, i) == self.files@[d].data@,
            self.spec_mime(k, i) == self.files@[d].mime@,
    {
        assert(self.spec_has(k, i));
        let d2 = self.spec_index_of(k, i);
        assert(self.files@[d2].ring == k && self.files@[d2].slot == i);
    }

    /// Opens a fresh, empty store.
    pub fn open() -> (r: DirectStore)
        ensures
            r.wf(),
            r.files@.len() == 0,
            forall|k: RingKind, i: u32| !r.spec_has(k, i),
    {
        DirectStore { files: Vec::new() }
    }

    /// The index of the file for (k, i), if one exists.
    fn find(&self, k: RingKind, i: u32) -> (r: Option<usize>)
        ensures
            match r {
                Some(d) => d < self.files@.len() && self.files@[d as int].ring == k
                    && self.files@[d as int].slot == i,
                None => !self.spec_has(k, i),
            },
    {
        let mut d: usize = 0;
        while d < self.files.len()
            invariant
                d <= self.files@.len(),
                forall|x: int|
                    0 <= x < d ==> !((#[trigger] self.files@[x]).ring == k && self.files@[x].slot
                        == i),
            decreases self.files@.len() - d,
        {
            if self.files[d].ring == k && self.files[d].slot == i {
                return Some(d);
            }
            d = d + 1;
        }
        None
    }

    /// Whether a file for (k, i) exists.
    pub fn has(&self, k: RingKind, i: u32) -> (r: bool)
        requires
            self.wf(),
        ensures
            r == self.spec_has(k, i),
    {
        match self.find(k, i) {
            Some(d) => {
                proof {
                    self.lemma_at_index(k, i, d as int);
                }
                true
            },
            None => false,
        }
    }

    /// Borrows the file for (k, i).
    pub fn get_file(&self, k: RingKind, i: u32) -> (r: Option<&DirectFile>)
        requires
            self.wf(),
        ensures
            match r {
                Some(f) => {
                    &&& self.spec_has(k, i)
                    &&& f.ring == k
                    &&& f.slot == i
                    &&& f.data@ == self.spec_data(k, i)
                    &&& f.mime@ == self.spec_mime(k, i)
                },
                None => !self.spec_has(k, i),
            },
    {
        match self.find(k, i) {
            Some(d) => {
                proof {
                    self.lemma_at_index(k, i, d as int);
                }
                Some(&self.files[d])
            },
            None => None,
        }
    }

    /// Creates the file for (k, i); the key must not be in use.
    pub fn put(&mut self, k: RingKind, i: u32, data: Vec<u8>, mime: Vec<u8>)
        requires
            old(self).wf(),
            !old(self).spec_has(k, i),
        ensures
            final(self).wf(),
            final(self).spec_has(k, i),
            final(self).spec_data(k, i) == data@,
            final(self).spec_mime(k, i) == mime@,
            final(self).files@.len() == old(self).files@.len() + 1,
            preserves_other_keys(*old(self), *final(self), k, i, k, i),
    {
        let ghost n = self.files@.len() as int;
        self.files.push(DirectFile { ring: k, slot: i, data, mime });
        proof {
            assert(final(self).wf()) by {
                assert forall|d1: int, d2: int|
                    0 <= d1 < final(self).files@.len() && 0 <= d2 < final(self).files@.len() && (
                    #[trigger] final(self).files@[d1]).ring == (
                    #[trigger] final(self).files@[d2]).ring && final(self).files@[d1].slot == final(self).files@[d2].slot implies d1 == d2 by {
                    if d1 < n && d2 < n {
                        assert(old(self).files@[d1] == final(self).files@[d1]);
                        assert(old(self).files@[d2] == final(self).files@[d2]);
                    } else if d1 < n {
                        assert(old(self).spec_has(k, i));
                    } else if d2 < n {
                        assert(old(self).spec_has(k, i));
                    }
                }
            };
            final(self).lemma_at_index(k, i, n);
            assert(preserves_other_keys(*old(self), *final(self), k, i, k, i)) by {
                assert forall|k2: RingKind, i2: u32| !(k2 == k && i2 == i) implies #[trigger]
                key_preserved(*old(self), *final(self), k2, i2) by {
                    if old(self).spec_has(k2, i2) {
                        let d = old(self).spec_index_of(k2, i2);
                        old(self).lemma_at_index(k2, i2, d);
                        assert(final(self).files@[d] == old(self).files@[d]);
                        final(self).lemma_at_index(k2, i2, d);
                    } else {
                        if final(self).spec_has(k2, i2) {
                            let d = final(self).spec_index_of(k2, i2);
                            assert(d < n);
                            assert(old(self).files@[d] == final(self).files@[d]);
                            assert(old(self).spec_has(k2, i2));
                        }
                    }
                }
            };
        }
    }

    /// Removes the file for (k, i), returning whether one existed.
    pub fn unlink(&mut self, k: RingKind, i: u32) -> (r: bool)
        requires
            old(self).wf(),
        ensures
            final(self).wf(),
            r == old(self).spec_has(k, i),
            !final(self).spec_has(k, i),
            final(self).files@.len() == old(self).files@.len() - (if r {
                1int
            } else {
                0int
            }),
            preserves_other_keys(*old(self), *final(self), k, i, k, i),
    {
        match self.find(k, i) {
            None => {
                proof {
                    assert(*final(self) == *old(self));
                    lemma_preserves_refl(*old(self), k, i);
                }
                false
            },
            Some(d) => {
                proof {
                    old(self).lemma_at_index(k, i, d as int);
                }
                self.files.remove(d);
                proof {
                    let dd = d as int;
                    let n = old(self).files@.len() as int;
                    // each remaining index maps to an old index
                    assert(forall|x: int|
                        0 <= x < dd ==> final(self).files@[x] == old(self).files@[x]);
                    assert(forall|x: int|
                        dd <= x < n - 1 ==> final(self).files@[x] == old(self).files@[x + 1]);
                    assert(final(self).wf()) by {
                        assert forall|d1: int, d2: int|
                            0 <= d1 < final(self).files@.len() && 0 <= d2 < final(self).files@.len() && (#[trigger] final(self).files@[d1]).ring == (
                            #[trigger] final(self).files@[d2]).ring && final(self).files@[d1].slot
                                == final(self).files@[d2].slot implies d1 == d2 by {
                            let o1 = if d1 < dd {
                                d1
                            } else {
                                d1 + 1
                            };
                            let o2 = if d2 < dd {
                                d2
                            } else {
                                d2 + 1
                            };
                            assert(final(self).files@[d1] == old(self).files@[o1]);
                            assert(final(self).files@[d2] == old(self).files@[o2]);
                        }
                    };
                    assert(!final(self).spec_has(k, i)) by {
                        if final(self).spec_has(k, i) {
                            let x = final(self).spec_index_of(k, i);
                            let ox = if x < dd {
                                x
                            } else {
                                x + 1
                            };
                            assert(final(self).files@[x] == old(self).files@[ox]);
                            assert(ox != dd);
                        }
                    };
                    assert(preserves_other_keys(*old(self), *final(self), k, i, k, i)) by {
                        assert forall|k2: RingKind, i2: u32| !(k2 == k && i2 == i) implies
                        #[trigger] key_preserved(*old(self), *final(self), k2, i2) by {
                            if old(self).spec_has(k2, i2) {
                                let x = old(self).spec_index_of(k2, i2);
                                old(self).lemma_at_index(k2, i2, x);
                                assert(x != dd);
                                let nx = if x < dd {
                                    x
                                } else {
                                    x - 1
                                };
                                assert(final(self).files@[nx] == old(self).files@[x]);
                                final(self).lemma_at_index(k2, i2, nx);
                            } else {
                                if final(self).spec_has(k2, i2) {
                                    let x = final(self).spec_index_of(k2, i2);
                                    let ox = if x < dd {
                                        x
                                    } else {
                                        x + 1
                                    };
                                    assert(final(self).files@[x] == old(self).files@[ox]);
                                    assert(old(self).spec_has(k2, i2));
                                }
                            }
                        }
                    };
                }
                true
            },
        }
    }

    /// Moves the file for (k1, i1) to the key (k2, i2): the rename that a
    /// favorite/unfavorite move performs.
    #[verifier::rlimit(40)]
    pub fn rename(&mut self, k1: RingKind, i1: u32, k2: RingKind, i2: u32)
        requires
            old(self).wf(),
            old(self).spec_has(k1, i1),
            !old(self).spec_has(k2, i2),
            !(k1 == k2 && i1 == i2),
        ensures
            final(self).wf(),
            !final(self).spec_has(k1, i1),
            final(self).spec_has(k2, i2),
            final(self).spec_data(k2, i2) == old(self).spec_data(k1, i1),
            final(self).spec_mime(k2, i2) == old(self).spec_mime(k1, i1),
            final(self).files@.len() == old(self).files@.len(),
            preserves_other_keys(*old(self), *final(self), k1, i1, k2, i2),
    {
        let d = match self.find(k1, i1) {
            Some(d) => d,
            None => {
                proof {
                    assert(false);
                }
                0
            },
        };
        proof {
            old(self).lemma_at_index(k1, i1, d as int);
        }
        let mut f = self.files.remove(d);
        f.ring = k2;
        f.slot = i2;
        let ghost moved = f;
        self.files.push(f);
        proof {
            let dd = d as int;
            let n = old(self).files@.len() as int;
            assert(forall|x: int| 0 <= x < dd ==> final(self).files@[x] == old(self).files@[x]);
            assert(forall|x: int|
                dd <= x < n - 1 ==> final(self).files@[x] == old(self).files@[x + 1]);
            assert(final(self).files@[n - 1] == moved);
            assert(moved.data@ == old(self).spec_data(k1, i1));
            assert(moved.mime@ == old(self).spec_mime(k1, i1));
            assert(final(self).wf()) by {
                assert forall|d1: int, d2: int|
                    0 <= d1 < final(self).files@.len() && 0 <= d2 < final(self).files@.len() && (
                    #[trigger] final(self).files@[d1]).ring == (
                    #[trigger] final(self).files@[d2]).ring && final(self).files@[d1].slot == final(self).files@[d2].slot implies d1 == d2 by {
                    if d1 != d2 {
                        if d1 == n - 1 || d2 == n - 1 {
                            let other = if d1 == n - 1 {
                                d2
                            } else {
                                d1
                            };
                            let oo = if other < dd {
                                other
                            } else {
                                other + 1
                            };
                            assert(final(self).files@[other] == old(self).files@[oo]);
                            assert(oo != dd);
                            // the moved file's new key would duplicate an old key
                            assert(old(self).spec_has(k2, i2));
                        } else {
                            let o1 = if d1 < dd {
                                d1
                            } else {
                                d1 + 1
                            };
                            let o2 = if d2 < dd {
                                d2
                            } else {
                                d2 + 1
                            };
                            assert(final(self).files@[d1] == old(self).files@[o1]);
                            assert(final(self).files@[d2] == old(self).files@[o2]);
                        }
                    }
                }
            };
            final(self).lemma_at_index(k2, i2, n - 1);
            assert(!final(self).spec_has(k1, i1)) by {
                if final(self).spec_has(k1, i1) {
                    let x = final(self).spec_index_of(k1, i1);
                    if x == n - 1 {
                        assert(final(self).files@[x] == moved);
                    } else {
                        let ox = if x < dd {
                            x
                        } else {
                            x + 1
                        };
                        assert(final(self).files@[x] == old(self).files@[ox]);
                        assert(old(self).files@[ox].ring == k1 && old(self).files@[ox].slot == i1);
                        assert(ox == dd);
                    }
                }
            };
            lemma_remove_push_preserves(*old(self), *final(self), dd, moved, k1, i1, k2, i2);
        }
    }
}

/// A store preserves every key against itself.
proof fn lemma_preserves_refl(s: DirectStore, k: RingKind, i: u32)
    ensures
        preserves_other_keys(s, s, k, i, k, i),
{
}

/// Removing the file at `dd` (keyed (k1, i1)) and pushing it back under the
/// key (k2, i2) preserves every other key.
proof fn lemma_remove_push_preserves(
    pre: DirectStore,
    post: DirectStore,
    dd: int,
    moved: DirectFile,
    k1: RingKind,
    i1: u32,
    k2: RingKind,
    i2: u32,
)
    requires
        pre.wf(),
        post.wf(),
        0 <= dd < pre.files@.len(),
        pre.files@[dd].ring == k1,
        pre.files@[dd].slot == i1,
        moved.ring == k2,
        moved.slot == i2,
        !(k1 == k2 && i1 == i2),
        post.files@.len() == pre.files@.len(),
        forall|x: int| 0 <= x < dd ==> post.files@[x] == pre.files@[x],
        forall|x: int| dd <= x < pre.files@.len() - 1 ==> post.files@[x] == pre.files@[x + 1],
        post.files@[pre.files@.len() - 1] == moved,
    ensures
        preserves_other_keys(pre, post, k1, i1, k2, i2),
{
    let n = pre.files@.len() as int;
    assert forall|k3: RingKind, i3: u32|
        !(k3 == k1 && i3 == i1) && !(k3 == k2 && i3 == i2) implies #[trigger] key_preserved(
        pre,
        post,
        k3,
        i3,
    ) by {
        if pre.spec_has(k3, i3) {
            let x = pre.spec_index_of(k3, i3);
            pre.lemma_at_index(k3, i3, x);
            assert(x != dd);
            let nx = if x < dd {
                x
            } else {
                x - 1
            };
            assert(post.files@[nx] == pre.files@[x]);
            post.lemma_at_index(k3, i3, nx);
        } else {
            if post.spec_has(k3, i3) {
                let x = post.spec_index_of(k3, i3);
                assert(x != n - 1);
                let ox = if x < dd {
                    x
                } else {
                    x + 1
                };
                assert(post.files@[x] == pre.files@[ox]);
                assert(pre.spec_has(k3, i3));
            }
        }
    }
}

} // verus!
