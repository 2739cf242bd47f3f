//! The reader pipeline: resolving composite ids to entries and bytes.
//!
//! Readers hold snapshots of the ring files and per-bucket mapping lengths
//! (the model of a reader's mmap view). Resolving a bucketed entry against a
//! stale, too-short mapping fails with `BucketTooShort`; the growable
//! variants remap to at least `max(needed, 2 * len)` and retry, after which
//! resolution succeeds.

use vstd::prelude::*;

use crate::buckets::{bucket_to_length, size_to_bucket, spec_bucket_len, spec_size_to_bucket};
use crate::database::Database;
use crate::error::{Error, IdNotFoundError};
use crate::protocol::{
    composite_id, decompose_id, lemma_compose_decompose, spec_composite_id, spec_decompose_id,
    RingKind,
};
use crate::ring::{BucketEntry, Ring, RingEntry};

verus! {

/// What kind of backing a resolved entry has.
#[derive(Clone, Copy, Debug, PartialEq, Eq, Structural, Hash)]
pub enum Kind {
    /// The bytes live in a bucket file.
    Bucket(BucketEntry),
    /// The bytes live in their own direct file.
    File,
}

/// A resolved entry: its slot, its ring, and where its bytes live.
#[derive(Clone, Copy, Debug, PartialEq, Eq, Structural)]
pub struct Entry {
    pub index: u32,
    pub ring: RingKind,
    pub kind: Kind,
}

impl Entry {
    /// The slot record this entry was read from.
    pub open spec fn spec_slot_entry(self) -> RingEntry {
        match self.kind {
            Kind::Bucket(be) => RingEntry::Bucketed(be),
            Kind::File => RingEntry::File,
        }
    }

    /// The entry agrees with the slot record the database holds today.
    pub open spec fn live_in(self, db: Database) -> bool {
        &&& (self.index as int) < db.spec_ring(self.ring).spec_len()
        &&& db.slot_ref(self.ring, self.index as int) == self.spec_slot_entry()
    }

    /// Reads the slot `index` of `ring`: `None` for uninitialised or
    /// out-of-range slots.
    pub fn from(ring: &Ring, kind: RingKind, index: u32) -> (r: Option<Entry>)
        requires
            ring.wf(),
        ensures
            match r {
                Some(e) => {
                    &&& (index as int) < ring.spec_len()
                    &&& e.index == index
                    &&& e.ring == kind
                    &&& e.spec_slot_entry() == ring.spec_slot(index as int)
                },
                None => (index as int) >= ring.spec_len() || ring.spec_slot(index as int)
                    is Uninitialized,
            },
    {
        match ring.get(index) {
            None => None,
            Some(RingEntry::Uninitialized) => None,
            Some(RingEntry::Bucketed(be)) => Some(
                Entry { index, ring: kind, kind: Kind::Bucket(be) },
            ),
            Some(RingEntry::File) => Some(Entry { index, ring: kind, kind: Kind::File }),
        }
    }

    /// The composite id of this entry.
    pub fn id(&self) -> (r: u64)
        ensures
            r == spec_composite_id(self.ring, self.index),
    {
        composite_id(self.ring, self.index)
    }

    /// The backing kind.
    pub fn kind(&self) -> (r: Kind)
        ensures
            r == self.kind,
    {
        self.kind
    }
}

/// The position `s` slots after `a` in a ring of `n` slots, for
/// `0 <= a < n` and `0 <= s <= n`.
pub open spec fn add_mod(a: int, s: int, n: int) -> int {
    if a + s < n {
        a + s
    } else {
        a + s - n
    }
}

/// The slot a head-anchored iteration examines at its step `t`.
pub open spec fn slot_at_step(ring: Ring, t: int) -> int {
    add_mod(ring.write_head as int, t, ring.spec_len())
}

/// Every slot a head-anchored iteration examines at the steps `[a, b)` is
/// uninitialised.
pub open spec fn skipped_uninit(ring: Ring, a: int, b: int) -> bool {
    forall|t: int|
        a <= t < b ==> ring.spec_slot(#[trigger] slot_at_step(ring, t)) is Uninitialized
}

/// The slot a head-anchored backward iteration examines at its step `t`:
/// the slot before the write head, then each earlier slot.
pub open spec fn back_slot_at_step(ring: Ring, t: int) -> int {
    slot_at_step(ring, ring.spec_len() - 1 - t)
}

/// Every slot a head-anchored backward iteration examines at the steps
/// `[a, b)` is uninitialised.
pub open spec fn skipped_uninit_back(ring: Ring, a: int, b: int) -> bool {
    forall|t: int|
        a <= t < b ==> ring.spec_slot(#[trigger] back_slot_at_step(ring, t)) is Uninitialized
}

/// Cyclic distance from `a` forward to `x` in a ring of `n` slots, for
/// `0 <= a, x < n`.
pub open spec fn cyc_dist(a: int, x: int, n: int) -> int {
    if x >= a {
        x - a
    } else {
        x - a + n
    }
}

/// Every slot at the window steps `[lo, hi)` from the anchor `a` is
/// uninitialised.
pub open spec fn skipped_uninit_from(ring: Ring, a: int, lo: int, hi: int) -> bool {
    forall|t: int|
        lo <= t < hi ==> ring.spec_slot(
            #[trigger] add_mod(a, t, ring.spec_len()),
        ) is Uninitialized
}

/// A double-ended cursor over a ring, anchored at a write head captured at
/// construction.
pub struct RingIter {
    pub kind: RingKind,
    pub write_head: u32,
    pub front: u32,
    pub back: u32,
    pub done: bool,
}

impl RingIter {
    /// The cursor's positions are inside the ring.
    pub open spec fn valid_for(self, ring: Ring) -> bool {
        &&& ring.wf()
        &&& (self.front as int) < ring.spec_len()
        &&& (self.back as int) < ring.spec_len()
    }

    /// The cursor is iterating forward from the ring's write head: the state
    /// any iterator fresh from `from_ring` is in, kept by `next`.
    pub open spec fn head_anchored(self, ring: Ring) -> bool {
        &&& self.valid_for(ring)
        &&& self.write_head == ring.write_head
        &&& (self.back as int) == ring.spec_prev(ring.write_head as int)
        &&& (self.done ==> self.front == self.write_head)
    }

    /// How many slots a head-anchored forward iteration has examined.
    pub open spec fn steps(self, ring: Ring) -> int {
        if self.done {
            ring.spec_len()
        } else if self.front >= self.write_head {
            self.front - self.write_head
        } else {
            self.front - self.write_head + ring.spec_len()
        }
    }

    /// The cursor is iterating backward from the ring's write head: the
    /// state a fresh iterator is in, kept by `next_back`.
    pub open spec fn tail_anchored(self, ring: Ring) -> bool {
        &&& self.valid_for(ring)
        &&& self.write_head == ring.write_head
        &&& self.front == self.write_head
        &&& (self.done ==> (self.back as int) == ring.spec_prev(ring.write_head as int))
    }

    /// How many slots a head-anchored backward iteration has examined.
    pub open spec fn back_steps(self, ring: Ring) -> int {
        if self.done {
            ring.spec_len()
        } else if self.back >= self.write_head {
            ring.spec_len() - 1 - (self.back - self.write_head)
        } else {
            -1 - (self.back - self.write_head)
        }
    }

    /// The first slot of the iteration window: the one after the fixed
    /// back cursor. A cursor built by `from_id`/`reset_to` starts here.
    pub open spec fn fwd_anchor(self, ring: Ring) -> int {
        ring.spec_next(self.back as int)
    }

    /// How many slots a forward iteration examines in all before stopping:
    /// the whole ring when the captured head is the anchor (or out of
    /// range), one slot when it sits just before the anchor, and the
    /// distance to it otherwise.
    pub open spec fn fwd_window(self, ring: Ring) -> int {
        let n = ring.spec_len();
        let a = self.fwd_anchor(ring);
        if self.write_head >= n {
            n
        } else {
            let d = cyc_dist(a, self.write_head as int, n);
            if d == 0 {
                n
            } else if d == n - 1 {
                1
            } else {
                d
            }
        }
    }

    /// How many slots of the window a forward iteration has examined.
    pub open spec fn fwd_steps(self, ring: Ring) -> int {
        if self.done {
            self.fwd_window(ring)
        } else {
            cyc_dist(self.fwd_anchor(ring), self.front as int, ring.spec_len())
        }
    }

    /// The cursor is walking its window forward: the state any cursor from
    /// `from_id`/`reset_to` is in, kept by `next`.
    pub open spec fn window_anchored(self, ring: Ring) -> bool {
        &&& self.valid_for(ring)
        &&& (!self.done ==> cyc_dist(self.fwd_anchor(ring), self.front as int, ring.spec_len())
            < self.fwd_window(ring))
    }

    /// Upper bound on the slots still to examine; the iteration's measure.
    pub open spec fn spec_remaining(self, ring: Ring) -> int {
        if self.done {
            0
        } else if self.back >= self.front {
            self.back - self.front + 1
        } else {
            self.back - self.front + ring.spec_len() + 1
        }
    }

    /// Advances forward until an initialised slot turns up or the window is
    /// exhausted. From a head-anchored cursor this examines the slots
    /// `write_head, write_head + 1, ...` (mod capacity) in order, skipping
    /// uninitialised ones, and each slot exactly once over the whole
    /// iteration.
    pub fn next(&mut self, ring: &Ring) -> (r: Option<Entry>)
        requires
            old(self).valid_for(*ring),
        ensures
            final(self).valid_for(*ring),
            final(self).kind == old(self).kind,
            final(self).write_head == old(self).write_head,
            final(self).back == old(self).back,
            old(self).done ==> r is None && *final(self) == *old(self),
            (match r {
                Some(e) => e.ring == old(self).kind && (e.index as int) < ring.spec_len()
                    && e.spec_slot_entry() == ring.spec_slot(e.index as int),
                None => true,
            }),
            old(self).head_anchored(*ring) ==> {
                let s0 = old(self).steps(*ring);
                let s1 = final(self).steps(*ring);
                &&& final(self).head_anchored(*ring)
                &&& s0 <= s1 <= ring.spec_len()
                &&& (match r {
                    None => s1 == ring.spec_len() && skipped_uninit(*ring, s0, s1),
                    Some(e) => {
                        &&& s0 < s1
                        &&& (e.index as int) == slot_at_step(*ring, s1 - 1)
                        &&& skipped_uninit(*ring, s0, s1 - 1)
                    },
                })
            },
            // the same guarantee for a window started anywhere in the ring
            old(self).window_anchored(*ring) ==> {
                let a = old(self).fwd_anchor(*ring);
                let w = old(self).fwd_window(*ring);
                let s0 = old(self).fwd_steps(*ring);
                let s1 = final(self).fwd_steps(*ring);
                &&& final(self).window_anchored(*ring)
                &&& final(self).fwd_anchor(*ring) == a
                &&& final(self).fwd_window(*ring) == w
                &&& s0 <= s1 <= w
                &&& (match r {
                    None => s1 == w && skipped_uninit_from(*ring, a, s0, s1),
                    Some(e) => {
                        &&& s0 < s1
                        &&& (e.index as int) == add_mod(a, s1 - 1, ring.spec_len())
                        &&& skipped_uninit_from(*ring, a, s0, s1 - 1)
                    },
                })
            },
    {
        let ghost anchored = old(self).head_anchored(*ring);
        let ghost s0 = old(self).steps(*ring);
        let ghost anchored_w = old(self).window_anchored(*ring);
        let ghost aw = old(self).fwd_anchor(*ring);
        let ghost ww = old(self).fwd_window(*ring);
        let ghost s0w = old(self).fwd_steps(*ring);
        loop
            invariant
                self.valid_for(*ring),
                self.kind == old(self).kind,
                self.write_head == old(self).write_head,
                self.back == old(self).back,
                old(self).done ==> *self == *old(self),
                anchored == old(self).head_anchored(*ring),
                s0 == old(self).steps(*ring),
                anchored ==> self.head_anchored(*ring) && s0 <= self.steps(*ring)
                    <= ring.spec_len(),
                anchored ==> skipped_uninit(*ring, s0, self.steps(*ring)),
                anchored_w == old(self).window_anchored(*ring),
                aw == old(self).fwd_anchor(*ring),
                ww == old(self).fwd_window(*ring),
                s0w == old(self).fwd_steps(*ring),
                anchored_w ==> self.window_anchored(*ring) && self.fwd_anchor(*ring) == aw
                    && self.fwd_window(*ring) == ww && s0w <= self.fwd_steps(*ring) <= ww,
                anchored_w ==> skipped_uninit_from(*ring, aw, s0w, self.fwd_steps(*ring)),
            decreases self.spec_remaining(*ring),
        {
            if self.done {
                return None;
            }
            let done2 = self.front == self.back || ring.next_head(self.front) == self.write_head
                || self.back == self.write_head;
            let cur = self.front;
            proof {
                if anchored {
                    assert(done2 <==> self.steps(*ring) == ring.spec_len() - 1);
                    assert((cur as int) == slot_at_step(*ring, self.steps(*ring)));
                }
                if anchored_w {
                    assert(done2 <==> self.fwd_steps(*ring) == ww - 1);
                    assert((cur as int) == add_mod(aw, self.fwd_steps(*ring), ring.spec_len()));
                }
            }
            self.front = ring.next_entry(cur);
            self.done = done2;
            match Entry::from(ring, self.kind, cur) {
                Some(e) => {
                    return Some(e);
                },
                None => {},
            }
        }
    }

    /// Advances backward until an initialised slot turns up or the window
    /// is exhausted. From a tail-anchored cursor this examines the slots
    /// `write_head - 1, write_head - 2, ...` (mod capacity) in order,
    /// skipping uninitialised ones, and each slot exactly once over the
    /// whole iteration.
    pub fn next_back(&mut self, ring: &Ring) -> (r: Option<Entry>)
        requires
            old(self).valid_for(*ring),
        ensures
            final(self).valid_for(*ring),
            final(self).kind == old(self).kind,
            final(self).write_head == old(self).write_head,
            final(self).front == old(self).front,
            old(self).done ==> r is None && *final(self) == *old(self),
            (match r {
                Some(e) => e.ring == old(self).kind && (e.index as int) < ring.spec_len()
                    && e.spec_slot_entry() == ring.spec_slot(e.index as int),
                None => true,
            }),
            old(self).tail_anchored(*ring) ==> {
                let s0 = old(self).back_steps(*ring);
                let s1 = final(self).back_steps(*ring);
                &&& final(self).tail_anchored(*ring)
                &&& s0 <= s1 <= ring.spec_len()
                &&& (match r {
                    None => s1 == ring.spec_len() && skipped_uninit_back(*ring, s0, s1),
                    Some(e) => {
                        &&& s0 < s1
                        &&& (e.index as int) == back_slot_at_step(*ring, s1 - 1)
                        &&& skipped_uninit_back(*ring, s0, s1 - 1)
                    },
                })
            },
    {
        let ghost anchored = old(self).tail_anchored(*ring);
        let ghost s0 = old(self).back_steps(*ring);
        loop
            invariant
                self.valid_for(*ring),
                self.kind == old(self).kind,
                self.write_head == old(self).write_head,
                self.front == old(self).front,
                old(self).done ==> *self == *old(self),
                anchored == old(self).tail_anchored(*ring),
                s0 == old(self).back_steps(*ring),
                anchored ==> self.tail_anchored(*ring) && s0 <= self.back_steps(*ring)
                    <= ring.spec_len(),
                anchored ==> skipped_uninit_back(*ring, s0, self.back_steps(*ring)),
            decreases self.spec_remaining(*ring),
        {
            if self.done {
                return None;
            }
            let done2 = self.front == self.back || ring.next_head(self.front) == self.write_head
                || self.back == self.write_head;
            let cur = self.back;
            proof {
                if anchored {
                    assert(done2 <==> self.back_steps(*ring) == ring.spec_len() - 1);
                    assert((cur as int) == back_slot_at_step(*ring, self.back_steps(*ring)));
                }
            }
            self.back = ring.prev_entry(cur);
            self.done = done2;
            match Entry::from(ring, self.kind, cur) {
                Some(e) => {
                    return Some(e);
                },
                None => {},
            }
        }
    }

    /// The window length still between the cursors.
    pub fn size_hint(&self, ring: &Ring) -> (r: u32)
        requires
            self.valid_for(*ring),
        ensures
            r == (if self.front > self.back {
                ring.spec_len() - self.front + self.back
            } else {
                self.back - self.front
            }),
    {
        if self.front > self.back {
            ring.len() - self.front + self.back
        } else {
            self.back - self.front
        }
    }
}

/// A reader-side iterator over one ring.
pub struct RingReader<'a> {
    pub ring: &'a Ring,
    pub iter: RingIter,
}

impl<'a> RingReader<'a> {
    /// An iterator over the whole ring, anchored at its current write head.
    pub fn from_ring(ring: &'a Ring, kind: RingKind) -> (r: RingReader<'a>)
        requires
            ring.wf(),
        ensures
            r.ring == ring,
            r.iter.kind == kind,
            r.iter.head_anchored(*ring),
            r.iter.steps(*ring) == 0,
            r.iter.tail_anchored(*ring),
            r.iter.back_steps(*ring) == 0,
            !r.iter.done,
    {
        let tail = ring.write_head();
        Self::from_id(ring, kind, tail, tail)
    }

    /// An iterator anchored at `write_head`, starting at the slot `id`.
    pub fn from_id(ring: &'a Ring, kind: RingKind, write_head: u32, id: u32) -> (r: RingReader<
        'a,
    >)
        requires
            ring.wf(),
            (id as int) < ring.spec_len(),
        ensures
            r.ring == ring,
            r.iter.kind == kind,
            r.iter.write_head == write_head,
            r.iter.back == ring.spec_prev(id as int),
            r.iter.front == id,
            !r.iter.done,
            r.iter.valid_for(*ring),
            r.iter.window_anchored(*ring),
            r.iter.fwd_anchor(*ring) == id,
            r.iter.fwd_steps(*ring) == 0,
    {
        let mut me = Self::from_uninit(ring, kind);
        me.reset_to(write_head, id);
        me
    }

    /// An empty iterator over the ring.
    pub fn from_uninit(ring: &'a Ring, kind: RingKind) -> (r: RingReader<'a>)
        requires
            ring.wf(),
        ensures
            r.ring == ring,
            r.iter.kind == kind,
            r.iter.done,
            r.iter.valid_for(*ring),
            r.iter.front == 0 && r.iter.back == 0 && r.iter.write_head == 0,
    {
        RingReader { ring, iter: RingIter { kind, write_head: 0, back: 0, front: 0, done: true } }
    }

    /// The ring.
    pub fn ring(&self) -> (r: &'a Ring)
        ensures
            r == self.ring,
    {
        self.ring
    }

    /// The ring kind.
    pub fn kind(&self) -> (r: RingKind)
        ensures
            r == self.iter.kind,
    {
        self.iter.kind
    }

    /// Re-anchors at `write_head` and restarts at the slot `start`.
    pub fn reset_to(&mut self, write_head: u32, start: u32)
        requires
            old(self).ring.wf(),
            (start as int) < old(self).ring.spec_len(),
        ensures
            final(self).ring == old(self).ring,
            final(self).iter.kind == old(self).iter.kind,
            final(self).iter.write_head == write_head,
            final(self).iter.back == old(self).ring.spec_prev(start as int),
            final(self).iter.front == start,
            !final(self).iter.done,
            final(self).iter.valid_for(*old(self).ring),
            final(self).iter.window_anchored(*old(self).ring),
            final(self).iter.fwd_anchor(*old(self).ring) == start,
            final(self).iter.fwd_steps(*old(self).ring) == 0,
    {
        let back = self.ring.prev_entry(start);
        let front = self.ring.next_entry(back);
        self.iter.write_head = write_head;
        self.iter.back = back;
        self.iter.front = front;
        self.iter.done = false;
        proof {
            assert(final(self).iter.front == start);
        }
    }

    /// The next entry toward the write head.
    pub fn next(&mut self) -> (r: Option<Entry>)
        requires
            old(self).iter.valid_for(*old(self).ring),
        ensures
            final(self).ring == old(self).ring,
            ({
                let pre = old(self).iter;
                let post = final(self).iter;
                let ring = *old(self).ring;
                &&& post.valid_for(ring)
                &&& post.kind == pre.kind
                &&& (match r {
                    Some(e) => e.ring == pre.kind && (e.index as int) < ring.spec_len()
                        && e.spec_slot_entry() == ring.spec_slot(e.index as int),
                    None => true,
                })
                &&& pre.head_anchored(ring) ==> {
                    let s0 = pre.steps(ring);
                    let s1 = post.steps(ring);
                    &&& post.head_anchored(ring)
                    &&& s0 <= s1 <= ring.spec_len()
                    &&& (match r {
                        None => s1 == ring.spec_len() && skipped_uninit(ring, s0, s1),
                        Some(e) => {
                            &&& s0 < s1
                            &&& (e.index as int) == slot_at_step(ring, s1 - 1)
                            &&& skipped_uninit(ring, s0, s1 - 1)
                        },
                    })
                }
                &&& pre.window_anchored(ring) ==> {
                    let a = pre.fwd_anchor(ring);
                    let w = pre.fwd_window(ring);
                    let s0 = pre.fwd_steps(ring);
                    let s1 = post.fwd_steps(ring);
                    &&& post.window_anchored(ring)
                    &&& post.fwd_anchor(ring) == a
                    &&& post.fwd_window(ring) == w
                    &&& s0 <= s1 <= w
                    &&& (match r {
                        None => s1 == w && skipped_uninit_from(ring, a, s0, s1),
                        Some(e) => {
                            &&& s0 < s1
                            &&& (e.index as int) == add_mod(a, s1 - 1, ring.spec_len())
                            &&& skipped_uninit_from(ring, a, s0, s1 - 1)
                        },
                    })
                }
            }),
    {
        self.iter.next(self.ring)
    }

    /// The next entry backward from the write head.
    pub fn next_back(&mut self) -> (r: Option<Entry>)
        requires
            old(self).iter.valid_for(*old(self).ring),
        ensures
            final(self).ring == old(self).ring,
            ({
                let pre = old(self).iter;
                let post = final(self).iter;
                let ring = *old(self).ring;
                &&& post.valid_for(ring)
                &&& post.kind == pre.kind
                &&& (match r {
                    Some(e) => e.ring == pre.kind && (e.index as int) < ring.spec_len()
                        && e.spec_slot_entry() == ring.spec_slot(e.index as int),
                    None => true,
                })
                &&& pre.tail_anchored(ring) ==> {
                    let s0 = pre.back_steps(ring);
                    let s1 = post.back_steps(ring);
                    &&& post.tail_anchored(ring)
                    &&& s0 <= s1 <= ring.spec_len()
                    &&& (match r {
                        None => s1 == ring.spec_len() && skipped_uninit_back(ring, s0, s1),
                        Some(e) => {
                            &&& s0 < s1
                            &&& (e.index as int) == back_slot_at_step(ring, s1 - 1)
                            &&& skipped_uninit_back(ring, s0, s1 - 1)
                        },
                    })
                }
            }),
    {
        self.iter.next_back(self.ring)
    }

    /// The window length still between the cursors.
    pub fn size_hint(&self) -> (r: u32)
        requires
            self.iter.valid_for(*self.ring),
        ensures
            r == (if self.iter.front > self.iter.back {
                self.ring.spec_len() - self.iter.front + self.iter.back
            } else {
                self.iter.back - self.iter.front
            }),
    {
        self.iter.size_hint(self.ring)
    }
}

/// Whether the slot `i` of `ring` holds an entry.
pub open spec fn init_pred(ring: Ring) -> spec_fn(int) -> bool {
    |i: int| ring.slots@[i].is_initialized()
}

/// The slots a head-anchored forward iteration examines, in order: the
/// write head, then each following slot, wrapping once around the ring.
pub open spec fn cyclic_slots(ring: Ring) -> Seq<int> {
    Seq::new(ring.spec_len() as nat, |t: int| slot_at_step(ring, t))
}

/// The initialised slots in the order a head-anchored iteration yields
/// them.
pub open spec fn initialized_slots_from_head(ring: Ring) -> Seq<int> {
    cyclic_slots(ring).filter(init_pred(ring))
}

/// One filtering step: extending a prefix by one element extends the filter
/// result by that element exactly when it satisfies the predicate.
proof fn lemma_filter_take_succ(s: Seq<int>, pred: spec_fn(int) -> bool, k: int)
    requires
        0 <= k < s.len(),
    ensures
        s.take(k + 1).filter(pred) == (if pred(s[k]) {
            s.take(k).filter(pred).push(s[k])
        } else {
            s.take(k).filter(pred)
        }),
{
    reveal(Seq::filter);
    assert(s.take(k + 1).drop_last() =~= s.take(k));
    assert(s.take(k + 1).last() == s[k]);
}

/// Filtering ignores a stretch of elements that all fail the predicate.
proof fn lemma_filter_take_skip(s: Seq<int>, pred: spec_fn(int) -> bool, a: int, b: int)
    requires
        0 <= a <= b <= s.len(),
        forall|t: int| a <= t < b ==> !pred(#[trigger] s[t]),
    ensures
        s.take(b).filter(pred) == s.take(a).filter(pred),
    decreases b - a,
{
    if a < b {
        lemma_filter_take_succ(s, pred, b - 1);
        lemma_filter_take_skip(s, pred, a, b - 1);
    }
}

/// Every element of a filter result comes from the source.
proof fn lemma_filter_subset(s: Seq<int>, pred: spec_fn(int) -> bool)
    ensures
        forall|x: int| #[trigger] s.filter(pred).contains(x) ==> s.contains(x),
    decreases s.len(),
{
    reveal(Seq::filter);
    if s.len() > 0 {
        lemma_filter_subset(s.drop_last(), pred);
        assert forall|x: int| #[trigger] s.filter(pred).contains(x) implies s.contains(x) by {
            let f = s.filter(pred);
            let i = choose|i: int| 0 <= i < f.len() && f[i] == x;
            let sub = s.drop_last().filter(pred);
            if pred(s.last()) && i == f.len() - 1 {
                assert(s[s.len() - 1] == x);
            } else {
                assert(sub[i] == x);
                assert(sub.contains(x));
                assert(s.drop_last().contains(x));
                let j = choose|j: int| 0 <= j < s.drop_last().len() && s.drop_last()[j] == x;
                assert(s[j] == x);
            }
        }
    }
}

/// Filtering a duplicate-free sequence yields a duplicate-free sequence.
proof fn lemma_filter_no_dup(s: Seq<int>, pred: spec_fn(int) -> bool)
    requires
        s.no_duplicates(),
    ensures
        s.filter(pred).no_duplicates(),
    decreases s.len(),
{
    reveal(Seq::filter);
    if s.len() > 0 {
        let sub = s.drop_last();
        assert(sub.no_duplicates()) by {
            assert(forall|a: int, b: int|
                0 <= a < sub.len() && 0 <= b < sub.len() && a != b ==> s[a] != s[b]);
        };
        lemma_filter_no_dup(sub, pred);
        if pred(s.last()) {
            assert(!sub.filter(pred).contains(s.last())) by {
                lemma_filter_subset(sub, pred);
                if sub.filter(pred).contains(s.last()) {
                    assert(sub.contains(s.last()));
                    let j = choose|j: int| 0 <= j < sub.len() && sub[j] == s.last();
                    assert(s[j] == s[s.len() - 1]);
                }
            };
            let f = sub.filter(pred).push(s.last());
            assert forall|a: int, b: int|
                0 <= a < f.len() && 0 <= b < f.len() && a != b implies f[a] != f[b] by {
                if a < f.len() - 1 && b < f.len() - 1 {
                } else {
                    let other = if a == f.len() - 1 {
                        b
                    } else {
                        a
                    };
                    assert(f[other] == sub.filter(pred)[other]);
                    if f[other] == s.last() {
                        assert(sub.filter(pred).contains(s.last()));
                    }
                }
            }
        }
    }
}

/// A skipped stretch of uninitialised slots does not change the filtered
/// slot list.
proof fn lemma_skip_to_filter(ring: Ring, a: int, b: int)
    requires
        ring.wf(),
        0 <= a <= b <= ring.spec_len(),
        skipped_uninit(ring, a, b),
    ensures
        cyclic_slots(ring).take(b).filter(init_pred(ring)) == cyclic_slots(ring).take(a).filter(
            init_pred(ring),
        ),
{
    let cyc = cyclic_slots(ring);
    let pred = init_pred(ring);
    assert forall|t: int| a <= t < b implies !pred(#[trigger] cyc[t]) by {
        assert(ring.spec_slot(slot_at_step(ring, t)) is Uninitialized);
    }
    lemma_filter_take_skip(cyc, pred, a, b);
}

/// Iterating a well-formed ring from its write head yields each initialised
/// slot exactly once: the yielded slot list has no duplicates, and a slot
/// appears on it if and only if it is initialised.
pub proof fn lemma_iteration_yields_each_slot_once(ring: Ring)
    requires
        ring.wf(),
    ensures
        initialized_slots_from_head(ring).no_duplicates(),
        forall|i: int|
            0 <= i < ring.spec_len() ==> (#[trigger] initialized_slots_from_head(ring).contains(i)
                <==> ring.slots@[i].is_initialized()),
        forall|i: int|
            #[trigger] initialized_slots_from_head(ring).contains(i) ==> 0 <= i
                < ring.spec_len(),
{
    let cyc = cyclic_slots(ring);
    let pred = init_pred(ring);
    let n = ring.spec_len();
    let wh = ring.write_head as int;
    assert(cyc.no_duplicates()) by {
        assert(forall|t1: int, t2: int|
            0 <= t1 < n && 0 <= t2 < n && t1 != t2 ==> #[trigger] cyc[t1] != #[trigger] cyc[t2]);
    };
    lemma_filter_no_dup(cyc, pred);
    lemma_filter_subset(cyc, pred);
    assert forall|i: int|
        0 <= i < n implies (#[trigger] initialized_slots_from_head(ring).contains(i)
        <==> ring.slots@[i].is_initialized()) by {
        if ring.slots@[i].is_initialized() {
            let t = if i >= wh {
                i - wh
            } else {
                i - wh + n
            };
            assert(cyc[t] == i);
            assert(pred(cyc[t]));
            cyc.lemma_filter_contains(pred, t);
        }
        if initialized_slots_from_head(ring).contains(i) {
            let x = choose|x: int|
                0 <= x < initialized_slots_from_head(ring).len()
                    && initialized_slots_from_head(ring)[x] == i;
            cyc.lemma_filter_pred(pred, x);
        }
    }
    assert forall|i: int| #[trigger]
        initialized_slots_from_head(ring).contains(i) implies 0 <= i < n by {
        assert(cyc.contains(i));
        let t = choose|t: int| 0 <= t < cyc.len() && cyc[t] == i;
    }
}

impl<'a> RingReader<'a> {
    /// Yields every remaining entry of a head-anchored iteration: one entry
    /// for each initialised slot, in write-head order, each slot exactly
    /// once (see `lemma_iteration_yields_each_slot_once`).
    #[verifier::rlimit(80)]
    pub fn collect_from_head(&mut self) -> (r: Vec<Entry>)
        requires
            old(self).iter.head_anchored(*old(self).ring),
            old(self).iter.steps(*old(self).ring) == 0,
        ensures
            final(self).ring == old(self).ring,
            r@.map_values(|e: Entry| e.index as int) == initialized_slots_from_head(
                *old(self).ring,
            ),
            forall|x: int|
                0 <= x < r@.len() ==> {
                    let e = #[trigger] r@[x];
                    &&& e.ring == old(self).iter.kind
                    &&& 0 <= e.index < old(self).ring.spec_len()
                    &&& e.spec_slot_entry() == old(self).ring.spec_slot(e.index as int)
                },
    {
        let ghost ring = *old(self).ring;
        let ghost cyc = cyclic_slots(ring);
        let ghost pred = init_pred(ring);
        let mut out: Vec<Entry> = Vec::new();
        proof {
            assert(cyc.take(0).filter(pred) =~= Seq::<int>::empty()) by {
                reveal(Seq::filter);
                assert(cyc.take(0) =~= Seq::<int>::empty());
            };
            assert(out@.map_values(|e: Entry| e.index as int) =~= Seq::<int>::empty());
        }
        loop
            invariant
                self.ring == old(self).ring,
                *self.ring == ring,
                cyc == cyclic_slots(ring),
                pred == init_pred(ring),
                self.iter.head_anchored(ring),
                self.iter.kind == old(self).iter.kind,
                0 <= self.iter.steps(ring) <= ring.spec_len(),
                out@.map_values(|e: Entry| e.index as int) == cyc.take(
                    self.iter.steps(ring),
                ).filter(pred),
                forall|x: int|
                    0 <= x < out@.len() ==> {
                        let e = #[trigger] out@[x];
                        &&& e.ring == old(self).iter.kind
                        &&& 0 <= e.index < ring.spec_len()
                        &&& e.spec_slot_entry() == ring.spec_slot(e.index as int)
                    },
            decreases ring.spec_len() - self.iter.steps(ring) + (if self.iter.done {
                0int
            } else {
                1int
            }),
        {
            let ghost s0 = self.iter.steps(ring);
            let ghost was_done = self.iter.done;
            match self.next() {
                None => {
                    proof {
                        let s1 = self.iter.steps(ring);
                        if !was_done {
                            lemma_skip_to_filter(ring, s0, s1);
                        }
                        assert(cyc.take(ring.spec_len() as int) =~= cyc);
                    }
                    return out;
                },
                Some(e) => {
                    let ghost s1 = self.iter.steps(ring);
                    proof {
                        lemma_skip_to_filter(ring, s0, s1 - 1);
                        lemma_filter_take_succ(cyc, pred, s1 - 1);
                        assert(cyc[s1 - 1] == e.index as int);
                        assert(pred(cyc[s1 - 1]));
                    }
                    out.push(e);
                    proof {
                        assert(out@.map_values(|e2: Entry| e2.index as int) =~= cyc.take(
                            s1,
                        ).filter(pred));
                    }
                },
            }
        }
    }
}

/// A reader's view of the two rings: snapshots taken at open.
pub struct DatabaseReader {
    pub main: Ring,
    pub favorites: Ring,
}

/// Copies a ring (the model of mapping its file).
fn snapshot_ring(ring: &Ring) -> (r: Ring)
    requires
        ring.wf(),
    ensures
        r.wf(),
        r.slots@ == ring.slots@,
        r.write_head == ring.write_head,
        r.spec_len() == ring.spec_len(),
{
    let mut slots: Vec<RingEntry> = Vec::new();
    let mut n: usize = 0;
    while n < ring.slots.len()
        invariant
            n <= ring.slots@.len(),
            slots@ == ring.slots@.take(n as int),
        decreases ring.slots@.len() - n,
    {
        slots.push(ring.slots[n]);
        proof {
            assert(slots@ =~= ring.slots@.take(n + 1));
        }
        n = n + 1;
    }
    proof {
        assert(ring.slots@.take(ring.slots@.len() as int) =~= ring.slots@);
    }
    Ring { slots, write_head: ring.write_head() }
}

impl DatabaseReader {
    /// Opens (maps) both rings of the database.
    pub fn open(db: &Database) -> (r: DatabaseReader)
        requires
            db.wf(),
        ensures
            r.main.wf(),
            r.favorites.wf(),
            r.main.slots@ == db.main.slots@,
            r.main.write_head == db.main.write_head,
            r.favorites.slots@ == db.favorites.slots@,
            r.favorites.write_head == db.favorites.write_head,
    {
        DatabaseReader { main: snapshot_ring(&db.main), favorites: snapshot_ring(&db.favorites) }
    }

    /// The ring of the given kind.
    pub open spec fn spec_ring(self, k: RingKind) -> Ring {
        match k {
            RingKind::Main => self.main,
            RingKind::Favorites => self.favorites,
        }
    }

    pub open spec fn wf(self) -> bool {
        self.main.wf() && self.favorites.wf()
    }

    /// Resolves a composite id to an entry against the snapshot: `Ring` for
    /// an invalid ring kind, `Entry` for an uninitialised or out-of-range
    /// slot.
    pub fn get(&self, id: u64) -> (r: Result<Entry, IdNotFoundError>)
        requires
            self.wf(),
        ensures
            match r {
                Ok(e) => {
                    &&& spec_decompose_id(id) == Some((e.ring, e.index))
                    &&& (e.index as int) < self.spec_ring(e.ring).spec_len()
                    &&& e.spec_slot_entry() == self.spec_ring(e.ring).spec_slot(e.index as int)
                },
                Err(IdNotFoundError::Ring(h)) => spec_decompose_id(id) is None && h == id
                    / 0x1_0000_0000,
                Err(IdNotFoundError::Entry(i)) => {
                    &&& spec_decompose_id(id) matches Some((k, i2)) && i2 == i && ((
                    i as int) >= self.spec_ring(k).spec_len() || self.spec_ring(k).spec_slot(
                        i as int,
                    ) is Uninitialized)
                },
            },
    {
        let (kind, index) = match decompose_id(id) {
            Ok(p) => p,
            Err(e) => {
                return Err(e);
            },
        };
        let ring = match kind {
            RingKind::Main => &self.main,
            RingKind::Favorites => &self.favorites,
        };
        match Entry::from(ring, kind, index) {
            Some(e) => Ok(e),
            None => Err(IdNotFoundError::Entry(index)),
        }
    }

    /// An iterator over the main ring from its write head.
    pub fn main(&self) -> (r: RingReader<'_>)
        requires
            self.wf(),
        ensures
            r.ring == &self.main,
            r.iter.kind == RingKind::Main,
            r.iter.head_anchored(self.main),
            r.iter.steps(self.main) == 0,
    {
        RingReader::from_ring(&self.main, RingKind::Main)
    }

    /// An iterator over the favorites ring from its write head.
    pub fn favorites(&self) -> (r: RingReader<'_>)
        requires
            self.wf(),
        ensures
            r.ring == &self.favorites,
            r.iter.kind == RingKind::Favorites,
            r.iter.head_anchored(self.favorites),
            r.iter.steps(self.favorites) == 0,
    {
        RingReader::from_ring(&self.favorites, RingKind::Favorites)
    }

    /// Like `get`, but first refreshes the ring snapshot from the database,
    /// the way a reader remaps a ring file the server has extended.
    pub fn growable_get(&mut self, db: &Database, id: u64) -> (r: Result<Entry, IdNotFoundError>)
        requires
            old(self).wf(),
            db.wf(),
        ensures
            final(self).wf(),
            // only the addressed ring is re-mapped, and to the database's
            // current state; an undecodable id changes nothing
            (match spec_decompose_id(id) {
                Some((k, _)) => {
                    &&& final(self).spec_ring(k).slots@ == db.spec_ring(k).slots@
                    &&& final(self).spec_ring(k).write_head == db.spec_ring(k).write_head
                    &&& final(self).spec_ring(crate::allocator::spec_other(k)) == old(
                        self,
                    ).spec_ring(crate::allocator::spec_other(k))
                },
                None => *final(self) == *old(self),
            }),
            match r {
                Ok(e) => {
                    &&& spec_decompose_id(id) == Some((e.ring, e.index))
                    &&& e.live_in(*db)
                },
                Err(IdNotFoundError::Ring(h)) => spec_decompose_id(id) is None && h == id
                    / 0x1_0000_0000,
                Err(IdNotFoundError::Entry(i)) => {
                    &&& spec_decompose_id(id) matches Some((k, i2)) && i2 == i
                    &&& db.spec_lookup(id) is None
                },
            },
    {
        let (kind, index) = match decompose_id(id) {
            Ok(p) => p,
            Err(e) => {
                return Err(e);
            },
        };
        match kind {
            RingKind::Main => self.main = snapshot_ring(&db.main),
            RingKind::Favorites => self.favorites = snapshot_ring(&db.favorites),
        }
        let ring = match kind {
            RingKind::Main => &self.main,
            RingKind::Favorites => &self.favorites,
        };
        proof {
            crate::protocol::lemma_decompose_unique(id);
        }
        match Entry::from(ring, kind, index) {
            Some(e) => Ok(e),
            None => Err(IdNotFoundError::Entry(index)),
        }
    }
}

/// How short a reader's bucket mapping was, and how long it must become.
pub struct BucketTooShort {
    pub bucket: u8,
    pub needed_len: usize,
}

/// A reader's view of the bucket files: one mapping length per class (the
/// mapping is at least 4096 bytes even over an empty file).
pub struct EntryReader {
    pub mapped: Vec<usize>,
}

impl EntryReader {
    pub open spec fn wf(self) -> bool {
        self.mapped@.len() == 11
    }

    /// Maps the eleven bucket files at their current lengths (at least
    /// 4096).
    pub fn open(db: &Database) -> (r: EntryReader)
        requires
            db.wf(),
        ensures
            r.wf(),
            forall|c: int|
                0 <= c < 11 ==> #[trigger] r.mapped@[c] == if db.buckets.files@[c]@.len() > 4096 {
                    db.buckets.files@[c]@.len()
                } else {
                    4096
                },
    {
        let mut mapped: Vec<usize> = Vec::new();
        let mut c: u8 = 0;
        while c < 11
            invariant
                c <= 11,
                db.wf(),
                mapped@.len() == c,
                forall|x: int|
                    0 <= x < c ==> #[trigger] mapped@[x] == if db.buckets.files@[x]@.len() > 4096 {
                        db.buckets.files@[x]@.len()
                    } else {
                        4096
                    },
            decreases 11 - c,
        {
            let len = db.buckets.file_len(c);
            mapped.push(if len > 4096 {
                len
            } else {
                4096
            });
            c = c + 1;
        }
        EntryReader { mapped }
    }

    /// The mapped length of the class `c`.
    pub fn bucket_len(&self, c: u8) -> (r: usize)
        requires
            self.wf(),
            c < 11,
        ensures
            r == self.mapped@[c as int],
    {
        self.mapped[c as usize]
    }

    /// Remaps the class `c` to `new_len` bytes.
    pub fn remap(&mut self, c: u8, new_len: usize)
        requires
            old(self).wf(),
            c < 11,
        ensures
            final(self).wf(),
            final(self).mapped@ == old(self).mapped@.update(c as int, new_len),
    {
        self.mapped.set(c as usize, new_len);
    }
}

/// Copies `len` bytes of `file` starting at `start`.
pub fn copy_range(file: &Vec<u8>, start: usize, len: usize) -> (r: Vec<u8>)
    requires
        start + len <= file@.len(),
    ensures
        r@ == file@.subrange(start as int, start as int + len),
        start == 0 && len == file@.len() ==> r@ == file@,
{
    proof {
        assert(file@.subrange(0, file@.len() as int) =~= file@);
    }
    let flen: usize = file.len();
    let mut r: Vec<u8> = Vec::new();
    let mut p: usize = 0;
    while p < len
        invariant
            p <= len,
            start + len <= file@.len(),
            start + len <= flen,
            r@ == file@.subrange(start as int, start as int + p),
        decreases len - p,
    {
        r.push(file[start + p]);
        proof {
            assert(r@ =~= file@.subrange(start as int, start as int + p + 1));
        }
        p = p + 1;
    }
    r
}

/// Resolves a bucketed record to its bytes, or reports that the reader's
/// mapping of that bucket is too short (`offset + size > mapped length`).
pub fn bucket_entry_to_slice(reader: &EntryReader, db: &Database, be: BucketEntry) -> (r: Result<
    Vec<u8>,
    BucketTooShort,
>)
    requires
        reader.wf(),
        db.wf(),
        be.wf(),
        db.bucket_ref_valid(be),
    ensures
        ({
            let c = spec_size_to_bucket(be.size) as int;
            let st = spec_bucket_len(c) as int;
            match r {
                Ok(v) => {
                    &&& be.index * st + be.size <= reader.mapped@[c]
                    &&& v@ == db.buckets.spec_region(c, be.index as int, be.size as int)
                },
                Err(e) => {
                    &&& be.index * st + be.size > reader.mapped@[c]
                    &&& e.bucket == c
                    &&& e.needed_len == (be.index + 1) * st
                },
            }
        }),
{
    let index = be.index as usize;
    let size = be.size as usize;
    let bucket = size_to_bucket(be.size);
    let size_class = bucket_to_length(bucket) as usize;
    let flen = db.buckets.file_len(bucket);
    proof {
        crate::buckets::lemma_size_to_bucket_smallest(be.size);
        crate::database::lemma_nslots_bound(db.buckets, bucket as int, index as int);
        assert((index + 1) * size_class == index * size_class + size_class) by (nonlinear_arith);
        assert(index + 1 <= (index + 1) * size_class) by (nonlinear_arith)
            requires
                size_class >= 1,
                index >= 0,
        ;
        assert((index + 1) * size_class <= flen);
    }
    let start = index * size_class;
    if start + size > reader.bucket_len(bucket) {
        Err(BucketTooShort { bucket, needed_len: (index + 1) * size_class })
    } else {
        let file = &db.buckets.files[bucket as usize];
        Ok(copy_range(file, start, size))
    }
}

/// An entry loaded into memory: its bytes, and for file-backed entries the
/// key of the direct file that backs it.
pub struct LoadedEntry {
    pub bytes: Vec<u8>,
    pub backing: Option<(RingKind, u32)>,
}

impl LoadedEntry {
    /// Takes the bytes out.
    pub fn into_inner(self) -> (r: Vec<u8>)
        ensures
            r == self.bytes,
    {
        self.bytes
    }

    /// The MIME type: only file-backed entries carry one (from the
    /// `user.mime_type` xattr), and its absence reads as empty.
    pub fn mime_type(&self, db: &Database) -> (r: Vec<u8>)
        requires
            db.wf(),
        ensures
            r@ == (match self.backing {
                None => Seq::<u8>::empty(),
                Some((k, i)) => if db.direct.spec_has(k, i) {
                    db.direct.spec_mime(k, i)
                } else {
                    Seq::<u8>::empty()
                },
            }),
    {
        match self.backing {
            None => Vec::new(),
            Some((k, i)) => {
                match db.direct.get_file(k, i) {
                    None => Vec::new(),
                    Some(f) => copy_range(&f.mime, 0, f.mime.len()),
                }
            },
        }
    }
}

impl Entry {
    /// Loads the entry's bytes: `Ok(None)` when the reader's bucket mapping
    /// is stale (too short for the entry), else the exact bytes the entry's
    /// id resolves to.
    pub fn to_slice(&self, reader: &EntryReader, db: &Database) -> (r: Result<
        Option<LoadedEntry>,
        Error,
    >)
        requires
            reader.wf(),
            db.wf(),
            self.live_in(*db),
        ensures
            // the load fails exactly on a stale (too short) bucket mapping
            r matches Ok(None) <==> (self.kind matches Kind::Bucket(be) && be.index * (
            spec_bucket_len(spec_size_to_bucket(be.size) as int) as int) + be.size
                > reader.mapped@[spec_size_to_bucket(be.size) as int]),
            match r {
                Ok(Some(le)) => {
                    &&& Some(le.bytes@) == db.spec_lookup(
                        spec_composite_id(self.ring, self.index),
                    )
                    // bucket entries carry no backing file; direct entries name
                    // theirs, so the MIME xattr reads back through it
                    &&& (match self.kind {
                        Kind::Bucket(_) => le.backing is None,
                        Kind::File => le.backing == Some((self.ring, self.index)),
                    })
                },
                Ok(None) => true,
                Err(_) => false,
            },
    {
        proof {
            lemma_compose_decompose(self.ring, self.index);
        }
        match self.kind {
            Kind::Bucket(be) => {
                proof {
                    assert(db.is_bucketed(self.ring, self.index as int));
                    assert(db.bucket_at(self.ring, self.index as int) == be);
                }
                match bucket_entry_to_slice(reader, db, be) {
                    Ok(bytes) => Ok(Some(LoadedEntry { bytes, backing: None })),
                    Err(_) => Ok(None),
                }
            },
            Kind::File => {
                proof {
                    assert(db.direct.spec_has(self.ring, self.index));
                }
                match db.direct.get_file(self.ring, self.index) {
                    Some(f) => Ok(
                        Some(
                            LoadedEntry {
                                bytes: copy_range(&f.data, 0, f.data.len()),
                                backing: Some((self.ring, self.index)),
                            },
                        ),
                    ),
                    None => Err(Error::Io { context: "direct file vanished" }),
                }
            },
        }
    }

    /// Remaps the entry's bucket to `max(needed, 2 * mapped)` when the
    /// reader's mapping is too short for it; afterwards resolution succeeds.
    pub fn grow_bucket_if_needed(&self, reader: &mut EntryReader, db: &Database)
        requires
            old(reader).wf(),
            db.wf(),
            self.live_in(*db),
        ensures
            final(reader).wf(),
            final(reader).mapped@.len() == old(reader).mapped@.len(),
            ({
                match self.kind {
                    Kind::Bucket(be) => {
                        let c = spec_size_to_bucket(be.size) as int;
                        let st = spec_bucket_len(c) as int;
                        if be.index * st + be.size > old(reader).mapped@[c] {
                            // remapped to at least max(needed, 2 * len)
                            &&& final(reader).mapped@[c] >= (be.index + 1) * st
                            &&& be.index * st + be.size <= final(reader).mapped@[c]
                            &&& (2 * old(reader).mapped@[c] <= usize::MAX
                                ==> final(reader).mapped@[c] >= 2 * old(reader).mapped@[c])
                            &&& forall|c2: int|
                                0 <= c2 < 11 && c2 != c
                                    ==> final(reader).mapped@[c2] == old(reader).mapped@[c2]
                        } else {
                            final(reader).mapped@ == old(reader).mapped@
                        }
                    },
                    Kind::File => final(reader).mapped@ == old(reader).mapped@,
                }
            }),
    {
        match self.kind {
            Kind::Bucket(be) => {
                proof {
                    assert(db.is_bucketed(self.ring, self.index as int));
                    assert(db.bucket_at(self.ring, self.index as int) == be);
                }
                if let Err(BucketTooShort { bucket, needed_len }) = bucket_entry_to_slice(
                    reader,
                    db,
                    be,
                ) {
                    let mapped = reader.bucket_len(bucket);
                    proof {
                        crate::buckets::lemma_size_to_bucket_smallest(be.size);
                        assert((be.index as int) * (spec_bucket_len(
                            spec_size_to_bucket(be.size) as int,
                        ) as int) + be.size <= needed_len) by (nonlinear_arith)
                            requires
                                needed_len == (be.index + 1) * (spec_bucket_len(
                                    spec_size_to_bucket(be.size) as int,
                                ) as int),
                                be.size <= spec_bucket_len(spec_size_to_bucket(be.size) as int),
                        ;
                    }
                    let doubled = if mapped >= usize::MAX / 2 {
                        usize::MAX
                    } else {
                        2 * mapped
                    };
                    let new_len = if needed_len > doubled {
                        needed_len
                    } else {
                        doubled
                    };
                    reader.remap(bucket, new_len);
                }
            },
            Kind::File => {},
        }
    }

    /// Loads the entry's bytes, remapping a stale bucket first: always
    /// returns the exact bytes the entry's id resolves to.
    pub fn to_slice_growable(&self, reader: &mut EntryReader, db: &Database) -> (r: Result<
        LoadedEntry,
        Error,
    >)
        requires
            old(reader).wf(),
            db.wf(),
            self.live_in(*db),
        ensures
            final(reader).wf(),
            final(reader).mapped@.len() == old(reader).mapped@.len(),
            match r {
                Ok(le) => {
                    &&& Some(le.bytes@) == db.spec_lookup(
                        spec_composite_id(self.ring, self.index),
                    )
                    &&& (match self.kind {
                        Kind::Bucket(_) => le.backing is None,
                        Kind::File => le.backing == Some((self.ring, self.index)),
                    })
                },
                Err(_) => false,
            },
            // a stale bucket mapping is remapped to at least
            // max(needed, 2 * len); nothing else is remapped
            ({
                match self.kind {
                    Kind::Bucket(be) => {
                        let c = spec_size_to_bucket(be.size) as int;
                        let st = spec_bucket_len(c) as int;
                        if be.index * st + be.size > old(reader).mapped@[c] {
                            &&& final(reader).mapped@[c] >= (be.index + 1) * st
                            &&& (2 * old(reader).mapped@[c] <= usize::MAX
                                ==> final(reader).mapped@[c] >= 2 * old(reader).mapped@[c])
                            &&& forall|c2: int|
                                0 <= c2 < 11 && c2 != c
                                    ==> final(reader).mapped@[c2] == old(reader).mapped@[c2]
                        } else {
                            final(reader).mapped@ == old(reader).mapped@
                        }
                    },
                    Kind::File => final(reader).mapped@ == old(reader).mapped@,
                }
            }),
    {
        self.grow_bucket_if_needed(reader, db);
        match self.to_slice(reader, db) {
            Ok(Some(le)) => Ok(le),
            Ok(None) => {
                proof {
                    assert(false);
                }
                Err(Error::Io { context: "bucket mapping still too short" })
            },
            Err(e) => Err(e),
        }
    }
}

} // verus!
