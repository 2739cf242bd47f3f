//! The memory-mapped circular log of slot records, modelled as a vector.
//!
//! A ring holds a fixed number of slots (chosen at open, default 250 000) and
//! a write head: the next-to-write position, advancing modulo the capacity.
//! Each slot is uninitialised, a reference into a bucket file, or a marker
//! that the payload lives in the direct store.

use vstd::prelude::*;

verus! {

/// The largest capacity a ring may be opened with (2^31 slots).
pub const MAX_ENTRIES: u32 = 0x8000_0000;

/// A slot record pointing into a bucket file: the entry is `size` bytes long
/// and lives at slot `index` of the bucket class `size_to_bucket(size)`.
#[derive(Clone, Copy, Debug, PartialEq, Eq, Structural, Hash)]
pub struct BucketEntry {
    pub size: u32,
    pub index: u32,
}

impl BucketEntry {
    /// A bucketed record is well-formed when its size fits the largest bucket
    /// and is not zero (zero-length entries are rejected at `add`).
    pub open spec fn wf(self) -> bool {
        1 <= self.size <= 4096
    }
}

/// One slot record of a ring.
#[derive(Clone, Copy, Debug, PartialEq, Eq, Structural, Hash)]
pub enum RingEntry {
    /// The slot holds no entry; readers treat it as absent.
    Uninitialized,
    /// The entry's bytes live in a bucket file.
    Bucketed(BucketEntry),
    /// The entry's bytes live in the direct store under `<ring>_<slot>`.
    File,
}

impl RingEntry {
    pub open spec fn wf(self) -> bool {
        match self {
            RingEntry::Bucketed(e) => e.wf(),
            _ => true,
        }
    }

    pub open spec fn is_initialized(self) -> bool {
        !(self is Uninitialized)
    }
}

/// A fixed-capacity circular log of slot records.
pub struct Ring {
    pub slots: Vec<RingEntry>,
    pub write_head: u32,
}

impl Ring {
    pub open spec fn wf(self) -> bool {
        &&& 1 <= self.slots@.len() <= MAX_ENTRIES
        &&& (self.write_head as int) < self.slots@.len()
        &&& forall|i: int| 0 <= i < self.slots@.len() ==> (#[trigger] self.slots@[i]).wf()
    }

    /// The slot record at `i`, as a spec value.
    pub open spec fn spec_slot(self, i: int) -> RingEntry {
        self.slots@[i]
    }

    pub open spec fn spec_len(self) -> int {
        self.slots@.len() as int
    }

    /// The position after `i`, wrapping at the capacity.
    pub open spec fn spec_next(self, i: int) -> int {
        if i + 1 == self.spec_len() {
            0
        } else {
            i + 1
        }
    }

    /// The position before `i`, wrapping at the capacity.
    pub open spec fn spec_prev(self, i: int) -> int {
        if i == 0 {
            self.spec_len() - 1
        } else {
            i - 1
        }
    }

    /// Opens a fresh ring of `capacity` slots, all uninitialised.
    pub fn open(capacity: u32) -> (r: Ring)
        requires
            1 <= capacity <= MAX_ENTRIES,
        ensures
            r.wf(),
            r.spec_len() == capacity,
            r.write_head == 0,
            forall|i: int| 0 <= i < capacity ==> r.spec_slot(i) == RingEntry::Uninitialized,
    {
        let mut slots: Vec<RingEntry> = Vec::new();
        let mut n: u32 = 0;
        while n < capacity
            invariant
                n <= capacity,
                slots@.len() == n,
                forall|i: int| 0 <= i < n ==> slots@[i] == RingEntry::Uninitialized,
            decreases capacity - n,
        {
            slots.push(RingEntry::Uninitialized);
            n = n + 1;
        }
        Ring { slots, write_head: 0 }
    }

    /// The number of slots.
    pub fn len(&self) -> (r: u32)
        requires
            self.wf(),
        ensures
            r == self.spec_len(),
    {
        self.slots.len() as u32
    }

    /// The next-to-write position.
    pub fn write_head(&self) -> (r: u32)
        ensures
            r == self.write_head,
    {
        self.write_head
    }

    /// The slot record at `index`, or `None` when `index` is out of range.
    pub fn get(&self, index: u32) -> (r: Option<RingEntry>)
        requires
            self.wf(),
        ensures
            index < self.spec_len() ==> r == Some(self.spec_slot(index as int)),
            index >= self.spec_len() ==> r is None,
    {
        if (index as usize) < self.slots.len() {
            Some(self.slots[index as usize])
        } else {
            None
        }
    }

    /// The slot after `index`, wrapping at the capacity.
    pub fn next_entry(&self, index: u32) -> (r: u32)
        requires
            self.wf(),
            index < self.spec_len(),
        ensures
            r == self.spec_next(index as int),
    {
        if index + 1 == self.slots.len() as u32 {
            0
        } else {
            index + 1
        }
    }

    /// The position the write head would take after `index`; identical to
    /// `next_entry`.
    pub fn next_head(&self, index: u32) -> (r: u32)
        requires
            self.wf(),
            index < self.spec_len(),
        ensures
            r == self.spec_next(index as int),
    {
        self.next_entry(index)
    }

    /// The slot before `index`, wrapping at the capacity.
    pub fn prev_entry(&self, index: u32) -> (r: u32)
        requires
            self.wf(),
            index < self.spec_len(),
        ensures
            r == self.spec_prev(index as int),
    {
        if index == 0 {
            self.slots.len() as u32 - 1
        } else {
            index - 1
        }
    }

    /// Writes the slot record at `index` (server side only; readers never
    /// write).
    pub(crate) fn set_slot(&mut self, index: u32, entry: RingEntry)
        requires
            old(self).wf(),
            index < old(self).spec_len(),
            entry.wf(),
        ensures
            final(self).wf(),
            final(self).spec_len() == old(self).spec_len(),
            final(self).write_head == old(self).write_head,
            final(self).slots@ == old(self).slots@.update(index as int, entry),
    {
        self.slots.set(index as usize, entry);
    }

    /// Advances the write head by one slot, wrapping at the capacity.
    pub(crate) fn advance_head(&mut self)
        requires
            old(self).wf(),
        ensures
            final(self).wf(),
            final(self).slots == old(self).slots,
            final(self).write_head == old(self).spec_next(old(self).write_head as int),
    {
        self.write_head = self.next_entry(self.write_head);
    }
}

} // verus!
