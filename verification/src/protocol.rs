//! The wire protocol version, ring kinds, and the composite-id encoding.
//!
//! An entry's user-visible identifier packs the ring kind into the high
//! 32 bits and the slot index into the low 32 bits:
//! `id = (ring_kind << 32) | slot_index`.

use vstd::prelude::*;

use crate::error::IdNotFoundError;

verus! {

/// The protocol version byte; a mismatch at the handshake is a hard error on
/// both sides.
pub const VERSION: u8 = 1;

/// Which of the two circular logs an entry lives in.
#[derive(Clone, Copy, Debug, PartialEq, Eq, Structural, Hash)]
pub enum RingKind {
    Main,
    Favorites,
}

impl RingKind {
    /// The numeric value stored in the high half of a composite id.
    pub open spec fn spec_value(self) -> u64 {
        match self {
            RingKind::Main => 0,
            RingKind::Favorites => 1,
        }
    }

    /// Executable form of `spec_value`.
    pub fn value(self) -> (r: u64)
        ensures
            r == self.spec_value(),
    {
        match self {
            RingKind::Main => 0,
            RingKind::Favorites => 1,
        }
    }
}

/// The composite id of the slot `index` in the ring `kind`.
pub open spec fn spec_composite_id(kind: RingKind, index: u32) -> u64 {
    (kind.spec_value() * 0x1_0000_0000 + index) as u64
}

/// The decoding of a composite id: `None` when the high half names no ring.
pub open spec fn spec_decompose_id(id: u64) -> Option<(RingKind, u32)> {
    let high = id / 0x1_0000_0000;
    let low = (id % 0x1_0000_0000) as u32;
    if high == 0 {
        Some((RingKind::Main, low))
    } else if high == 1 {
        Some((RingKind::Favorites, low))
    } else {
        None
    }
}

/// Composing an id and decomposing it returns the same ring and slot.
pub proof fn lemma_compose_decompose(kind: RingKind, index: u32)
    ensures
        spec_decompose_id(spec_composite_id(kind, index)) == Some((kind, index)),
{
    let id = spec_composite_id(kind, index);
    assert(id / 0x1_0000_0000 == kind.spec_value() && id % 0x1_0000_0000 == index) by {
        vstd::arithmetic::div_mod::lemma_fundamental_div_mod_converse(
            id as int,
            0x1_0000_0000,
            kind.spec_value() as int,
            index as int,
        );
    }
}

/// An id that decodes to (kind, index) is the composite id of (kind, index):
/// decoding is injective.
pub proof fn lemma_decompose_unique(id: u64)
    ensures
        spec_decompose_id(id) matches Some((k, i)) ==> id == spec_composite_id(k, i),
{
    vstd::arithmetic::div_mod::lemma_fundamental_div_mod(id as int, 0x1_0000_0000);
}

/// Distinct (ring, slot) pairs have distinct composite ids.
pub proof fn lemma_composite_injective(k1: RingKind, i1: u32, k2: RingKind, i2: u32)
    ensures
        spec_composite_id(k1, i1) == spec_composite_id(k2, i2) ==> (k1 == k2 && i1 == i2),
{
    lemma_compose_decompose(k1, i1);
    lemma_compose_decompose(k2, i2);
}

/// Builds the composite id `(kind << 32) | index`.
pub fn composite_id(kind: RingKind, index: u32) -> (r: u64)
    ensures
        r == spec_composite_id(kind, index),
{
    kind.value() * 0x1_0000_0000 + index as u64
}

/// Splits a composite id into its ring kind and slot index; ids whose high
/// half is neither ring fail with `IdNotFoundError::Ring`.
pub fn decompose_id(id: u64) -> (r: Result<(RingKind, u32), IdNotFoundError>)
    ensures
        match r {
            Ok((kind, index)) => spec_decompose_id(id) == Some((kind, index)),
            Err(e) => spec_decompose_id(id) is None && e == IdNotFoundError::Ring(
                (id / 0x1_0000_0000) as u32,
            ),
        },
{
    let high = id / 0x1_0000_0000;
    let low = (id % 0x1_0000_0000) as u32;
    if high == 0 {
        Ok((RingKind::Main, low))
    } else if high == 1 {
        Ok((RingKind::Favorites, low))
    } else {
        Err(IdNotFoundError::Ring(high as u32))
    }
}

} // verus!
