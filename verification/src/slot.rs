//! Ownership cells for simulated entities.
//!
//! A slot is the sole owner of one entity. While the update machinery works
//! on the entity, the slot is `Taken`; outside of an in-progress update phase
//! every listed slot is `Present`. A despawned slot becomes `Vacant` and is
//! never occupied again under the same generation stamp, so stale handles
//! can always be recognised.

use vstd::prelude::*;

verus! {

/// Stable identity of a slot: its arena index together with the generation
/// stamp the slot was created with. Two handles denote the same slot exactly
/// when their identities are equal.
#[derive(Clone, Copy, PartialEq, Eq, Structural, Debug, Hash)]
pub struct SlotId {
    pub index: usize,
    pub generation: u64,
}

/// Occupancy of a slot.
pub enum SlotCell<T> {
    /// The slot was despawned (or never filled); the identity will never be
    /// reused for another entity.
    Vacant,
    /// The slot owns its entity.
    Present(T),
    /// The entity is checked out for exclusive access mid-phase.
    Taken,
}

/// One arena cell: a generation stamp plus the owned entity (if any).
pub struct EntitySlot<T> {
    pub generation: u64,
    pub cell: SlotCell<T>,
}

} // verus!
