//! Weak references between entities.
//!
//! A reference holds the identity of a slot but never owns the entity; it is
//! resolved against the registry that issued it. Resolution distinguishes
//! three states: the slot is alive, the slot is gone (despawned), or the
//! slot exists but its entity is currently checked out (`Taken`) — the
//! canonical case being a self-reference resolved during the holder's own
//! update. `Taken` is transient and must never be confused with despawn.

use vstd::prelude::*;

use crate::pool::Pool;
use crate::slot::{EntitySlot, SlotCell, SlotId};

verus! {

/// A weak, possibly-dangling reference to a slot of the persistent pool.
#[derive(Clone, Copy, PartialEq, Eq, Structural, Debug)]
pub struct PersistentRef {
    pub id: SlotId,
}

/// A weak, possibly-dangling reference to a slot of the volatile pool.
#[derive(Clone, Copy, PartialEq, Eq, Structural, Debug)]
pub struct VolatileRef {
    pub id: SlotId,
}

impl PersistentRef {
    /// Resolves for shared read access against the persistent pool that
    /// issued this reference.
    pub fn resolve<'a, P>(&self, pool: &'a Pool<P>) -> (r: RefResolution<'a, P>)
        ensures
            !pool.id_valid(self.id) ==> r is Despawned,
            pool.id_taken(self.id) ==> r is Taken,
            pool.id_live(self.id) ==> r is Alive
                && *r->Alive_0 == pool.object_at(self.id.index as int),
    {
        pool.resolve(self.id)
    }

    /// Promotes to exclusive ownership of the entity. If `Alive` is
    /// returned, it must be followed by a corresponding call to `set`.
    pub fn get<P>(&self, pool: &mut Pool<P>) -> (r: PersistentRefPromotionResult<P>)
        ensures
            !old(pool).id_valid(self.id) ==> r is Despawned && *final(pool) == *old(pool),
            old(pool).id_taken(self.id) ==> r is Taken && *final(pool) == *old(pool),
            old(pool).id_live(self.id) ==> {
                &&& r is Alive
                &&& r->Alive_0 == old(pool).object_at(self.id.index as int)
                &&& final(pool).slots@ == old(pool).slots@.update(
                    self.id.index as int,
                    EntitySlot { generation: self.id.generation, cell: SlotCell::Taken },
                )
                &&& final(pool).layers == old(pool).layers
                &&& final(pool).next_generation == old(pool).next_generation
            },
            old(pool).wf() ==> final(pool).wf(),
    {
        pool.take(self.id)
    }

    /// Returns a promoted entity back to its slot.
    pub fn set<P>(&self, pool: &mut Pool<P>, obj: P)
        requires
            old(pool).id_taken(self.id),
        ensures
            final(pool).slots@ == old(pool).slots@.update(
                self.id.index as int,
                EntitySlot { generation: self.id.generation, cell: SlotCell::Present(obj) },
            ),
            final(pool).layers == old(pool).layers,
            final(pool).next_generation == old(pool).next_generation,
            final(pool).id_live(self.id),
            old(pool).wf() ==> final(pool).wf(),
    {
        pool.restore(self.id, obj)
    }
}

/// A saveable weak reference between two persistent entities.
#[derive(Clone, Copy, PartialEq, Eq, Structural, Debug)]
pub enum MaybePersistentRef {
    /// The reference was never set.
    Unset,
    /// On save this reference pointed to something that is no longer part of
    /// the game; it stays in this state after a load.
    Despawned,
    /// The reference points at a slot (which may itself be gone by now).
    Ref(PersistentRef),
}

impl Default for MaybePersistentRef {
    /// An unset reference is the default state.
    fn default() -> (r: Self)
        ensures
            r is Unset,
    {
        MaybePersistentRef::Unset
    }
}

/// Outcome of resolving a weak reference for shared read access.
pub enum RefResolution<'a, T> {
    /// The slot is alive; read access to the entity is granted.
    Alive(&'a T),
    /// The slot no longer exists (or was never this incarnation).
    Despawned,
    /// The slot exists but its entity is checked out mid-phase; callers must
    /// treat this as "hold position" for the frame, never as despawn.
    Taken,
}

/// Outcome of promoting a weak reference to exclusive ownership of the
/// entity. `Alive` carries the entity itself and the obligation to restore
/// it to the same slot before the phase step ends.
pub enum PersistentRefPromotionResult<T> {
    /// The slot no longer exists; typically handled like
    /// `MaybePersistentRef::Despawned`.
    Despawned,
    /// Someone else holds the entity, most likely a self-reference resolved
    /// during the holder's own update.
    Taken,
    /// Exclusive ownership of the entity, to be given back via `restore`.
    Alive(T),
}

} // verus!
