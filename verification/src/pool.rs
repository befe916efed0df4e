//! The entity arena: named layers are kept elsewhere; a pool knows layers
//! only by position. Each layer is an ordered sequence of arena indices, and
//! the arena owns every entity of the pool. The pool is the sole strong
//! owner: everything else refers to slots through `SlotId`-based handles.

use vstd::prelude::*;

use crate::refs::{PersistentRefPromotionResult, RefResolution};
use crate::slot::{EntitySlot, SlotCell, SlotId};

verus! {

/// Layered arena of entity slots.
pub struct Pool<T> {
    /// Arena, indexed by `SlotId::index`. Entries are never reused for a new
    /// entity: a despawned entry stays `Vacant` until the whole arena is
    /// dropped, so stale identities are always recognised.
    pub slots: Vec<EntitySlot<T>>,
    /// Per layer, in order, the arena indices of the slots it holds.
    pub layers: Vec<Vec<usize>>,
    /// Next unused generation stamp; strictly above every stamp in the arena.
    pub next_generation: u64,
}

impl<T> Pool<T> {
    /// The sequence of arena indices of layer `l`.
    pub open spec fn layer_at(self, l: int) -> Seq<usize> {
        self.layers@[l]@
    }

    pub open spec fn num_layers(self) -> int {
        self.layers@.len() as int
    }

    pub open spec fn arena_len(self) -> int {
        self.slots@.len() as int
    }

    /// Arena index `i` appears in some layer.
    pub open spec fn listed(self, i: int) -> bool {
        exists|l: int, k: int|
            0 <= l < self.num_layers() && 0 <= k < self.layer_at(l).len()
                && self.layer_at(l)[k] == i
    }

    /// Every layer entry points at a non-vacant arena slot.
    pub open spec fn layers_in_bounds(self) -> bool {
        forall|l: int, k: int| #![trigger self.layer_at(l)[k]]
            0 <= l < self.num_layers() && 0 <= k < self.layer_at(l).len()
                ==> self.layer_at(l)[k] < self.arena_len()
                    && !(self.slots@[self.layer_at(l)[k] as int].cell is Vacant)
    }

    /// No arena slot is held by two layer positions.
    pub open spec fn layers_disjoint(self) -> bool {
        forall|l1: int, k1: int, l2: int, k2: int|
            #![trigger self.layer_at(l1)[k1], self.layer_at(l2)[k2]]
            0 <= l1 < self.num_layers() && 0 <= k1 < self.layer_at(l1).len()
                && 0 <= l2 < self.num_layers() && 0 <= k2 < self.layer_at(l2).len()
                && (l1 != l2 || k1 != k2)
                ==> self.layer_at(l1)[k1] != self.layer_at(l2)[k2]
    }

    /// Every non-vacant arena slot is held by some layer position.
    pub open spec fn occupied_listed(self) -> bool {
        forall|i: int|
            0 <= i < self.arena_len() && !((#[trigger] self.slots@[i]).cell is Vacant)
                ==> self.listed(i)
    }

    /// Every stamp in the arena is below the next stamp to hand out.
    pub open spec fn generations_bounded(self) -> bool {
        forall|i: int|
            0 <= i < self.arena_len()
                ==> (#[trigger] self.slots@[i]).generation < self.next_generation
    }

    /// Structural well-formedness, maintained by every operation.
    pub open spec fn wf(self) -> bool {
        &&& self.layers_in_bounds()
        &&& self.layers_disjoint()
        &&& self.occupied_listed()
        &&& self.generations_bounded()
    }

    /// Steady state: no entity is checked out. Holds at every point outside
    /// of an in-progress update phase.
    pub open spec fn steady(self) -> bool {
        forall|i: int|
            0 <= i < self.arena_len() ==> !((#[trigger] self.slots@[i]).cell is Taken)
    }

    /// The identity denotes a slot of the current arena under its current
    /// generation stamp, and the slot was not despawned.
    pub open spec fn id_valid(self, id: SlotId) -> bool {
        &&& (id.index as int) < self.arena_len()
        &&& self.slots@[id.index as int].generation == id.generation
        &&& !(self.slots@[id.index as int].cell is Vacant)
    }

    /// The identity denotes a slot that presently owns its entity.
    pub open spec fn id_live(self, id: SlotId) -> bool {
        self.id_valid(id) && self.slots@[id.index as int].cell is Present
    }

    /// The identity denotes a slot whose entity is checked out.
    pub open spec fn id_taken(self, id: SlotId) -> bool {
        self.id_valid(id) && self.slots@[id.index as int].cell is Taken
    }

    /// The entity owned by arena slot `i` (meaningful when `Present`).
    pub open spec fn object_at(self, i: int) -> T {
        self.slots@[i].cell->Present_0
    }

    /// The identity of the slot at position `k` of layer `l`.
    pub open spec fn slot_of(self, l: int, k: int) -> SlotId {
        SlotId {
            index: self.layer_at(l)[k],
            generation: self.slots@[self.layer_at(l)[k] as int].generation,
        }
    }

    /// The entities of layer `l`, in order (meaningful in steady state).
    pub open spec fn layer_objects(self, l: int) -> Seq<T> {
        self.layer_at(l).map_values(|i: usize| self.object_at(i as int))
    }

    /// An empty pool with `num_layers` empty layers.
    pub fn new(num_layers: usize) -> (r: Self)
        ensures
            r.wf(),
            r.steady(),
            r.arena_len() == 0,
            r.num_layers() == num_layers,
            forall|l: int| 0 <= l < num_layers ==> (#[trigger] r.layer_at(l)).len() == 0,
            r.next_generation == 0,
    {
        let mut layers: Vec<Vec<usize>> = Vec::new();
        let mut n: usize = 0;
        while n < num_layers
            invariant
                n <= num_layers,
                layers@.len() == n,
                forall|l: int| 0 <= l < n ==> (#[trigger] layers@[l])@.len() == 0,
            decreases num_layers - n,
        {
            layers.push(Vec::new());
            n = n + 1;
        }
        Pool { slots: Vec::new(), layers, next_generation: 0 }
    }

    /// Appends a fresh slot owning `obj` to layer `layer` and returns its
    /// identity. The stamp handed out is fresh: no handle created earlier
    /// for this pool can denote the new slot.
    pub fn spawn(&mut self, layer: usize, obj: T) -> (id: SlotId)
        requires
            old(self).wf(),
            layer < old(self).num_layers(),
            old(self).next_generation < u64::MAX,
        ensures
            final(self).wf(),
            id.index == old(self).arena_len(),
            id.generation == old(self).next_generation,
            final(self).slots@ == old(self).slots@.push(
                EntitySlot { generation: old(self).next_generation, cell: SlotCell::Present(obj) },
            ),
            final(self).num_layers() == old(self).num_layers(),
            final(self).layer_at(layer as int) == old(self).layer_at(layer as int).push(id.index),
            forall|l: int|
                0 <= l < final(self).num_layers() && l != layer
                    ==> #[trigger] final(self).layer_at(l) == old(self).layer_at(l),
            final(self).next_generation == old(self).next_generation + 1,
            old(self).steady() ==> final(self).steady(),
            final(self).id_live(id),
    {
        let index = self.slots.len();
        let generation = self.next_generation;
        self.slots.push(EntitySlot { generation, cell: SlotCell::Present(obj) });
        self.layers[layer].push(index);
        self.next_generation = generation + 1;
        let id = SlotId { index, generation };
        proof {
            let new = *self;
            let prev = *old(self);
            assert forall|l: int, k: int|
                0 <= l < new.num_layers() && 0 <= k < new.layer_at(l).len() implies
                new.layer_at(l)[k] < new.arena_len()
                    && !(new.slots@[new.layer_at(l)[k] as int].cell is Vacant) by {
                if l == layer && k == new.layer_at(l).len() - 1 {
                } else {
                    assert(new.layer_at(l)[k] == prev.layer_at(l)[k]);
                }
            }
            assert forall|l1: int, k1: int, l2: int, k2: int|
                0 <= l1 < new.num_layers() && 0 <= k1 < new.layer_at(l1).len()
                    && 0 <= l2 < new.num_layers() && 0 <= k2 < new.layer_at(l2).len()
                    && (l1 != l2 || k1 != k2) implies
                new.layer_at(l1)[k1] != new.layer_at(l2)[k2] by {
                let last = (layer as int, new.layer_at(layer as int).len() - 1);
                if (l1, k1) != last && (l2, k2) != last {
                    assert(new.layer_at(l1)[k1] == prev.layer_at(l1)[k1]);
                    assert(new.layer_at(l2)[k2] == prev.layer_at(l2)[k2]);
                    assert(prev.layer_at(l1)[k1] < prev.arena_len());
                } else if (l1, k1) == last && (l2, k2) != last {
                    assert(new.layer_at(l2)[k2] == prev.layer_at(l2)[k2]);
                    assert(prev.layer_at(l2)[k2] < prev.arena_len());
                } else if (l1, k1) != last && (l2, k2) == last {
                    assert(new.layer_at(l1)[k1] == prev.layer_at(l1)[k1]);
                    assert(prev.layer_at(l1)[k1] < prev.arena_len());
                }
            }
            assert forall|i: int|
                0 <= i < new.arena_len() && !((#[trigger] new.slots@[i]).cell is Vacant) implies
                new.listed(i) by {
                if i == new.arena_len() - 1 {
                    let l = layer as int;
                    let k = new.layer_at(l).len() - 1;
                    assert(new.layer_at(l)[k] == i);
                } else {
                    assert(prev.listed(i));
                    let (l, k): (int, int) = choose|l: int, k: int|
                        0 <= l < prev.num_layers() && 0 <= k < prev.layer_at(l).len()
                            && prev.layer_at(l)[k] == i;
                    assert(new.layer_at(l)[k] == i);
                }
            }
        }
        id
    }

    /// Checks the entity out of arena slot `index` for exclusive access.
    /// Taking an already-taken slot is a logic error and is excluded here;
    /// resolution through a handle reports `Taken` instead (see `take`).
    pub fn take_at(&mut self, index: usize) -> (obj: T)
        requires
            index < old(self).arena_len(),
            old(self).slots@[index as int].cell is Present,
        ensures
            obj == old(self).object_at(index as int),
            final(self).slots@ == old(self).slots@.update(
                index as int,
                EntitySlot {
                    generation: old(self).slots@[index as int].generation,
                    cell: SlotCell::Taken,
                },
            ),
            final(self).layers == old(self).layers,
            final(self).next_generation == old(self).next_generation,
            old(self).wf() ==> final(self).wf(),
    {
        let generation = self.slots[index].generation;
        let mut tmp = EntitySlot { generation, cell: SlotCell::Taken };
        vstd::pervasive::VecAdditionalExecFns::set_and_swap(&mut self.slots, index, &mut tmp);
        proof {
            lemma_cell_swap_preserves_wf(*old(self), *self, index as int);
        }
        match tmp.cell {
            SlotCell::Present(obj) => obj,
            _ => vstd::pervasive::unreached(),
        }
    }

    /// Returns a checked-out entity to arena slot `index`. Restoring into an
    /// occupied or vacant slot is a logic error and is excluded here.
    pub fn restore_at(&mut self, index: usize, obj: T)
        requires
            index < old(self).arena_len(),
            old(self).slots@[index as int].cell is Taken,
        ensures
            final(self).slots@ == old(self).slots@.update(
                index as int,
                EntitySlot {
                    generation: old(self).slots@[index as int].generation,
                    cell: SlotCell::Present(obj),
                },
            ),
            final(self).layers == old(self).layers,
            final(self).next_generation == old(self).next_generation,
            old(self).wf() ==> final(self).wf(),
    {
        let generation = self.slots[index].generation;
        let mut tmp = EntitySlot { generation, cell: SlotCell::Present(obj) };
        vstd::pervasive::VecAdditionalExecFns::set_and_swap(&mut self.slots, index, &mut tmp);
        proof {
            lemma_cell_swap_preserves_wf(*old(self), *self, index as int);
        }
    }

    /// Resolves a slot identity for shared read access. Total: a dangling
    /// identity reports `Despawned`, a checked-out slot reports `Taken`
    /// (immediately — there is nothing to block on), and a live slot grants
    /// read access to the entity.
    pub fn resolve(&self, id: SlotId) -> (r: RefResolution<'_, T>)
        ensures
            !self.id_valid(id) ==> r is Despawned,
            self.id_taken(id) ==> r is Taken,
            self.id_live(id) ==> r is Alive && *r->Alive_0 == self.object_at(id.index as int),
    {
        if id.index >= self.slots.len() {
            return RefResolution::Despawned;
        }
        let slot = &self.slots[id.index];
        if slot.generation != id.generation {
            return RefResolution::Despawned;
        }
        match &slot.cell {
            SlotCell::Vacant => RefResolution::Despawned,
            SlotCell::Taken => RefResolution::Taken,
            SlotCell::Present(t) => RefResolution::Alive(t),
        }
    }

    /// Promotes a slot identity to exclusive ownership of the entity. On
    /// `Alive` the slot becomes `Taken` and the caller must give the entity
    /// back through `restore` before the phase step ends; otherwise the pool
    /// is unchanged.
    pub fn take(&mut self, id: SlotId) -> (r: PersistentRefPromotionResult<T>)
        ensures
            !old(self).id_valid(id) ==> r is Despawned && *final(self) == *old(self),
            old(self).id_taken(id) ==> r is Taken && *final(self) == *old(self),
            old(self).id_live(id) ==> {
                &&& r is Alive
                &&& r->Alive_0 == old(self).object_at(id.index as int)
                &&& final(self).slots@ == old(self).slots@.update(
                    id.index as int,
                    EntitySlot { generation: id.generation, cell: SlotCell::Taken },
                )
                &&& final(self).layers == old(self).layers
                &&& final(self).next_generation == old(self).next_generation
            },
            old(self).wf() ==> final(self).wf(),
    {
        if id.index >= self.slots.len() {
            return PersistentRefPromotionResult::Despawned;
        }
        let live = {
            let slot = &self.slots[id.index];
            if slot.generation != id.generation {
                false
            } else {
                match &slot.cell {
                    SlotCell::Vacant => false,
                    SlotCell::Taken => {
                        return PersistentRefPromotionResult::Taken;
                    },
                    SlotCell::Present(_) => true,
                }
            }
        };
        if !live {
            return PersistentRefPromotionResult::Despawned;
        }
        let obj = self.take_at(id.index);
        PersistentRefPromotionResult::Alive(obj)
    }

    /// Gives an entity back to the slot it was promoted from.
    pub fn restore(&mut self, id: SlotId, obj: T)
        requires
            old(self).id_taken(id),
        ensures
            final(self).slots@ == old(self).slots@.update(
                id.index as int,
                EntitySlot { generation: id.generation, cell: SlotCell::Present(obj) },
            ),
            final(self).layers == old(self).layers,
            final(self).next_generation == old(self).next_generation,
            final(self).id_live(id),
            old(self).wf() ==> final(self).wf(),
    {
        self.restore_at(id.index, obj);
    }

    /// Removes position `k` of layer `l` from the pool: the slot is vacated
    /// (the entity, if any, is dropped) and its identity is never reused.
    pub fn despawn_at(&mut self, l: usize, k: usize)
        requires
            old(self).wf(),
            l < old(self).num_layers(),
            k < old(self).layer_at(l as int).len(),
        ensures
            final(self).wf(),
            final(self).slots@ == old(self).slots@.update(
                old(self).layer_at(l as int)[k as int] as int,
                EntitySlot {
                    generation: old(self).slots@[old(self).layer_at(l as int)[k as int] as int].generation,
                    cell: SlotCell::Vacant,
                },
            ),
            final(self).num_layers() == old(self).num_layers(),
            final(self).layer_at(l as int) == old(self).layer_at(l as int).remove(k as int),
            forall|l2: int|
                0 <= l2 < final(self).num_layers() && l2 != l
                    ==> #[trigger] final(self).layer_at(l2) == old(self).layer_at(l2),
            final(self).next_generation == old(self).next_generation,
            old(self).steady() ==> final(self).steady(),
    {
        let index = self.layers[l][k];
        let generation = self.slots[index].generation;
        let mut tmp = EntitySlot { generation, cell: SlotCell::Vacant };
        vstd::pervasive::VecAdditionalExecFns::set_and_swap(&mut self.slots, index, &mut tmp);
        self.layers[l].remove(k);
        proof {
            let new = *self;
            let prev = *old(self);
            let li = l as int;
            let ki = k as int;
            let vi = prev.layer_at(li)[ki] as int;
            assert forall|l2: int, k2: int|
                0 <= l2 < new.num_layers() && 0 <= k2 < new.layer_at(l2).len() implies
                new.layer_at(l2)[k2] < new.arena_len()
                    && !(new.slots@[new.layer_at(l2)[k2] as int].cell is Vacant) by {
                let ok2 = if l2 == li && k2 >= ki { k2 + 1 } else { k2 };
                assert(new.layer_at(l2)[k2] == prev.layer_at(l2)[ok2]);
                assert(prev.layer_at(l2)[ok2] != vi);
            }
            assert forall|l1: int, k1: int, l2: int, k2: int|
                0 <= l1 < new.num_layers() && 0 <= k1 < new.layer_at(l1).len()
                    && 0 <= l2 < new.num_layers() && 0 <= k2 < new.layer_at(l2).len()
                    && (l1 != l2 || k1 != k2) implies
                new.layer_at(l1)[k1] != new.layer_at(l2)[k2] by {
                let ok1 = if l1 == li && k1 >= ki { k1 + 1 } else { k1 };
                let ok2 = if l2 == li && k2 >= ki { k2 + 1 } else { k2 };
                assert(new.layer_at(l1)[k1] == prev.layer_at(l1)[ok1]);
                assert(new.layer_at(l2)[k2] == prev.layer_at(l2)[ok2]);
            }
            assert forall|i: int|
                0 <= i < new.arena_len() && !((#[trigger] new.slots@[i]).cell is Vacant) implies
                new.listed(i) by {
                assert(prev.listed(i));
                let (l2, k2): (int, int) = choose|l2: int, k2: int|
                    0 <= l2 < prev.num_layers() && 0 <= k2 < prev.layer_at(l2).len()
                        && prev.layer_at(l2)[k2] == i;
                if l2 == li && k2 == ki {
                    assert(i == vi);
                    assert(false);
                } else if l2 == li && k2 > ki {
                    assert(new.layer_at(l2)[k2 - 1] == i);
                } else {
                    assert(new.layer_at(l2)[k2] == i);
                }
            }
        }
    }

    /// Drops every slot of every layer. Handed-out identities all become
    /// dangling; the generation counter is kept, so identities of entities
    /// spawned later never collide with old ones.
    pub fn clear(&mut self)
        ensures
            final(self).wf(),
            final(self).steady(),
            final(self).arena_len() == 0,
            final(self).num_layers() == old(self).num_layers(),
            forall|l: int|
                0 <= l < final(self).num_layers() ==> (#[trigger] final(self).layer_at(l)).len() == 0,
            final(self).next_generation == old(self).next_generation,
    {
        self.slots.clear();
        let mut l: usize = 0;
        let n = self.layers.len();
        while l < n
            invariant
                l <= n,
                n == self.layers@.len(),
                self.slots@.len() == 0,
                self.next_generation == old(self).next_generation,
                forall|l2: int| 0 <= l2 < l ==> (#[trigger] self.layers@[l2])@.len() == 0,
            decreases n - l,
        {
            self.layers[l].clear();
            l = l + 1;
        }
    }

    /// The identity of the slot at position `k` of layer `l`.
    pub fn handle_at(&self, l: usize, k: usize) -> (id: SlotId)
        requires
            self.wf(),
            l < self.num_layers(),
            k < self.layer_at(l as int).len(),
        ensures
            id == self.slot_of(l as int, k as int),
    {
        let index = self.layers[l][k];
        SlotId { index, generation: self.slots[index].generation }
    }

    /// Read access to the entity at position `k` of layer `l` (meaningful in
    /// steady state, when every listed slot holds its entity).
    pub fn object_ref_at(&self, l: usize, k: usize) -> (t: &T)
        requires
            self.wf(),
            l < self.num_layers(),
            k < self.layer_at(l as int).len(),
            self.slots@[self.layer_at(l as int)[k as int] as int].cell is Present,
        ensures
            *t == self.object_at(self.layer_at(l as int)[k as int] as int),
    {
        let index = self.layers[l][k];
        match &self.slots[index].cell {
            SlotCell::Present(t) => t,
            _ => vstd::pervasive::unreached(),
        }
    }

    /// Number of slots in layer `l`.
    pub fn layer_len(&self, l: usize) -> (n: usize)
        requires
            l < self.num_layers(),
        ensures
            n == self.layer_at(l as int).len(),
    {
        self.layers[l].len()
    }
}

/// Changing only the occupancy of one cell — between `Present` and `Taken` —
/// touches no layer and no generation, so well-formedness carries over.
proof fn lemma_cell_swap_preserves_wf<T>(prev: Pool<T>, new: Pool<T>, i: int)
    requires
        0 <= i < prev.arena_len(),
        !(prev.slots@[i].cell is Vacant),
        !(new.slots@[i].cell is Vacant),
        new.slots@ == prev.slots@.update(
            i,
            EntitySlot { generation: prev.slots@[i].generation, cell: new.slots@[i].cell },
        ),
        new.layers == prev.layers,
        new.next_generation == prev.next_generation,
    ensures
        prev.wf() ==> new.wf(),
{
    if prev.wf() {
        assert forall|l: int, k: int|
            0 <= l < new.num_layers() && 0 <= k < new.layer_at(l).len() implies
            new.layer_at(l)[k] < new.arena_len()
                && !(new.slots@[new.layer_at(l)[k] as int].cell is Vacant) by {
            assert(new.layer_at(l)[k] == prev.layer_at(l)[k]);
            assert(prev.layer_at(l)[k] < prev.arena_len());
        }
        assert forall|l1: int, k1: int, l2: int, k2: int|
            0 <= l1 < new.num_layers() && 0 <= k1 < new.layer_at(l1).len()
                && 0 <= l2 < new.num_layers() && 0 <= k2 < new.layer_at(l2).len()
                && (l1 != l2 || k1 != k2) implies
            new.layer_at(l1)[k1] != new.layer_at(l2)[k2] by {
            assert(new.layer_at(l1)[k1] == prev.layer_at(l1)[k1]);
            assert(new.layer_at(l2)[k2] == prev.layer_at(l2)[k2]);
        }
        assert forall|j: int|
            0 <= j < new.arena_len() implies
            (#[trigger] new.slots@[j]).generation < new.next_generation by {
            assert(prev.slots@[j].generation < prev.next_generation);
        }
        assert forall|j: int|
            0 <= j < new.arena_len() && !((#[trigger] new.slots@[j]).cell is Vacant) implies
            new.listed(j) by {
            assert(!(prev.slots@[j].cell is Vacant));
            assert(prev.listed(j));
            let (l, k): (int, int) = choose|l: int, k: int|
                0 <= l < prev.num_layers() && 0 <= k < prev.layer_at(l).len()
                    && prev.layer_at(l)[k] == j;
            assert(new.layer_at(l)[k] == j);
        }
    }
}

} // verus!
