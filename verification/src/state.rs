//! The game state: the registry that owns every live entity.
//!
//! Two pools share one fixed set of layer names: the persistent pool (saved
//! to and restored from a document) and the volatile pool (particles and the
//! like, never saved). The layer-name set is fixed at construction; spawning
//! into an unregistered layer is a programming error and is excluded by
//! precondition, exactly like registering duplicate names.

use vstd::prelude::*;

use crate::pool::Pool;
use crate::refs::{PersistentRef, VolatileRef};

verus! {

/// Registry of all live entities, layered for draw order.
pub struct GameState<P, V> {
    /// Render order of layers; fixed at construction, duplicate-free.
    pub layer_names: Vec<String>,
    /// Entities that are part of the save file.
    pub persistent: Pool<P>,
    /// Entities that live only for the current session.
    pub volatile: Pool<V>,
}

/// The character sequences of a list of layer names.
pub open spec fn name_views(names: Seq<String>) -> Seq<Seq<char>> {
    names.map_values(|s: String| s@)
}

/// No two names are the same.
pub open spec fn names_distinct(names: Seq<String>) -> bool {
    forall|i: int, j: int|
        0 <= i < names.len() && 0 <= j < names.len() && i != j
            ==> (#[trigger] names[i])@ != (#[trigger] names[j])@
}

impl<P, V> GameState<P, V> {
    pub open spec fn names(self) -> Seq<Seq<char>> {
        name_views(self.layer_names@)
    }

    pub open spec fn num_layers(self) -> int {
        self.layer_names@.len() as int
    }

    /// Structural well-formedness of the whole state.
    pub open spec fn wf(self) -> bool {
        &&& names_distinct(self.layer_names@)
        &&& self.persistent.wf()
        &&& self.volatile.wf()
        &&& self.persistent.num_layers() == self.num_layers()
        &&& self.volatile.num_layers() == self.num_layers()
    }

    /// No entity of either pool is checked out.
    pub open spec fn steady(self) -> bool {
        self.persistent.steady() && self.volatile.steady()
    }

    pub open spec fn spec_has_layer(self, name: Seq<char>) -> bool {
        exists|l: int| 0 <= l < self.num_layers() && self.names()[l] == name
    }

    /// The index of the layer called `name` (meaningful when registered;
    /// unique because names are duplicate-free).
    pub open spec fn layer_index_of(self, name: Seq<char>) -> int {
        choose|l: int| 0 <= l < self.num_layers() && self.names()[l] == name
    }

    /// Creates a registry with the given render layers, all empty. The name
    /// list is the fixed layer set for the lifetime of the state; passing a
    /// duplicate name is a programming error and is excluded here.
    pub fn new(layer_names: Vec<String>) -> (r: Self)
        requires
            names_distinct(layer_names@),
        ensures
            r.wf(),
            r.steady(),
            r.layer_names == layer_names,
            r.persistent.arena_len() == 0,
            r.volatile.arena_len() == 0,
            forall|l: int|
                0 <= l < r.num_layers() ==> (#[trigger] r.persistent.layer_at(l)).len() == 0,
            forall|l: int|
                0 <= l < r.num_layers() ==> (#[trigger] r.volatile.layer_at(l)).len() == 0,
            r.persistent.next_generation == 0,
            r.volatile.next_generation == 0,
    {
        let n = layer_names.len();
        GameState { layer_names, persistent: Pool::new(n), volatile: Pool::new(n) }
    }

    /// Looks a layer name up, returning its index if it is registered.
    pub fn find_layer(&self, name: &str) -> (r: Option<usize>)
        ensures
            match r {
                Some(l) => (l as int) < self.num_layers() && self.names()[l as int] == name@
                    && (names_distinct(self.layer_names@)
                        ==> l as int == self.layer_index_of(name@)),
                None => !self.spec_has_layer(name@),
            },
    {
        let owned: String = name.to_owned();
        let n = self.layer_names.len();
        let mut l: usize = 0;
        while l < n
            invariant
                l <= n,
                n == self.layer_names@.len(),
                owned@ == name@,
                forall|j: int| 0 <= j < l ==> (#[trigger] self.layer_names@[j])@ != name@,
            decreases n - l,
        {
            if owned == self.layer_names[l] {
                proof {
                    assert(self.names()[l as int] == name@);
                    if names_distinct(self.layer_names@) {
                        assert(self.spec_has_layer(name@));
                        let l2 = self.layer_index_of(name@);
                        assert(0 <= l2 < self.num_layers() && self.names()[l2] == name@);
                        assert(self.layer_names@[l2]@ == name@);
                        assert(self.layer_names@[l as int]@ == name@);
                        assert(l2 == l as int);
                    }
                }
                return Some(l);
            }
            l = l + 1;
        }
        proof {
            assert forall|j: int| 0 <= j < self.num_layers() implies self.names()[j] != name@ by {
                assert(self.layer_names@[j]@ != name@);
            }
        }
        None
    }

    /// Whether `name` is one of the registered layer names.
    pub fn has_layer(&self, name: &str) -> (r: bool)
        ensures
            r == self.spec_has_layer(name@),
    {
        match self.find_layer(name) {
            Some(_) => true,
            None => false,
        }
    }

    /// Spawns a persistent entity at the back of the named layer and returns
    /// a weak reference to it. Spawning to an unregistered layer is a
    /// programming error and is excluded here.
    pub fn spawn_persistent(&mut self, e: P, layer: &str) -> (r: PersistentRef)
        requires
            old(self).wf(),
            old(self).spec_has_layer(layer@),
            old(self).persistent.next_generation < u64::MAX,
        ensures
            final(self).wf(),
            final(self).layer_names == old(self).layer_names,
            final(self).volatile == old(self).volatile,
            spawned_in_pool(old(self).persistent, final(self).persistent,
                old(self).layer_index_of(layer@), e, r.id),
            old(self).steady() ==> final(self).steady(),
    {
        let l = match self.find_layer(layer) {
            Some(l) => l,
            None => vstd::pervasive::unreached(),
        };
        let id = self.persistent.spawn(l, e);
        PersistentRef { id }
    }

    /// Spawns a volatile entity at the back of the named layer and returns a
    /// weak reference to it. Spawning to an unregistered layer is a
    /// programming error and is excluded here.
    pub fn spawn_volatile(&mut self, e: V, layer: &str) -> (r: VolatileRef)
        requires
            old(self).wf(),
            old(self).spec_has_layer(layer@),
            old(self).volatile.next_generation < u64::MAX,
        ensures
            final(self).wf(),
            final(self).layer_names == old(self).layer_names,
            final(self).persistent == old(self).persistent,
            spawned_in_pool(old(self).volatile, final(self).volatile,
                old(self).layer_index_of(layer@), e, r.id),
            old(self).steady() ==> final(self).steady(),
    {
        let l = match self.find_layer(layer) {
            Some(l) => l,
            None => vstd::pervasive::unreached(),
        };
        let id = self.volatile.spawn(l, e);
        VolatileRef { id }
    }

    /// Weak references to the slots of the named persistent layer, in order.
    pub fn get_persistents(&self, layer: &str) -> (r: Vec<PersistentRef>)
        requires
            self.wf(),
            self.spec_has_layer(layer@),
        ensures
            r@.len() == self.persistent.layer_at(self.layer_index_of(layer@)).len(),
            forall|k: int|
                0 <= k < r@.len()
                    ==> (#[trigger] r@[k]).id == self.persistent.slot_of(
                        self.layer_index_of(layer@), k),
    {
        let l = match self.find_layer(layer) {
            Some(l) => l,
            None => vstd::pervasive::unreached(),
        };
        let n = self.persistent.layer_len(l);
        let mut r: Vec<PersistentRef> = Vec::new();
        let mut k: usize = 0;
        while k < n
            invariant
                k <= n,
                self.wf(),
                (l as int) < self.persistent.num_layers(),
                n == self.persistent.layer_at(l as int).len(),
                r@.len() == k,
                forall|j: int|
                    0 <= j < k
                        ==> (#[trigger] r@[j]).id == self.persistent.slot_of(l as int, j),
            decreases n - k,
        {
            let id = self.persistent.handle_at(l, k);
            r.push(PersistentRef { id });
            k = k + 1;
        }
        r
    }

    /// Weak references to the slots of the named volatile layer, in order.
    pub fn get_volatiles(&self, layer: &str) -> (r: Vec<VolatileRef>)
        requires
            self.wf(),
            self.spec_has_layer(layer@),
        ensures
            r@.len() == self.volatile.layer_at(self.layer_index_of(layer@)).len(),
            forall|k: int|
                0 <= k < r@.len()
                    ==> (#[trigger] r@[k]).id == self.volatile.slot_of(
                        self.layer_index_of(layer@), k),
    {
        let l = match self.find_layer(layer) {
            Some(l) => l,
            None => vstd::pervasive::unreached(),
        };
        let n = self.volatile.layer_len(l);
        let mut r: Vec<VolatileRef> = Vec::new();
        let mut k: usize = 0;
        while k < n
            invariant
                k <= n,
                self.wf(),
                (l as int) < self.volatile.num_layers(),
                n == self.volatile.layer_at(l as int).len(),
                r@.len() == k,
                forall|j: int|
                    0 <= j < k
                        ==> (#[trigger] r@[j]).id == self.volatile.slot_of(l as int, j),
            decreases n - k,
        {
            let id = self.volatile.handle_at(l, k);
            r.push(VolatileRef { id });
            k = k + 1;
        }
        r
    }

    /// Drops every persistent entity; volatile entities are kept.
    pub fn clear_persistent(&mut self)
        ensures
            final(self).layer_names == old(self).layer_names,
            final(self).volatile == old(self).volatile,
            final(self).persistent.wf(),
            final(self).persistent.steady(),
            final(self).persistent.arena_len() == 0,
            final(self).persistent.num_layers() == old(self).persistent.num_layers(),
            forall|l: int|
                0 <= l < final(self).persistent.num_layers()
                    ==> (#[trigger] final(self).persistent.layer_at(l)).len() == 0,
            final(self).persistent.next_generation == old(self).persistent.next_generation,
            old(self).wf() ==> final(self).wf(),
    {
        self.persistent.clear();
    }

    /// Drops every entity of both pools.
    pub fn clear(&mut self)
        ensures
            final(self).layer_names == old(self).layer_names,
            final(self).persistent.wf(),
            final(self).persistent.steady(),
            final(self).persistent.arena_len() == 0,
            final(self).volatile.wf(),
            final(self).volatile.steady(),
            final(self).volatile.arena_len() == 0,
            final(self).persistent.num_layers() == old(self).persistent.num_layers(),
            final(self).volatile.num_layers() == old(self).volatile.num_layers(),
            final(self).persistent.next_generation == old(self).persistent.next_generation,
            final(self).volatile.next_generation == old(self).volatile.next_generation,
            old(self).wf() ==> final(self).wf(),
    {
        self.persistent.clear();
        self.volatile.clear();
    }
}

/// Relation between a pool before and after one spawn into layer `l`: a
/// fresh slot owning `obj` was appended to the arena and to layer `l`,
/// nothing else moved, and `id` is the new slot's identity.
pub open spec fn spawned_in_pool<T>(prev: Pool<T>, new: Pool<T>, l: int, obj: T, id: crate::slot::SlotId) -> bool {
    &&& id.index == prev.arena_len()
    &&& id.generation == prev.next_generation
    &&& new.slots@ == prev.slots@.push(
        crate::slot::EntitySlot {
            generation: prev.next_generation,
            cell: crate::slot::SlotCell::Present(obj),
        },
    )
    &&& new.num_layers() == prev.num_layers()
    &&& new.layer_at(l) == prev.layer_at(l).push(id.index)
    &&& forall|l2: int|
        0 <= l2 < new.num_layers() && l2 != l ==> #[trigger] new.layer_at(l2) == prev.layer_at(l2)
    &&& new.next_generation == prev.next_generation + 1
    &&& new.id_live(id)
}

} // verus!
