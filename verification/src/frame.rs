//! The per-frame update protocol.
//!
//! Each simulated frame runs four phases, each strictly completed over all
//! layers and all entity kinds before the next begins:
//!
//! 1. generate rates — every entity computes its pending change, reading the
//!    registry's current state; exclusive access only to itself;
//! 2. apply rates — every entity commits its pending change to itself;
//! 3. despawn check — every entity (in reverse layer order, for safe
//!    in-place removal) reports liveness and spawn requests; despawned slots
//!    are removed after their requests are collected;
//! 4. insertion — requested spawns are appended to their target layers, so a
//!    new entity never takes part in the frame that spawned it.
//!
//! Exclusive access always goes through take/restore on the entity's slot:
//! while an entity is being updated its own slot reads `Taken`, which is how
//! a self-reference resolved mid-update is told apart from a despawn.

use vstd::prelude::*;

use crate::entity::{LivelinessStatus, Persistent, Render, Volatile};
use crate::pool::Pool;
use crate::slot::{EntitySlot, SlotCell};
use crate::state::GameState;

verus! {

/// Why a frame could not complete. The registry stays well-formed and
/// steady; the failed insertion is abandoned.
#[derive(Clone, Copy, PartialEq, Eq, Structural, Debug)]
pub enum FrameError {
    /// An entity requested a spawn into a layer name that was never
    /// registered.
    UnknownSpawnLayer,
    /// The pool has no identity stamps left to hand out.
    Capacity,
}

/// Relation between a pool before and after a rate phase: the layer
/// structure, every generation stamp and every slot's vacancy are unchanged
/// — only the entities' own states may differ. In particular no entity
/// despawns and none is inserted during such a phase.
pub open spec fn phase_shape<T>(prev: Pool<T>, cur: Pool<T>) -> bool {
    &&& cur.layers == prev.layers
    &&& cur.next_generation == prev.next_generation
    &&& cur.slots@.len() == prev.slots@.len()
    &&& forall|i: int|
        0 <= i < prev.slots@.len()
            ==> (#[trigger] cur.slots@[i]).generation == prev.slots@[i].generation
    &&& forall|i: int|
        0 <= i < prev.slots@.len()
            ==> ((#[trigger] cur.slots@[i]).cell is Vacant <==> prev.slots@[i].cell is Vacant)
}

/// Taking an entity out of a present slot and restoring (a possibly updated)
/// one preserves the phase-shape relation and steadiness.
proof fn lemma_update_keeps_shape<T>(base: Pool<T>, prev: Pool<T>, cur: Pool<T>, i: int)
    requires
        phase_shape(base, prev),
        prev.steady(),
        0 <= i < prev.slots@.len(),
        prev.slots@[i].cell is Present,
        cur.slots@[i].cell is Present,
        cur.slots@ == prev.slots@.update(
            i,
            EntitySlot { generation: prev.slots@[i].generation, cell: cur.slots@[i].cell },
        ),
        cur.layers == prev.layers,
        cur.next_generation == prev.next_generation,
    ensures
        phase_shape(base, cur),
        cur.steady(),
{
    assert forall|j: int|
        0 <= j < base.slots@.len() implies
        (#[trigger] cur.slots@[j]).generation == base.slots@[j].generation
            && ((cur.slots@[j].cell is Vacant) <==> (base.slots@[j].cell is Vacant)) by {
        if j != i {
            assert(cur.slots@[j] == prev.slots@[j]);
        }
    }
    assert forall|j: int|
        0 <= j < cur.slots@.len() implies !((#[trigger] cur.slots@[j]).cell is Taken) by {
        if j != i {
            assert(cur.slots@[j] == prev.slots@[j]);
        }
    }
}

/// Survival predicate of a pool state: an arena index whose slot was not
/// vacated.
pub open spec fn alive_in<T>(p: Pool<T>) -> spec_fn(usize) -> bool {
    |i: usize| !(p.slots@[i as int].cell is Vacant)
}

/// Slot `i` was vacated by the despawn pass over layer `l`: it was listed
/// there, held its entity, and now reads `Vacant` under the same stamp.
pub open spec fn vacated_from<T>(prev: Pool<T>, cur: Pool<T>, l: int, i: int) -> bool {
    &&& prev.layer_at(l).contains(i as usize)
    &&& prev.slots@[i].cell is Present
    &&& cur.slots@[i] == EntitySlot {
        generation: prev.slots@[i].generation,
        cell: SlotCell::<T>::Vacant,
    }
}

/// Relation between a pool before and after the despawn phase: every slot is
/// either untouched or was vacated under its old stamp, and every layer
/// keeps exactly its surviving slots, in their old order. Nothing is
/// inserted in this phase — spawn requests wait for the insertion phase.
pub open spec fn despawn_shape<T>(prev: Pool<T>, cur: Pool<T>) -> bool {
    &&& cur.layers@.len() == prev.layers@.len()
    &&& cur.next_generation == prev.next_generation
    &&& cur.slots@.len() == prev.slots@.len()
    &&& forall|i: int|
        0 <= i < prev.slots@.len()
            ==> (#[trigger] cur.slots@[i]) == prev.slots@[i]
                || (prev.slots@[i].cell is Present && cur.slots@[i] == EntitySlot {
                    generation: prev.slots@[i].generation,
                    cell: SlotCell::<T>::Vacant,
                })
    &&& forall|l: int|
        0 <= l < prev.layers@.len()
            ==> #[trigger] cur.layer_at(l) == prev.layer_at(l).filter(alive_in(cur))
}

/// Filtering a singleton keeps or drops its one element.
proof fn lemma_filter_singleton<A>(x: A, pred: spec_fn(A) -> bool)
    ensures
        seq![x].filter(pred) == if pred(x) {
            seq![x]
        } else {
            Seq::<A>::empty()
        },
{
    reveal_with_fuel(Seq::filter, 2);
    let s = seq![x];
    assert(s.drop_last() =~= Seq::<A>::empty());
    if pred(x) {
        assert(s.filter(pred) =~= seq![x]);
    } else {
        assert(s.filter(pred) =~= Seq::<A>::empty());
    }
}

/// Two predicates that agree on every element of a sequence filter it to the
/// same thing.
proof fn lemma_filter_congruent<A>(s: Seq<A>, p1: spec_fn(A) -> bool, p2: spec_fn(A) -> bool)
    requires
        forall|j: int| 0 <= j < s.len() ==> p1(#[trigger] s[j]) == p2(s[j]),
    ensures
        s.filter(p1) == s.filter(p2),
    decreases s.len(),
{
    reveal(Seq::filter);
    if s.len() != 0 {
        assert(forall|j: int|
            0 <= j < s.drop_last().len() ==> p1(#[trigger] s.drop_last()[j]) == p2(
                s.drop_last()[j],
            ));
        lemma_filter_congruent(s.drop_last(), p1, p2);
        assert(p1(s.last()) == p2(s.last()));
    }
}

/// A pool with an empty arena has only empty layers.
proof fn lemma_empty_pool_layer_empty<T>(pool: Pool<T>, l: int)
    requires
        pool.wf(),
        0 <= l < pool.num_layers(),
        pool.arena_len() == 0,
    ensures
        pool.layer_at(l).len() == 0,
{
    if pool.layer_at(l).len() > 0 {
        assert(pool.layer_at(l)[0] < pool.arena_len());
    }
}

impl<P: Persistent<V>, V: Volatile<P>> GameState<P, V> {
    /// Despawn pass over one persistent layer, back to front: each entity
    /// reports its liveness and spawn wishes; despawned slots are removed
    /// from the layer and vacated only after their wishes were collected.
    /// Collected spawn requests are appended to `pspawns` / `vspawns` in
    /// processing order; nothing is inserted yet.
    fn despawn_layer_persistent(
        &mut self,
        l: usize,
        pspawns: &mut Vec<(String, Vec<P>)>,
        vspawns: &mut Vec<(String, Vec<V>)>,
    )
        requires
            old(self).wf(),
            old(self).steady(),
            l < old(self).num_layers(),
        ensures
            final(self).wf(),
            final(self).steady(),
            final(self).layer_names == old(self).layer_names,
            final(self).volatile == old(self).volatile,
            final(self).persistent.slots@.len() == old(self).persistent.slots@.len(),
            final(self).persistent.next_generation == old(self).persistent.next_generation,
            final(self).num_layers() == old(self).num_layers(),
            forall|i: int|
                0 <= i < old(self).persistent.slots@.len()
                    ==> (#[trigger] final(self).persistent.slots@[i])
                        == old(self).persistent.slots@[i]
                        || vacated_from(old(self).persistent, final(self).persistent, l as int, i),
            final(self).persistent.layer_at(l as int) == old(self).persistent.layer_at(
                l as int,
            ).filter(alive_in(final(self).persistent)),
            forall|l2: int|
                0 <= l2 < old(self).num_layers() && l2 != l
                    ==> #[trigger] final(self).persistent.layer_at(l2)
                        == old(self).persistent.layer_at(l2),
            old(self).persistent.layer_at(l as int).len() == 0 ==> *final(self) == *old(self)
                && final(pspawns)@ == old(pspawns)@ && final(vspawns)@ == old(vspawns)@,
    {
        let ghost l0 = old(self).persistent.layer_at(l as int);
        proof {
            assert forall|j1: int, j2: int|
                #![trigger l0[j1], l0[j2]]
                0 <= j1 < l0.len() && 0 <= j2 < l0.len() && j1 != j2 implies
                l0[j1] != l0[j2] by {
                assert(old(self).persistent.layer_at(l as int)[j1] != old(
                    self,
                ).persistent.layer_at(l as int)[j2]);
            }
        }
        let n = self.persistent.layer_len(l);
        let mut k: usize = n;
        proof {
            assert(self.persistent.layer_at(l as int) =~= l0.subrange(0, n as int));
            assert(l0.subrange(n as int, n as int) =~= Seq::<usize>::empty());
            reveal(Seq::filter);
        }
        while k > 0
            invariant
                k <= n,
                l < old(self).num_layers(),
                self.wf(),
                self.steady(),
                self.layer_names == old(self).layer_names,
                self.volatile == old(self).volatile,
                self.num_layers() == old(self).num_layers(),
                self.persistent.slots@.len() == old(self).persistent.slots@.len(),
                self.persistent.next_generation == old(self).persistent.next_generation,
                l0 == old(self).persistent.layer_at(l as int),
                n == l0.len(),
                old(self).wf(),
                old(self).steady(),
                forall|j1: int, j2: int|
                    #![trigger l0[j1], l0[j2]]
                    0 <= j1 < l0.len() && 0 <= j2 < l0.len() && j1 != j2
                        ==> l0[j1] != l0[j2],
                self.persistent.layer_at(l as int) == l0.subrange(0, k as int) + l0.subrange(
                    k as int,
                    n as int,
                ).filter(alive_in(self.persistent)),
                forall|j: int|
                    0 <= j < k
                        ==> #[trigger] self.persistent.slots@[l0[j] as int]
                            == old(self).persistent.slots@[l0[j] as int],
                forall|i: int|
                    0 <= i < old(self).persistent.slots@.len()
                        ==> (#[trigger] self.persistent.slots@[i])
                            == old(self).persistent.slots@[i]
                            || vacated_from(old(self).persistent, self.persistent, l as int, i),
                forall|l2: int|
                    0 <= l2 < old(self).num_layers() && l2 != l
                        ==> #[trigger] self.persistent.layer_at(l2)
                            == old(self).persistent.layer_at(l2),
                n == 0 ==> *self == *old(self) && pspawns@ == old(pspawns)@ && vspawns@
                    == old(vspawns)@,
            decreases k,
        {
            k = k - 1;
            let ghost cur0 = self.persistent;
            proof {
                // The element at layer position k is untouched so far, and
                // its slot still holds its entity.
                assert(cur0.layer_at(l as int)[k as int] == l0.subrange(0, (k + 1) as int)[
                    k as int
                ]);
                assert(cur0.layer_at(l as int)[k as int] == l0[k as int]);
                assert(cur0.slots@[l0[k as int] as int] == old(self).persistent.slots@[l0[
                    k as int
                ] as int]);
                assert(old(self).persistent.slots@[l0[k as int] as int].cell is Present);
            }
            let idx = self.persistent.handle_at(l, k).index;
            proof {
                assert(idx == l0[k as int]);
                assert(cur0.slots@[idx as int].cell is Present);
            }
            let obj = self.persistent.take_at(idx);
            let changes = obj.apply_spawns();
            let retain = match &changes.alive {
                LivelinessStatus::Retain => true,
                LivelinessStatus::Despawn => false,
            };
            if retain {
                self.persistent.restore_at(idx, obj);
                proof {
                    let now = self.persistent;
                    assert(now.slots@ =~= cur0.slots@);
                    lemma_filter_congruent(
                        l0.subrange((k + 1) as int, n as int),
                        alive_in(cur0),
                        alive_in(now),
                    );
                    assert(now.layer_at(l as int) == l0.subrange(0, (k + 1) as int)
                        + l0.subrange((k + 1) as int, n as int).filter(alive_in(now)));
                    lemma_despawn_step_retained(old(self).persistent, now, l as int, k as int);
                    assert forall|j: int|
                        0 <= j < now.slots@.len() implies !((#[trigger] now.slots@[j]).cell
                        is Taken) by {
                        assert(now.slots@[j] == cur0.slots@[j]);
                    }
                    assert forall|l2: int|
                        0 <= l2 < old(self).num_layers() && l2 != l implies
                        #[trigger] now.layer_at(l2) == old(self).persistent.layer_at(l2) by {
                        assert(now.layer_at(l2) == cur0.layer_at(l2));
                    }
                }
            } else {
                // Despawn: the slot is vacated and leaves the layer; the
                // entity is dropped — restore is intentionally skipped.
                self.persistent.despawn_at(l, k);
                proof {
                    let now = self.persistent;
                    assert(now.slots@ =~= cur0.slots@.update(
                        idx as int,
                        EntitySlot {
                            generation: cur0.slots@[idx as int].generation,
                            cell: SlotCell::<P>::Vacant,
                        },
                    ));
                    lemma_despawn_step_removed(
                        old(self).persistent,
                        cur0,
                        now,
                        l as int,
                        k as int,
                    );
                    assert forall|j: int|
                        0 <= j < now.slots@.len() implies !((#[trigger] now.slots@[j]).cell
                        is Taken) by {
                        if j != idx as int {
                            assert(now.slots@[j] == cur0.slots@[j]);
                        }
                    }
                    assert forall|i: int|
                        0 <= i < old(self).persistent.slots@.len() implies
                        (#[trigger] now.slots@[i]) == old(self).persistent.slots@[i]
                            || vacated_from(old(self).persistent, now, l as int, i) by {
                        if i == idx as int {
                            assert(l0[k as int] == idx);
                            assert(old(self).persistent.layer_at(l as int).contains(idx));
                        } else {
                            assert(now.slots@[i] == cur0.slots@[i]);
                        }
                    }
                    assert forall|l2: int|
                        0 <= l2 < old(self).num_layers() && l2 != l implies
                        #[trigger] now.layer_at(l2) == old(self).persistent.layer_at(l2) by {
                        assert(now.layer_at(l2) == cur0.layer_at(l2));
                    }
                }
            }
            let mut changes = changes;
            pspawns.append(&mut changes.persistent_spawns);
            vspawns.append(&mut changes.volatile_spawns);
        }
        proof {
            assert(l0.subrange(0, 0) =~= Seq::<usize>::empty());
            assert(l0.subrange(0, n as int) =~= l0);
            assert(self.persistent.layer_at(l as int) =~= l0.filter(alive_in(self.persistent)));
        }
    }
    /// Despawn pass over one volatile layer, back to front: each entity
    /// reports its liveness and spawn wishes; despawned slots are removed
    /// from the layer and vacated only after their wishes were collected.
    /// Collected spawn requests are appended to `vspawns` in processing
    /// order (a volatile entity spawns only volatile entities); nothing is
    /// inserted yet.
    fn despawn_layer_volatile(
        &mut self,
        l: usize,
        vspawns: &mut Vec<(String, Vec<V>)>,
    )
        requires
            old(self).wf(),
            old(self).steady(),
            l < old(self).num_layers(),
        ensures
            final(self).wf(),
            final(self).steady(),
            final(self).layer_names == old(self).layer_names,
            final(self).persistent == old(self).persistent,
            final(self).volatile.slots@.len() == old(self).volatile.slots@.len(),
            final(self).volatile.next_generation == old(self).volatile.next_generation,
            final(self).num_layers() == old(self).num_layers(),
            forall|i: int|
                0 <= i < old(self).volatile.slots@.len()
                    ==> (#[trigger] final(self).volatile.slots@[i])
                        == old(self).volatile.slots@[i]
                        || vacated_from(old(self).volatile, final(self).volatile, l as int, i),
            final(self).volatile.layer_at(l as int) == old(self).volatile.layer_at(
                l as int,
            ).filter(alive_in(final(self).volatile)),
            forall|l2: int|
                0 <= l2 < old(self).num_layers() && l2 != l
                    ==> #[trigger] final(self).volatile.layer_at(l2)
                        == old(self).volatile.layer_at(l2),
            old(self).volatile.layer_at(l as int).len() == 0 ==> *final(self) == *old(self)
                && final(vspawns)@ == old(vspawns)@,
    {
        let ghost l0 = old(self).volatile.layer_at(l as int);
        proof {
            assert forall|j1: int, j2: int|
                #![trigger l0[j1], l0[j2]]
                0 <= j1 < l0.len() && 0 <= j2 < l0.len() && j1 != j2 implies
                l0[j1] != l0[j2] by {
                assert(old(self).volatile.layer_at(l as int)[j1] != old(
                    self,
                ).volatile.layer_at(l as int)[j2]);
            }
        }
        let n = self.volatile.layer_len(l);
        let mut k: usize = n;
        proof {
            assert(self.volatile.layer_at(l as int) =~= l0.subrange(0, n as int));
            assert(l0.subrange(n as int, n as int) =~= Seq::<usize>::empty());
            reveal(Seq::filter);
        }
        while k > 0
            invariant
                k <= n,
                l < old(self).num_layers(),
                self.wf(),
                self.steady(),
                self.layer_names == old(self).layer_names,
                self.persistent == old(self).persistent,
                self.num_layers() == old(self).num_layers(),
                self.volatile.slots@.len() == old(self).volatile.slots@.len(),
                self.volatile.next_generation == old(self).volatile.next_generation,
                l0 == old(self).volatile.layer_at(l as int),
                n == l0.len(),
                old(self).wf(),
                old(self).steady(),
                forall|j1: int, j2: int|
                    #![trigger l0[j1], l0[j2]]
                    0 <= j1 < l0.len() && 0 <= j2 < l0.len() && j1 != j2
                        ==> l0[j1] != l0[j2],
                self.volatile.layer_at(l as int) == l0.subrange(0, k as int) + l0.subrange(
                    k as int,
                    n as int,
                ).filter(alive_in(self.volatile)),
                forall|j: int|
                    0 <= j < k
                        ==> #[trigger] self.volatile.slots@[l0[j] as int]
                            == old(self).volatile.slots@[l0[j] as int],
                forall|i: int|
                    0 <= i < old(self).volatile.slots@.len()
                        ==> (#[trigger] self.volatile.slots@[i])
                            == old(self).volatile.slots@[i]
                            || vacated_from(old(self).volatile, self.volatile, l as int, i),
                forall|l2: int|
                    0 <= l2 < old(self).num_layers() && l2 != l
                        ==> #[trigger] self.volatile.layer_at(l2)
                            == old(self).volatile.layer_at(l2),
                n == 0 ==> *self == *old(self) && vspawns@ == old(vspawns)@,
            decreases k,
        {
            k = k - 1;
            let ghost cur0 = self.volatile;
            proof {
                // The element at layer position k is untouched so far, and
                // its slot still holds its entity.
                assert(cur0.layer_at(l as int)[k as int] == l0.subrange(0, (k + 1) as int)[
                    k as int
                ]);
                assert(cur0.layer_at(l as int)[k as int] == l0[k as int]);
                assert(cur0.slots@[l0[k as int] as int] == old(self).volatile.slots@[l0[
                    k as int
                ] as int]);
                assert(old(self).volatile.slots@[l0[k as int] as int].cell is Present);
            }
            let idx = self.volatile.handle_at(l, k).index;
            proof {
                assert(idx == l0[k as int]);
                assert(cur0.slots@[idx as int].cell is Present);
            }
            let obj = self.volatile.take_at(idx);
            let changes = obj.apply_spawns();
            let retain = match &changes.alive {
                LivelinessStatus::Retain => true,
                LivelinessStatus::Despawn => false,
            };
            if retain {
                self.volatile.restore_at(idx, obj);
                proof {
                    let now = self.volatile;
                    assert(now.slots@ =~= cur0.slots@);
                    lemma_filter_congruent(
                        l0.subrange((k + 1) as int, n as int),
                        alive_in(cur0),
                        alive_in(now),
                    );
                    assert(now.layer_at(l as int) == l0.subrange(0, (k + 1) as int)
                        + l0.subrange((k + 1) as int, n as int).filter(alive_in(now)));
                    lemma_despawn_step_retained(old(self).volatile, now, l as int, k as int);
                    assert forall|j: int|
                        0 <= j < now.slots@.len() implies !((#[trigger] now.slots@[j]).cell
                        is Taken) by {
                        assert(now.slots@[j] == cur0.slots@[j]);
                    }
                    assert forall|l2: int|
                        0 <= l2 < old(self).num_layers() && l2 != l implies
                        #[trigger] now.layer_at(l2) == old(self).volatile.layer_at(l2) by {
                        assert(now.layer_at(l2) == cur0.layer_at(l2));
                    }
                }
            } else {
                // Despawn: the slot is vacated and leaves the layer; the
                // entity is dropped — restore is intentionally skipped.
                self.volatile.despawn_at(l, k);
                proof {
                    let now = self.volatile;
                    assert(now.slots@ =~= cur0.slots@.update(
                        idx as int,
                        EntitySlot {
                            generation: cur0.slots@[idx as int].generation,
                            cell: SlotCell::<V>::Vacant,
                        },
                    ));
                    lemma_despawn_step_removed(
                        old(self).volatile,
                        cur0,
                        now,
                        l as int,
                        k as int,
                    );
                    assert forall|j: int|
                        0 <= j < now.slots@.len() implies !((#[trigger] now.slots@[j]).cell
                        is Taken) by {
                        if j != idx as int {
                            assert(now.slots@[j] == cur0.slots@[j]);
                        }
                    }
                    assert forall|i: int|
                        0 <= i < old(self).volatile.slots@.len() implies
                        (#[trigger] now.slots@[i]) == old(self).volatile.slots@[i]
                            || vacated_from(old(self).volatile, now, l as int, i) by {
                        if i == idx as int {
                            assert(l0[k as int] == idx);
                            assert(old(self).volatile.layer_at(l as int).contains(idx));
                        } else {
                            assert(now.slots@[i] == cur0.slots@[i]);
                        }
                    }
                    assert forall|l2: int|
                        0 <= l2 < old(self).num_layers() && l2 != l implies
                        #[trigger] now.layer_at(l2) == old(self).volatile.layer_at(l2) by {
                        assert(now.layer_at(l2) == cur0.layer_at(l2));
                    }
                }
            }
            let mut changes = changes;
            vspawns.append(&mut changes.volatile_spawns);
        }
        proof {
            assert(l0.subrange(0, 0) =~= Seq::<usize>::empty());
            assert(l0.subrange(0, n as int) =~= l0);
            assert(self.volatile.layer_at(l as int) =~= l0.filter(alive_in(self.volatile)));
        }
    }
}

/// One retained entity at layer position `k`: with its slot back unchanged,
/// the processed region of the layer formula grows from `k + 1` down to `k`.
proof fn lemma_despawn_step_retained<T>(p0: Pool<T>, now: Pool<T>, l: int, k: int)
    requires
        p0.wf(),
        p0.steady(),
        0 <= l < p0.layers@.len(),
        0 <= k < p0.layer_at(l).len(),
        now.slots@.len() == p0.slots@.len(),
        now.slots@[p0.layer_at(l)[k] as int] == p0.slots@[p0.layer_at(l)[k] as int],
        now.layer_at(l) == p0.layer_at(l).subrange(0, k + 1) + p0.layer_at(l).subrange(
            k + 1,
            p0.layer_at(l).len() as int,
        ).filter(alive_in(now)),
    ensures
        now.layer_at(l) == p0.layer_at(l).subrange(0, k) + p0.layer_at(l).subrange(
            k,
            p0.layer_at(l).len() as int,
        ).filter(alive_in(now)),
{
    let l0 = p0.layer_at(l);
    let n = l0.len() as int;
    let pred = alive_in(now);
    let x = l0[k];
    assert(p0.slots@[x as int].cell is Present);
    assert(pred(x));
    assert(l0.subrange(k, n) =~= seq![x] + l0.subrange(k + 1, n));
    Seq::filter_distributes_over_add(seq![x], l0.subrange(k + 1, n), pred);
    lemma_filter_singleton(x, pred);
    assert(l0.subrange(0, k + 1) =~= l0.subrange(0, k) + seq![x]);
    assert((l0.subrange(0, k) + seq![x]) + l0.subrange(k + 1, n).filter(pred) =~= l0.subrange(
        0,
        k,
    ) + (seq![x] + l0.subrange(k + 1, n).filter(pred)));
    assert(l0.subrange(k, n).filter(pred) == seq![x] + l0.subrange(k + 1, n).filter(pred));
}

/// One despawned entity at layer position `k`: its slot was vacated and the
/// position removed; the layer formula moves from `k + 1` down to `k`.
proof fn lemma_despawn_step_removed<T>(p0: Pool<T>, cur0: Pool<T>, now: Pool<T>, l: int, k: int)
    requires
        p0.wf(),
        p0.steady(),
        0 <= l < p0.layers@.len(),
        0 <= k < p0.layer_at(l).len(),
        forall|j1: int, j2: int|
            #![trigger p0.layer_at(l)[j1], p0.layer_at(l)[j2]]
            0 <= j1 < p0.layer_at(l).len() && 0 <= j2 < p0.layer_at(l).len() && j1 != j2
                ==> p0.layer_at(l)[j1] != p0.layer_at(l)[j2],
        cur0.slots@.len() == p0.slots@.len(),
        cur0.layer_at(l) == p0.layer_at(l).subrange(0, k + 1) + p0.layer_at(l).subrange(
            k + 1,
            p0.layer_at(l).len() as int,
        ).filter(alive_in(cur0)),
        now.slots@ == cur0.slots@.update(
            p0.layer_at(l)[k] as int,
            EntitySlot {
                generation: cur0.slots@[p0.layer_at(l)[k] as int].generation,
                cell: SlotCell::<T>::Vacant,
            },
        ),
        now.layer_at(l) == cur0.layer_at(l).remove(k),
        p0.layer_at(l)[k] < p0.slots@.len(),
    ensures
        now.layer_at(l) == p0.layer_at(l).subrange(0, k) + p0.layer_at(l).subrange(
            k,
            p0.layer_at(l).len() as int,
        ).filter(alive_in(now)),
{
    let l0 = p0.layer_at(l);
    let n = l0.len() as int;
    let x = l0[k];
    // Removing position k drops exactly the prefix's last element.
    assert(now.layer_at(l) =~= l0.subrange(0, k) + l0.subrange(k + 1, n).filter(
        alive_in(cur0),
    ));
    // Vacating slot x changes no other slot, so the suffix filter carries
    // over to the new pool state.
    assert forall|j: int|
        0 <= j < l0.subrange(k + 1, n).len() implies
        alive_in(cur0)(#[trigger] l0.subrange(k + 1, n)[j]) == alive_in(now)(
        l0.subrange(k + 1, n)[j]) by {
        let y = l0.subrange(k + 1, n)[j];
        assert(y == l0[k + 1 + j]);
        assert(y != x);
        assert(now.slots@[y as int] == cur0.slots@[y as int]);
    }
    lemma_filter_congruent(l0.subrange(k + 1, n), alive_in(cur0), alive_in(now));
    // Under the new state the despawned element is filtered out.
    assert(!(alive_in(now)(x)));
    assert(l0.subrange(k, n) =~= seq![x] + l0.subrange(k + 1, n));
    Seq::filter_distributes_over_add(seq![x], l0.subrange(k + 1, n), alive_in(now));
    lemma_filter_singleton(x, alive_in(now));
    assert(l0.subrange(k, n).filter(alive_in(now)) =~= l0.subrange(k + 1, n).filter(
        alive_in(now),
    ));
}

/// After one layer's despawn pass, the filter-form of an already processed
/// layer carries over to the newer pool state: the pass only vacated slots
/// of its own layer, which (layers being disjoint) agree on survival with
/// every slot the processed layer lists.
proof fn lemma_processed_layer_stable<T>(p0: Pool<T>, mid: Pool<T>, now: Pool<T>, l: int, l2: int)
    requires
        p0.wf(),
        0 <= l < p0.layers@.len(),
        0 <= l2 < p0.layers@.len(),
        l2 != l,
        mid.slots@.len() == p0.slots@.len(),
        now.slots@.len() == p0.slots@.len(),
        mid.layer_at(l) == p0.layer_at(l),
        forall|i: int|
            0 <= i < mid.slots@.len()
                ==> (#[trigger] now.slots@[i]) == mid.slots@[i]
                    || vacated_from(mid, now, l, i),
    ensures
        p0.layer_at(l2).filter(alive_in(mid)) == p0.layer_at(l2).filter(alive_in(now)),
{
    assert forall|j: int|
        0 <= j < p0.layer_at(l2).len() implies
        alive_in(mid)(#[trigger] p0.layer_at(l2)[j]) == alive_in(now)(p0.layer_at(l2)[j]) by {
        let y = p0.layer_at(l2)[j];
        assert((y as int) < p0.slots@.len());
        if now.slots@[y as int] != mid.slots@[y as int] {
            assert(vacated_from(mid, now, l, y as int));
            assert(mid.layer_at(l).contains(y));
            let kk = choose|kk: int|
                0 <= kk < p0.layer_at(l).len() && p0.layer_at(l)[kk] == y;
            assert(p0.layer_at(l2)[j] != p0.layer_at(l)[kk]);
            assert(false);
        }
    }
    lemma_filter_congruent(p0.layer_at(l2), alive_in(mid), alive_in(now));
}

impl<P: Persistent<V>, V: Volatile<P>> GameState<P, V> {
    /// Phase three: every entity, in reverse index order within each layer
    /// (persistent layers first, then volatile ones), reports whether it
    /// stays alive and what it wants spawned. Despawned slots leave their
    /// layer and are vacated, each only after its own requests were
    /// collected. Nothing is inserted here: the collected requests are
    /// returned for the insertion phase, so a spawned entity never takes
    /// part in the frame that requested it.
    pub fn despawn_and_collect(&mut self) -> (spawns: (
        Vec<(String, Vec<P>)>,
        Vec<(String, Vec<V>)>,
    ))
        requires
            old(self).wf(),
            old(self).steady(),
        ensures
            final(self).wf(),
            final(self).steady(),
            final(self).layer_names == old(self).layer_names,
            despawn_shape(old(self).persistent, final(self).persistent),
            despawn_shape(old(self).volatile, final(self).volatile),
            (old(self).persistent.arena_len() == 0 && old(self).volatile.arena_len() == 0) ==> *final(self) == *old(self) && spawns.0@.len() == 0
                && spawns.1@.len() == 0,
    {
        let mut pspawns: Vec<(String, Vec<P>)> = Vec::new();
        let mut vspawns: Vec<(String, Vec<V>)> = Vec::new();
        let nl = self.layer_names.len();
        let mut l: usize = 0;
        while l < nl
            invariant
                l <= nl,
                self.wf(),
                self.steady(),
                old(self).wf(),
                self.layer_names == old(self).layer_names,
                self.volatile == old(self).volatile,
                nl == self.num_layers(),
                self.num_layers() == old(self).num_layers(),
                self.persistent.slots@.len() == old(self).persistent.slots@.len(),
                self.persistent.next_generation == old(self).persistent.next_generation,
                forall|i: int|
                    0 <= i < old(self).persistent.slots@.len()
                        ==> (#[trigger] self.persistent.slots@[i])
                            == old(self).persistent.slots@[i]
                            || (old(self).persistent.slots@[i].cell is Present
                                && self.persistent.slots@[i] == EntitySlot {
                                generation: old(self).persistent.slots@[i].generation,
                                cell: SlotCell::<P>::Vacant,
                            }),
                forall|l2: int|
                    0 <= l2 < l
                        ==> #[trigger] self.persistent.layer_at(l2)
                            == old(self).persistent.layer_at(l2).filter(
                            alive_in(self.persistent),
                        ),
                forall|l2: int|
                    l <= l2 < nl
                        ==> #[trigger] self.persistent.layer_at(l2)
                            == old(self).persistent.layer_at(l2),
                (old(self).persistent.arena_len() == 0 && old(self).volatile.arena_len() == 0) ==> *self == *old(self) && pspawns@.len() == 0
                    && vspawns@.len() == 0,
            decreases nl - l,
        {
            let ghost mid = self.persistent;
            let ghost pre_state = *self;
            self.despawn_layer_persistent(l, &mut pspawns, &mut vspawns);
            proof {
                if old(self).persistent.arena_len() == 0 && old(
                    self,
                ).volatile.arena_len() == 0 {
                    lemma_empty_pool_layer_empty(pre_state.persistent, l as int);
                    assert(*self == pre_state);
                }
            }
            proof {
                let now = self.persistent;
                let p0 = old(self).persistent;
                assert(now.layer_at(l as int) == p0.layer_at(l as int).filter(alive_in(now)));
                assert forall|l2: int|
                    0 <= l2 < l implies
                    #[trigger] now.layer_at(l2) == p0.layer_at(l2).filter(alive_in(now)) by {
                    assert(now.layer_at(l2) == mid.layer_at(l2));
                    lemma_processed_layer_stable(p0, mid, now, l as int, l2);
                }
                assert forall|i: int|
                    0 <= i < p0.slots@.len() implies
                    (#[trigger] now.slots@[i]) == p0.slots@[i]
                        || (p0.slots@[i].cell is Present && now.slots@[i] == EntitySlot {
                        generation: p0.slots@[i].generation,
                        cell: SlotCell::<P>::Vacant,
                    }) by {
                    if now.slots@[i] != mid.slots@[i] {
                        assert(vacated_from(mid, now, l as int, i));
                        assert(mid.slots@[i] == p0.slots@[i]);
                    }
                }
            }
            l = l + 1;
        }
        let mut l2: usize = 0;
        while l2 < nl
            invariant
                l2 <= nl,
                self.wf(),
                self.steady(),
                old(self).wf(),
                self.layer_names == old(self).layer_names,
                nl == self.num_layers(),
                self.num_layers() == old(self).num_layers(),
                despawn_shape(old(self).persistent, self.persistent),
                self.volatile.slots@.len() == old(self).volatile.slots@.len(),
                self.volatile.next_generation == old(self).volatile.next_generation,
                forall|i: int|
                    0 <= i < old(self).volatile.slots@.len()
                        ==> (#[trigger] self.volatile.slots@[i])
                            == old(self).volatile.slots@[i]
                            || (old(self).volatile.slots@[i].cell is Present
                                && self.volatile.slots@[i] == EntitySlot {
                                generation: old(self).volatile.slots@[i].generation,
                                cell: SlotCell::<V>::Vacant,
                            }),
                forall|l3: int|
                    0 <= l3 < l2
                        ==> #[trigger] self.volatile.layer_at(l3)
                            == old(self).volatile.layer_at(l3).filter(alive_in(self.volatile)),
                forall|l3: int|
                    l2 <= l3 < nl
                        ==> #[trigger] self.volatile.layer_at(l3)
                            == old(self).volatile.layer_at(l3),
                (old(self).persistent.arena_len() == 0 && old(self).volatile.arena_len() == 0) ==> *self == *old(self) && pspawns@.len() == 0
                    && vspawns@.len() == 0,
            decreases nl - l2,
        {
            let ghost mid = self.volatile;
            let ghost persistent_before = self.persistent;
            let ghost pre_state = *self;
            self.despawn_layer_volatile(l2, &mut vspawns);
            proof {
                if old(self).persistent.arena_len() == 0 && old(
                    self,
                ).volatile.arena_len() == 0 {
                    lemma_empty_pool_layer_empty(pre_state.volatile, l2 as int);
                    assert(*self == pre_state);
                }
            }
            proof {
                let now = self.volatile;
                let p0 = old(self).volatile;
                assert(now.layer_at(l2 as int) == p0.layer_at(l2 as int).filter(alive_in(now)));
                assert forall|l3: int|
                    0 <= l3 < l2 implies
                    #[trigger] now.layer_at(l3) == p0.layer_at(l3).filter(alive_in(now)) by {
                    assert(now.layer_at(l3) == mid.layer_at(l3));
                    lemma_processed_layer_stable(p0, mid, now, l2 as int, l3);
                }
                assert forall|i: int|
                    0 <= i < p0.slots@.len() implies
                    (#[trigger] now.slots@[i]) == p0.slots@[i]
                        || (p0.slots@[i].cell is Present && now.slots@[i] == EntitySlot {
                        generation: p0.slots@[i].generation,
                        cell: SlotCell::<V>::Vacant,
                    }) by {
                    if now.slots@[i] != mid.slots@[i] {
                        assert(vacated_from(mid, now, l2 as int, i));
                        assert(mid.slots@[i] == p0.slots@[i]);
                    }
                }
            }
            l2 = l2 + 1;
        }
        (pspawns, vspawns)
    }
}

impl<P: Persistent<V>, V: Volatile<P>> GameState<P, V> {
    /// Phase one: every entity of every layer, persistent then volatile,
    /// generates its pending rate. Each entity is checked out of its slot
    /// for the duration of its own call, so resolving a reference to it
    /// (itself included) reports `Taken` meanwhile. No slot appears,
    /// disappears or changes identity in this phase.
    pub fn generate_rates(&mut self)
        requires
            old(self).wf(),
            old(self).steady(),
        ensures
            final(self).wf(),
            final(self).steady(),
            final(self).layer_names == old(self).layer_names,
            phase_shape(old(self).persistent, final(self).persistent),
            phase_shape(old(self).volatile, final(self).volatile),
            (old(self).persistent.arena_len() == 0 && old(self).volatile.arena_len() == 0) ==> *final(self) == *old(self),
    {
        let nl = self.layer_names.len();
        let mut l: usize = 0;
        while l < nl
            invariant
                l <= nl,
                self.wf(),
                self.steady(),
                self.layer_names == old(self).layer_names,
                nl == self.num_layers(),
                phase_shape(old(self).persistent, self.persistent),
                self.volatile == old(self).volatile,
                (old(self).persistent.arena_len() == 0 && old(self).volatile.arena_len() == 0) ==> *self == *old(self),
            decreases nl - l,
        {
            let n = self.persistent.layer_len(l);
            let mut k: usize = 0;
            while k < n
                invariant
                    k <= n,
                    l < nl,
                    self.wf(),
                    self.steady(),
                    self.layer_names == old(self).layer_names,
                    nl == self.num_layers(),
                    n == self.persistent.layer_at(l as int).len(),
                    phase_shape(old(self).persistent, self.persistent),
                    self.volatile == old(self).volatile,
                    (old(self).persistent.arena_len() == 0 && old(self).volatile.arena_len() == 0) ==> *self == *old(self),
                decreases n - k,
            {
                proof {
                    if old(self).persistent.arena_len() == 0 && old(
                        self,
                    ).volatile.arena_len() == 0 {
                        lemma_empty_pool_layer_empty(self.persistent, l as int);
                        assert(false);
                    }
                }
                let idx = self.persistent.handle_at(l, k).index;
                proof {
                    assert(!(self.persistent.slots@[idx as int].cell is Taken));
                }
                let ghost before = self.persistent;
                let mut obj = self.persistent.take_at(idx);
                obj.generate_rate(self);
                self.persistent.restore_at(idx, obj);
                proof {
                    assert(self.persistent.slots@ =~= before.slots@.update(
                        idx as int,
                        EntitySlot {
                            generation: before.slots@[idx as int].generation,
                            cell: self.persistent.slots@[idx as int].cell,
                        },
                    ));
                    lemma_update_keeps_shape(
                        old(self).persistent,
                        before,
                        self.persistent,
                        idx as int,
                    );
                }
                k = k + 1;
            }
            l = l + 1;
        }
        let mut l2: usize = 0;
        while l2 < nl
            invariant
                l2 <= nl,
                self.wf(),
                self.steady(),
                self.layer_names == old(self).layer_names,
                nl == self.num_layers(),
                phase_shape(old(self).persistent, self.persistent),
                phase_shape(old(self).volatile, self.volatile),
                (old(self).persistent.arena_len() == 0 && old(self).volatile.arena_len() == 0) ==> *self == *old(self),
            decreases nl - l2,
        {
            let n = self.volatile.layer_len(l2);
            let mut k: usize = 0;
            while k < n
                invariant
                    k <= n,
                    l2 < nl,
                    self.wf(),
                    self.steady(),
                    self.layer_names == old(self).layer_names,
                    nl == self.num_layers(),
                    n == self.volatile.layer_at(l2 as int).len(),
                    phase_shape(old(self).persistent, self.persistent),
                    phase_shape(old(self).volatile, self.volatile),
                    (old(self).persistent.arena_len() == 0 && old(self).volatile.arena_len() == 0) ==> *self == *old(self),
                decreases n - k,
            {
                proof {
                    if old(self).persistent.arena_len() == 0 && old(
                        self,
                    ).volatile.arena_len() == 0 {
                        lemma_empty_pool_layer_empty(self.volatile, l2 as int);
                        assert(false);
                    }
                }
                let idx = self.volatile.handle_at(l2, k).index;
                proof {
                    assert(!(self.volatile.slots@[idx as int].cell is Taken));
                }
                let ghost before = self.volatile;
                let ghost before_p = self.persistent;
                let mut obj = self.volatile.take_at(idx);
                obj.generate_rate(self);
                self.volatile.restore_at(idx, obj);
                proof {
                    assert(self.volatile.slots@ =~= before.slots@.update(
                        idx as int,
                        EntitySlot {
                            generation: before.slots@[idx as int].generation,
                            cell: self.volatile.slots@[idx as int].cell,
                        },
                    ));
                    lemma_update_keeps_shape(
                        old(self).volatile,
                        before,
                        self.volatile,
                        idx as int,
                    );
                }
                k = k + 1;
            }
            l2 = l2 + 1;
        }
    }

    /// Phase two: every entity commits its previously generated rate into
    /// its own visible state. No entity may read another's state here, so
    /// the call gets nothing but the entity itself. No slot appears,
    /// disappears or changes identity in this phase.
    pub fn apply_rates(&mut self)
        requires
            old(self).wf(),
            old(self).steady(),
        ensures
            final(self).wf(),
            final(self).steady(),
            final(self).layer_names == old(self).layer_names,
            phase_shape(old(self).persistent, final(self).persistent),
            phase_shape(old(self).volatile, final(self).volatile),
            (old(self).persistent.arena_len() == 0 && old(self).volatile.arena_len() == 0) ==> *final(self) == *old(self),
    {
        let nl = self.layer_names.len();
        let mut l: usize = 0;
        while l < nl
            invariant
                l <= nl,
                self.wf(),
                self.steady(),
                self.layer_names == old(self).layer_names,
                nl == self.num_layers(),
                phase_shape(old(self).persistent, self.persistent),
                self.volatile == old(self).volatile,
                (old(self).persistent.arena_len() == 0 && old(self).volatile.arena_len() == 0) ==> *self == *old(self),
            decreases nl - l,
        {
            let n = self.persistent.layer_len(l);
            let mut k: usize = 0;
            while k < n
                invariant
                    k <= n,
                    l < nl,
                    self.wf(),
                    self.steady(),
                    self.layer_names == old(self).layer_names,
                    nl == self.num_layers(),
                    n == self.persistent.layer_at(l as int).len(),
                    phase_shape(old(self).persistent, self.persistent),
                    self.volatile == old(self).volatile,
                    (old(self).persistent.arena_len() == 0 && old(self).volatile.arena_len() == 0) ==> *self == *old(self),
                decreases n - k,
            {
                proof {
                    if old(self).persistent.arena_len() == 0 && old(
                        self,
                    ).volatile.arena_len() == 0 {
                        lemma_empty_pool_layer_empty(self.persistent, l as int);
                        assert(false);
                    }
                }
                let idx = self.persistent.handle_at(l, k).index;
                proof {
                    assert(!(self.persistent.slots@[idx as int].cell is Taken));
                }
                let ghost before = self.persistent;
                let mut obj = self.persistent.take_at(idx);
                obj.apply_rate();
                self.persistent.restore_at(idx, obj);
                proof {
                    assert(self.persistent.slots@ =~= before.slots@.update(
                        idx as int,
                        EntitySlot {
                            generation: before.slots@[idx as int].generation,
                            cell: self.persistent.slots@[idx as int].cell,
                        },
                    ));
                    lemma_update_keeps_shape(
                        old(self).persistent,
                        before,
                        self.persistent,
                        idx as int,
                    );
                }
                k = k + 1;
            }
            l = l + 1;
        }
        let mut l2: usize = 0;
        while l2 < nl
            invariant
                l2 <= nl,
                self.wf(),
                self.steady(),
                self.layer_names == old(self).layer_names,
                nl == self.num_layers(),
                phase_shape(old(self).persistent, self.persistent),
                phase_shape(old(self).volatile, self.volatile),
                (old(self).persistent.arena_len() == 0 && old(self).volatile.arena_len() == 0) ==> *self == *old(self),
            decreases nl - l2,
        {
            let n = self.volatile.layer_len(l2);
            let mut k: usize = 0;
            while k < n
                invariant
                    k <= n,
                    l2 < nl,
                    self.wf(),
                    self.steady(),
                    self.layer_names == old(self).layer_names,
                    nl == self.num_layers(),
                    n == self.volatile.layer_at(l2 as int).len(),
                    phase_shape(old(self).persistent, self.persistent),
                    phase_shape(old(self).volatile, self.volatile),
                    (old(self).persistent.arena_len() == 0 && old(self).volatile.arena_len() == 0) ==> *self == *old(self),
                decreases n - k,
            {
                proof {
                    if old(self).persistent.arena_len() == 0 && old(
                        self,
                    ).volatile.arena_len() == 0 {
                        lemma_empty_pool_layer_empty(self.volatile, l2 as int);
                        assert(false);
                    }
                }
                let idx = self.volatile.handle_at(l2, k).index;
                proof {
                    assert(!(self.volatile.slots@[idx as int].cell is Taken));
                }
                let ghost before = self.volatile;
                let mut obj = self.volatile.take_at(idx);
                obj.apply_rate();
                self.volatile.restore_at(idx, obj);
                proof {
                    assert(self.volatile.slots@ =~= before.slots@.update(
                        idx as int,
                        EntitySlot {
                            generation: before.slots@[idx as int].generation,
                            cell: self.volatile.slots@[idx as int].cell,
                        },
                    ));
                    lemma_update_keeps_shape(
                        old(self).volatile,
                        before,
                        self.volatile,
                        idx as int,
                    );
                }
                k = k + 1;
            }
            l2 = l2 + 1;
        }
    }
}

/// Total number of entities over a list of spawn-request groups.
pub open spec fn group_total<T>(groups: Seq<(String, Vec<T>)>) -> nat
    decreases groups.len(),
{
    if groups.len() == 0 {
        0
    } else {
        groups[0].1@.len() + group_total(groups.drop_first())
    }
}

/// The entities a list of spawn-request groups directs at the layer called
/// `name`, in request order.
pub open spec fn spawned_for<T>(groups: Seq<(String, Vec<T>)>, name: Seq<char>) -> Seq<T>
    decreases groups.len(),
{
    if groups.len() == 0 {
        Seq::empty()
    } else {
        (if groups[0].0@ == name {
            groups[0].1@
        } else {
            Seq::empty()
        }) + spawned_for(groups.drop_first(), name)
    }
}

/// Every group names a registered layer.
pub open spec fn groups_registered<P, V, T>(
    state: GameState<P, V>,
    groups: Seq<(String, Vec<T>)>,
) -> bool {
    forall|g: int| 0 <= g < groups.len() ==> state.spec_has_layer((#[trigger] groups[g]).0@)
}

proof fn lemma_group_total_append<T>(s: Seq<(String, Vec<T>)>, x: (String, Vec<T>))
    ensures
        group_total(s.push(x)) == group_total(s) + x.1@.len(),
    decreases s.len(),
{
    if s.len() == 0 {
        let e = Seq::<(String, Vec<T>)>::empty();
        assert(s.push(x).drop_first() =~= e);
        assert(group_total(e) == 0);
        assert(s.push(x)[0] == x);
        assert(group_total(s.push(x)) == x.1@.len() + group_total(e));
    } else {
        assert(s.push(x).drop_first() =~= s.drop_first().push(x));
        lemma_group_total_append(s.drop_first(), x);
        assert(s.push(x)[0] == s[0]);
        assert(group_total(s.push(x)) == s[0].1@.len() + group_total(s.drop_first().push(x)));
        assert(group_total(s) == s[0].1@.len() + group_total(s.drop_first()));
    }
}

/// One spawn appends its entity to exactly its target layer.
proof fn lemma_spawn_extends_layer_objects<T>(prev: Pool<T>, new: Pool<T>, l: int, obj: T, idx: usize)
    requires
        prev.wf(),
        0 <= l < prev.layers@.len(),
        idx == prev.slots@.len(),
        new.slots@ == prev.slots@.push(
            EntitySlot { generation: prev.next_generation, cell: SlotCell::Present(obj) },
        ),
        new.layers@.len() == prev.layers@.len(),
        new.layer_at(l) == prev.layer_at(l).push(idx),
        forall|l2: int|
            0 <= l2 < new.layers@.len() && l2 != l
                ==> #[trigger] new.layer_at(l2) == prev.layer_at(l2),
    ensures
        new.layer_objects(l) == prev.layer_objects(l).push(obj),
        forall|l2: int|
            0 <= l2 < prev.layers@.len() && l2 != l
                ==> #[trigger] new.layer_objects(l2) == prev.layer_objects(l2),
{
    assert(new.layer_objects(l) =~= prev.layer_objects(l).push(obj)) by {
        assert forall|j: int| 0 <= j < prev.layer_at(l).len() implies
            new.layer_objects(l)[j] == prev.layer_objects(l)[j] by {
            let y = prev.layer_at(l)[j];
            assert((y as int) < prev.slots@.len());
            assert(new.slots@[y as int] == prev.slots@[y as int]);
        }
        assert(new.layer_objects(l)[prev.layer_at(l).len() as int] == obj);
    }
    assert forall|l2: int|
        0 <= l2 < prev.layers@.len() && l2 != l implies
        #[trigger] new.layer_objects(l2) == prev.layer_objects(l2) by {
        assert(new.layer_objects(l2) =~= prev.layer_objects(l2)) by {
            assert forall|j: int| 0 <= j < prev.layer_at(l2).len() implies
                new.layer_objects(l2)[j] == prev.layer_objects(l2)[j] by {
                let y = prev.layer_at(l2)[j];
                assert((y as int) < prev.slots@.len());
                assert(new.slots@[y as int] == prev.slots@[y as int]);
            }
        }
    }
}

proof fn lemma_group_total_prefix<T>(s: Seq<(String, Vec<T>)>, g: int)
    requires
        0 <= g <= s.len(),
    ensures
        group_total(s.subrange(0, g)) <= group_total(s),
    decreases s.len() - g,
{
    if g == s.len() {
        assert(s.subrange(0, g) =~= s);
    } else {
        assert(s.subrange(0, g + 1) =~= s.subrange(0, g).push(s[g]));
        lemma_group_total_append(s.subrange(0, g), s[g]);
        lemma_group_total_prefix(s, g + 1);
    }
}

impl<P: Persistent<V>, V: Volatile<P>> GameState<P, V> {
    /// Phase four, persistent half: appends the collected persistent spawn
    /// requests to their target layers, in request order. Nothing is
    /// inserted unless every request names a registered layer and identity
    /// stamps suffice; on an error the registry is unchanged. (A request
    /// into an unregistered layer is a programming error of the entity that
    /// made it; it is surfaced, never silently dropped.)
    pub fn insert_spawns_persistent(&mut self, groups: Vec<(String, Vec<P>)>) -> (r: Result<
        (),
        FrameError,
    >)
        requires
            old(self).wf(),
            old(self).steady(),
        ensures
            final(self).wf(),
            final(self).steady(),
            final(self).layer_names == old(self).layer_names,
            final(self).volatile == old(self).volatile,
            (r == Result::<(), FrameError>::Err(FrameError::UnknownSpawnLayer)) <==> !groups_registered(
                *old(self),
                groups@,
            ),
            (r == Result::<(), FrameError>::Err(FrameError::Capacity)) <==> (groups_registered(
                *old(self),
                groups@,
            ) && old(self).persistent.next_generation + group_total(groups@) > u64::MAX),
            r is Err ==> final(self).persistent == old(self).persistent,
            r is Ok ==> {
                &&& forall|l: int|
                    0 <= l < old(self).num_layers()
                        ==> #[trigger] final(self).persistent.layer_objects(l) == old(
                            self,
                        ).persistent.layer_objects(l) + spawned_for(
                            groups@,
                            old(self).names()[l],
                        )
                &&& final(self).persistent.slots@.len() == old(self).persistent.slots@.len()
                    + group_total(groups@)
                &&& forall|i: int|
                    0 <= i < old(self).persistent.slots@.len()
                        ==> #[trigger] final(self).persistent.slots@[i] == old(
                            self,
                        ).persistent.slots@[i]
                &&& final(self).persistent.next_generation == old(
                    self,
                ).persistent.next_generation + group_total(groups@)
            },
            groups@.len() == 0 ==> *final(self) == *old(self),
    {
        let ng = groups.len();
        let mut g: usize = 0;
        while g < ng
            invariant
                g <= ng,
                ng == groups@.len(),
                *self == *old(self),
                old(self).wf(),
                old(self).steady(),
                forall|h: int| 0 <= h < g ==> self.spec_has_layer((#[trigger] groups@[h]).0@),
            decreases ng - g,
        {
            if !self.has_layer(groups[g].0.as_str()) {
                proof {
                    assert(*self == *old(self));
                    assert(self.wf());
                    assert(self.steady());
                    assert(!old(self).spec_has_layer(groups@[g as int].0@));
                    assert(!groups_registered(*old(self), groups@));
                }
                return Result::Err(FrameError::UnknownSpawnLayer);
            }
            g = g + 1;
        }
        let mut remaining: u64 = u64::MAX - self.persistent.next_generation;
        let mut g2: usize = 0;
        while g2 < ng
            invariant
                g2 <= ng,
                ng == groups@.len(),
                *self == *old(self),
                old(self).wf(),
                old(self).steady(),
                groups_registered(*old(self), groups@),
                group_total(groups@.subrange(0, g2 as int)) <= u64::MAX
                    - self.persistent.next_generation,
                remaining == u64::MAX - self.persistent.next_generation - group_total(
                    groups@.subrange(0, g2 as int),
                ),
            decreases ng - g2,
        {
            let glen = groups[g2].1.len();
            proof {
                assert(groups@.subrange(0, (g2 + 1) as int) =~= groups@.subrange(
                    0,
                    g2 as int,
                ).push(groups@[g2 as int]));
                lemma_group_total_append(groups@.subrange(0, g2 as int), groups@[g2 as int]);
            }
            if (glen as u64) > remaining {
                proof {
                    lemma_group_total_prefix(groups@, (g2 + 1) as int);
                    assert(group_total(groups@) >= group_total(
                        groups@.subrange(0, (g2 + 1) as int),
                    ));
                    assert(old(self).persistent.next_generation + group_total(groups@)
                        > u64::MAX);
                    assert(*self == *old(self));
                    assert(self.wf());
                    assert(self.steady());
                }
                return Result::Err(FrameError::Capacity);
            }
            remaining = remaining - (glen as u64);
            g2 = g2 + 1;
        }
        proof {
            assert(groups@.subrange(0, ng as int) =~= groups@);
        }
        let ghost groups0 = groups@;
        proof {
            assert(groups@ =~= groups0.subrange(
                groups0.len() - groups@.len(),
                groups0.len() as int,
            ));
        }
        let mut groups = groups;
        while groups.len() > 0
            invariant
                self.wf(),
                self.steady(),
                old(self).wf(),
                self.layer_names == old(self).layer_names,
                self.volatile == old(self).volatile,
                groups_registered(*old(self), groups0),
                groups0.len() == 0 ==> *self == *old(self),
                groups@.len() <= groups0.len(),
                groups@ == groups0.subrange(
                    groups0.len() - groups@.len(),
                    groups0.len() as int,
                ),
                self.persistent.next_generation + group_total(groups@)
                    == old(self).persistent.next_generation + group_total(groups0),
                self.persistent.next_generation + group_total(groups@) <= u64::MAX,
                self.persistent.slots@.len() >= old(self).persistent.slots@.len(),
                self.persistent.slots@.len() + group_total(groups@) == old(
                    self,
                ).persistent.slots@.len() + group_total(groups0),
                forall|i: int|
                    0 <= i < old(self).persistent.slots@.len()
                        ==> #[trigger] self.persistent.slots@[i] == old(
                            self,
                        ).persistent.slots@[i],
                self.persistent.layers@.len() == old(self).persistent.layers@.len(),
                forall|l: int|
                    0 <= l < old(self).num_layers()
                        ==> #[trigger] self.persistent.layer_objects(l) + spawned_for(
                            groups@,
                            old(self).names()[l],
                        ) == old(self).persistent.layer_objects(l) + spawned_for(
                            groups0,
                            old(self).names()[l],
                        ),
            decreases groups@.len(),
        {
            let ghost rem = groups@;
            let ghost d = groups0.len() - rem.len();
            let (name, objs) = groups.remove(0);
            proof {
                assert(groups@ =~= rem.drop_first());
                assert(rem == groups0.subrange(d as int, groups0.len() as int));
                assert(rem[0] == groups0.subrange(d as int, groups0.len() as int)[0]);
                assert(rem[0] == groups0[d as int]);
                assert(old(self).spec_has_layer(groups0[d as int].0@));
                assert(groups@ =~= groups0.subrange(d + 1, groups0.len() as int));
                assert(name == rem[0].0);
                assert(old(self).spec_has_layer(name@));
                assert(self.names() == old(self).names());
                assert(self.spec_has_layer(name@));
            }
            let li = match self.find_layer(name.as_str()) {
                Some(li) => li,
                None => {
                    proof {
                        assert(false);
                    }
                    vstd::pervasive::unreached()
                },
            };
            let ghost base = self.persistent;
            let ghost objs0 = objs@;
            let mut objs = objs;
            proof {
                assert(group_total(rem) == rem[0].1@.len() + group_total(rem.drop_first()));
                assert(objs0.subrange(0, 0) =~= Seq::<P>::empty());
                assert(base.layer_objects(li as int) + Seq::<P>::empty() =~= base.layer_objects(
                    li as int,
                ));
                assert(objs@ =~= objs0.subrange(
                    objs0.len() - objs@.len(),
                    objs0.len() as int,
                ));
            }
            while objs.len() > 0
                invariant
                    self.wf(),
                    self.steady(),
                    old(self).wf(),
                    self.layer_names == old(self).layer_names,
                    self.volatile == old(self).volatile,
                    (li as int) < self.persistent.layers@.len(),
                    base.wf(),
                    self.persistent.layers@.len() == base.layers@.len(),
                    base.layers@.len() == old(self).persistent.layers@.len(),
                    objs@.len() <= objs0.len(),
                    objs@ == objs0.subrange(objs0.len() - objs@.len(), objs0.len() as int),
                    self.persistent.next_generation + objs@.len() == base.next_generation
                        + objs0.len(),
                    self.persistent.next_generation + objs@.len() + group_total(groups@)
                        <= u64::MAX,
                    self.persistent.slots@.len() >= base.slots@.len(),
                    base.slots@.len() >= old(self).persistent.slots@.len(),
                    self.persistent.slots@.len() + objs@.len() == base.slots@.len()
                        + objs0.len(),
                    forall|i: int|
                        0 <= i < base.slots@.len()
                            ==> #[trigger] self.persistent.slots@[i] == base.slots@[i],
                    self.persistent.layer_objects(li as int) == base.layer_objects(li as int)
                        + objs0.subrange(0, objs0.len() - objs@.len()),
                    forall|l2: int|
                        0 <= l2 < base.layers@.len() && l2 != li
                            ==> #[trigger] self.persistent.layer_objects(l2)
                                == base.layer_objects(l2),
                decreases objs@.len(),
            {
                let ghost objs_rem = objs@;
                let ghost dd = objs0.len() - objs_rem.len();
                let obj = objs.remove(0);
                proof {
                    assert(objs@ =~= objs_rem.drop_first());
                    assert(objs_rem == objs0.subrange(dd as int, objs0.len() as int));
                    assert(objs_rem[0] == objs0.subrange(dd as int, objs0.len() as int)[0]);
                    assert(obj == objs0[dd as int]);
                    assert(objs@ =~= objs0.subrange(dd + 1, objs0.len() as int));
                }
                let ghost prevp = self.persistent;
                let id = self.persistent.spawn(li, obj);
                proof {
                    lemma_spawn_extends_layer_objects(
                        prevp,
                        self.persistent,
                        li as int,
                        obj,
                        id.index,
                    );
                    assert(objs0.subrange(0, dd + 1) =~= objs0.subrange(0, dd as int).push(obj));
                    assert((base.layer_objects(li as int) + objs0.subrange(0, dd as int)).push(
                        obj,
                    ) =~= base.layer_objects(li as int) + objs0.subrange(0, dd + 1));
                }
            }
            proof {
                let nowp = self.persistent;
                assert(objs0.subrange(0, objs0.len() as int) =~= objs0);
                assert(nowp.layer_objects(li as int) == base.layer_objects(li as int) + objs0);
                assert(rem[0].1@ == objs0);
                assert forall|i: int|
                    0 <= i < old(self).persistent.slots@.len() implies
                    #[trigger] nowp.slots@[i] == old(self).persistent.slots@[i] by {
                    assert(nowp.slots@[i] == base.slots@[i]);
                }
                assert forall|l: int|
                    0 <= l < old(self).num_layers() implies
                    #[trigger] nowp.layer_objects(l) + spawned_for(
                        groups@,
                        old(self).names()[l],
                    ) == old(self).persistent.layer_objects(l) + spawned_for(
                        groups0,
                        old(self).names()[l],
                    ) by {
                    let nm = old(self).names()[l];
                    assert(spawned_for(rem, nm) == (if rem[0].0@ == nm {
                        rem[0].1@
                    } else {
                        Seq::empty()
                    }) + spawned_for(rem.drop_first(), nm));
                    if l == li as int {
                        assert(rem[0].0@ == nm);
                        assert((base.layer_objects(l) + objs0) + spawned_for(groups@, nm)
                            =~= base.layer_objects(l) + (objs0 + spawned_for(groups@, nm)));
                    } else {
                        assert(old(self).names()[li as int] == name@);
                        assert(nm != rem[0].0@);
                        assert(Seq::<P>::empty() + spawned_for(groups@, nm) =~= spawned_for(
                            groups@,
                            nm,
                        ));
                        assert(nowp.layer_objects(l) == base.layer_objects(l));
                    }
                }
            }
        }
        proof {
            assert(group_total(groups@) == 0);
            assert forall|l: int|
                0 <= l < old(self).num_layers() implies
                #[trigger] self.persistent.layer_objects(l) == old(
                    self,
                ).persistent.layer_objects(l) + spawned_for(groups0, old(self).names()[l]) by {
                let nm = old(self).names()[l];
                assert(spawned_for(groups@, nm) =~= Seq::<P>::empty());
                assert(self.persistent.layer_objects(l) + Seq::<P>::empty()
                    =~= self.persistent.layer_objects(l));
            }
        }
        Result::Ok(())
    }
}

impl<P: Persistent<V>, V: Volatile<P>> GameState<P, V> {
    /// Phase four, volatile half: appends the collected volatile spawn
    /// requests to their target layers, in request order. Nothing is
    /// inserted unless every request names a registered layer and identity
    /// stamps suffice; on an error the registry is unchanged. (A request
    /// into an unregistered layer is a programming error of the entity that
    /// made it; it is surfaced, never silently dropped.)
    pub fn insert_spawns_volatile(&mut self, groups: Vec<(String, Vec<V>)>) -> (r: Result<
        (),
        FrameError,
    >)
        requires
            old(self).wf(),
            old(self).steady(),
        ensures
            final(self).wf(),
            final(self).steady(),
            final(self).layer_names == old(self).layer_names,
            final(self).persistent == old(self).persistent,
            (r == Result::<(), FrameError>::Err(FrameError::UnknownSpawnLayer)) <==> !groups_registered(
                *old(self),
                groups@,
            ),
            (r == Result::<(), FrameError>::Err(FrameError::Capacity)) <==> (groups_registered(
                *old(self),
                groups@,
            ) && old(self).volatile.next_generation + group_total(groups@) > u64::MAX),
            r is Err ==> final(self).volatile == old(self).volatile,
            r is Ok ==> {
                &&& forall|l: int|
                    0 <= l < old(self).num_layers()
                        ==> #[trigger] final(self).volatile.layer_objects(l) == old(
                            self,
                        ).volatile.layer_objects(l) + spawned_for(
                            groups@,
                            old(self).names()[l],
                        )
                &&& final(self).volatile.slots@.len() == old(self).volatile.slots@.len()
                    + group_total(groups@)
                &&& forall|i: int|
                    0 <= i < old(self).volatile.slots@.len()
                        ==> #[trigger] final(self).volatile.slots@[i] == old(
                            self,
                        ).volatile.slots@[i]
                &&& final(self).volatile.next_generation == old(
                    self,
                ).volatile.next_generation + group_total(groups@)
            },
            groups@.len() == 0 ==> *final(self) == *old(self),
    {
        let ng = groups.len();
        let mut g: usize = 0;
        while g < ng
            invariant
                g <= ng,
                ng == groups@.len(),
                *self == *old(self),
                old(self).wf(),
                old(self).steady(),
                forall|h: int| 0 <= h < g ==> self.spec_has_layer((#[trigger] groups@[h]).0@),
            decreases ng - g,
        {
            if !self.has_layer(groups[g].0.as_str()) {
                proof {
                    assert(*self == *old(self));
                    assert(self.wf());
                    assert(self.steady());
                    assert(!old(self).spec_has_layer(groups@[g as int].0@));
                    assert(!groups_registered(*old(self), groups@));
                }
                return Result::Err(FrameError::UnknownSpawnLayer);
            }
            g = g + 1;
        }
        let mut remaining: u64 = u64::MAX - self.volatile.next_generation;
        let mut g2: usize = 0;
        while g2 < ng
            invariant
                g2 <= ng,
                ng == groups@.len(),
                *self == *old(self),
                old(self).wf(),
                old(self).steady(),
                groups_registered(*old(self), groups@),
                group_total(groups@.subrange(0, g2 as int)) <= u64::MAX
                    - self.volatile.next_generation,
                remaining == u64::MAX - self.volatile.next_generation - group_total(
                    groups@.subrange(0, g2 as int),
                ),
            decreases ng - g2,
        {
            let glen = groups[g2].1.len();
            proof {
                assert(groups@.subrange(0, (g2 + 1) as int) =~= groups@.subrange(
                    0,
                    g2 as int,
                ).push(groups@[g2 as int]));
                lemma_group_total_append(groups@.subrange(0, g2 as int), groups@[g2 as int]);
            }
            if (glen as u64) > remaining {
                proof {
                    lemma_group_total_prefix(groups@, (g2 + 1) as int);
                    assert(group_total(groups@) >= group_total(
                        groups@.subrange(0, (g2 + 1) as int),
                    ));
                    assert(old(self).volatile.next_generation + group_total(groups@)
                        > u64::MAX);
                    assert(*self == *old(self));
                    assert(self.wf());
                    assert(self.steady());
                }
                return Result::Err(FrameError::Capacity);
            }
            remaining = remaining - (glen as u64);
            g2 = g2 + 1;
        }
        proof {
            assert(groups@.subrange(0, ng as int) =~= groups@);
        }
        let ghost groups0 = groups@;
        proof {
            assert(groups@ =~= groups0.subrange(
                groups0.len() - groups@.len(),
                groups0.len() as int,
            ));
        }
        let mut groups = groups;
        while groups.len() > 0
            invariant
                self.wf(),
                self.steady(),
                old(self).wf(),
                self.layer_names == old(self).layer_names,
                self.persistent == old(self).persistent,
                groups_registered(*old(self), groups0),
                groups0.len() == 0 ==> *self == *old(self),
                groups@.len() <= groups0.len(),
                groups@ == groups0.subrange(
                    groups0.len() - groups@.len(),
                    groups0.len() as int,
                ),
                self.volatile.next_generation + group_total(groups@)
                    == old(self).volatile.next_generation + group_total(groups0),
                self.volatile.next_generation + group_total(groups@) <= u64::MAX,
                self.volatile.slots@.len() >= old(self).volatile.slots@.len(),
                self.volatile.slots@.len() + group_total(groups@) == old(
                    self,
                ).volatile.slots@.len() + group_total(groups0),
                forall|i: int|
                    0 <= i < old(self).volatile.slots@.len()
                        ==> #[trigger] self.volatile.slots@[i] == old(
                            self,
                        ).volatile.slots@[i],
                self.volatile.layers@.len() == old(self).volatile.layers@.len(),
                forall|l: int|
                    0 <= l < old(self).num_layers()
                        ==> #[trigger] self.volatile.layer_objects(l) + spawned_for(
                            groups@,
                            old(self).names()[l],
                        ) == old(self).volatile.layer_objects(l) + spawned_for(
                            groups0,
                            old(self).names()[l],
                        ),
            decreases groups@.len(),
        {
            let ghost rem = groups@;
            let ghost d = groups0.len() - rem.len();
            let (name, objs) = groups.remove(0);
            proof {
                assert(groups@ =~= rem.drop_first());
                assert(rem == groups0.subrange(d as int, groups0.len() as int));
                assert(rem[0] == groups0.subrange(d as int, groups0.len() as int)[0]);
                assert(rem[0] == groups0[d as int]);
                assert(old(self).spec_has_layer(groups0[d as int].0@));
                assert(groups@ =~= groups0.subrange(d + 1, groups0.len() as int));
                assert(name == rem[0].0);
                assert(old(self).spec_has_layer(name@));
                assert(self.names() == old(self).names());
                assert(self.spec_has_layer(name@));
            }
            let li = match self.find_layer(name.as_str()) {
                Some(li) => li,
                None => {
                    proof {
                        assert(false);
                    }
                    vstd::pervasive::unreached()
                },
            };
            let ghost base = self.volatile;
            let ghost objs0 = objs@;
            let mut objs = objs;
            proof {
                assert(group_total(rem) == rem[0].1@.len() + group_total(rem.drop_first()));
                assert(objs0.subrange(0, 0) =~= Seq::<V>::empty());
                assert(base.layer_objects(li as int) + Seq::<V>::empty() =~= base.layer_objects(
                    li as int,
                ));
                assert(objs@ =~= objs0.subrange(
                    objs0.len() - objs@.len(),
                    objs0.len() as int,
                ));
            }
            while objs.len() > 0
                invariant
                    self.wf(),
                    self.steady(),
                    old(self).wf(),
                    self.layer_names == old(self).layer_names,
                    self.persistent == old(self).persistent,
                    (li as int) < self.volatile.layers@.len(),
                    base.wf(),
                    self.volatile.layers@.len() == base.layers@.len(),
                    base.layers@.len() == old(self).volatile.layers@.len(),
                    objs@.len() <= objs0.len(),
                    objs@ == objs0.subrange(objs0.len() - objs@.len(), objs0.len() as int),
                    self.volatile.next_generation + objs@.len() == base.next_generation
                        + objs0.len(),
                    self.volatile.next_generation + objs@.len() + group_total(groups@)
                        <= u64::MAX,
                    self.volatile.slots@.len() >= base.slots@.len(),
                    base.slots@.len() >= old(self).volatile.slots@.len(),
                    self.volatile.slots@.len() + objs@.len() == base.slots@.len()
                        + objs0.len(),
                    forall|i: int|
                        0 <= i < base.slots@.len()
                            ==> #[trigger] self.volatile.slots@[i] == base.slots@[i],
                    self.volatile.layer_objects(li as int) == base.layer_objects(li as int)
                        + objs0.subrange(0, objs0.len() - objs@.len()),
                    forall|l2: int|
                        0 <= l2 < base.layers@.len() && l2 != li
                            ==> #[trigger] self.volatile.layer_objects(l2)
                                == base.layer_objects(l2),
                decreases objs@.len(),
            {
                let ghost objs_rem = objs@;
                let ghost dd = objs0.len() - objs_rem.len();
                let obj = objs.remove(0);
                proof {
                    assert(objs@ =~= objs_rem.drop_first());
                    assert(objs_rem == objs0.subrange(dd as int, objs0.len() as int));
                    assert(objs_rem[0] == objs0.subrange(dd as int, objs0.len() as int)[0]);
                    assert(obj == objs0[dd as int]);
                    assert(objs@ =~= objs0.subrange(dd + 1, objs0.len() as int));
                }
                let ghost prevp = self.volatile;
                let id = self.volatile.spawn(li, obj);
                proof {
                    lemma_spawn_extends_layer_objects(
                        prevp,
                        self.volatile,
                        li as int,
                        obj,
                        id.index,
                    );
                    assert(objs0.subrange(0, dd + 1) =~= objs0.subrange(0, dd as int).push(obj));
                    assert((base.layer_objects(li as int) + objs0.subrange(0, dd as int)).push(
                        obj,
                    ) =~= base.layer_objects(li as int) + objs0.subrange(0, dd + 1));
                }
            }
            proof {
                let nowp = self.volatile;
                assert(objs0.subrange(0, objs0.len() as int) =~= objs0);
                assert(nowp.layer_objects(li as int) == base.layer_objects(li as int) + objs0);
                assert(rem[0].1@ == objs0);
                assert forall|i: int|
                    0 <= i < old(self).volatile.slots@.len() implies
                    #[trigger] nowp.slots@[i] == old(self).volatile.slots@[i] by {
                    assert(nowp.slots@[i] == base.slots@[i]);
                }
                assert forall|l: int|
                    0 <= l < old(self).num_layers() implies
                    #[trigger] nowp.layer_objects(l) + spawned_for(
                        groups@,
                        old(self).names()[l],
                    ) == old(self).volatile.layer_objects(l) + spawned_for(
                        groups0,
                        old(self).names()[l],
                    ) by {
                    let nm = old(self).names()[l];
                    assert(spawned_for(rem, nm) == (if rem[0].0@ == nm {
                        rem[0].1@
                    } else {
                        Seq::empty()
                    }) + spawned_for(rem.drop_first(), nm));
                    if l == li as int {
                        assert(rem[0].0@ == nm);
                        assert((base.layer_objects(l) + objs0) + spawned_for(groups@, nm)
                            =~= base.layer_objects(l) + (objs0 + spawned_for(groups@, nm)));
                    } else {
                        assert(old(self).names()[li as int] == name@);
                        assert(nm != rem[0].0@);
                        assert(Seq::<V>::empty() + spawned_for(groups@, nm) =~= spawned_for(
                            groups@,
                            nm,
                        ));
                        assert(nowp.layer_objects(l) == base.layer_objects(l));
                    }
                }
            }
        }
        proof {
            assert(group_total(groups@) == 0);
            assert forall|l: int|
                0 <= l < old(self).num_layers() implies
                #[trigger] self.volatile.layer_objects(l) == old(
                    self,
                ).volatile.layer_objects(l) + spawned_for(groups0, old(self).names()[l]) by {
                let nm = old(self).names()[l];
                assert(spawned_for(groups@, nm) =~= Seq::<V>::empty());
                assert(self.volatile.layer_objects(l) + Seq::<V>::empty()
                    =~= self.volatile.layer_objects(l));
            }
        }
        Result::Ok(())
    }
}

/// A weak reference alive before the rate phases is still alive, under the
/// same identity, once both rate phases completed: despawns happen strictly
/// after every entity generated and applied its rate, so an entity reading
/// another through a reference during those phases always finds its
/// pre-despawn state.
pub proof fn lemma_rate_phases_preserve_liveness<T>(
    s0: Pool<T>,
    s1: Pool<T>,
    s2: Pool<T>,
    id: crate::slot::SlotId,
)
    requires
        phase_shape(s0, s1),
        phase_shape(s1, s2),
        s1.steady(),
        s2.steady(),
        s0.id_live(id),
    ensures
        s2.id_live(id),
        s2.id_valid(id),
{
    assert(!(s1.slots@[id.index as int].cell is Vacant));
    assert(!(s2.slots@[id.index as int].cell is Vacant));
}


/// Relation between a pool before and after one whole frame: the arena only
/// grows, every slot that already existed keeps its generation stamp, and a
/// pre-existing slot holding an entity afterwards held one before — entities
/// despawn or are appended, but a slot is never refilled under an old stamp.
pub open spec fn frame_shape<T>(prev: Pool<T>, cur: Pool<T>) -> bool {
    &&& cur.slots@.len() >= prev.slots@.len()
    &&& cur.next_generation >= prev.next_generation
    &&& forall|i: int|
        0 <= i < prev.slots@.len()
            ==> (#[trigger] cur.slots@[i]).generation == prev.slots@[i].generation
    &&& forall|i: int|
        0 <= i < prev.slots@.len()
            ==> ((#[trigger] cur.slots@[i]).cell is Vacant ==> prev.slots@[i].cell is Vacant
                || prev.slots@[i].cell is Present)
    &&& forall|i: int|
        0 <= i < prev.slots@.len()
            ==> (!((#[trigger] cur.slots@[i]).cell is Vacant) ==> !(prev.slots@[i].cell
                is Vacant))
}

/// Chains the four phase relations (with the insertion phase abstracted to
/// "the old arena is a prefix") into the whole-frame relation.
proof fn lemma_frame_chain<T>(s0: Pool<T>, s1: Pool<T>, s2: Pool<T>, s3: Pool<T>, s4: Pool<T>)
    requires
        s0.steady(),
        phase_shape(s0, s1),
        phase_shape(s1, s2),
        despawn_shape(s2, s3),
        s4.slots@.len() >= s3.slots@.len(),
        s4.next_generation >= s3.next_generation,
        forall|i: int|
            0 <= i < s3.slots@.len() ==> #[trigger] s4.slots@[i] == s3.slots@[i],
    ensures
        frame_shape(s0, s4),
{
    assert forall|i: int|
        0 <= i < s0.slots@.len() implies
        (#[trigger] s4.slots@[i]).generation == s0.slots@[i].generation
            && ((s4.slots@[i].cell is Vacant) ==> (s0.slots@[i].cell is Vacant
                || s0.slots@[i].cell is Present))
            && (!(s4.slots@[i].cell is Vacant) ==> !(s0.slots@[i].cell is Vacant)) by {
        assert(s1.slots@[i].generation == s0.slots@[i].generation);
        assert((s1.slots@[i].cell is Vacant) <==> (s0.slots@[i].cell is Vacant));
        assert(s2.slots@[i].generation == s1.slots@[i].generation);
        assert((s2.slots@[i].cell is Vacant) <==> (s1.slots@[i].cell is Vacant));
        assert(!(s0.slots@[i].cell is Taken));
        assert(s4.slots@[i] == s3.slots@[i]);
        assert(s3.slots@[i] == s2.slots@[i] || (s2.slots@[i].cell is Present
            && s3.slots@[i] == EntitySlot {
            generation: s2.slots@[i].generation,
            cell: SlotCell::<T>::Vacant,
        }));
    }
}

/// No resurrection: a handle into the pre-frame arena that resolves alive
/// after a frame was alive before it. Slots despawn or are appended at fresh
/// stamps; none comes back from the dead.
pub proof fn lemma_no_resurrection<T>(prev: Pool<T>, cur: Pool<T>, id: crate::slot::SlotId)
    requires
        frame_shape(prev, cur),
        prev.steady(),
        (id.index as int) < prev.slots@.len(),
        cur.id_live(id),
    ensures
        prev.id_live(id),
{
    assert(!(prev.slots@[id.index as int].cell is Vacant));
    assert(!(prev.slots@[id.index as int].cell is Taken));
}

impl<P: Persistent<V>, V: Volatile<P>> GameState<P, V> {
    /// One simulated frame: generate rates, apply rates, despawn check, then
    /// insertion of the collected spawn requests (persistent before
    /// volatile), each phase completing over every layer and both entity
    /// kinds before the next begins. An error means an entity requested a
    /// spawn the registry cannot grant; the rate and despawn phases have
    /// completed, the failing insertion batch was abandoned whole, and the
    /// registry is steady and well-formed either way. Whatever the entities
    /// did, slot identities are stable: pre-existing slots keep their stamps
    /// and a dead handle never comes back alive (`frame_shape`).
    pub fn run_frame(&mut self) -> (r: Result<(), FrameError>)
        requires
            old(self).wf(),
            old(self).steady(),
        ensures
            final(self).wf(),
            final(self).steady(),
            final(self).layer_names == old(self).layer_names,
            frame_shape(old(self).persistent, final(self).persistent),
            frame_shape(old(self).volatile, final(self).volatile),
            (old(self).persistent.arena_len() == 0 && old(self).volatile.arena_len() == 0)
                ==> r is Ok && *final(self) == *old(self),
    {
        let ghost empty_start = old(self).persistent.arena_len() == 0 && old(
            self,
        ).volatile.arena_len() == 0;
        let ghost s0p = self.persistent;
        let ghost s0v = self.volatile;
        self.generate_rates();
        let ghost g1 = *self;
        let ghost s1p = self.persistent;
        let ghost s1v = self.volatile;
        self.apply_rates();
        let ghost g2 = *self;
        let ghost s2p = self.persistent;
        let ghost s2v = self.volatile;
        proof {
            if empty_start {
                assert(g1 == *old(self));
                assert(g2 == g1);
            }
        }
        let (pspawns, vspawns) = self.despawn_and_collect();
        let ghost g3 = *self;
        let ghost s3p = self.persistent;
        let ghost s3v = self.volatile;
        proof {
            if empty_start {
                assert(g3 == g2 && pspawns@.len() == 0 && vspawns@.len() == 0);
            }
        }
        match self.insert_spawns_persistent(pspawns) {
            Result::Ok(()) => {},
            Result::Err(e) => {
                proof {
                    lemma_frame_chain(s0p, s1p, s2p, s3p, self.persistent);
                    lemma_frame_chain(s0v, s1v, s2v, s3v, self.volatile);
                    if empty_start {
                        assert(group_total(pspawns@) == 0);
                        assert(false);
                    }
                }
                return Result::Err(e);
            },
        }
        let ghost g4 = *self;
        let ghost s4p = self.persistent;
        proof {
            lemma_frame_chain(s0p, s1p, s2p, s3p, s4p);
            if empty_start {
                assert(g4 == g3);
            }
        }
        match self.insert_spawns_volatile(vspawns) {
            Result::Ok(()) => {},
            Result::Err(e) => {
                proof {
                    lemma_frame_chain(s0v, s1v, s2v, s3v, self.volatile);
                    assert(self.persistent == s4p);
                    if empty_start {
                        assert(group_total(vspawns@) == 0);
                        assert(false);
                    }
                }
                return Result::Err(e);
            },
        }
        proof {
            lemma_frame_chain(s0v, s1v, s2v, s3v, self.volatile);
            assert(self.persistent == s4p);
            if empty_start {
                assert(*self == g4);
                assert(*self == *old(self));
            }
        }
        Result::Ok(())
    }
}

impl<P, V> GameState<P, V> {
    /// Presentation: draws every entity onto the injected render sink, layer
    /// by layer in registry order, volatile entities before persistent ones
    /// within each layer. Reads only; the registry is untouched.
    pub fn render_all<S>(&self, sink: &mut S) where P: Render<S>, V: Render<S>
        requires
            self.wf(),
            self.steady(),
    {
        let nl = self.layer_names.len();
        let mut l: usize = 0;
        while l < nl
            invariant
                self.wf(),
                self.steady(),
                nl == self.num_layers(),
            decreases nl - l,
        {
            let nv = self.volatile.layer_len(l);
            let mut k: usize = 0;
            while k < nv
                invariant
                    self.wf(),
                    self.steady(),
                    l < self.num_layers(),
                    nv == self.volatile.layer_at(l as int).len(),
                decreases nv - k,
            {
                proof {
                    let i = self.volatile.layer_at(l as int)[k as int];
                    assert(!(self.volatile.slots@[i as int].cell is Taken));
                }
                let e = self.volatile.object_ref_at(l, k);
                e.render(sink);
                k = k + 1;
            }
            let np = self.persistent.layer_len(l);
            let mut k2: usize = 0;
            while k2 < np
                invariant
                    self.wf(),
                    self.steady(),
                    l < self.num_layers(),
                    np == self.persistent.layer_at(l as int).len(),
                decreases np - k2,
            {
                proof {
                    let i = self.persistent.layer_at(l as int)[k2 as int];
                    assert(!(self.persistent.slots@[i as int].cell is Taken));
                }
                let e = self.persistent.object_ref_at(l, k2);
                e.render(sink);
                k2 = k2 + 1;
            }
            l = l + 1;
        }
    }
}

/// Spawn deferral, counting instance: one granted request spawning one
/// entity contributes exactly one entity, to its target layer and to no
/// other. With the insertion contracts (each layer ends as its old content
/// plus exactly `spawned_for` appended) this gives the per-frame count: one
/// request per frame grows the total by exactly one. Stamp headroom on the
/// counter is the one machine-limit side condition; that the new entity
/// takes no part in the frame that requested it is the append-only shape of
/// the phases below.
pub proof fn lemma_single_spawn_grows_by_one<T>(
    groups: Seq<(String, Vec<T>)>,
    name: Seq<char>,
    other: Seq<char>,
)
    requires
        groups.len() == 1,
        groups[0].0@ == name,
        groups[0].1@.len() == 1,
        other != name,
    ensures
        group_total(groups) == 1,
        spawned_for(groups, name).len() == 1,
        spawned_for(groups, other).len() == 0,
{
    let rest = groups.drop_first();
    assert(rest =~= Seq::<(String, Vec<T>)>::empty());
    assert(group_total(rest) == 0);
    assert(spawned_for(rest, name) =~= Seq::<T>::empty());
    assert(spawned_for(rest, other) =~= Seq::<T>::empty());
    assert(spawned_for(groups, name) == groups[0].1@ + spawned_for(rest, name));
    assert(spawned_for(groups, other) == Seq::<T>::empty() + spawned_for(rest, other));
}

/// Spawn deferral, first half: the despawn phase never adds to a layer. A
/// slot listed after the phase was listed before it, in the same relative
/// order, and a layer never grows — entities spawned during the phase are
/// appended only by the insertion phase afterwards (see the insertion
/// functions' contracts), so they take no part in the frame that requested
/// them.
pub proof fn lemma_despawn_never_inserts<T>(prev: Pool<T>, cur: Pool<T>, l: int)
    requires
        despawn_shape(prev, cur),
        0 <= l < prev.layers@.len(),
    ensures
        cur.layer_at(l).len() <= prev.layer_at(l).len(),
        forall|k: int|
            0 <= k < cur.layer_at(l).len() ==> prev.layer_at(l).contains(
                #[trigger] cur.layer_at(l)[k],
            ),
{
    let pred = alive_in(cur);
    Seq::lemma_filter_len(prev.layer_at(l), pred);
    assert forall|k: int|
        0 <= k < cur.layer_at(l).len() implies prev.layer_at(l).contains(
        #[trigger] cur.layer_at(l)[k]) by {
        assert(prev.layer_at(l).filter(pred).contains(cur.layer_at(l)[k]));
        Seq::lemma_filter_contains_rev(prev.layer_at(l), pred, cur.layer_at(l)[k]);
    }
}

} // verus!
