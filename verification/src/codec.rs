//! The reference-graph codec: saving a registry to a document and rebuilding
//! a registry from one.
//!
//! Saving walks all persistent layers in registry order and assigns each
//! live slot a dense integer tag — its position in that traversal. Each
//! entity's declared weak references are then encoded as tag values: a
//! never-set reference stays `Unset`, a reference whose target is gone
//! becomes `Dangling`, and a reference to a live slot becomes `Tag(n)`
//! (possibly the entity's own tag, for a self-reference).
//!
//! Loading reverses the process: it validates the document's layer-name set
//! against the live registry, rebuilds every entity from its kind tag, wires
//! every `Tag(n)` back to a weak handle on the slot rebuilt for tag `n`, and
//! only then atomically replaces the live persistent pool. A load that fails
//! any validation leaves the registry completely unchanged.

use vstd::prelude::*;

use crate::doc::{LoadError, RefCode, SaveDoc, SavedLayer, SavedObject};
use crate::entity::Persistent;
use crate::pool::Pool;
use crate::refs::{MaybePersistentRef, PersistentRef};
use crate::slot::{SlotCell, SlotId};
use crate::state::GameState;

verus! {

/// The arena indices of a pool's slots in traversal order (layer order, then
/// in-layer order), restricted to the first `l` layers.
pub open spec fn order_seq<T>(pool: Pool<T>, l: int) -> Seq<usize>
    decreases l,
{
    if l <= 0 {
        Seq::empty()
    } else {
        order_seq(pool, l - 1) + pool.layer_at(l - 1)
    }
}

/// The save-time tag of the slot at position `k` of layer `l`: its position
/// in the full traversal. Valid only for one save; recomputed every time.
pub open spec fn tag_of<T>(pool: Pool<T>, l: int, k: int) -> int {
    order_seq(pool, l).len() + k
}

/// The tag table the save pass computes: one entry per arena slot, holding
/// the slot's traversal tag, or nothing for a vacated slot.
pub open spec fn tags_assigned<T>(pool: Pool<T>, tags: Seq<Option<u64>>) -> bool {
    &&& tags.len() == pool.slots@.len()
    &&& order_seq(pool, pool.num_layers()).len() <= u64::MAX
    &&& forall|l: int, k: int|
        0 <= l < pool.num_layers() && 0 <= k < pool.layer_at(l).len()
            ==> tags[pool.layer_at(l)[k] as int] == Some(tag_of(pool, l, k) as u64)
    &&& forall|i: int|
        0 <= i < tags.len() && !pool.listed(i) ==> (#[trigger] tags[i]) is None
}

/// Earlier traversal prefixes are prefixes of later ones.
proof fn lemma_order_prefix<T>(pool: Pool<T>, l1: int, l2: int)
    requires
        0 <= l1 <= l2,
    ensures
        order_seq(pool, l1).len() <= order_seq(pool, l2).len(),
        forall|t: int|
            0 <= t < order_seq(pool, l1).len()
                ==> #[trigger] order_seq(pool, l2)[t] == order_seq(pool, l1)[t],
    decreases l2 - l1,
{
    if l1 < l2 {
        lemma_order_prefix(pool, l1, l2 - 1);
    }
}

/// The traversal places the slot at layer position `(l, k)` at index
/// `tag_of(pool, l, k)`.
pub proof fn lemma_order_index<T>(pool: Pool<T>, l: int, k: int)
    requires
        0 <= l < pool.num_layers(),
        0 <= k < pool.layer_at(l).len(),
    ensures
        0 <= tag_of(pool, l, k) < order_seq(pool, pool.num_layers()).len(),
        order_seq(pool, pool.num_layers())[tag_of(pool, l, k)] == pool.layer_at(l)[k],
{
    assert(order_seq(pool, l + 1) == order_seq(pool, l) + pool.layer_at(l));
    assert(order_seq(pool, l + 1)[tag_of(pool, l, k)] == pool.layer_at(l)[k]);
    lemma_order_prefix(pool, l + 1, pool.num_layers());
}

/// Every traversal position comes from a unique layer position.
proof fn lemma_order_covered<T>(pool: Pool<T>, l: int, t: int)
    requires
        0 <= l,
        0 <= t < order_seq(pool, l).len(),
    ensures
        exists|l2: int, k: int|
            0 <= l2 < l && 0 <= k < pool.layer_at(l2).len() && tag_of(pool, l2, k) == t
                && #[trigger] pool.layer_at(l2)[k] == order_seq(pool, l)[t],
    decreases l,
{
    if t < order_seq(pool, l - 1).len() {
        lemma_order_covered(pool, l - 1, t);
        let (l2, k): (int, int) = choose|l2: int, k: int|
            0 <= l2 < l - 1 && 0 <= k < pool.layer_at(l2).len() && tag_of(pool, l2, k) == t
                && #[trigger] pool.layer_at(l2)[k] == order_seq(pool, l - 1)[t];
        assert(order_seq(pool, l)[t] == order_seq(pool, l - 1)[t]);
        assert(pool.layer_at(l2)[k] == order_seq(pool, l)[t]);
    } else {
        let k = t - order_seq(pool, l - 1).len();
        assert(order_seq(pool, l)[t] == pool.layer_at(l - 1)[k]);
        assert(tag_of(pool, l - 1, k) == t);
    }
}

/// With disjoint layers the traversal lists every arena index at most once.
proof fn lemma_order_nodup<T>(pool: Pool<T>)
    requires
        pool.wf(),
    ensures
        forall|t1: int, t2: int|
            #![trigger order_seq(pool, pool.num_layers())[t1], order_seq(pool, pool.num_layers())[t2]]
            0 <= t1 < order_seq(pool, pool.num_layers()).len() && 0 <= t2 < order_seq(
                pool,
                pool.num_layers(),
            ).len() && t1 != t2 ==> order_seq(pool, pool.num_layers())[t1] != order_seq(
                pool,
                pool.num_layers(),
            )[t2],
{
    let full = order_seq(pool, pool.num_layers());
    assert forall|t1: int, t2: int|
        #![trigger full[t1], full[t2]]
        0 <= t1 < full.len() && 0 <= t2 < full.len() && t1 != t2 implies
        full[t1] != full[t2] by {
        lemma_order_covered(pool, pool.num_layers(), t1);
        lemma_order_covered(pool, pool.num_layers(), t2);
        let (l1, k1): (int, int) = choose|l1: int, k1: int|
            0 <= l1 < pool.num_layers() && 0 <= k1 < pool.layer_at(l1).len() && tag_of(
                pool,
                l1,
                k1,
            ) == t1 && #[trigger] pool.layer_at(l1)[k1] == full[t1];
        let (l2, k2): (int, int) = choose|l2: int, k2: int|
            0 <= l2 < pool.num_layers() && 0 <= k2 < pool.layer_at(l2).len() && tag_of(
                pool,
                l2,
                k2,
            ) == t2 && #[trigger] pool.layer_at(l2)[k2] == full[t2];
        assert((l1, k1) != (l2, k2));
        assert(pool.layer_at(l1)[k1] != pool.layer_at(l2)[k2]);
    }
}

/// Computes the tag table: walks the layers in traversal order and gives the
/// `t`-th slot visited the tag `t`. Vacated (unlisted) slots get no tag.
pub fn assign_tags<T>(pool: &Pool<T>) -> (tags: Vec<Option<u64>>)
    requires
        pool.wf(),
    ensures
        tags_assigned(*pool, tags@),
{
    let nl = pool.layers.len();
    let mut order: Vec<usize> = Vec::new();
    let mut l: usize = 0;
    while l < nl
        invariant
            l <= nl,
            pool.wf(),
            nl == pool.num_layers(),
            order@ == order_seq(*pool, l as int),
        decreases nl - l,
    {
        let n = pool.layer_len(l);
        let mut k: usize = 0;
        while k < n
            invariant
                k <= n,
                l < nl,
                pool.wf(),
                nl == pool.num_layers(),
                n == pool.layer_at(l as int).len(),
                order@ == order_seq(*pool, l as int) + pool.layer_at(l as int).subrange(
                    0,
                    k as int,
                ),
            decreases n - k,
        {
            let idx = pool.handle_at(l, k).index;
            order.push(idx);
            proof {
                assert(pool.layer_at(l as int).subrange(0, (k + 1) as int) =~= pool.layer_at(
                    l as int,
                ).subrange(0, k as int).push(idx));
                assert(order@ =~= order_seq(*pool, l as int) + pool.layer_at(
                    l as int,
                ).subrange(0, (k + 1) as int));
            }
            k = k + 1;
        }
        proof {
            assert(pool.layer_at(l as int).subrange(0, n as int) =~= pool.layer_at(l as int));
            assert(order@ =~= order_seq(*pool, (l + 1) as int));
        }
        l = l + 1;
    }
    proof {
        lemma_order_nodup(*pool);
    }
    let ghost full = order_seq(*pool, pool.num_layers());
    let nt = order.len();
    proof {
        assert(nt == order@.len());
        assert(order@.len() <= usize::MAX);
        assert forall|t2: int|
            0 <= t2 < full.len() implies (#[trigger] full[t2] as int) < pool.slots@.len() by {
            lemma_order_covered(*pool, pool.num_layers(), t2);
            let (l2, k2): (int, int) = choose|l2: int, k2: int|
                0 <= l2 < pool.num_layers() && 0 <= k2 < pool.layer_at(l2).len() && tag_of(
                    *pool,
                    l2,
                    k2,
                ) == t2 && #[trigger] pool.layer_at(l2)[k2] == full[t2];
            assert(pool.layer_at(l2)[k2] < pool.arena_len());
        }
    }
    let n = pool.slots.len();
    let mut tags: Vec<Option<u64>> = Vec::new();
    let mut i: usize = 0;
    while i < n
        invariant
            i <= n,
            tags@.len() == i,
            forall|j: int| 0 <= j < i ==> (#[trigger] tags@[j]) is None,
        decreases n - i,
    {
        tags.push(None);
        i = i + 1;
    }
    let mut t: usize = 0;
    while t < nt
        invariant
            t <= nt,
            pool.wf(),
            order@ == full,
            nt == full.len(),
            tags@.len() == pool.slots@.len(),
            forall|t1: int, t2: int|
                #![trigger full[t1], full[t2]]
                0 <= t1 < full.len() && 0 <= t2 < full.len() && t1 != t2
                    ==> full[t1] != full[t2],
            forall|t2: int| 0 <= t2 < full.len() ==> (#[trigger] full[t2] as int)
                < pool.slots@.len(),
            forall|t2: int|
                0 <= t2 < t ==> tags@[#[trigger] full[t2] as int] == Some(t2 as u64),
            forall|j: int|
                0 <= j < tags@.len() && !full.subrange(0, t as int).contains(j as usize)
                    ==> (#[trigger] tags@[j]) is None,
        decreases nt - t,
    {
        let idx = order[t];
        vstd::pervasive::VecAdditionalExecFns::set(&mut tags, idx, Some(t as u64));
        proof {
            assert forall|j: int|
                0 <= j < tags@.len() && !full.subrange(0, (t + 1) as int).contains(j as usize)
                    implies (#[trigger] tags@[j]) is None by {
                if j != idx as int {
                    assert(!full.subrange(0, t as int).contains(j as usize)) by {
                        if full.subrange(0, t as int).contains(j as usize) {
                            let w = choose|w: int|
                                0 <= w < t && full.subrange(0, t as int)[w] == j as usize;
                            assert(full.subrange(0, (t + 1) as int)[w] == j as usize);
                        }
                    }
                } else {
                    assert(full.subrange(0, (t + 1) as int)[t as int] == idx);
                }
            }
        }
        t = t + 1;
    }
    proof {
        assert forall|l2: int, k2: int|
            0 <= l2 < pool.num_layers() && 0 <= k2 < pool.layer_at(l2).len() implies
            tags@[pool.layer_at(l2)[k2] as int] == Some(tag_of(*pool, l2, k2) as u64) by {
            lemma_order_index(*pool, l2, k2);
            assert(full[tag_of(*pool, l2, k2)] == pool.layer_at(l2)[k2]);
        }
        assert forall|j: int|
            0 <= j < tags@.len() && !pool.listed(j) implies (#[trigger] tags@[j]) is None by {
            if full.subrange(0, nt as int).contains(j as usize) {
                let w = choose|w: int| 0 <= w < nt && full.subrange(0, nt as int)[w] == j as usize;
                lemma_order_covered(*pool, pool.num_layers(), w);
                assert(pool.listed(j));
            }
        }
    }
    tags
}

/// What the save pass writes for one declared reference: never-set stays
/// never-set; a reference whose target slot is gone (or was never this
/// incarnation) is written as dangling rather than failing; a live target is
/// written as its traversal tag.
pub open spec fn spec_encode_ref<T>(
    pool: Pool<T>,
    tags: Seq<Option<u64>>,
    r: MaybePersistentRef,
) -> RefCode {
    match r {
        MaybePersistentRef::Unset => RefCode::Unset,
        MaybePersistentRef::Despawned => RefCode::Dangling,
        MaybePersistentRef::Ref(p) => if pool.id_live(p.id) {
            match tags[p.id.index as int] {
                Some(n) => RefCode::Tag(n),
                None => RefCode::Dangling,
            }
        } else {
            RefCode::Dangling
        },
    }
}

/// Encodes one declared reference against the tag table of the pool being
/// saved.
pub fn encode_ref<T>(pool: &Pool<T>, tags: &Vec<Option<u64>>, r: &MaybePersistentRef) -> (c:
    RefCode)
    requires
        pool.wf(),
        tags_assigned(*pool, tags@),
    ensures
        c == spec_encode_ref(*pool, tags@, *r),
{
    match r {
        MaybePersistentRef::Unset => RefCode::Unset,
        MaybePersistentRef::Despawned => RefCode::Dangling,
        MaybePersistentRef::Ref(p) => {
            if p.id.index >= pool.slots.len() {
                return RefCode::Dangling;
            }
            let slot = &pool.slots[p.id.index];
            if slot.generation != p.id.generation {
                return RefCode::Dangling;
            }
            let live = match &slot.cell {
                SlotCell::Present(_) => true,
                _ => false,
            };
            if !live {
                return RefCode::Dangling;
            }
            match tags[p.id.index] {
                Some(n) => RefCode::Tag(n),
                None => RefCode::Dangling,
            }
        },
    }
}

/// Every tag in a reference-code list is below `bound`.
pub open spec fn codes_bounded(refs: Seq<RefCode>, bound: int) -> bool {
    forall|j: int|
        0 <= j < refs.len() ==> ((#[trigger] refs[j]) is Tag ==> (refs[j]->Tag_0 as int)
            < bound)
}

/// An encoded reference only ever carries a tag the traversal assigned: the
/// tag of the live slot it points at, which is a traversal position.
proof fn lemma_encoded_code_bounded<T>(pool: Pool<T>, tags: Seq<Option<u64>>, r: MaybePersistentRef)
    requires
        pool.wf(),
        tags_assigned(pool, tags),
    ensures
        (spec_encode_ref(pool, tags, r) is Tag) ==> (spec_encode_ref(pool, tags, r)->Tag_0
            as int) < order_seq(pool, pool.num_layers()).len(),
{
    let c = spec_encode_ref(pool, tags, r);
    if c is Tag {
        match r {
            MaybePersistentRef::Ref(p) => {
                let i = p.id.index as int;
                assert(pool.id_live(p.id));
                assert(!(pool.slots@[i].cell is Vacant));
                assert(pool.listed(i));
                let (l, k): (int, int) = choose|l: int, k: int|
                    0 <= l < pool.num_layers() && 0 <= k < pool.layer_at(l).len()
                        && pool.layer_at(l)[k] == i;
                assert(tags[i] == Some(tag_of(pool, l, k) as u64));
                lemma_order_index(pool, l, k);
            },
            _ => {
                assert(false);
            },
        }
    }
}

impl<P: Persistent<V>, V> GameState<P, V> {
    /// Saves the persistent pool as a document: layers in registry order,
    /// each entity with its kind tag, its own state, its dense traversal tag
    /// and its encoded reference list. The registry is read, never changed;
    /// two saves of an unchanged registry assign identical tags.
    pub fn save(&self) -> (doc: SaveDoc)
        requires
            self.wf(),
            self.steady(),
        ensures
            doc.layers@.len() == self.num_layers(),
            forall|l: int|
                0 <= l < self.num_layers() ==> #[trigger] doc.names()[l] == self.names()[l],
            forall|l: int|
                0 <= l < self.num_layers()
                    ==> #[trigger] doc.objects_of(l).len() == self.persistent.layer_at(l).len(),
            forall|l: int, k: int|
                0 <= l < self.num_layers() && 0 <= k < self.persistent.layer_at(l).len()
                    ==> (#[trigger] doc.objects_of(l)[k]).tag as int == tag_of(
                        self.persistent,
                        l,
                        k,
                    ),
            layer_sets_match(doc, self.names()),
            !has_dup_tags(doc, self.names()),
            refs_resolvable(doc, self.names()),
    {
        let tags = assign_tags(&self.persistent);
        let nl = self.layer_names.len();
        let mut layers: Vec<SavedLayer> = Vec::new();
        let mut l: usize = 0;
        while l < nl
            invariant
                l <= nl,
                self.wf(),
                self.steady(),
                nl == self.num_layers(),
                tags_assigned(self.persistent, tags@),
                layers@.len() == l,
                forall|l2: int|
                    0 <= l2 < l ==> (#[trigger] layers@[l2]).name@ == self.names()[l2],
                forall|l2: int|
                    0 <= l2 < l ==> (#[trigger] layers@[l2]).objects@.len()
                        == self.persistent.layer_at(l2).len(),
                forall|l2: int, k: int|
                    0 <= l2 < l && 0 <= k < self.persistent.layer_at(l2).len()
                        ==> (#[trigger] layers@[l2].objects@[k]).tag as int == tag_of(
                            self.persistent,
                            l2,
                            k,
                        ),
                forall|l2: int, k: int|
                    0 <= l2 < l && 0 <= k < self.persistent.layer_at(l2).len()
                        ==> codes_bounded(
                            (#[trigger] layers@[l2].objects@[k]).refs@,
                            order_seq(
                                self.persistent,
                                self.persistent.num_layers(),
                            ).len() as int,
                        ),
            decreases nl - l,
        {
            let n = self.persistent.layer_len(l);
            let mut objects: Vec<SavedObject> = Vec::new();
            let mut k: usize = 0;
            while k < n
                invariant
                    k <= n,
                    l < nl,
                    self.wf(),
                    self.steady(),
                    nl == self.num_layers(),
                    n == self.persistent.layer_at(l as int).len(),
                    tags_assigned(self.persistent, tags@),
                    objects@.len() == k,
                    forall|k2: int|
                        0 <= k2 < k ==> (#[trigger] objects@[k2]).tag as int == tag_of(
                            self.persistent,
                            l as int,
                            k2,
                        ),
                    forall|k2: int|
                        0 <= k2 < k ==> codes_bounded(
                            (#[trigger] objects@[k2]).refs@,
                            order_seq(
                                self.persistent,
                                self.persistent.num_layers(),
                            ).len() as int,
                        ),
                decreases n - k,
            {
                proof {
                    let i = self.persistent.layer_at(l as int)[k as int];
                    assert(!(self.persistent.slots@[i as int].cell is Taken));
                }
                let entity = self.persistent.object_ref_at(l, k);
                let type_tag = entity.type_tag();
                let payload = entity.save_payload();
                let exported = entity.save_entity_references();
                let mut refs: Vec<RefCode> = Vec::new();
                let nr = exported.len();
                let mut j: usize = 0;
                while j < nr
                    invariant
                        j <= nr,
                        self.wf(),
                        nr == exported@.len(),
                        tags_assigned(self.persistent, tags@),
                        refs@.len() == j,
                        codes_bounded(
                            refs@,
                            order_seq(
                                self.persistent,
                                self.persistent.num_layers(),
                            ).len() as int,
                        ),
                    decreases nr - j,
                {
                    let c = encode_ref(&self.persistent, &tags, &exported[j]);
                    proof {
                        lemma_encoded_code_bounded(
                            self.persistent,
                            tags@,
                            exported@[j as int],
                        );
                    }
                    refs.push(c);
                    j = j + 1;
                }
                let idx = self.persistent.handle_at(l, k).index;
                proof {
                    assert(tags@[idx as int] == Some(
                        tag_of(self.persistent, l as int, k as int) as u64,
                    ));
                    lemma_order_index(self.persistent, l as int, k as int);
                }
                let tag = match tags[idx] {
                    Some(t) => t,
                    None => vstd::pervasive::unreached(),
                };
                objects.push(SavedObject { type_tag, tag, payload, refs });
                k = k + 1;
            }
            let name = self.layer_names[l].clone();
            layers.push(SavedLayer { name, objects });
            l = l + 1;
        }
        let doc = SaveDoc { layers };
        proof {
            lemma_saved_doc_matches(doc, self.names());
            lemma_saved_doc_tags(self.persistent, doc, self.names());
            let names = self.names();
            let total = doc_tags(doc, names).len() as int;
            assert(tag_seq(doc, names, names.len() as int).len() == order_seq(
                self.persistent,
                names.len() as int,
            ).len());
            assert forall|l2: int, k2: int, j2: int|
                #![trigger matched_objects(doc, names, l2)[k2].refs@[j2]]
                0 <= l2 < names.len() && 0 <= k2 < matched_objects(doc, names, l2).len() && 0
                    <= j2 < matched_objects(doc, names, l2)[k2].refs@.len() implies match
                matched_objects(doc, names, l2)[k2].refs@[j2] {
                RefCode::Tag(n) => doc_tags(doc, names).contains(n),
                _ => true,
            } by {
                assert(matched_objects(doc, names, l2) == doc.objects_of(l2));
                assert(codes_bounded(
                    layers@[l2].objects@[k2].refs@,
                    order_seq(self.persistent, self.persistent.num_layers()).len() as int,
                ));
                let code = doc.objects_of(l2)[k2].refs@[j2];
                if code is Tag {
                    let t = code->Tag_0 as int;
                    assert(t < total);
                    assert(doc_tags(doc, names)[t] as int == t);
                    assert(doc_tags(doc, names)[t] == code->Tag_0);
                    assert(doc_tags(doc, names).contains(code->Tag_0));
                }
            }
            assert(refs_resolvable(doc, names));
        }
        doc
    }
}

broadcast use vstd::std_specs::hash::group_hash_axioms;

/// Document layer `d` is the one and only layer called `name`.
pub open spec fn is_the_doc_layer(doc: SaveDoc, name: Seq<char>, d: int) -> bool {
    &&& 0 <= d < doc.layers@.len()
    &&& doc.names()[d] == name
    &&& forall|d2: int|
        0 <= d2 < doc.layers@.len() && d2 != d ==> #[trigger] doc.names()[d2] != name
}

pub open spec fn unique_doc_layer(doc: SaveDoc, name: Seq<char>) -> bool {
    exists|d: int| is_the_doc_layer(doc, name, d)
}

/// The index of the unique document layer called `name`.
pub open spec fn doc_layer_for(doc: SaveDoc, name: Seq<char>) -> int {
    choose|d: int| is_the_doc_layer(doc, name, d)
}

/// The document's layer-name set equals the registry's: same number of
/// layers, and each registered name names exactly one document layer.
pub open spec fn layer_sets_match(doc: SaveDoc, names: Seq<Seq<char>>) -> bool {
    &&& doc.layers@.len() == names.len()
    &&& forall|l: int| 0 <= l < names.len() ==> unique_doc_layer(doc, #[trigger] names[l])
}

/// The document objects destined for live layer `l`, in document order.
pub open spec fn matched_objects(doc: SaveDoc, names: Seq<Seq<char>>, l: int) -> Seq<SavedObject> {
    doc.objects_of(doc_layer_for(doc, names[l]))
}

/// The document's tags in live traversal order, restricted to the first `l`
/// live layers.
pub open spec fn tag_seq(doc: SaveDoc, names: Seq<Seq<char>>, l: int) -> Seq<u64>
    decreases l,
{
    if l <= 0 {
        Seq::empty()
    } else {
        tag_seq(doc, names, l - 1) + matched_objects(doc, names, l - 1).map_values(
            |o: SavedObject| o.tag,
        )
    }
}

/// All the document's tags, in live traversal order.
pub open spec fn doc_tags(doc: SaveDoc, names: Seq<Seq<char>>) -> Seq<u64> {
    tag_seq(doc, names, names.len() as int)
}

/// The traversal position at which live layer `l` starts after a load.
pub open spec fn loaded_prefix(doc: SaveDoc, names: Seq<Seq<char>>, l: int) -> int {
    tag_seq(doc, names, l).len() as int
}

/// Two document entities carry the same tag.
pub open spec fn has_dup_tags(doc: SaveDoc, names: Seq<Seq<char>>) -> bool {
    exists|p1: int, p2: int|
        0 <= p1 < p2 < doc_tags(doc, names).len() && doc_tags(doc, names)[p1] == doc_tags(
            doc,
            names,
        )[p2]
}

/// Every `Tag(n)` in the document's reference lists names a tag some
/// document entity carries.
pub open spec fn refs_resolvable(doc: SaveDoc, names: Seq<Seq<char>>) -> bool {
    forall|l: int, k: int, j: int|
        #![trigger matched_objects(doc, names, l)[k].refs@[j]]
        0 <= l < names.len() && 0 <= k < matched_objects(doc, names, l).len() && 0 <= j
            < matched_objects(doc, names, l)[k].refs@.len() ==> match matched_objects(
            doc,
            names,
            l,
        )[k].refs@[j] {
            RefCode::Tag(n) => doc_tags(doc, names).contains(n),
            _ => true,
        }
}

proof fn lemma_tag_prefix(doc: SaveDoc, names: Seq<Seq<char>>, l1: int, l2: int)
    requires
        0 <= l1 <= l2,
    ensures
        tag_seq(doc, names, l1).len() <= tag_seq(doc, names, l2).len(),
        forall|t: int|
            0 <= t < tag_seq(doc, names, l1).len()
                ==> #[trigger] tag_seq(doc, names, l2)[t] == tag_seq(doc, names, l1)[t],
    decreases l2 - l1,
{
    if l1 < l2 {
        lemma_tag_prefix(doc, names, l1, l2 - 1);
    }
}

/// The document entity at live position `(l, k)` sits at traversal position
/// `loaded_prefix(l) + k`, and its tag there.
pub proof fn lemma_tag_index(doc: SaveDoc, names: Seq<Seq<char>>, l: int, k: int)
    requires
        0 <= l < names.len(),
        0 <= k < matched_objects(doc, names, l).len(),
    ensures
        0 <= loaded_prefix(doc, names, l) + k < doc_tags(doc, names).len(),
        doc_tags(doc, names)[loaded_prefix(doc, names, l) + k] == matched_objects(
            doc,
            names,
            l,
        )[k].tag,
{
    let mapped = matched_objects(doc, names, l).map_values(|o: SavedObject| o.tag);
    assert(tag_seq(doc, names, l + 1) == tag_seq(doc, names, l) + mapped);
    assert(tag_seq(doc, names, l + 1)[loaded_prefix(doc, names, l) + k] == mapped[k]);
    lemma_tag_prefix(doc, names, l + 1, names.len() as int);
}

/// Every traversal position comes from some live position.
proof fn lemma_tag_covered(doc: SaveDoc, names: Seq<Seq<char>>, l: int, t: int)
    requires
        0 <= l,
        0 <= t < tag_seq(doc, names, l).len(),
    ensures
        exists|l2: int, k: int|
            0 <= l2 < l && 0 <= k < matched_objects(doc, names, l2).len() && loaded_prefix(
                doc,
                names,
                l2,
            ) + k == t && #[trigger] matched_objects(doc, names, l2)[k].tag == tag_seq(
                doc,
                names,
                l,
            )[t],
    decreases l,
{
    if t < tag_seq(doc, names, l - 1).len() {
        lemma_tag_covered(doc, names, l - 1, t);
        let (l2, k): (int, int) = choose|l2: int, k: int|
            0 <= l2 < l - 1 && 0 <= k < matched_objects(doc, names, l2).len() && loaded_prefix(
                doc,
                names,
                l2,
            ) + k == t && #[trigger] matched_objects(doc, names, l2)[k].tag == tag_seq(
                doc,
                names,
                l - 1,
            )[t];
        assert(tag_seq(doc, names, l)[t] == tag_seq(doc, names, l - 1)[t]);
        assert(matched_objects(doc, names, l2)[k].tag == tag_seq(doc, names, l)[t]);
    } else {
        let k = t - tag_seq(doc, names, l - 1).len();
        let mapped = matched_objects(doc, names, l - 1).map_values(|o: SavedObject| o.tag);
        assert(tag_seq(doc, names, l)[t] == mapped[k]);
        assert(loaded_prefix(doc, names, l - 1) + k == t);
    }
}

/// What the load pass makes of one encoded reference, given the map from
/// document tag to rebuilt slot identity: never-set stays never-set,
/// dangling becomes the explicit despawned marker (never a live handle, and
/// never an error), and a tag becomes a weak handle on the slot rebuilt for
/// it — or rejects the document if no entity carries that tag.
pub open spec fn spec_decode_ref(lookup: Map<u64, SlotId>, c: RefCode) -> Result<
    MaybePersistentRef,
    LoadError,
> {
    match c {
        RefCode::Unset => Result::Ok(MaybePersistentRef::Unset),
        RefCode::Dangling => Result::Ok(MaybePersistentRef::Despawned),
        RefCode::Tag(n) => if lookup.contains_key(n) {
            Result::Ok(MaybePersistentRef::Ref(PersistentRef { id: lookup[n] }))
        } else {
            Result::Err(LoadError::UnknownRefTag)
        },
    }
}

/// Decodes one reference against the tag lookup built for the document.
pub fn decode_ref(lookup: &std::collections::HashMap<u64, SlotId>, c: &RefCode) -> (r: Result<
    MaybePersistentRef,
    LoadError,
>)
    ensures
        r == spec_decode_ref(lookup@, *c),
{
    match c {
        RefCode::Unset => Result::Ok(MaybePersistentRef::Unset),
        RefCode::Dangling => Result::Ok(MaybePersistentRef::Despawned),
        RefCode::Tag(n) => match lookup.get(n) {
            Some(id) => Result::Ok(MaybePersistentRef::Ref(PersistentRef { id: *id })),
            None => Result::Err(LoadError::UnknownRefTag),
        },
    }
}

impl<P: Persistent<V>, V> GameState<P, V> {
    /// Rebuilds the persistent pool from a document and atomically replaces
    /// the live one. The whole load is validated first: a document whose
    /// layer-name set differs from the registry's, carries a duplicate tag,
    /// references an unknown tag, names an unknown entity kind, or whose
    /// reference list an entity rejects, is rejected in its entirety — on
    /// any error the registry is left completely unchanged. On success every
    /// entity is rebuilt from its kind tag, given back its reference list in
    /// export order (dangling stays dangling, a tag becomes a weak handle on
    /// the slot rebuilt for it), and the slots fill the layers in document
    /// order under fresh identity stamps. Volatile entities are untouched.
    #[verifier::loop_isolation(false)]
    pub fn load(&mut self, doc: &SaveDoc) -> (r: Result<(), LoadError>)
        requires
            old(self).wf(),
            old(self).steady(),
        ensures
            final(self).wf(),
            final(self).steady(),
            final(self).layer_names == old(self).layer_names,
            final(self).volatile == old(self).volatile,
            r is Err ==> final(self).persistent == old(self).persistent,
            (r == Result::<(), LoadError>::Err(LoadError::LayerSetMismatch)) <==> !layer_sets_match(
                *doc,
                old(self).names(),
            ),
            (r == Result::<(), LoadError>::Err(LoadError::DuplicateTag)) <==> (layer_sets_match(
                *doc,
                old(self).names(),
            ) && has_dup_tags(*doc, old(self).names())),
            (r == Result::<(), LoadError>::Err(LoadError::UnknownRefTag)) <==> (layer_sets_match(
                *doc,
                old(self).names(),
            ) && !has_dup_tags(*doc, old(self).names()) && !refs_resolvable(
                *doc,
                old(self).names(),
            )),
            (r == Result::<(), LoadError>::Err(LoadError::Capacity)) <==> (layer_sets_match(
                *doc,
                old(self).names(),
            ) && !has_dup_tags(*doc, old(self).names()) && refs_resolvable(
                *doc,
                old(self).names(),
            ) && old(self).persistent.next_generation + doc_tags(*doc, old(self).names()).len()
                > u64::MAX),
            (r == Result::<(), LoadError>::Err(LoadError::UnknownTypeTag) || r == Result::<
                (),
                LoadError,
            >::Err(LoadError::RefCountMismatch)) ==> doc_tags(*doc, old(self).names()).len()
                > 0,
            (layer_sets_match(*doc, old(self).names()) && !has_dup_tags(
                *doc,
                old(self).names(),
            ) && refs_resolvable(*doc, old(self).names()) && old(
                self,
            ).persistent.next_generation + doc_tags(*doc, old(self).names()).len() <= u64::MAX
                && doc_tags(*doc, old(self).names()).len() == 0) ==> r is Ok,
            r is Ok ==> {
                &&& layer_sets_match(*doc, old(self).names())
                &&& !has_dup_tags(*doc, old(self).names())
                &&& refs_resolvable(*doc, old(self).names())
                &&& forall|l: int|
                    0 <= l < old(self).num_layers()
                        ==> #[trigger] final(self).persistent.layer_at(l).len()
                            == matched_objects(*doc, old(self).names(), l).len()
                &&& forall|l: int, k: int|
                    0 <= l < old(self).num_layers()
                        && 0 <= k < final(self).persistent.layer_at(l).len()
                        ==> #[trigger] final(self).persistent.layer_at(l)[k] as int
                            == loaded_prefix(*doc, old(self).names(), l) + k
                &&& forall|i: int|
                    0 <= i < final(self).persistent.slots@.len()
                        ==> (#[trigger] final(self).persistent.slots@[i]).generation as int
                            == old(self).persistent.next_generation + i
                            && final(self).persistent.slots@[i].cell is Present
                &&& final(self).persistent.slots@.len() == doc_tags(
                    *doc,
                    old(self).names(),
                ).len()
                &&& final(self).persistent.next_generation as int == old(
                    self,
                ).persistent.next_generation + doc_tags(*doc, old(self).names()).len()
            },
    {
        let ghost names = old(self).names();
        let names_len = self.layer_names.len();
        // Validate the layer-name set and find, for each live layer, the one
        // document layer carrying its name.
        if doc.layers.len() != names_len {
            return Result::Err(LoadError::LayerSetMismatch);
        }
        let nd = doc.layers.len();
        let mut match_idx: Vec<usize> = Vec::new();
        let mut l: usize = 0;
        while l < names_len
            invariant
                l <= names_len,
                *self == *old(self),
                match_idx@.len() == l,
                forall|l2: int|
                    0 <= l2 < l ==> is_the_doc_layer(
                        *doc,
                        names[l2],
                        #[trigger] match_idx@[l2] as int,
                    ),
                forall|l2: int|
                    0 <= l2 < l ==> #[trigger] match_idx@[l2] as int == doc_layer_for(
                        *doc,
                        names[l2],
                    ),
            decreases names_len - l,
        {
            let mut found: usize = 0;
            let mut seen = false;
            let mut d: usize = 0;
            while d < nd
                invariant
                    d <= nd,
                    l < names_len,
                    *self == *old(self),
                    seen ==> (found as int) < d && doc.names()[found as int] == names[l as int],
                    seen ==> forall|d2: int|
                        0 <= d2 < d && d2 != found ==> #[trigger] doc.names()[d2] != names[
                            l as int
                        ],
                    !seen ==> forall|d2: int|
                        0 <= d2 < d ==> #[trigger] doc.names()[d2] != names[l as int],
                decreases nd - d,
            {
                if doc.layers[d].name == self.layer_names[l] {
                    if seen {
                        proof {
                            assert forall|d3: int| !is_the_doc_layer(*doc, names[l as int], d3)
                                by {
                                if 0 <= d3 < doc.layers@.len() {
                                    if d3 != found as int {
                                        assert(doc.names()[found as int] == names[l as int]);
                                    } else {
                                        assert(doc.names()[d as int] == names[l as int]);
                                    }
                                }
                            }
                            assert(!unique_doc_layer(*doc, names[l as int]));
                            assert(!layer_sets_match(*doc, names));
                        }
                        return Result::Err(LoadError::LayerSetMismatch);
                    }
                    found = d;
                    seen = true;
                }
                d = d + 1;
            }
            if !seen {
                proof {
                    assert(!unique_doc_layer(*doc, names[l as int]));
                    assert(!layer_sets_match(*doc, names));
                }
                return Result::Err(LoadError::LayerSetMismatch);
            }
            proof {
                assert(is_the_doc_layer(*doc, names[l as int], found as int));
                let d2 = doc_layer_for(*doc, names[l as int]);
                assert(is_the_doc_layer(*doc, names[l as int], d2));
                assert(d2 == found as int);
            }
            match_idx.push(found);
            l = l + 1;
        }
        proof {
            assert forall|l2: int| 0 <= l2 < names.len() implies unique_doc_layer(
                *doc,
                #[trigger] names[l2],
            ) by {
                assert(is_the_doc_layer(*doc, names[l2], match_idx@[l2] as int));
            }
            assert(layer_sets_match(*doc, names));
        }
        // Flatten the document's tags in live traversal order.
        let mut all_tags: Vec<u64> = Vec::new();
        let mut l2: usize = 0;
        while l2 < names_len
            invariant
                l2 <= names_len,
                *self == *old(self),
                all_tags@ == tag_seq(*doc, names, l2 as int),
            decreases names_len - l2,
        {
            let dl = match_idx[l2];
            let cnt = doc.layers[dl].objects.len();
            let ghost mapped = matched_objects(*doc, names, l2 as int).map_values(
                |o: SavedObject| o.tag,
            );
            let mut k: usize = 0;
            while k < cnt
                invariant
                    k <= cnt,
                    l2 < names_len,
                    dl == match_idx@[l2 as int],
                    cnt == matched_objects(*doc, names, l2 as int).len(),
                    all_tags@ == tag_seq(*doc, names, l2 as int) + mapped.subrange(0, k as int),
                decreases cnt - k,
            {
                all_tags.push(doc.layers[dl].objects[k].tag);
                proof {
                    assert(mapped.subrange(0, (k + 1) as int) =~= mapped.subrange(
                        0,
                        k as int,
                    ).push(mapped[k as int]));
                }
                k = k + 1;
            }
            proof {
                assert(mapped.subrange(0, cnt as int) =~= mapped);
                assert(all_tags@ =~= tag_seq(*doc, names, (l2 + 1) as int));
            }
            l2 = l2 + 1;
        }
        let ntags = all_tags.len();
        proof {
            assert(all_tags@ == doc_tags(*doc, names));
        }
        // Reject duplicate tags.
        let mut t1: usize = 0;
        while t1 < ntags
            invariant
                t1 <= ntags,
                *self == *old(self),
                forall|p1: int, p2: int|
                    #![trigger all_tags@[p1], all_tags@[p2]]
                    0 <= p1 < t1 && p1 < p2 < ntags ==> all_tags@[p1] != all_tags@[p2],
            decreases ntags - t1,
        {
            let mut t2: usize = t1 + 1;
            while t2 < ntags
                invariant
                    t1 < t2 <= ntags,
                    *self == *old(self),
                    forall|p2: int| t1 < p2 < t2 ==> all_tags@[t1 as int] != #[trigger] all_tags@[p2],
                decreases ntags - t2,
            {
                if all_tags[t1] == all_tags[t2] {
                    proof {
                        assert(has_dup_tags(*doc, names));
                    }
                    return Result::Err(LoadError::DuplicateTag);
                }
                t2 = t2 + 1;
            }
            t1 = t1 + 1;
        }
        proof {
            assert(!has_dup_tags(*doc, names));
        }
        // Reject a document with more entities than stamps are left for.
        let base = self.persistent.next_generation;
        if (ntags as u64) > u64::MAX - base {
            proof {
                assert(refs_resolvable(*doc, names) || !refs_resolvable(*doc, names));
            }
            if refs_resolvable_check(doc, &match_idx, &all_tags, Ghost(names)) {
                return Result::Err(LoadError::Capacity);
            } else {
                return Result::Err(LoadError::UnknownRefTag);
            }
        }
        // Map each tag to the identity its slot will get.
        let mut lookup: std::collections::HashMap<u64, SlotId> =
            std::collections::HashMap::new();
        let mut t: usize = 0;
        while t < ntags
            invariant
                t <= ntags,
                *self == *old(self),
                base == old(self).persistent.next_generation,
                forall|p: int|
                    0 <= p < t ==> lookup@.contains_key(#[trigger] all_tags@[p])
                        && lookup@[all_tags@[p]] == (SlotId {
                        index: p as usize,
                        generation: (base + p) as u64,
                    }),
                forall|n: u64|
                    #[trigger] lookup@.contains_key(n) ==> all_tags@.subrange(
                        0,
                        t as int,
                    ).contains(n),
            decreases ntags - t,
        {
            let tag = all_tags[t];
            lookup.insert(tag, SlotId { index: t, generation: base + (t as u64) });
            proof {
                assert forall|n: u64| #[trigger] lookup@.contains_key(n) implies
                    all_tags@.subrange(0, (t + 1) as int).contains(n) by {
                    if n == tag {
                        assert(all_tags@.subrange(0, (t + 1) as int)[t as int] == n);
                    } else {
                        let w = choose|w: int|
                            0 <= w < t && all_tags@.subrange(0, t as int)[w] == n;
                        assert(all_tags@.subrange(0, (t + 1) as int)[w] == n);
                    }
                }
            }
            t = t + 1;
        }
        proof {
            assert(all_tags@.subrange(0, ntags as int) =~= all_tags@);
        }
        // Decode every reference list; a tag no entity carries rejects the
        // whole document.
        let mut decoded: Vec<Vec<MaybePersistentRef>> = Vec::new();
        let mut l3: usize = 0;
        while l3 < names_len
            invariant
                l3 <= names_len,
                *self == *old(self),
                decoded@.len() == loaded_prefix(*doc, names, l3 as int),
                forall|lp: int, kp: int, jp: int|
                    #![trigger matched_objects(*doc, names, lp)[kp].refs@[jp]]
                    0 <= lp < l3 && 0 <= kp < matched_objects(*doc, names, lp).len() && 0 <= jp
                        < matched_objects(*doc, names, lp)[kp].refs@.len()
                        ==> !(spec_decode_ref(
                        lookup@,
                        matched_objects(*doc, names, lp)[kp].refs@[jp],
                    ) is Err),
            decreases names_len - l3,
        {
            let dl = match_idx[l3];
            let cnt = doc.layers[dl].objects.len();
            let mut k: usize = 0;
            while k < cnt
                invariant
                    k <= cnt,
                    l3 < names_len,
                    dl == match_idx@[l3 as int],
                    cnt == matched_objects(*doc, names, l3 as int).len(),
                    decoded@.len() == loaded_prefix(*doc, names, l3 as int) + k,
                    forall|lp: int, kp: int, jp: int|
                        #![trigger matched_objects(*doc, names, lp)[kp].refs@[jp]]
                        0 <= lp < l3 && 0 <= kp < matched_objects(*doc, names, lp).len() && 0
                            <= jp < matched_objects(*doc, names, lp)[kp].refs@.len()
                            ==> !(spec_decode_ref(
                            lookup@,
                            matched_objects(*doc, names, lp)[kp].refs@[jp],
                        ) is Err),
                    forall|kp: int, jp: int|
                        #![trigger matched_objects(*doc, names, l3 as int)[kp].refs@[jp]]
                        0 <= kp < k && 0 <= jp < matched_objects(
                            *doc,
                            names,
                            l3 as int,
                        )[kp].refs@.len() ==> !(spec_decode_ref(
                            lookup@,
                            matched_objects(*doc, names, l3 as int)[kp].refs@[jp],
                        ) is Err),
                decreases cnt - k,
            {
                let nrefs = doc.layers[dl].objects[k].refs.len();
                let mut list: Vec<MaybePersistentRef> = Vec::new();
                let mut j: usize = 0;
                while j < nrefs
                    invariant
                        j <= nrefs,
                        k < cnt,
                        l3 < names_len,
                        dl == match_idx@[l3 as int],
                        cnt == matched_objects(*doc, names, l3 as int).len(),
                        nrefs == matched_objects(*doc, names, l3 as int)[k as int].refs@.len(),
                        list@.len() == j,
                        forall|jp: int|
                            0 <= jp < j ==> !(spec_decode_ref(
                                lookup@,
                                #[trigger] matched_objects(
                                    *doc,
                                    names,
                                    l3 as int,
                                )[k as int].refs@[jp],
                            ) is Err),
                    decreases nrefs - j,
                {
                    match decode_ref(&lookup, &doc.layers[dl].objects[k].refs[j]) {
                        Result::Ok(m) => {
                            list.push(m);
                        },
                        Result::Err(_) => {
                            proof {
                                let code = matched_objects(
                                    *doc,
                                    names,
                                    l3 as int,
                                )[k as int].refs@[j as int];
                                assert(code is Tag);
                                assert(!lookup@.contains_key(code->Tag_0));
                                assert(!all_tags@.contains(code->Tag_0)) by {
                                    if all_tags@.contains(code->Tag_0) {
                                        let w = choose|w: int|
                                            0 <= w < all_tags@.len() && all_tags@[w]
                                                == code->Tag_0;
                                        assert(lookup@.contains_key(all_tags@[w]));
                                    }
                                }
                                assert(!refs_resolvable(*doc, names));
                            }
                            return Result::Err(LoadError::UnknownRefTag);
                        },
                    }
                    j = j + 1;
                }
                decoded.push(list);
                k = k + 1;
            }
            l3 = l3 + 1;
        }
        proof {
            assert forall|lp: int, kp: int, jp: int|
                #![trigger matched_objects(*doc, names, lp)[kp].refs@[jp]]
                0 <= lp < names.len() && 0 <= kp < matched_objects(*doc, names, lp).len() && 0
                    <= jp < matched_objects(*doc, names, lp)[kp].refs@.len() implies match
                matched_objects(*doc, names, lp)[kp].refs@[jp] {
                RefCode::Tag(n) => doc_tags(*doc, names).contains(n),
                _ => true,
            } by {
                let code = matched_objects(*doc, names, lp)[kp].refs@[jp];
                assert(!(spec_decode_ref(lookup@, code) is Err));
                if code is Tag {
                    assert(lookup@.contains_key(code->Tag_0));
                    let w = choose|w: int|
                        0 <= w < ntags && all_tags@.subrange(0, ntags as int)[w] == code->Tag_0;
                    assert(all_tags@[w] == code->Tag_0);
                }
            }
            assert(refs_resolvable(*doc, names));
        }
        // Rebuild every entity from its kind tag and hand it its reference
        // list, in export order.
        let mut objs: Vec<P> = Vec::new();
        let mut decoded_rest = decoded;
        let mut l4: usize = 0;
        while l4 < names_len
            invariant
                l4 <= names_len,
                *self == *old(self),
                objs@.len() == loaded_prefix(*doc, names, l4 as int),
                decoded_rest@.len() + objs@.len() == ntags,
            decreases names_len - l4,
        {
            let dl = match_idx[l4];
            let cnt = doc.layers[dl].objects.len();
            let mut k: usize = 0;
            while k < cnt
                invariant
                    k <= cnt,
                    l4 < names_len,
                    dl == match_idx@[l4 as int],
                    cnt == matched_objects(*doc, names, l4 as int).len(),
                    objs@.len() == loaded_prefix(*doc, names, l4 as int) + k,
                    decoded_rest@.len() + objs@.len() == ntags,
                decreases cnt - k,
            {
                proof {
                    lemma_tag_index(*doc, names, l4 as int, k as int);
                }
                proof {
                    assert(doc_tags(*doc, names).len() > 0);
                }
                let sobj = &doc.layers[dl].objects[k];
                let mut entity: P = match P::load_payload(sobj.type_tag.as_str(), &sobj.payload) {
                    Option::Some(e) => e,
                    Option::None => {
                        return Result::Err(LoadError::UnknownTypeTag);
                    },
                };
                let list = decoded_rest.remove(0);
                if !entity.load_entity_references(list) {
                    return Result::Err(LoadError::RefCountMismatch);
                }
                objs.push(entity);
                k = k + 1;
            }
            l4 = l4 + 1;
        }
        // Assemble the new pool: slots fill the layers in traversal order
        // under fresh stamps, continuing the registry's stamp counter.
        let mut np: Pool<P> = Pool::new(names_len);
        let ghost np0 = np;
        np.next_generation = base;
        proof {
            assert(np.slots@.len() == 0);
            assert forall|lp: int|
                0 <= lp < np.num_layers() implies #[trigger] np.layer_at(lp).len() == 0 by {
                assert(np.layer_at(lp) == np0.layer_at(lp));
                assert(np0.layer_at(lp).len() == 0);
            }
            assert(np.wf());
        }
        let mut objs_rest = objs;
        let mut l5: usize = 0;
        while l5 < names_len
            invariant
                l5 <= names_len,
                *self == *old(self),
                np.wf(),
                np.steady(),
                np.layers@.len() == names_len,
                np.slots@.len() == loaded_prefix(*doc, names, l5 as int),
                np.next_generation as int == base + np.slots@.len(),
                objs_rest@.len() + np.slots@.len() == ntags,
                forall|lp: int|
                    0 <= lp < l5 ==> #[trigger] np.layer_at(lp).len() == matched_objects(
                        *doc,
                        names,
                        lp,
                    ).len(),
                forall|lp: int| l5 <= lp < names_len ==> #[trigger] np.layer_at(lp).len() == 0,
                forall|lp: int, kp: int|
                    0 <= lp < names_len && 0 <= kp < np.layer_at(lp).len()
                        ==> #[trigger] np.layer_at(lp)[kp] as int == loaded_prefix(
                        *doc,
                        names,
                        lp,
                    ) + kp,
                forall|i: int|
                    0 <= i < np.slots@.len() ==> (#[trigger] np.slots@[i]).generation as int
                        == base + i && np.slots@[i].cell is Present,
            decreases names_len - l5,
        {
            let dl = match_idx[l5];
            let cnt = doc.layers[dl].objects.len();
            let mut k: usize = 0;
            while k < cnt
                invariant
                    k <= cnt,
                    l5 < names_len,
                    dl == match_idx@[l5 as int],
                    cnt == matched_objects(*doc, names, l5 as int).len(),
                    *self == *old(self),
                    np.wf(),
                    np.steady(),
                    np.layers@.len() == names_len,
                    np.slots@.len() == loaded_prefix(*doc, names, l5 as int) + k,
                    np.next_generation as int == base + np.slots@.len(),
                    objs_rest@.len() + np.slots@.len() == ntags,
                    np.layer_at(l5 as int).len() == k,
                    forall|lp: int|
                        0 <= lp < l5 ==> #[trigger] np.layer_at(lp).len() == matched_objects(
                            *doc,
                            names,
                            lp,
                        ).len(),
                    forall|lp: int|
                        l5 < lp < names_len ==> #[trigger] np.layer_at(lp).len() == 0,
                    forall|lp: int, kp: int|
                        0 <= lp < names_len && 0 <= kp < np.layer_at(lp).len()
                            ==> #[trigger] np.layer_at(lp)[kp] as int == loaded_prefix(
                            *doc,
                            names,
                            lp,
                        ) + kp,
                    forall|i: int|
                        0 <= i < np.slots@.len() ==> (#[trigger] np.slots@[i]).generation
                            as int == base + i && np.slots@[i].cell is Present,
                decreases cnt - k,
            {
                proof {
                    lemma_tag_index(*doc, names, l5 as int, k as int);
                }
                let entity = objs_rest.remove(0);
                let ghost before = np;
                let id = np.spawn(l5, entity);
                proof {
                    assert forall|lp: int, kp: int|
                        0 <= lp < names_len && 0 <= kp < np.layer_at(lp).len() implies
                        #[trigger] np.layer_at(lp)[kp] as int == loaded_prefix(*doc, names, lp)
                            + kp by {
                        if lp == l5 as int && kp == k as int {
                        } else if lp == l5 as int {
                            assert(np.layer_at(lp)[kp] == before.layer_at(lp)[kp]);
                        } else {
                            assert(np.layer_at(lp) == before.layer_at(lp));
                        }
                    }
                }
                k = k + 1;
            }
            proof {
                assert(tag_seq(*doc, names, (l5 + 1) as int) == tag_seq(*doc, names, l5 as int)
                    + matched_objects(*doc, names, l5 as int).map_values(
                    |o: SavedObject| o.tag,
                ));
            }
            l5 = l5 + 1;
        }
        // Atomic replace: nothing above touched the live registry.
        self.persistent = np;
        Result::Ok(())
    }
}

/// A document that came out of `save` against the same layer names matches
/// those names layer for layer: live layer `l` is rebuilt from document
/// layer `l`.
pub proof fn lemma_saved_doc_matches(doc: SaveDoc, names: Seq<Seq<char>>)
    requires
        doc.layers@.len() == names.len(),
        forall|l: int| 0 <= l < names.len() ==> #[trigger] doc.names()[l] == names[l],
        forall|i: int, j: int|
            0 <= i < names.len() && 0 <= j < names.len() && i != j
                ==> #[trigger] names[i] != #[trigger] names[j],
    ensures
        layer_sets_match(doc, names),
        forall|l: int| 0 <= l < names.len() ==> doc_layer_for(doc, #[trigger] names[l]) == l,
        forall|l: int|
            0 <= l < names.len() ==> matched_objects(doc, names, l) == doc.objects_of(l),
{
    assert forall|l: int| 0 <= l < names.len() implies unique_doc_layer(
        doc,
        #[trigger] names[l],
    ) && doc_layer_for(doc, names[l]) == l by {
        assert(is_the_doc_layer(doc, names[l], l));
        let d = doc_layer_for(doc, names[l]);
        assert(is_the_doc_layer(doc, names[l], d));
        assert(d == l);
    }
}

/// In a saved document the tags are exactly the traversal positions: the
/// entity saved `t`-th carries tag `t`. In particular two saves of an
/// unchanged registry assign identical tags.
pub proof fn lemma_saved_doc_tags<P>(old_pool: Pool<P>, doc: SaveDoc, names: Seq<Seq<char>>)
    requires
        old_pool.wf(),
        names.len() == old_pool.num_layers(),
        doc.layers@.len() == names.len(),
        forall|l: int| 0 <= l < names.len() ==> #[trigger] doc.names()[l] == names[l],
        forall|i: int, j: int|
            0 <= i < names.len() && 0 <= j < names.len() && i != j
                ==> #[trigger] names[i] != #[trigger] names[j],
        forall|l: int|
            0 <= l < names.len() ==> #[trigger] doc.objects_of(l).len() == old_pool.layer_at(
                l,
            ).len(),
        forall|l: int, k: int|
            0 <= l < names.len() && 0 <= k < old_pool.layer_at(l).len()
                ==> (#[trigger] doc.objects_of(l)[k]).tag as int == tag_of(old_pool, l, k),
        order_seq(old_pool, old_pool.num_layers()).len() <= u64::MAX,
    ensures
        forall|l: int|
            0 <= l <= names.len() ==> #[trigger] tag_seq(doc, names, l).len() == order_seq(
                old_pool,
                l,
            ).len(),
        forall|t: int|
            0 <= t < doc_tags(doc, names).len() ==> #[trigger] doc_tags(doc, names)[t] as int
                == t,
        !has_dup_tags(doc, names),
    decreases names.len(),
{
    lemma_saved_doc_matches(doc, names);
    assert forall|l: int| 0 <= l <= names.len() implies #[trigger] tag_seq(doc, names, l).len()
        == order_seq(old_pool, l).len() by {
        lemma_prefix_lens(old_pool, doc, names, l);
    }
    assert forall|t: int|
        0 <= t < doc_tags(doc, names).len() implies #[trigger] doc_tags(doc, names)[t] as int
        == t by {
        lemma_tag_covered(doc, names, names.len() as int, t);
        let (l, k): (int, int) = choose|l: int, k: int|
            0 <= l < names.len() && 0 <= k < matched_objects(doc, names, l).len()
                && loaded_prefix(doc, names, l) + k == t && #[trigger] matched_objects(
                doc,
                names,
                l,
            )[k].tag == tag_seq(doc, names, names.len() as int)[t];
        assert(matched_objects(doc, names, l) == doc.objects_of(l));
        assert(doc.objects_of(l)[k].tag as int == tag_of(old_pool, l, k));
        lemma_prefix_lens(old_pool, doc, names, l);
        assert(tag_of(old_pool, l, k) == t);
        lemma_order_index(old_pool, l, k);
        lemma_prefix_lens(old_pool, doc, names, names.len() as int);
    }
}

proof fn lemma_prefix_lens<P>(old_pool: Pool<P>, doc: SaveDoc, names: Seq<Seq<char>>, l: int)
    requires
        0 <= l <= names.len(),
        names.len() == old_pool.num_layers(),
        forall|l2: int|
            0 <= l2 < names.len() ==> matched_objects(doc, names, l2) == doc.objects_of(l2),
        forall|l2: int|
            0 <= l2 < names.len() ==> #[trigger] doc.objects_of(l2).len()
                == old_pool.layer_at(l2).len(),
    ensures
        tag_seq(doc, names, l).len() == order_seq(old_pool, l).len(),
    decreases l,
{
    if l > 0 {
        lemma_prefix_lens(old_pool, doc, names, l - 1);
        assert(matched_objects(doc, names, l - 1) == doc.objects_of(l - 1));
        assert(tag_seq(doc, names, l) == tag_seq(doc, names, l - 1) + matched_objects(
            doc,
            names,
            l - 1,
        ).map_values(|o: SavedObject| o.tag));
        assert(matched_objects(doc, names, l - 1).map_values(|o: SavedObject| o.tag).len()
            == doc.objects_of(l - 1).len());
        assert(order_seq(old_pool, l) == order_seq(old_pool, l - 1) + old_pool.layer_at(l - 1));
    }
}

/// The tag lookup a load builds for a document, as a mathematical map: each
/// tag the document carries points at the slot rebuilt for it — its
/// traversal position, under the stamp that position gets.
pub open spec fn doc_tag_lookup(doc: SaveDoc, names: Seq<Seq<char>>, base: u64) -> Map<
    u64,
    SlotId,
> {
    Map::new(
        |n: u64| doc_tags(doc, names).contains(n),
        |n: u64|
            {
                let t = choose|t: int|
                    0 <= t < doc_tags(doc, names).len() && doc_tags(doc, names)[t] == n;
                SlotId { index: t as usize, generation: (base + t) as u64 }
            },
    )
}

/// For a document without duplicate tags that fits the stamp space, the
/// canonical lookup behaves exactly as the round-trip lemmas assume: it
/// knows precisely the document's tags, and sends the tag at traversal
/// position `t` to the slot rebuilt at position `t`.
pub proof fn lemma_doc_tag_lookup(doc: SaveDoc, names: Seq<Seq<char>>, base: u64)
    requires
        !has_dup_tags(doc, names),
        base + doc_tags(doc, names).len() <= u64::MAX,
    ensures
        forall|n: u64|
            #[trigger] doc_tag_lookup(doc, names, base).contains_key(n) <==> doc_tags(
                doc,
                names,
            ).contains(n),
        forall|t: int|
            0 <= t < doc_tags(doc, names).len() ==> doc_tag_lookup(doc, names, base)[
                #[trigger] doc_tags(doc, names)[t]
            ] == (SlotId { index: t as usize, generation: (base + t) as u64 }),
{
    assert forall|t: int|
        0 <= t < doc_tags(doc, names).len() implies doc_tag_lookup(doc, names, base)[
        #[trigger] doc_tags(doc, names)[t]
    ] == (SlotId { index: t as usize, generation: (base + t) as u64 }) by {
        let n = doc_tags(doc, names)[t];
        assert(doc_tags(doc, names).contains(n));
        let t2 = choose|t2: int|
            0 <= t2 < doc_tags(doc, names).len() && doc_tags(doc, names)[t2] == n;
        if t2 != t {
            if t2 < t {
                assert(doc_tags(doc, names)[t2] == doc_tags(doc, names)[t]);
            }
            assert(false);
        }
    }
}

/// Round-trip identity of the reference graph. Take a well-formed, steady
/// registry, the tag table its save pass assigns, the document the save
/// emits, and the pool a successful load rebuilds from that document (the
/// requires are exactly what `save` and `load` ensure). Then the rebuilt
/// pool holds the same number of slots in every layer, and every reference
/// state an entity could have exported round-trips: a live reference to the
/// slot at layer position `(l, k)` — self-references and members of cycles
/// included — decodes to a live reference to the rebuilt slot at the same
/// position; an unset reference stays unset; a dangling one stays dangling.
pub proof fn lemma_save_load_round_trip<P>(
    old_pool: Pool<P>,
    tags: Seq<Option<u64>>,
    doc: SaveDoc,
    names: Seq<Seq<char>>,
    np: Pool<P>,
    lookup: Map<u64, SlotId>,
    r: MaybePersistentRef,
    l: int,
    k: int,
)
    requires
        old_pool.wf(),
        old_pool.steady(),
        tags_assigned(old_pool, tags),
        names.len() == old_pool.num_layers(),
        forall|i: int, j: int|
            0 <= i < names.len() && 0 <= j < names.len() && i != j
                ==> #[trigger] names[i] != #[trigger] names[j],
        doc.layers@.len() == names.len(),
        forall|l2: int| 0 <= l2 < names.len() ==> #[trigger] doc.names()[l2] == names[l2],
        forall|l2: int|
            0 <= l2 < names.len() ==> #[trigger] doc.objects_of(l2).len()
                == old_pool.layer_at(l2).len(),
        forall|l2: int, k2: int|
            0 <= l2 < names.len() && 0 <= k2 < old_pool.layer_at(l2).len()
                ==> (#[trigger] doc.objects_of(l2)[k2]).tag as int == tag_of(old_pool, l2, k2),
        forall|l2: int|
            0 <= l2 < names.len() ==> #[trigger] np.layer_at(l2).len() == matched_objects(
                doc,
                names,
                l2,
            ).len(),
        forall|l2: int, k2: int|
            0 <= l2 < names.len() && 0 <= k2 < np.layer_at(l2).len()
                ==> #[trigger] np.layer_at(l2)[k2] as int == loaded_prefix(doc, names, l2) + k2,
        forall|i: int|
            0 <= i < np.slots@.len() ==> (#[trigger] np.slots@[i]).generation as int
                == old_pool.next_generation + i,
        np.slots@.len() == doc_tags(doc, names).len(),
        forall|n: u64| #[trigger] lookup.contains_key(n) <==> doc_tags(doc, names).contains(n),
        forall|t: int|
            0 <= t < doc_tags(doc, names).len() ==> lookup[#[trigger] doc_tags(doc, names)[t]]
                == (SlotId {
                index: t as usize,
                generation: (old_pool.next_generation + t) as u64,
            }),
    ensures
        forall|l2: int|
            0 <= l2 < names.len() ==> #[trigger] np.layer_at(l2).len() == old_pool.layer_at(
                l2,
            ).len(),
        (0 <= l < names.len() && 0 <= k < old_pool.layer_at(l).len() && r
            == MaybePersistentRef::Ref(PersistentRef { id: old_pool.slot_of(l, k) }))
            ==> spec_decode_ref(lookup, spec_encode_ref(old_pool, tags, r)) == Result::<
            MaybePersistentRef,
            LoadError,
        >::Ok(MaybePersistentRef::Ref(PersistentRef { id: np.slot_of(l, k) })),
        r is Unset ==> spec_decode_ref(lookup, spec_encode_ref(old_pool, tags, r)) == Result::<
            MaybePersistentRef,
            LoadError,
        >::Ok(MaybePersistentRef::Unset),
        r is Despawned ==> spec_decode_ref(lookup, spec_encode_ref(old_pool, tags, r))
            == Result::<MaybePersistentRef, LoadError>::Ok(MaybePersistentRef::Despawned),
{
    lemma_saved_doc_matches(doc, names);
    lemma_saved_doc_tags(old_pool, doc, names);
    assert forall|l2: int|
        0 <= l2 < names.len() implies #[trigger] np.layer_at(l2).len() == old_pool.layer_at(
        l2,
    ).len() by {
        assert(matched_objects(doc, names, l2) == doc.objects_of(l2));
    }
    if 0 <= l < names.len() && 0 <= k < old_pool.layer_at(l).len() && r
        == MaybePersistentRef::Ref(PersistentRef { id: old_pool.slot_of(l, k) }) {
        let h = old_pool.slot_of(l, k);
        let i = old_pool.layer_at(l)[k];
        assert(!(old_pool.slots@[i as int].cell is Vacant));
        assert(!(old_pool.slots@[i as int].cell is Taken));
        assert(old_pool.id_live(h));
        assert(tags[i as int] == Some(tag_of(old_pool, l, k) as u64));
        lemma_order_index(old_pool, l, k);
        let t = tag_of(old_pool, l, k);
        assert(spec_encode_ref(old_pool, tags, r) == RefCode::Tag(t as u64));
        // the document carries tag t at traversal position t
        lemma_prefix_lens(old_pool, doc, names, l);
        lemma_prefix_lens(old_pool, doc, names, names.len() as int);
        lemma_tag_index(doc, names, l, k);
        assert(doc_tags(doc, names)[t] == matched_objects(doc, names, l)[k].tag);
        assert(matched_objects(doc, names, l) == doc.objects_of(l));
        assert(doc_tags(doc, names)[t] == (t as u64));
        assert(doc_tags(doc, names).contains(t as u64));
        assert(lookup.contains_key(t as u64));
        assert(lookup[t as u64] == (SlotId {
            index: t as usize,
            generation: (old_pool.next_generation + t) as u64,
        }));
        // the rebuilt slot at the same position has exactly that identity
        assert(np.layer_at(l)[k] as int == loaded_prefix(doc, names, l) + k);
        assert(loaded_prefix(doc, names, l) + k == t);
        assert(np.slots@[t].generation as int == old_pool.next_generation + t);
        assert(np.slot_of(l, k) == (SlotId {
            index: t as usize,
            generation: (old_pool.next_generation + t) as u64,
        }));
    }
}

/// Dangling preservation: a reference that was already dangling at save time
/// — either marked despawned, or still holding a handle whose slot is gone —
/// is written as dangling and comes back from a load as the explicit
/// despawned marker: never resurrected, never an error.
pub proof fn lemma_dangling_preserved<P>(
    old_pool: Pool<P>,
    tags: Seq<Option<u64>>,
    lookup: Map<u64, SlotId>,
    r: MaybePersistentRef,
)
    requires
        r is Despawned || (r is Ref && !old_pool.id_live(r->Ref_0.id)),
    ensures
        spec_encode_ref(old_pool, tags, r) == RefCode::Dangling,
        spec_decode_ref(lookup, spec_encode_ref(old_pool, tags, r)) == Result::<
            MaybePersistentRef,
            LoadError,
        >::Ok(MaybePersistentRef::Despawned),
{
}

/// Self-reference stability: an entity whose reference points at its own
/// slot gets it back, after a round trip, pointing at its own rebuilt slot —
/// tag and position included. (Resolving such a reference during the
/// entity's own update is the `Taken` outcome of resolution, never a despawn
/// and never a hang: see `Pool::resolve`.)
pub proof fn lemma_self_reference_stable<P>(
    old_pool: Pool<P>,
    tags: Seq<Option<u64>>,
    doc: SaveDoc,
    names: Seq<Seq<char>>,
    np: Pool<P>,
    lookup: Map<u64, SlotId>,
    l: int,
    k: int,
)
    requires
        old_pool.wf(),
        old_pool.steady(),
        tags_assigned(old_pool, tags),
        names.len() == old_pool.num_layers(),
        forall|i: int, j: int|
            0 <= i < names.len() && 0 <= j < names.len() && i != j
                ==> #[trigger] names[i] != #[trigger] names[j],
        doc.layers@.len() == names.len(),
        forall|l2: int| 0 <= l2 < names.len() ==> #[trigger] doc.names()[l2] == names[l2],
        forall|l2: int|
            0 <= l2 < names.len() ==> #[trigger] doc.objects_of(l2).len()
                == old_pool.layer_at(l2).len(),
        forall|l2: int, k2: int|
            0 <= l2 < names.len() && 0 <= k2 < old_pool.layer_at(l2).len()
                ==> (#[trigger] doc.objects_of(l2)[k2]).tag as int == tag_of(old_pool, l2, k2),
        forall|l2: int|
            0 <= l2 < names.len() ==> #[trigger] np.layer_at(l2).len() == matched_objects(
                doc,
                names,
                l2,
            ).len(),
        forall|l2: int, k2: int|
            0 <= l2 < names.len() && 0 <= k2 < np.layer_at(l2).len()
                ==> #[trigger] np.layer_at(l2)[k2] as int == loaded_prefix(doc, names, l2) + k2,
        forall|i: int|
            0 <= i < np.slots@.len() ==> (#[trigger] np.slots@[i]).generation as int
                == old_pool.next_generation + i,
        np.slots@.len() == doc_tags(doc, names).len(),
        forall|n: u64| #[trigger] lookup.contains_key(n) <==> doc_tags(doc, names).contains(n),
        forall|t: int|
            0 <= t < doc_tags(doc, names).len() ==> lookup[#[trigger] doc_tags(doc, names)[t]]
                == (SlotId {
                index: t as usize,
                generation: (old_pool.next_generation + t) as u64,
            }),
        0 <= l < names.len(),
        0 <= k < old_pool.layer_at(l).len(),
    ensures
        spec_decode_ref(
            lookup,
            spec_encode_ref(
                old_pool,
                tags,
                MaybePersistentRef::Ref(PersistentRef { id: old_pool.slot_of(l, k) }),
            ),
        ) == Result::<MaybePersistentRef, LoadError>::Ok(
            MaybePersistentRef::Ref(PersistentRef { id: np.slot_of(l, k) }),
        ),
{
    lemma_save_load_round_trip(
        old_pool,
        tags,
        doc,
        names,
        np,
        lookup,
        MaybePersistentRef::Ref(PersistentRef { id: old_pool.slot_of(l, k) }),
        l,
        k,
    );
}

/// Pure check whether every reference tag in the document resolves, used to
/// tell apart the two failure causes when both could apply.
#[verifier::loop_isolation(false)]
fn refs_resolvable_check(
    doc: &SaveDoc,
    match_idx: &Vec<usize>,
    all_tags: &Vec<u64>,
    Ghost(names): Ghost<Seq<Seq<char>>>,
) -> (r: bool)
    requires
        match_idx@.len() == names.len(),
        forall|l2: int|
            0 <= l2 < names.len() ==> #[trigger] match_idx@[l2] as int == doc_layer_for(
                *doc,
                names[l2],
            ) && (match_idx@[l2] as int) < doc.layers@.len(),
        all_tags@ == doc_tags(*doc, names),
    ensures
        r == refs_resolvable(*doc, names),
{
    let names_len = match_idx.len();
    let ntags = all_tags.len();
    let mut l: usize = 0;
    while l < names_len
        invariant
            l <= names_len,
            names_len == names.len(),
            ntags == all_tags@.len(),
            all_tags@ == doc_tags(*doc, names),
            forall|l2: int|
                0 <= l2 < names.len() ==> #[trigger] match_idx@[l2] as int == doc_layer_for(
                    *doc,
                    names[l2],
                ) && (match_idx@[l2] as int) < doc.layers@.len(),
            forall|lp: int, kp: int, jp: int|
                #![trigger matched_objects(*doc, names, lp)[kp].refs@[jp]]
                0 <= lp < l && 0 <= kp < matched_objects(*doc, names, lp).len() && 0 <= jp
                    < matched_objects(*doc, names, lp)[kp].refs@.len() ==> match
                matched_objects(*doc, names, lp)[kp].refs@[jp] {
                    RefCode::Tag(n) => doc_tags(*doc, names).contains(n),
                    _ => true,
                },
        decreases names_len - l,
    {
        let dl = match_idx[l];
        let cnt = doc.layers[dl].objects.len();
        let mut k: usize = 0;
        while k < cnt
            invariant
                k <= cnt,
                l < names_len,
                names_len == names.len(),
                ntags == all_tags@.len(),
                all_tags@ == doc_tags(*doc, names),
                dl == match_idx@[l as int],
                dl as int == doc_layer_for(*doc, names[l as int]),
                (dl as int) < doc.layers@.len(),
                cnt == matched_objects(*doc, names, l as int).len(),
                forall|lp: int, kp: int, jp: int|
                    #![trigger matched_objects(*doc, names, lp)[kp].refs@[jp]]
                    0 <= lp < l && 0 <= kp < matched_objects(*doc, names, lp).len() && 0 <= jp
                        < matched_objects(*doc, names, lp)[kp].refs@.len() ==> match
                    matched_objects(*doc, names, lp)[kp].refs@[jp] {
                        RefCode::Tag(n) => doc_tags(*doc, names).contains(n),
                        _ => true,
                    },
                forall|kp: int, jp: int|
                    #![trigger matched_objects(*doc, names, l as int)[kp].refs@[jp]]
                    0 <= kp < k && 0 <= jp < matched_objects(
                        *doc,
                        names,
                        l as int,
                    )[kp].refs@.len() ==> match matched_objects(
                        *doc,
                        names,
                        l as int,
                    )[kp].refs@[jp] {
                        RefCode::Tag(n) => doc_tags(*doc, names).contains(n),
                        _ => true,
                    },
            decreases cnt - k,
        {
            let nrefs = doc.layers[dl].objects[k].refs.len();
            let mut j: usize = 0;
            while j < nrefs
                invariant
                    j <= nrefs,
                    nrefs == matched_objects(*doc, names, l as int)[k as int].refs@.len(),
                    forall|jp: int|
                        0 <= jp < j ==> match #[trigger] matched_objects(
                            *doc,
                            names,
                            l as int,
                        )[k as int].refs@[jp] {
                            RefCode::Tag(n) => doc_tags(*doc, names).contains(n),
                            _ => true,
                        },
                decreases nrefs - j,
            {
                let ghost code = matched_objects(*doc, names, l as int)[k as int].refs@[
                    j as int
                ];
                proof {
                    assert(code == doc.layers@[dl as int].objects@[k as int].refs@[j as int]);
                }
                let is_tag = match &doc.layers[dl].objects[k].refs[j] {
                    RefCode::Tag(n) => {
                        proof {
                            assert(*n == code->Tag_0);
                        }
                        let mut hit = false;
                        let mut w: usize = 0;
                        while w < ntags
                            invariant
                                w <= ntags,
                                hit ==> all_tags@.contains(code->Tag_0),
                                !hit ==> forall|wp: int|
                                    0 <= wp < w ==> #[trigger] all_tags@[wp] != code->Tag_0,
                            decreases ntags - w,
                        {
                            if all_tags[w] == *n {
                                hit = true;
                                proof {
                                    assert(all_tags@[w as int] == code->Tag_0);
                                }
                            }
                            w = w + 1;
                        }
                        if !hit {
                            proof {
                                assert(!all_tags@.contains(code->Tag_0));
                                assert(!refs_resolvable(*doc, names));
                            }
                            return false;
                        }
                        true
                    },
                    _ => false,
                };
                let _ = is_tag;
                j = j + 1;
            }
            k = k + 1;
        }
        l = l + 1;
    }
    true
}

} // verus!
