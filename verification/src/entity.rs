//! The capability contract simulated entities implement.
//!
//! Entities come in two ownership kinds: persistent ones are written to the
//! save document and restored from it; volatile ones (particle effects and
//! the like) live only for the session. Both kinds take part in the same
//! per-frame protocol: generate a rate, apply it, then report liveness and
//! spawn requests.

use vstd::prelude::*;

use crate::doc::Payload;
use crate::refs::MaybePersistentRef;
use crate::state::GameState;

verus! {

/// Signalling for entity despawn: returned by an entity's despawn-check to
/// say whether it stays in the game for the next frame.
pub enum LivelinessStatus {
    Retain,
    Despawn,
}

impl LivelinessStatus {
    /// Builds the status from a boolean, `true` meaning the entity stays.
    pub fn new(b: bool) -> (r: Self)
        ensures
            r is Retain <==> b,
    {
        if b {
            LivelinessStatus::Retain
        } else {
            LivelinessStatus::Despawn
        }
    }
}

/// What a persistent entity reports from its despawn-check phase: whether it
/// stays alive, and the entities it wants spawned, grouped by target layer.
pub struct PersistentSpawnChanges<P, V> {
    pub alive: LivelinessStatus,
    /// The volatile spawns into the game, and the render layers they are
    /// added to.
    pub volatile_spawns: Vec<(String, Vec<V>)>,
    /// Same as `volatile_spawns`, but spawning persistent entities instead.
    pub persistent_spawns: Vec<(String, Vec<P>)>,
}

/// What a volatile entity reports from its despawn-check phase. A volatile
/// entity may only spawn volatile entities.
pub struct VolatileSpawnChanges<V> {
    pub alive: LivelinessStatus,
    pub volatile_spawns: Vec<(String, Vec<V>)>,
}

/// Anything which is part of the game loop and is not saved, e.g. a particle
/// effect. `P` is the persistent entity kind sharing the registry.
pub trait Volatile<P>: Sized {
    /// First phase of a frame: generate a change in self (a rate), which is
    /// stashed and applied later in the frame. Reads the whole registry;
    /// must mutate nothing but its own pending rate.
    fn generate_rate(&mut self, state: &GameState<P, Self>);

    /// Second phase: apply the rate which was previously generated.
    fn apply_rate(&mut self);

    /// Third phase: report whether the entity stays alive and what it wants
    /// spawned. Spawned entities first take part in the next frame. The
    /// default reports "alive forever, spawns nothing".
    fn apply_spawns(&self) -> (r: VolatileSpawnChanges<Self>)
        default_ensures
            r.alive is Retain,
            r.volatile_spawns@.len() == 0,
    {
        VolatileSpawnChanges { alive: LivelinessStatus::Retain, volatile_spawns: Vec::new() }
    }
}

/// Anything updated in the game loop and saved as part of the save file.
/// `V` is the volatile entity kind sharing the registry.
pub trait Persistent<V>: Sized {
    /// First phase of a frame: generate a change in self (a rate), which is
    /// stashed and applied later in the frame. The rate is not part of the
    /// save file, only the applied state.
    fn generate_rate(&mut self, state: &GameState<Self, V>);

    /// Second phase: apply the rate which was previously generated.
    fn apply_rate(&mut self);

    /// Third phase: report whether the entity stays alive and what it wants
    /// spawned. Spawned entities first take part in the next frame. The
    /// default reports "alive forever, spawns nothing".
    fn apply_spawns(&self) -> (r: PersistentSpawnChanges<Self, V>)
        default_ensures
            r.alive is Retain,
            r.volatile_spawns@.len() == 0,
            r.persistent_spawns@.len() == 0,
    {
        PersistentSpawnChanges {
            alive: LivelinessStatus::Retain,
            volatile_spawns: Vec::new(),
            persistent_spawns: Vec::new(),
        }
    }

    /// References to persistent entities which need to be saved, in a fixed
    /// order. The default is none.
    fn save_entity_references(&self) -> (r: Vec<MaybePersistentRef>)
        default_ensures
            r@.len() == 0,
    {
        Vec::new()
    }

    /// Receives, in the order of `save_entity_references`, the same number
    /// of rebuilt references. Returns whether the count was accepted; a
    /// mismatch is a fatal load error (the whole load is rejected). The
    /// default accepts exactly the empty list — matching what the default
    /// export declared.
    fn load_entity_references(&mut self, v: Vec<MaybePersistentRef>) -> (r: bool)
        default_ensures
            r == (v@.len() == 0),
    {
        v.len() == 0
    }

    /// Stable identifier of this entity kind, written to the document so the
    /// entity can be decoded generically on load.
    fn type_tag(&self) -> String;

    /// The entity's own state as document fields (without references, which
    /// the codec handles).
    fn save_payload(&self) -> Payload;

    /// Decodes an entity of the kind named `tag` from its document fields;
    /// `None` if the tag names no known kind or the fields do not fit.
    fn load_payload(tag: &str, payload: &Payload) -> Option<Self>;
}

/// Presentation: draw to a render sink. The sink is whatever the embedding
/// application injects; the library only calls through.
pub trait Render<S> {
    fn render(&self, sink: &mut S);
}

} // verus!
