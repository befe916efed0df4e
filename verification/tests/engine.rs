use simcore::codec::{assign_tags, decode_ref, encode_ref};
use simcore::doc::{FieldValue, LoadError, Payload, RefCode, SaveDoc, SavedLayer, SavedObject};
use simcore::entity::{
    LivelinessStatus, Persistent, PersistentSpawnChanges, Render, Volatile, VolatileSpawnChanges,
};
use simcore::frame::FrameError;
use simcore::refs::{
    MaybePersistentRef, PersistentRef, PersistentRefPromotionResult, RefResolution,
};
use simcore::slot::SlotId;
use simcore::state::GameState;
use simcore::ui::{
    contains_point, process_button_event, Bound, FitType, FocusState, PointerEvent, UIState,
};

/// A persistent test entity: carries hit points, one declared weak
/// reference, and switches that drive the scenarios.
struct Critter {
    hp: i64,
    pending: i64,
    friend: MaybePersistentRef,
    gen_calls: u64,
    spawn_each_frame: bool,
    despawn_next: bool,
    observed_friend_hp: Option<i64>,
    saw_taken: bool,
}

impl Critter {
    fn new(hp: i64) -> Critter {
        Critter {
            hp,
            pending: 0,
            friend: MaybePersistentRef::Unset,
            gen_calls: 0,
            spawn_each_frame: false,
            despawn_next: false,
            observed_friend_hp: None,
            saw_taken: false,
        }
    }
}

/// A volatile test entity (a "particle"): updated each frame, never saved.
struct Spark {
    age: i64,
    despawn_next: bool,
}

impl Volatile<Critter> for Spark {
    fn generate_rate(&mut self, _state: &GameState<Critter, Spark>) {}

    fn apply_rate(&mut self) {
        self.age += 1;
    }

    fn apply_spawns(&self) -> VolatileSpawnChanges<Spark> {
        VolatileSpawnChanges {
            alive: LivelinessStatus::new(!self.despawn_next),
            volatile_spawns: Vec::new(),
        }
    }
}

impl Persistent<Spark> for Critter {
    fn generate_rate(&mut self, state: &GameState<Critter, Spark>) {
        self.gen_calls += 1;
        self.pending = 1;
        if let MaybePersistentRef::Ref(r) = &self.friend {
            match r.resolve(&state.persistent) {
                RefResolution::Alive(other) => {
                    self.observed_friend_hp = Some(other.hp);
                }
                RefResolution::Taken => {
                    self.saw_taken = true;
                }
                RefResolution::Despawned => {
                    self.observed_friend_hp = None;
                }
            }
        }
    }

    fn apply_rate(&mut self) {
        self.hp += self.pending;
        self.pending = 0;
    }

    fn apply_spawns(&self) -> PersistentSpawnChanges<Critter, Spark> {
        let mut persistent_spawns = Vec::new();
        if self.spawn_each_frame {
            persistent_spawns.push(("main".to_string(), vec![Critter::new(0)]));
        }
        PersistentSpawnChanges {
            alive: LivelinessStatus::new(!self.despawn_next),
            volatile_spawns: Vec::new(),
            persistent_spawns,
        }
    }

    fn save_entity_references(&self) -> Vec<MaybePersistentRef> {
        vec![self.friend]
    }

    fn load_entity_references(&mut self, v: Vec<MaybePersistentRef>) -> bool {
        if v.len() != 1 {
            return false;
        }
        self.friend = v[0];
        true
    }

    fn type_tag(&self) -> String {
        "critter".to_string()
    }

    fn save_payload(&self) -> Payload {
        Payload {
            fields: vec![
                ("hp".to_string(), FieldValue::Int(self.hp)),
                ("spawner".to_string(), FieldValue::Flag(self.spawn_each_frame)),
            ],
        }
    }

    fn load_payload(tag: &str, payload: &Payload) -> Option<Critter> {
        if tag != "critter" {
            return None;
        }
        let mut c = Critter::new(0);
        for (name, value) in &payload.fields {
            match (name.as_str(), value) {
                ("hp", FieldValue::Int(v)) => c.hp = *v,
                ("spawner", FieldValue::Flag(b)) => c.spawn_each_frame = *b,
                _ => return None,
            }
        }
        Some(c)
    }
}

impl Render<Vec<String>> for Critter {
    fn render(&self, sink: &mut Vec<String>) {
        sink.push(format!("critter:{}", self.hp));
    }
}

impl Render<Vec<String>> for Spark {
    fn render(&self, sink: &mut Vec<String>) {
        sink.push(format!("spark:{}", self.age));
    }
}

fn names(list: &[&str]) -> Vec<String> {
    list.iter().map(|s| s.to_string()).collect()
}

fn new_state(list: &[&str]) -> GameState<Critter, Spark> {
    GameState::new(names(list))
}

/// Reads the entity behind a reference by checking it out and back in.
fn with_critter<R>(
    state: &mut GameState<Critter, Spark>,
    r: &PersistentRef,
    f: impl FnOnce(&mut Critter) -> R,
) -> R {
    match r.get(&mut state.persistent) {
        PersistentRefPromotionResult::Alive(mut c) => {
            let out = f(&mut c);
            r.set(&mut state.persistent, c);
            out
        }
        _ => panic!("expected a live slot"),
    }
}

#[test]
fn liveliness_status_from_bool() {
    assert!(matches!(LivelinessStatus::new(true), LivelinessStatus::Retain));
    assert!(matches!(LivelinessStatus::new(false), LivelinessStatus::Despawn));
}

#[test]
fn spawn_and_resolve() {
    let mut gs = new_state(&["main", "fx"]);
    assert!(gs.has_layer("main"));
    assert!(!gs.has_layer("nowhere"));
    let r = gs.spawn_persistent(Critter::new(7), "main");
    assert_eq!(gs.get_persistents("main").len(), 1);
    assert_eq!(gs.get_persistents("fx").len(), 0);
    assert_eq!(gs.get_persistents("main")[0], r);
    match r.resolve(&gs.persistent) {
        RefResolution::Alive(c) => assert_eq!(c.hp, 7),
        _ => panic!("freshly spawned slot must be alive"),
    }
}

#[test]
fn take_makes_slot_taken_until_restored() {
    let mut gs = new_state(&["main"]);
    let r = gs.spawn_persistent(Critter::new(1), "main");
    let c = match r.get(&mut gs.persistent) {
        PersistentRefPromotionResult::Alive(c) => c,
        _ => panic!("expected alive"),
    };
    // while checked out, resolution reports the transient Taken state,
    // never despawn
    assert!(matches!(r.resolve(&gs.persistent), RefResolution::Taken));
    assert!(matches!(
        r.get(&mut gs.persistent),
        PersistentRefPromotionResult::Taken
    ));
    r.set(&mut gs.persistent, c);
    assert!(matches!(r.resolve(&gs.persistent), RefResolution::Alive(_)));
}

#[test]
fn despawned_slot_resolves_despawned() {
    let mut gs = new_state(&["main"]);
    let r = gs.spawn_persistent(Critter::new(1), "main");
    with_critter(&mut gs, &r, |c| c.despawn_next = true);
    gs.run_frame().unwrap();
    assert_eq!(gs.get_persistents("main").len(), 0);
    assert!(matches!(r.resolve(&gs.persistent), RefResolution::Despawned));
    assert!(matches!(
        r.get(&mut gs.persistent),
        PersistentRefPromotionResult::Despawned
    ));
}

#[test]
fn handle_equality_is_slot_identity() {
    let mut gs = new_state(&["main"]);
    let a = gs.spawn_persistent(Critter::new(1), "main");
    let b = gs.spawn_persistent(Critter::new(2), "main");
    assert_ne!(a, b);
    assert_eq!(a, gs.get_persistents("main")[0]);
    assert_eq!(b, gs.get_persistents("main")[1]);
}

#[test]
fn round_trip_reproduces_counts_and_topology() {
    // a cycle of length two in "main" and an unset reference in "fx"
    let mut gs = new_state(&["main", "fx"]);
    let a = gs.spawn_persistent(Critter::new(10), "main");
    let b = gs.spawn_persistent(Critter::new(20), "main");
    let _c = gs.spawn_persistent(Critter::new(30), "fx");
    with_critter(&mut gs, &a, |x| x.friend = MaybePersistentRef::Ref(b));
    with_critter(&mut gs, &b, |x| x.friend = MaybePersistentRef::Ref(a));

    let doc = gs.save();
    // document shape: two layers in registry order, dense tags, encoded refs
    assert_eq!(doc.layers.len(), 2);
    assert_eq!(doc.layers[0].name, "main");
    assert_eq!(doc.layers[1].name, "fx");
    assert_eq!(doc.layers[0].objects.len(), 2);
    assert_eq!(doc.layers[1].objects.len(), 1);
    assert_eq!(doc.layers[0].objects[0].tag, 0);
    assert_eq!(doc.layers[0].objects[1].tag, 1);
    assert_eq!(doc.layers[1].objects[0].tag, 2);
    assert_eq!(doc.layers[0].objects[0].refs, vec![RefCode::Tag(1)]);
    assert_eq!(doc.layers[0].objects[1].refs, vec![RefCode::Tag(0)]);
    assert_eq!(doc.layers[1].objects[0].refs, vec![RefCode::Unset]);

    // load into a fresh registry of identical layer shape
    let mut fresh = new_state(&["main", "fx"]);
    fresh.load(&doc).unwrap();
    assert_eq!(fresh.get_persistents("main").len(), 2);
    assert_eq!(fresh.get_persistents("fx").len(), 1);
    let a2 = fresh.get_persistents("main")[0];
    let b2 = fresh.get_persistents("main")[1];
    let a2_friend = with_critter(&mut fresh, &a2, |x| x.friend);
    let b2_friend = with_critter(&mut fresh, &b2, |x| x.friend);
    assert_eq!(a2_friend, MaybePersistentRef::Ref(b2));
    assert_eq!(b2_friend, MaybePersistentRef::Ref(a2));
    let c2 = fresh.get_persistents("fx")[0];
    let c2_friend = with_critter(&mut fresh, &c2, |x| x.friend);
    assert_eq!(c2_friend, MaybePersistentRef::Unset);
    // entity state came through
    assert_eq!(with_critter(&mut fresh, &a2, |x| x.hp), 10);
    assert_eq!(with_critter(&mut fresh, &b2, |x| x.hp), 20);
    assert_eq!(with_critter(&mut fresh, &c2, |x| x.hp), 30);
}

#[test]
fn two_saves_of_unchanged_registry_assign_identical_tags() {
    let mut gs = new_state(&["main", "fx"]);
    gs.spawn_persistent(Critter::new(1), "fx");
    gs.spawn_persistent(Critter::new(2), "main");
    let d1 = gs.save();
    let d2 = gs.save();
    for (l1, l2) in d1.layers.iter().zip(d2.layers.iter()) {
        assert_eq!(l1.name, l2.name);
        for (o1, o2) in l1.objects.iter().zip(l2.objects.iter()) {
            assert_eq!(o1.tag, o2.tag);
            assert_eq!(o1.refs, o2.refs);
        }
    }
}

#[test]
fn dangling_reference_stays_dangling_across_save_and_load() {
    let mut gs = new_state(&["main"]);
    let a = gs.spawn_persistent(Critter::new(1), "main");
    let b = gs.spawn_persistent(Critter::new(2), "main");
    with_critter(&mut gs, &a, |x| x.friend = MaybePersistentRef::Ref(b));
    with_critter(&mut gs, &b, |x| x.despawn_next = true);
    gs.run_frame().unwrap();
    // b despawned before the save; a still holds the (now dangling) handle
    assert!(matches!(b.resolve(&gs.persistent), RefResolution::Despawned));
    let doc = gs.save();
    assert_eq!(doc.layers[0].objects.len(), 1);
    assert_eq!(doc.layers[0].objects[0].refs, vec![RefCode::Dangling]);

    let mut fresh = new_state(&["main"]);
    fresh.load(&doc).unwrap();
    let a2 = fresh.get_persistents("main")[0];
    let friend = with_critter(&mut fresh, &a2, |x| x.friend);
    // despawned, never resurrected, never an error
    assert_eq!(friend, MaybePersistentRef::Despawned);
}

#[test]
fn self_reference_survives_round_trip_and_resolves_taken_mid_update() {
    let mut gs = new_state(&["main"]);
    let a = gs.spawn_persistent(Critter::new(5), "main");
    with_critter(&mut gs, &a, |x| x.friend = MaybePersistentRef::Ref(a));
    // during its own update the self-reference reads Taken — no deadlock,
    // no panic, and not despawn
    gs.run_frame().unwrap();
    assert!(with_critter(&mut gs, &a, |x| x.saw_taken));

    let doc = gs.save();
    assert_eq!(doc.layers[0].objects[0].tag, 0);
    assert_eq!(doc.layers[0].objects[0].refs, vec![RefCode::Tag(0)]);

    let mut fresh = new_state(&["main"]);
    fresh.load(&doc).unwrap();
    let a2 = fresh.get_persistents("main")[0];
    let friend = with_critter(&mut fresh, &a2, |x| x.friend);
    assert_eq!(friend, MaybePersistentRef::Ref(a2));
    // and it still resolves to itself outside of an update (the hp reflects
    // the one frame that ran before the save)
    match a2.resolve(&fresh.persistent) {
        RefResolution::Alive(c) => assert_eq!(c.hp, 6),
        _ => panic!("self reference must resolve alive after the load"),
    }
}

#[test]
fn phase_order_lets_readers_observe_pre_despawn_state() {
    let mut gs = new_state(&["main"]);
    let a = gs.spawn_persistent(Critter::new(1), "main");
    let b = gs.spawn_persistent(Critter::new(42), "main");
    with_critter(&mut gs, &a, |x| x.friend = MaybePersistentRef::Ref(b));
    with_critter(&mut gs, &b, |x| x.despawn_next = true);
    gs.run_frame().unwrap();
    // b despawned this same frame, strictly after every generate_rate, so a
    // observed b's pre-despawn state
    assert_eq!(with_critter(&mut gs, &a, |x| x.observed_friend_hp), Some(42));
    assert_eq!(gs.get_persistents("main").len(), 1);
    // next frame the reference reads despawned
    gs.run_frame().unwrap();
    assert_eq!(with_critter(&mut gs, &a, |x| x.observed_friend_hp), None);
}

#[test]
fn spawns_are_deferred_to_the_next_frame() {
    let mut gs = new_state(&["main"]);
    let a = gs.spawn_persistent(Critter::new(1), "main");
    with_critter(&mut gs, &a, |x| x.spawn_each_frame = true);

    gs.run_frame().unwrap();
    // exactly one new entity per frame, appended at the back
    assert_eq!(gs.get_persistents("main").len(), 2);
    let child = gs.get_persistents("main")[1];
    // the child took no part in the frame that spawned it
    assert_eq!(with_critter(&mut gs, &child, |x| x.gen_calls), 0);

    gs.run_frame().unwrap();
    assert_eq!(gs.get_persistents("main").len(), 3);
    // the child's first generate_rate happened on the following frame
    assert_eq!(with_critter(&mut gs, &child, |x| x.gen_calls), 1);
    assert_eq!(with_critter(&mut gs, &a, |x| x.gen_calls), 2);
}

#[test]
fn load_with_wrong_layer_set_rejects_and_leaves_registry_unchanged() {
    let mut other = new_state(&["other"]);
    other.spawn_persistent(Critter::new(9), "other");
    let doc = other.save();

    let mut gs = new_state(&["main"]);
    let a = gs.spawn_persistent(Critter::new(3), "main");
    let err = gs.load(&doc).unwrap_err();
    assert_eq!(err, LoadError::LayerSetMismatch);
    // completely unchanged: same count, same content, same handle
    assert_eq!(gs.get_persistents("main").len(), 1);
    assert_eq!(gs.get_persistents("main")[0], a);
    assert_eq!(with_critter(&mut gs, &a, |x| x.hp), 3);
}

fn one_layer_doc(objects: Vec<SavedObject>) -> SaveDoc {
    SaveDoc {
        layers: vec![SavedLayer {
            name: "main".to_string(),
            objects,
        }],
    }
}

fn saved_critter(tag: u64, refs: Vec<RefCode>) -> SavedObject {
    SavedObject {
        type_tag: "critter".to_string(),
        tag,
        payload: Payload {
            fields: vec![("hp".to_string(), FieldValue::Int(1))],
        },
        refs,
    }
}

#[test]
fn load_matches_layers_by_name_not_by_position() {
    let mut source = new_state(&["a", "b"]);
    source.spawn_persistent(Critter::new(1), "a");
    source.spawn_persistent(Critter::new(2), "b");
    source.spawn_persistent(Critter::new(3), "b");
    let doc = source.save();
    // the receiving registry registered the same names in another order
    let mut gs = new_state(&["b", "a"]);
    gs.load(&doc).unwrap();
    assert_eq!(gs.get_persistents("a").len(), 1);
    assert_eq!(gs.get_persistents("b").len(), 2);
    let a0 = gs.get_persistents("a")[0];
    assert_eq!(with_critter(&mut gs, &a0, |x| x.hp), 1);
}

#[test]
fn load_rejects_duplicate_tags() {
    let doc = one_layer_doc(vec![
        saved_critter(4, vec![RefCode::Unset]),
        saved_critter(4, vec![RefCode::Unset]),
    ]);
    let mut gs = new_state(&["main"]);
    assert_eq!(gs.load(&doc).unwrap_err(), LoadError::DuplicateTag);
    assert_eq!(gs.get_persistents("main").len(), 0);
}

#[test]
fn load_rejects_unknown_reference_tags() {
    let doc = one_layer_doc(vec![saved_critter(0, vec![RefCode::Tag(99)])]);
    let mut gs = new_state(&["main"]);
    assert_eq!(gs.load(&doc).unwrap_err(), LoadError::UnknownRefTag);
}

#[test]
fn load_rejects_unknown_entity_kinds() {
    let mut doc = one_layer_doc(vec![saved_critter(0, vec![RefCode::Unset])]);
    doc.layers[0].objects[0].type_tag = "gremlin".to_string();
    let mut gs = new_state(&["main"]);
    assert_eq!(gs.load(&doc).unwrap_err(), LoadError::UnknownTypeTag);
}

#[test]
fn load_rejects_reference_count_mismatch() {
    // a critter exports exactly one reference; a document giving it none is
    // rejected whole
    let doc = one_layer_doc(vec![saved_critter(0, vec![])]);
    let mut gs = new_state(&["main"]);
    assert_eq!(gs.load(&doc).unwrap_err(), LoadError::RefCountMismatch);
}

#[test]
fn load_accepts_arbitrary_tag_values() {
    // tags need not be dense: only distinctness and resolvability matter
    let doc = one_layer_doc(vec![
        saved_critter(700, vec![RefCode::Tag(55)]),
        saved_critter(55, vec![RefCode::Tag(700)]),
    ]);
    let mut gs = new_state(&["main"]);
    gs.load(&doc).unwrap();
    let a = gs.get_persistents("main")[0];
    let b = gs.get_persistents("main")[1];
    assert_eq!(with_critter(&mut gs, &a, |x| x.friend), MaybePersistentRef::Ref(b));
    assert_eq!(with_critter(&mut gs, &b, |x| x.friend), MaybePersistentRef::Ref(a));
}

#[test]
fn frame_fails_when_identity_stamps_run_out() {
    let mut gs = new_state(&["main"]);
    let a = gs.spawn_persistent(Critter::new(1), "main");
    with_critter(&mut gs, &a, |x| x.spawn_each_frame = true);
    // exhaust the stamp counter: the requested spawn cannot be granted, and
    // the failed insertion leaves the registry as the despawn phase left it
    gs.persistent.next_generation = u64::MAX;
    assert_eq!(gs.run_frame().unwrap_err(), FrameError::Capacity);
    assert_eq!(gs.get_persistents("main").len(), 1);
}

#[test]
fn load_fails_when_identity_stamps_run_out() {
    let doc = one_layer_doc(vec![saved_critter(0, vec![RefCode::Unset])]);
    let mut gs = new_state(&["main"]);
    gs.persistent.next_generation = u64::MAX;
    assert_eq!(gs.load(&doc).unwrap_err(), LoadError::Capacity);
    assert_eq!(gs.get_persistents("main").len(), 0);
}

#[test]
fn encode_ref_cases() {
    let mut gs = new_state(&["main"]);
    let a = gs.spawn_persistent(Critter::new(1), "main");
    let b = gs.spawn_persistent(Critter::new(2), "main");
    with_critter(&mut gs, &b, |x| x.despawn_next = true);
    gs.run_frame().unwrap();
    let tags = assign_tags(&gs.persistent);
    assert_eq!(
        encode_ref(&gs.persistent, &tags, &MaybePersistentRef::Unset),
        RefCode::Unset
    );
    assert_eq!(
        encode_ref(&gs.persistent, &tags, &MaybePersistentRef::Despawned),
        RefCode::Dangling
    );
    assert_eq!(
        encode_ref(&gs.persistent, &tags, &MaybePersistentRef::Ref(a)),
        RefCode::Tag(0)
    );
    // b's slot is gone: the live handle encodes as dangling, not a panic
    assert_eq!(
        encode_ref(&gs.persistent, &tags, &MaybePersistentRef::Ref(b)),
        RefCode::Dangling
    );
}

#[test]
fn decode_ref_cases() {
    let mut lookup = std::collections::HashMap::new();
    let id = SlotId {
        index: 3,
        generation: 17,
    };
    lookup.insert(8u64, id);
    assert_eq!(
        decode_ref(&lookup, &RefCode::Unset),
        Ok(MaybePersistentRef::Unset)
    );
    assert_eq!(
        decode_ref(&lookup, &RefCode::Dangling),
        Ok(MaybePersistentRef::Despawned)
    );
    assert_eq!(
        decode_ref(&lookup, &RefCode::Tag(8)),
        Ok(MaybePersistentRef::Ref(PersistentRef { id }))
    );
    assert_eq!(decode_ref(&lookup, &RefCode::Tag(9)), Err(LoadError::UnknownRefTag));
}

#[test]
fn spawning_to_an_unregistered_layer_fails_the_frame() {
    let mut gs = new_state(&["side"]);
    let a = gs.spawn_persistent(Critter::new(1), "side");
    // the spawner targets "main", which this registry never registered
    with_critter(&mut gs, &a, |x| x.spawn_each_frame = true);
    assert_eq!(gs.run_frame().unwrap_err(), FrameError::UnknownSpawnLayer);
    // the failed insertion was abandoned whole
    assert_eq!(gs.get_persistents("side").len(), 1);
}

#[test]
fn volatile_entities_update_and_despawn_but_are_never_saved() {
    let mut gs = new_state(&["main"]);
    gs.spawn_persistent(Critter::new(1), "main");
    let s = gs.spawn_volatile(
        Spark {
            age: 0,
            despawn_next: false,
        },
        "main",
    );
    gs.run_frame().unwrap();
    assert_eq!(gs.get_volatiles("main").len(), 1);
    let doc = gs.save();
    // only the persistent entity is in the document
    assert_eq!(doc.layers[0].objects.len(), 1);
    let _ = s;
}

#[test]
fn clear_persistent_keeps_volatile_entities() {
    let mut gs = new_state(&["main"]);
    gs.spawn_persistent(Critter::new(1), "main");
    gs.spawn_volatile(
        Spark {
            age: 0,
            despawn_next: false,
        },
        "main",
    );
    gs.clear_persistent();
    assert_eq!(gs.get_persistents("main").len(), 0);
    assert_eq!(gs.get_volatiles("main").len(), 1);
    gs.clear();
    assert_eq!(gs.get_volatiles("main").len(), 0);
}

#[test]
fn cleared_registry_never_resurrects_old_handles() {
    let mut gs = new_state(&["main"]);
    let a = gs.spawn_persistent(Critter::new(1), "main");
    gs.clear();
    // a new entity may reuse the arena position, never the identity
    let b = gs.spawn_persistent(Critter::new(2), "main");
    assert_ne!(a, b);
    assert!(matches!(a.resolve(&gs.persistent), RefResolution::Despawned));
    assert!(matches!(b.resolve(&gs.persistent), RefResolution::Alive(_)));
}

#[test]
fn render_draws_layers_in_order_volatile_before_persistent() {
    let mut gs = new_state(&["back", "front"]);
    gs.spawn_persistent(Critter::new(1), "front");
    gs.spawn_persistent(Critter::new(2), "back");
    gs.spawn_volatile(
        Spark {
            age: 7,
            despawn_next: false,
        },
        "back",
    );
    let mut sink: Vec<String> = Vec::new();
    gs.render_all(&mut sink);
    assert_eq!(sink, vec!["spark:7", "critter:2", "critter:1"]);
}

#[test]
fn default_reference_state_is_unset() {
    assert_eq!(MaybePersistentRef::default(), MaybePersistentRef::Unset);
}

#[test]
fn button_bound_containment_is_inclusive() {
    let b = Bound {
        x: 10,
        y: 20,
        w: 100,
        h: 50,
    };
    assert!(contains_point(&b, 10, 20));
    assert!(contains_point(&b, 110, 70));
    assert!(contains_point(&b, 60, 45));
    assert!(!contains_point(&b, 9, 20));
    assert!(!contains_point(&b, 111, 70));
}

#[test]
fn button_focus_transitions() {
    let b = Bound {
        x: 0,
        y: 0,
        w: 10,
        h: 10,
    };
    let up = UIState {
        button_down: false,
        window_size: (640, 480),
    };
    let down = UIState {
        button_down: true,
        window_size: (640, 480),
    };
    // moving outside idles the button
    assert_eq!(
        process_button_event(FocusState::Pressed, &b, &up, &PointerEvent::MouseMotion {
            x: 50,
            y: 50
        }),
        (FocusState::Idle, false)
    );
    // moving inside hovers, or presses while the button is held
    assert_eq!(
        process_button_event(FocusState::Idle, &b, &up, &PointerEvent::MouseMotion { x: 5, y: 5 }),
        (FocusState::Hovered, false)
    );
    assert_eq!(
        process_button_event(FocusState::Idle, &b, &down, &PointerEvent::MouseMotion {
            x: 5,
            y: 5
        }),
        (FocusState::Pressed, false)
    );
    // pressing inside presses; releasing inside activates and hovers
    assert_eq!(
        process_button_event(FocusState::Hovered, &b, &down, &PointerEvent::LeftDown {
            x: 5,
            y: 5
        }),
        (FocusState::Pressed, false)
    );
    assert_eq!(
        process_button_event(FocusState::Pressed, &b, &up, &PointerEvent::LeftUp { x: 5, y: 5 }),
        (FocusState::Hovered, true)
    );
    // events outside leave the state alone
    assert_eq!(
        process_button_event(FocusState::Hovered, &b, &down, &PointerEvent::LeftDown {
            x: 50,
            y: 50
        }),
        (FocusState::Hovered, false)
    );
    assert_eq!(
        process_button_event(FocusState::Pressed, &b, &up, &PointerEvent::LeftUp { x: 50, y: 50 }),
        (FocusState::Pressed, false)
    );
    let _stretch = FitType::Stretch;
    let _shrink = FitType::Shrink;
}
