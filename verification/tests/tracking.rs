use remote_inspector::command::{
    DespawnEntity, DespawnEntityKind, ToggleComponent, UpdateComponent,
};
use remote_inspector::context::InspectorContext;
use remote_inspector::events::{EntityMutation, InspectorEvent};
use remote_inspector::schema::{Catalog, SchemaEntry};
use remote_inspector::store::Store;
use remote_inspector::tracker::{get_inspector_events, InspectorStreamingState, TrackedDatas};
use remote_inspector::value::{EncodedValue, ValueKind};

fn world_with_one_int_type() -> (Store, Catalog, InspectorContext, TrackedDatas) {
    let mut catalog = Catalog::new();
    catalog.register(SchemaEntry {
        registered: true,
        kind: ValueKind::Int,
        serializable: true,
        deserializable: true,
    });
    (Store::new(), catalog, InspectorContext::new(), TrackedDatas::new())
}

/// The `Entity` events of a pass, in order.
fn entity_events(events: Vec<InspectorEvent>) -> Vec<(u64, EntityMutation)> {
    let mut out = Vec::new();
    for e in events {
        if let InspectorEvent::Entity { entity, mutation } = e {
            out.push((entity, mutation));
        }
    }
    out
}

/// The scenario of one attribute's life: creation, update, a double
/// toggle, and destruction, each observed by a diff pass.
#[test]
fn single_attribute_lifecycle() {
    let (mut store, catalog, mut ctx, mut observers) = world_with_one_int_type();
    let t1 = 0usize;
    let e1 = store.spawn(None);
    store.insert_attr(e1, t1, EncodedValue::Int(5));

    // tick 1: a fresh observer sees one Change carrying (T1, enabled, 5)
    let events = entity_events(get_inspector_events(&store, &catalog, &mut ctx, &mut observers, 0));
    assert_eq!(events.len(), 1);
    match &events[0].1 {
        EntityMutation::Change { changes, removes } => {
            assert_eq!(events[0].0, e1);
            assert_eq!(changes.len(), 1);
            assert_eq!(removes.len(), 0);
            assert_eq!(changes[0].type_id, t1);
            assert!(!changes[0].disabled);
            assert_eq!(changes[0].value, Some(EncodedValue::Int(5)));
        },
        EntityMutation::Remove => panic!("expected a change"),
    }

    // update to 7, then diff: one Change carrying (T1, enabled, 7)
    let update = UpdateComponent { entity: e1, component: t1, value: EncodedValue::Int(7) };
    assert!(update.execute(&mut ctx, &mut store, &catalog).is_ok());
    let events = entity_events(get_inspector_events(&store, &catalog, &mut ctx, &mut observers, 0));
    assert_eq!(events.len(), 1);
    match &events[0].1 {
        EntityMutation::Change { changes, removes } => {
            assert_eq!(changes.len(), 1);
            assert_eq!(removes.len(), 0);
            assert_eq!(changes[0].value, Some(EncodedValue::Int(7)));
        },
        EntityMutation::Remove => panic!("expected a change"),
    }

    // toggle off, then diff: one Change whose removes carry (T1, disabled)
    let toggle = ToggleComponent { entity: e1, component: t1 };
    assert!(toggle.execute(&mut ctx, &mut store, &catalog).is_ok());
    let events = entity_events(get_inspector_events(&store, &catalog, &mut ctx, &mut observers, 0));
    assert_eq!(events.len(), 1);
    match &events[0].1 {
        EntityMutation::Change { changes, removes } => {
            assert_eq!(changes.len(), 0);
            assert_eq!(removes.len(), 1);
            assert_eq!(removes[0].type_id, t1);
            assert!(removes[0].disabled);
        },
        EntityMutation::Remove => panic!("expected a change"),
    }

    // toggle back on, then diff: the stored value is replayed
    let toggle = ToggleComponent { entity: e1, component: t1 };
    assert!(toggle.execute(&mut ctx, &mut store, &catalog).is_ok());
    let events = entity_events(get_inspector_events(&store, &catalog, &mut ctx, &mut observers, 0));
    assert_eq!(events.len(), 1);
    match &events[0].1 {
        EntityMutation::Change { changes, removes } => {
            assert_eq!(changes.len(), 1);
            assert_eq!(removes.len(), 0);
            assert_eq!(changes[0].type_id, t1);
            assert!(!changes[0].disabled);
            assert_eq!(changes[0].value, Some(EncodedValue::Int(7)));
        },
        EntityMutation::Remove => panic!("expected a change"),
    }

    // despawn, then diff: one Remove event for E1
    let despawn = DespawnEntity { entity: e1, kind: DespawnEntityKind::Recursive };
    assert!(despawn.execute(&mut ctx, &mut store, &catalog).is_ok());
    let events = entity_events(get_inspector_events(&store, &catalog, &mut ctx, &mut observers, 0));
    assert_eq!(events.len(), 1);
    assert_eq!(events[0].0, e1);
    assert!(matches!(events[0].1, EntityMutation::Remove));
}

/// A second pass with no intervening mutation yields no events at all.
#[test]
fn diff_pass_is_idempotent() {
    let (mut store, catalog, mut ctx, mut observers) = world_with_one_int_type();
    let e1 = store.spawn(None);
    store.insert_attr(e1, 0, EncodedValue::Int(5));

    let first = get_inspector_events(&store, &catalog, &mut ctx, &mut observers, 0);
    assert!(!first.is_empty());
    let second = get_inspector_events(&store, &catalog, &mut ctx, &mut observers, 0);
    assert!(second.is_empty());
}

/// Independent single-attribute mutations to distinct objects produce
/// exactly one single-change event per object.
#[test]
fn diff_is_minimal() {
    let (mut store, mut catalog, mut ctx, mut observers) = world_with_one_int_type();
    let tb = catalog.register(SchemaEntry {
        registered: true,
        kind: ValueKind::Text,
        serializable: true,
        deserializable: true,
    });
    let a = store.spawn(None);
    let b = store.spawn(None);
    let c = store.spawn(None);
    store.insert_attr(a, 0, EncodedValue::Int(1));
    store.insert_attr(b, 0, EncodedValue::Int(2));
    store.insert_attr(b, tb, EncodedValue::Text(String::from("two")));
    store.insert_attr(c, 0, EncodedValue::Int(3));
    let _ = get_inspector_events(&store, &catalog, &mut ctx, &mut observers, 0);

    // three independent mutations, one per object
    let u1 = UpdateComponent { entity: a, component: 0, value: EncodedValue::Int(10) };
    let u2 = UpdateComponent { entity: b, component: tb, value: EncodedValue::Text(String::from("deux")) };
    let u3 = UpdateComponent { entity: c, component: 0, value: EncodedValue::Int(30) };
    assert!(u1.execute(&mut ctx, &mut store, &catalog).is_ok());
    assert!(u2.execute(&mut ctx, &mut store, &catalog).is_ok());
    assert!(u3.execute(&mut ctx, &mut store, &catalog).is_ok());

    let events = entity_events(get_inspector_events(&store, &catalog, &mut ctx, &mut observers, 0));
    assert_eq!(events.len(), 3);
    for (_, mutation) in &events {
        match mutation {
            EntityMutation::Change { changes, removes } => {
                assert_eq!(changes.len(), 1);
                assert_eq!(removes.len(), 0);
            },
            EntityMutation::Remove => panic!("expected changes only"),
        }
    }
}

/// For a type on the deep-compare allow-list, writing the same value twice
/// produces one event on the first write and none on the second, even
/// though the store's modification tick advanced both times.
#[test]
fn deep_compare_suppresses_noop_updates() {
    let (mut store, catalog, mut ctx, mut observers) = world_with_one_int_type();
    ctx.deep_compare_components.allow(0);
    let e1 = store.spawn(None);
    store.insert_attr(e1, 0, EncodedValue::Int(5));
    let _ = get_inspector_events(&store, &catalog, &mut ctx, &mut observers, 0);

    // first write of the repeated value: reported
    let update = UpdateComponent { entity: e1, component: 0, value: EncodedValue::Int(6) };
    assert!(update.execute(&mut ctx, &mut store, &catalog).is_ok());
    let events = entity_events(get_inspector_events(&store, &catalog, &mut ctx, &mut observers, 0));
    assert_eq!(events.len(), 1);

    // second write of the same value: the tick moves, the event does not
    let update = UpdateComponent { entity: e1, component: 0, value: EncodedValue::Int(6) };
    assert!(update.execute(&mut ctx, &mut store, &catalog).is_ok());
    let events = entity_events(get_inspector_events(&store, &catalog, &mut ctx, &mut observers, 0));
    assert_eq!(events.len(), 0);

    // without the allow-list the same pattern is reported both times
    let (mut store2, catalog2, mut ctx2, mut observers2) = world_with_one_int_type();
    let e2 = store2.spawn(None);
    store2.insert_attr(e2, 0, EncodedValue::Int(5));
    let _ = get_inspector_events(&store2, &catalog2, &mut ctx2, &mut observers2, 0);
    let update = UpdateComponent { entity: e2, component: 0, value: EncodedValue::Int(5) };
    assert!(update.execute(&mut ctx2, &mut store2, &catalog2).is_ok());
    let events =
        entity_events(get_inspector_events(&store2, &catalog2, &mut ctx2, &mut observers2, 0));
    assert_eq!(events.len(), 1);
}

/// Observers are independent: each client id keeps its own baseline, and
/// resetting one forces a full resync for exactly that one.
#[test]
fn observers_are_independent_and_resettable() {
    let (mut store, catalog, mut ctx, mut observers) = world_with_one_int_type();
    let e1 = store.spawn(None);
    store.insert_attr(e1, 0, EncodedValue::Int(5));

    let first = entity_events(get_inspector_events(&store, &catalog, &mut ctx, &mut observers, 1));
    assert_eq!(first.len(), 1);
    // a different observer still sees the full state
    let other = entity_events(get_inspector_events(&store, &catalog, &mut ctx, &mut observers, 2));
    assert_eq!(other.len(), 1);
    // the first observer is up to date
    assert!(entity_events(get_inspector_events(&store, &catalog, &mut ctx, &mut observers, 1))
        .is_empty());

    // resetting replays everything for that observer only
    assert!(observers.reset_client(1));
    let replay = entity_events(get_inspector_events(&store, &catalog, &mut ctx, &mut observers, 1));
    assert_eq!(replay.len(), 1);
    assert!(entity_events(get_inspector_events(&store, &catalog, &mut ctx, &mut observers, 2))
        .is_empty());
    // resetting an unknown observer reports that nothing was known
    assert!(!observers.reset_client(7));
}

/// A zero-sized attribute is announced once and never re-reported as a
/// value change.
#[test]
fn zero_sized_attributes_report_presence_only() {
    let (mut store, mut catalog, mut ctx, mut observers) = world_with_one_int_type();
    let marker = catalog.register(SchemaEntry {
        registered: true,
        kind: ValueKind::Unit,
        serializable: false,
        deserializable: true,
    });
    let e1 = store.spawn(None);
    store.insert_attr(e1, marker, EncodedValue::Null);
    let events = entity_events(get_inspector_events(&store, &catalog, &mut ctx, &mut observers, 0));
    assert_eq!(events.len(), 1);
    match &events[0].1 {
        EntityMutation::Change { changes, .. } => {
            assert_eq!(changes.len(), 1);
            assert_eq!(changes[0].type_id, marker);
            assert_eq!(changes[0].value, None);
        },
        EntityMutation::Remove => panic!("expected a change"),
    }

    // its stamp moves, but a zero-sized type carries no value to re-report
    store.update_attr(e1, marker, EncodedValue::Null);
    let events = entity_events(get_inspector_events(&store, &catalog, &mut ctx, &mut observers, 0));
    assert_eq!(events.len(), 0);
}

/// The first pass announces the catalog and the schedules exactly once.
#[test]
fn catalog_announcements_are_one_shot() {
    let (store, mut catalog, mut ctx, mut observers) = world_with_one_int_type();
    catalog.add_schedule(String::from("update"));
    let events = get_inspector_events(&store, &catalog, &mut ctx, &mut observers, 0);
    let registry = events
        .iter()
        .filter(|e| matches!(e, InspectorEvent::TypeRegistry { .. }))
        .count();
    let components = events
        .iter()
        .filter(|e| matches!(e, InspectorEvent::ComponentCatalog { .. }))
        .count();
    let schedules = events
        .iter()
        .filter(|e| matches!(e, InspectorEvent::Schedules { .. }))
        .count();
    assert_eq!(registry, 1);
    assert_eq!(components, 1);
    assert_eq!(schedules, 1);

    let again = get_inspector_events(&store, &catalog, &mut ctx, &mut observers, 0);
    assert!(again.is_empty());
}

/// The continuous streaming pacer fires every n-th tick while enabled.
#[test]
fn streaming_pacer_counts_ticks() {
    let mut state = InspectorStreamingState::default();
    assert!(state.continuous_streaming_enabled);
    assert_eq!(state.update_every_n_ticks, 3);
    assert!(!state.should_stream());
    assert!(!state.should_stream());
    assert!(state.should_stream());
    assert!(!state.should_stream());

    state.disable();
    assert!(!state.should_stream());
    assert!(!state.should_stream());
    state.enable();
    state.set_frequency(1);
    assert!(state.should_stream());
    assert!(state.should_stream());
    // a zero frequency is clamped to one tick
    state.set_frequency(0);
    assert_eq!(state.update_every_n_ticks, 1);
}

/// Payload equality is structural, and the codec enforces the schema.
#[test]
fn payloads_compare_structurally() {
    let a = EncodedValue::Text(String::from("same"));
    let b = EncodedValue::Text(String::from("same"));
    let c = EncodedValue::Text(String::from("other"));
    assert!(a.deep_eq(&b));
    assert!(!a.deep_eq(&c));
    assert!(!a.deep_eq(&EncodedValue::Null));
    assert!(EncodedValue::Int(3).deep_eq(&EncodedValue::Int(3)));
    assert_eq!(a.duplicate(), a);
    assert_eq!(a.kind(), ValueKind::Text);
}

/// A fresh observer connecting after a toggle sees the disabled attribute
/// appended to the object's announcement, flagged disabled, with its stored
/// value — without the attribute returning to the store.
#[test]
fn fresh_observer_sees_disabled_overlay_entries() {
    let (mut store, catalog, mut ctx, mut observers) = world_with_one_int_type();
    let e1 = store.spawn(None);
    store.insert_attr(e1, 0, EncodedValue::Int(5));
    let toggle = ToggleComponent { entity: e1, component: 0 };
    assert!(toggle.execute(&mut ctx, &mut store, &catalog).is_ok());
    assert!(!store.has_attr(e1, 0));

    let events = entity_events(get_inspector_events(&store, &catalog, &mut ctx, &mut observers, 9));
    assert_eq!(events.len(), 1);
    match &events[0].1 {
        EntityMutation::Change { changes, removes } => {
            assert_eq!(removes.len(), 0);
            assert_eq!(changes.len(), 1);
            assert_eq!(changes[0].type_id, 0);
            assert!(changes[0].disabled);
            assert_eq!(changes[0].value, Some(EncodedValue::Int(5)));
        },
        EntityMutation::Remove => panic!("expected a change"),
    }
    assert!(!store.has_attr(e1, 0));
}

/// A type without a serializer is announced by presence only, and its later
/// stamp movements are passed over in silence.
#[test]
fn unserializable_types_never_fail_a_pass() {
    let (mut store, mut catalog, mut ctx, mut observers) = world_with_one_int_type();
    let opaque = catalog.register(SchemaEntry {
        registered: true,
        kind: ValueKind::Int,
        serializable: false,
        deserializable: true,
    });
    let e1 = store.spawn(None);
    store.insert_attr(e1, opaque, EncodedValue::Int(1));
    let events = entity_events(get_inspector_events(&store, &catalog, &mut ctx, &mut observers, 0));
    assert_eq!(events.len(), 1);
    match &events[0].1 {
        EntityMutation::Change { changes, .. } => {
            assert_eq!(changes.len(), 1);
            assert_eq!(changes[0].type_id, opaque);
            assert_eq!(changes[0].value, None);
        },
        EntityMutation::Remove => panic!("expected a change"),
    }

    // the stamp moves, but with no serializer there is nothing to report
    store.update_attr(e1, opaque, EncodedValue::Int(2));
    let events = entity_events(get_inspector_events(&store, &catalog, &mut ctx, &mut observers, 0));
    assert_eq!(events.len(), 0);
}
