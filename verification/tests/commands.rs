use remote_inspector::command::{
    Command, CommandOutput, DespawnEntity, DespawnEntityKind, InsertComponent, RemoveComponent,
    ReparentEntity, SpawnEntity, ToggleComponent, ToggleVisibity, UpdateComponent,
};
use remote_inspector::context::InspectorContext;
use remote_inspector::error::CommandError;
use remote_inspector::schema::{Catalog, SchemaEntry};
use remote_inspector::store::Store;
use remote_inspector::value::{EncodedValue, ValueKind};

/// Four registered integer types whose schema capabilities differ the way
/// the host's reflection data can: with and without serializers and
/// deserializers.
fn create_world() -> (Store, Catalog, InspectorContext) {
    let mut catalog = Catalog::new();
    catalog.register(SchemaEntry {
        registered: true,
        kind: ValueKind::Int,
        serializable: true,
        deserializable: true,
    });
    catalog.register(SchemaEntry {
        registered: true,
        kind: ValueKind::Int,
        serializable: false,
        deserializable: true,
    });
    catalog.register(SchemaEntry {
        registered: true,
        kind: ValueKind::Int,
        serializable: true,
        deserializable: false,
    });
    catalog.register(SchemaEntry {
        registered: true,
        kind: ValueKind::Int,
        serializable: false,
        deserializable: false,
    });
    (Store::new(), catalog, InspectorContext::new())
}

#[test]
fn test_toggle_component() {
    for component in 0..4usize {
        let (mut store, catalog, mut ctx) = create_world();
        let entity = store.spawn(None);
        store.insert_attr(entity, component, EncodedValue::Int(0));

        // disable
        let command = ToggleComponent { entity, component };
        let result = command.execute(&mut ctx, &mut store, &catalog);
        assert!(result.is_ok());
        assert!(!store.has_attr(entity, component));

        // enable
        let command = ToggleComponent { entity, component };
        let result = command.execute(&mut ctx, &mut store, &catalog);
        assert!(result.is_ok());
        assert!(store.has_attr(entity, component));
    }
}

#[test]
fn test_insert_component() {
    for component in [0usize, 1, 2] {
        let (mut store, catalog, mut ctx) = create_world();
        if !catalog.entry(component).unwrap().deserializable {
            continue;
        }
        let entity = store.spawn(None);

        let command = InsertComponent { entity, component, value: EncodedValue::Int(0) };
        let result = command.execute(&mut ctx, &mut store, &catalog);
        assert!(result.is_ok());
        assert!(store.has_attr(entity, component));
    }
}

#[test]
fn toggle_restores_the_original_value() {
    let (mut store, catalog, mut ctx) = create_world();
    let entity = store.spawn(None);
    store.insert_attr(entity, 0, EncodedValue::Int(41));

    let off = ToggleComponent { entity, component: 0 };
    assert!(off.execute(&mut ctx, &mut store, &catalog).is_ok());
    assert!(ctx.disabled_components.contains_key(entity, 0));

    let on = ToggleComponent { entity, component: 0 };
    assert!(on.execute(&mut ctx, &mut store, &catalog).is_ok());
    assert!(!ctx.disabled_components.contains_key(entity, 0));
    match store.get_attr_value(entity, 0) {
        Some(EncodedValue::Int(v)) => assert_eq!(*v, 41),
        _ => panic!("toggled attribute lost its value"),
    }
}

#[test]
fn live_and_overlay_exclude_each_other() {
    let (mut store, catalog, mut ctx) = create_world();
    let entity = store.spawn(None);
    store.insert_attr(entity, 0, EncodedValue::Int(7));

    let off = ToggleComponent { entity, component: 0 };
    assert!(off.execute(&mut ctx, &mut store, &catalog).is_ok());
    assert!(!store.has_attr(entity, 0));
    assert!(ctx.disabled_components.contains_key(entity, 0));

    // inserting over a disabled attribute would break the exclusivity
    let insert = InsertComponent { entity, component: 0, value: EncodedValue::Int(9) };
    assert_eq!(
        insert.execute(&mut ctx, &mut store, &catalog),
        Err(CommandError::AlreadyExists)
    );
}

#[test]
fn command_error_variants() {
    let (mut store, catalog, mut ctx) = create_world();
    let entity = store.spawn(None);
    store.insert_attr(entity, 0, EncodedValue::Int(1));
    // an identifier whose slot this store never allocated
    let dead = (1u64 << 32) | 999;

    // NotFound: the object does not exist here
    let update = UpdateComponent { entity: 0, component: 0, value: EncodedValue::Int(2) };
    assert_eq!(update.execute(&mut ctx, &mut store, &catalog), Err(CommandError::NotFound));

    // NotFound: unknown type identifier
    let toggle = ToggleComponent { entity, component: 99 };
    assert_eq!(toggle.execute(&mut ctx, &mut store, &catalog), Err(CommandError::NotFound));

    // NotRegistered: known identifier, absent from the registry
    let mut catalog2 = Catalog::new();
    catalog2.register(SchemaEntry {
        registered: false,
        kind: ValueKind::Int,
        serializable: false,
        deserializable: false,
    });
    let toggle = ToggleComponent { entity, component: 0 };
    assert_eq!(
        toggle.execute(&mut ctx, &mut store, &catalog2),
        Err(CommandError::NotRegistered)
    );

    // SerializationFailure: payload shape does not fit the type
    let insert = InsertComponent { entity, component: 1, value: EncodedValue::Bool(true) };
    assert_eq!(
        insert.execute(&mut ctx, &mut store, &catalog),
        Err(CommandError::SerializationFailure)
    );

    // AlreadyExists: inserting a present attribute
    let insert = InsertComponent { entity, component: 0, value: EncodedValue::Int(5) };
    assert_eq!(
        insert.execute(&mut ctx, &mut store, &catalog),
        Err(CommandError::AlreadyExists)
    );

    // presence wins over the payload: a present attribute is refused as
    // AlreadyExists even when the payload has the wrong shape
    let insert = InsertComponent { entity, component: 0, value: EncodedValue::Bool(true) };
    assert_eq!(
        insert.execute(&mut ctx, &mut store, &catalog),
        Err(CommandError::AlreadyExists)
    );

    // ConstraintViolation: self-parenting
    let reparent = ReparentEntity { entity, parent: Some(entity) };
    assert_eq!(
        reparent.execute(&mut ctx, &mut store, &catalog),
        Err(CommandError::ConstraintViolation)
    );

    // removal of an absent attribute is a deliberate no-op
    let remove = RemoveComponent { entity, component: 3 };
    assert!(remove.execute(&mut ctx, &mut store, &catalog).is_ok());

    // but removal addressed at a dead object fails
    let remove = RemoveComponent { entity: dead, component: 0 };
    assert_eq!(remove.execute(&mut ctx, &mut store, &catalog), Err(CommandError::NotFound));
}

#[test]
fn spawn_reparent_and_recursive_despawn() {
    let (mut store, catalog, mut ctx) = create_world();

    let root = SpawnEntity { parent: None }.execute(&mut ctx, &mut store, &catalog).unwrap();
    assert!(root != 0);
    let child = SpawnEntity { parent: Some(root) }
        .execute(&mut ctx, &mut store, &catalog)
        .unwrap();
    let grandchild = SpawnEntity { parent: Some(child) }
        .execute(&mut ctx, &mut store, &catalog)
        .unwrap();
    let loner = SpawnEntity { parent: None }.execute(&mut ctx, &mut store, &catalog).unwrap();

    // a missing parent is rejected before anything is spawned
    assert_eq!(
        SpawnEntity { parent: Some(0) }.execute(&mut ctx, &mut store, &catalog),
        Err(CommandError::NotFound)
    );

    // reparent the grandchild under the root
    let reparent = ReparentEntity { entity: grandchild, parent: Some(root) };
    assert!(reparent.execute(&mut ctx, &mut store, &catalog).is_ok());
    assert_eq!(store.parent_of(grandchild), Some(root));

    // despawning the root takes the whole subtree, but not the loner
    let despawn = DespawnEntity { entity: root, kind: DespawnEntityKind::Recursive };
    assert!(despawn.execute(&mut ctx, &mut store, &catalog).is_ok());
    assert!(!store.is_live(root));
    assert!(!store.is_live(child));
    assert!(!store.is_live(grandchild));
    assert!(store.is_live(loner));
}

#[test]
fn despawn_purges_overlay_and_a_respawn_sees_none_of_it() {
    let (mut store, catalog, mut ctx) = create_world();
    let entity = store.spawn(None);
    store.insert_attr(entity, 0, EncodedValue::Int(13));

    let off = ToggleComponent { entity, component: 0 };
    assert!(off.execute(&mut ctx, &mut store, &catalog).is_ok());
    assert!(ctx.disabled_components.contains_key(entity, 0));

    let despawn = DespawnEntity { entity, kind: DespawnEntityKind::Descendant };
    assert!(despawn.execute(&mut ctx, &mut store, &catalog).is_ok());
    assert!(!ctx.disabled_components.contains_key(entity, 0));

    // the freed slot is reused under a fresh generation
    let reborn = store.spawn(None);
    assert!(reborn != entity);
    assert!(!ctx.disabled_components.contains_key(reborn, 0));
}

#[test]
fn toggle_visibility_remembers_the_explicit_state() {
    let (mut store, catalog, mut ctx) = create_world();
    let entity = store.spawn(None);
    assert!(store.get_visible(entity));

    let flip = ToggleVisibity { entity };
    assert!(flip.execute(&mut ctx, &mut store, &catalog).is_ok());
    assert!(!store.get_visible(entity));

    let flip = ToggleVisibity { entity };
    assert!(flip.execute(&mut ctx, &mut store, &catalog).is_ok());
    assert!(store.get_visible(entity));

    let flip = ToggleVisibity { entity: 0 };
    assert_eq!(flip.execute(&mut ctx, &mut store, &catalog), Err(CommandError::NotFound));
}

#[test]
fn update_replaces_the_payload_in_place() {
    let (mut store, catalog, mut ctx) = create_world();
    let entity = store.spawn(None);
    store.insert_attr(entity, 0, EncodedValue::Int(1));

    let update = UpdateComponent { entity, component: 0, value: EncodedValue::Int(2) };
    assert!(update.execute(&mut ctx, &mut store, &catalog).is_ok());
    match store.get_attr_value(entity, 0) {
        Some(EncodedValue::Int(v)) => assert_eq!(*v, 2),
        _ => panic!("updated attribute lost its payload"),
    }

    // updating an absent attribute is refused
    let update = UpdateComponent { entity, component: 1, value: EncodedValue::Int(3) };
    assert_eq!(update.execute(&mut ctx, &mut store, &catalog), Err(CommandError::NotFound));
}

#[test]
fn command_dispatch_maps_outputs_and_errors() {
    let (mut store, catalog, mut ctx) = create_world();

    let spawned = Command::SpawnEntity(SpawnEntity { parent: None })
        .execute(&mut ctx, &mut store, &catalog)
        .unwrap();
    let entity = match spawned {
        CommandOutput::Spawned(id) => id,
        CommandOutput::Done => panic!("spawn must return the new identifier"),
    };

    let inserted = Command::InsertComponent(InsertComponent {
        entity,
        component: 0,
        value: EncodedValue::Int(4),
    })
    .execute(&mut ctx, &mut store, &catalog);
    assert_eq!(inserted, Ok(CommandOutput::Done));

    let updated = Command::UpdateComponent(UpdateComponent {
        entity,
        component: 0,
        value: EncodedValue::Int(5),
    })
    .execute(&mut ctx, &mut store, &catalog);
    assert_eq!(updated, Ok(CommandOutput::Done));

    let toggled = Command::ToggleComponent(ToggleComponent { entity, component: 0 })
        .execute(&mut ctx, &mut store, &catalog);
    assert_eq!(toggled, Ok(CommandOutput::Done));

    let visibility = Command::ToggleVisibity(ToggleVisibity { entity })
        .execute(&mut ctx, &mut store, &catalog);
    assert_eq!(visibility, Ok(CommandOutput::Done));

    let reparented = Command::ReparentEntity(ReparentEntity { entity, parent: None })
        .execute(&mut ctx, &mut store, &catalog);
    assert_eq!(reparented, Ok(CommandOutput::Done));

    let removed = Command::RemoveComponent(RemoveComponent { entity, component: 0 })
        .execute(&mut ctx, &mut store, &catalog);
    assert_eq!(removed, Ok(CommandOutput::Done));

    let despawned = Command::DespawnEntity(DespawnEntity {
        entity,
        kind: DespawnEntityKind::Recursive,
    })
    .execute(&mut ctx, &mut store, &catalog);
    assert_eq!(despawned, Ok(CommandOutput::Done));

    let gone = Command::ToggleVisibity(ToggleVisibity { entity })
        .execute(&mut ctx, &mut store, &catalog);
    assert_eq!(gone, Err(CommandError::NotFound));
}

#[test]
fn error_labels_are_stable() {
    assert_eq!(CommandError::NotFound.label(), "not_found");
    assert_eq!(CommandError::AlreadyExists.label(), "already_exists");
    assert_eq!(CommandError::NotRegistered.label(), "not_registered");
    assert_eq!(CommandError::SerializationFailure.label(), "serialization_failure");
    assert_eq!(CommandError::ConstraintViolation.label(), "constraint_violation");
}
