//! The ordered event stream shipped to observers.
//!
//! Each diff pass appends events here: catalog announcements the first time
//! an observer is served, and per-object mutations after that. An `Entity`
//! event either removes an object or carries the exact attribute-level delta
//! (changes and removals) for it.

use vstd::prelude::*;

use crate::schema::SchemaEntry;
use crate::value::{EncodedValue, ValueKind, ValueView};

verus! {

/// One type as announced in a `TypeRegistry` event.
#[derive(Clone, Copy, Debug, PartialEq, Eq, Structural)]
pub struct SchemaDescriptor {
    pub type_id: usize,
    pub registered: bool,
    pub kind: ValueKind,
}

/// One attribute type as announced in a `ComponentCatalog` event.
#[derive(Clone, Copy, Debug, PartialEq, Eq, Structural)]
pub struct ComponentInfo {
    pub type_id: usize,
    pub kind: ValueKind,
}

/// One schedule as announced in a `Schedules` event.
pub struct ScheduleInfo {
    pub name: String,
}

impl View for ScheduleInfo {
    type V = Seq<char>;

    open spec fn view(&self) -> Seq<char> {
        self.name@
    }
}

/// One changed attribute inside a `Change` mutation: the type, whether the
/// attribute is currently disabled, and the serialized payload (`None` for
/// zero-sized or unserializable types).
pub struct EntityMutationChange {
    pub type_id: usize,
    pub disabled: bool,
    pub value: Option<EncodedValue>,
}

/// Mathematical shape of one changed attribute.
pub struct ChangeView {
    pub type_id: usize,
    pub disabled: bool,
    pub value: Option<ValueView>,
}

impl View for EntityMutationChange {
    type V = ChangeView;

    open spec fn view(&self) -> ChangeView {
        ChangeView {
            type_id: self.type_id,
            disabled: self.disabled,
            value: match &self.value {
                Some(v) => Some(v@),
                None => None,
            },
        }
    }
}

/// One removed attribute inside a `Change` mutation: the type and whether
/// the removal came from a toggle-off rather than a true removal.
#[derive(Clone, Copy, Debug, PartialEq, Eq, Structural)]
pub struct RemovedAttr {
    pub type_id: usize,
    pub disabled: bool,
}

/// What happened to one object since the observer last looked.
pub enum EntityMutation {
    /// The object no longer exists.
    Remove,
    /// The object's attribute set or payloads moved.
    Change { changes: Vec<EntityMutationChange>, removes: Vec<RemovedAttr> },
}

/// Mathematical shape of an object mutation.
pub enum MutationView {
    Remove,
    Change { changes: Seq<ChangeView>, removes: Seq<RemovedAttr> },
}

impl View for EntityMutation {
    type V = MutationView;

    open spec fn view(&self) -> MutationView {
        match self {
            EntityMutation::Remove => MutationView::Remove,
            EntityMutation::Change { changes, removes } => MutationView::Change {
                changes: Seq::new(changes@.len(), |i: int| changes@[i]@),
                removes: removes@,
            },
        }
    }
}

/// One event of the ordered stream.
pub enum InspectorEvent {
    /// One-shot description of the runtime type registry.
    TypeRegistry { types: Vec<SchemaDescriptor> },
    /// Newly announced attribute types.
    ComponentCatalog { components: Vec<ComponentInfo> },
    /// A per-object delta.
    Entity { entity: u64, mutation: EntityMutation },
    /// One-shot list of the host's schedules.
    Schedules { schedules: Vec<ScheduleInfo> },
}

/// Mathematical shape of one event.
pub enum EventView {
    TypeRegistry { types: Seq<SchemaDescriptor> },
    ComponentCatalog { components: Seq<ComponentInfo> },
    Entity { entity: u64, mutation: MutationView },
    Schedules { schedules: Seq<Seq<char>> },
}

impl View for InspectorEvent {
    type V = EventView;

    open spec fn view(&self) -> EventView {
        match self {
            InspectorEvent::TypeRegistry { types } => EventView::TypeRegistry { types: types@ },
            InspectorEvent::ComponentCatalog { components } => EventView::ComponentCatalog {
                components: components@,
            },
            InspectorEvent::Entity { entity, mutation } => EventView::Entity {
                entity: *entity,
                mutation: mutation@,
            },
            InspectorEvent::Schedules { schedules } => EventView::Schedules {
                schedules: Seq::new(schedules@.len(), |i: int| schedules@[i]@),
            },
        }
    }
}

/// The element-wise mathematical shape of an event vector.
pub open spec fn events_view(v: Seq<InspectorEvent>) -> Seq<EventView> {
    Seq::new(v.len(), |i: int| v[i]@)
}

/// The element-wise mathematical shape of a change vector.
pub open spec fn changes_view(v: Seq<EntityMutationChange>) -> Seq<ChangeView> {
    Seq::new(v.len(), |i: int| v[i]@)
}

/// The descriptor the `TypeRegistry` event carries for entry `t`.
pub open spec fn spec_descriptor(cat: Seq<SchemaEntry>, t: int) -> SchemaDescriptor {
    SchemaDescriptor {
        type_id: t as usize,
        registered: cat[t].registered,
        kind: cat[t].kind,
    }
}

} // verus!
