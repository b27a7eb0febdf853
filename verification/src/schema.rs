//! The schema catalog and the attribute codec.
//!
//! The catalog is the engine's reading of the runtime type registry: per
//! type identifier, whether the type is registered, the shape of its payload
//! (`Unit` marks zero-sized types), and whether a serializer or deserializer
//! was registered for it. The codec turns raw payloads into transport-ready
//! values and back, strictly according to that metadata.

use vstd::prelude::*;

use crate::error::CommandError;
use crate::value::{kind_of, EncodedValue, ValueKind, ValueView};

verus! {

/// What the catalog knows about one attribute type.
#[derive(Clone, Copy, Debug, PartialEq, Eq, Structural)]
pub struct SchemaEntry {
    /// Whether the type is present in the runtime registry.
    pub registered: bool,
    /// The payload shape; `Unit` means zero-sized, presence-only.
    pub kind: ValueKind,
    /// Whether a serializer is registered.
    pub serializable: bool,
    /// Whether a deserializer is registered.
    pub deserializable: bool,
}

/// A runtime type registry snapshot: entries indexed by type identifier,
/// plus the names of the schedules the host runs.
pub struct Catalog {
    pub entries: Vec<SchemaEntry>,
    pub schedules: Vec<String>,
}

/// Whether `t` identifies any type the catalog has heard of.
pub open spec fn spec_known(cat: Seq<SchemaEntry>, t: usize) -> bool {
    t < cat.len()
}

/// Whether `t` is a registered type.
pub open spec fn spec_registered(cat: Seq<SchemaEntry>, t: usize) -> bool {
    t < cat.len() && cat[t as int].registered
}

/// Whether `t` is a registered zero-sized type.
pub open spec fn spec_zero_sized(cat: Seq<SchemaEntry>, t: usize) -> bool {
    spec_registered(cat, t) && cat[t as int].kind == ValueKind::Unit
}

/// What serialization yields: the payload itself when a registered
/// serializer exists, nothing otherwise.
pub open spec fn spec_encode(cat: Seq<SchemaEntry>, t: usize, v: ValueView) -> Option<ValueView> {
    if spec_registered(cat, t) && cat[t as int].serializable {
        Some(v)
    } else {
        None
    }
}

/// What deserialization yields: the payload when the type is registered with
/// a deserializer and the payload has the type's shape, an exact error
/// otherwise.
pub open spec fn spec_decode(cat: Seq<SchemaEntry>, t: usize, v: ValueView) -> Result<
    ValueView,
    CommandError,
> {
    if !spec_known(cat, t) {
        Err(CommandError::NotFound)
    } else if !cat[t as int].registered || !cat[t as int].deserializable {
        Err(CommandError::NotRegistered)
    } else if kind_of(v) != cat[t as int].kind {
        Err(CommandError::SerializationFailure)
    } else {
        Ok(v)
    }
}

impl Catalog {
    /// An empty catalog.
    pub fn new() -> (c: Catalog)
        ensures
            c.entries@.len() == 0,
            c.schedules@.len() == 0,
    {
        Catalog { entries: Vec::new(), schedules: Vec::new() }
    }

    /// Add one type to the catalog and return its type identifier.
    pub fn register(&mut self, entry: SchemaEntry) -> (t: usize)
        ensures
            final(self).entries@ == old(self).entries@.push(entry),
            final(self).schedules@ == old(self).schedules@,
            t == old(self).entries@.len(),
    {
        let t = self.entries.len();
        self.entries.push(entry);
        t
    }

    /// Record the name of a schedule the host runs.
    pub fn add_schedule(&mut self, name: String)
        ensures
            final(self).entries@ == old(self).entries@,
            final(self).schedules@ == old(self).schedules@.push(name),
    {
        self.schedules.push(name);
    }

    /// The entry for type `t`, if the catalog knows it.
    pub fn entry(&self, t: usize) -> (r: Option<&SchemaEntry>)
        ensures
            match r {
                Some(e) => spec_known(self.entries@, t) && *e == self.entries@[t as int],
                None => !spec_known(self.entries@, t),
            },
    {
        if t < self.entries.len() {
            Some(&self.entries[t])
        } else {
            None
        }
    }

    /// Whether `t` is a registered zero-sized type.
    pub fn is_zero_sized(&self, t: usize) -> (r: bool)
        ensures
            r == spec_zero_sized(self.entries@, t),
    {
        match self.entry(t) {
            Some(e) => e.registered && matches!(e.kind, ValueKind::Unit),
            None => false,
        }
    }
}

/// Serialize a raw payload for transport.
///
/// Returns `None` exactly when the type is unknown, unregistered, or has no
/// serializer; the tracker skips such attributes rather than fail the pass.
pub fn encode_attr(catalog: &Catalog, t: usize, value: &EncodedValue) -> (r: Option<EncodedValue>)
    ensures
        spec_encode(catalog.entries@, t, value@) == (match r {
            Some(v) => Some(v@),
            None => None,
        }),
{
    match catalog.entry(t) {
        Some(e) => {
            if e.registered && e.serializable {
                Some(value.duplicate())
            } else {
                None
            }
        },
        None => None,
    }
}

/// Deserialize a transport payload into a raw attribute value.
pub fn decode_attr(catalog: &Catalog, t: usize, value: &EncodedValue) -> (r: Result<
    EncodedValue,
    CommandError,
>)
    ensures
        spec_decode(catalog.entries@, t, value@) == (match r {
            Ok(v) => Ok(v@),
            Err(e) => Err(e),
        }),
{
    match catalog.entry(t) {
        None => Err(CommandError::NotFound),
        Some(e) => {
            if !e.registered || !e.deserializable {
                Err(CommandError::NotRegistered)
            } else if value.kind() != e.kind {
                Err(CommandError::SerializationFailure)
            } else {
                Ok(value.duplicate())
            }
        },
    }
}

} // verus!
