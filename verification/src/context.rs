//! Tracking side state threaded through every command and diff pass.
//!
//! The coordination context owns the disabled-attribute overlay (values of
//! attributes toggled off, keyed by object and type), the remembered
//! visibility flags, and the deep-compare cache. None of it is ambient: every
//! operation that needs this state takes the context by reference.

use vstd::prelude::*;

use crate::keyed::{kdistinct, kfilter, khas, klookup, KeyedEntryView, KeyedList};
use crate::lookup::{seq_has, vec_has_usize};
use crate::store::{Store, StoreView};
use crate::value::{EncodedValue, ValueView};

verus! {

/// The slot used for visibility flags, which are keyed by object alone.
pub const VISIBILITY_SLOT: usize = 0;

/// Per-type opt-in cache of last reported serializations, used to suppress
/// no-op updates for types whose store tick moves even when the value does
/// not.
pub struct DeepCompareComponents {
    /// The allow-list: type identifiers opted into deep comparison.
    pub ids: Vec<usize>,
    /// Last reported serialization per (object, type).
    pub values: KeyedList<EncodedValue>,
}

impl DeepCompareComponents {
    /// An empty cache with an empty allow-list.
    pub fn new() -> (c: DeepCompareComponents)
        ensures
            c.wf(),
            c.ids@.len() == 0,
            c.values@.len() == 0,
    {
        DeepCompareComponents { ids: Vec::new(), values: KeyedList::new() }
    }

    /// Cache entries never collide on a key.
    pub open spec fn wf(self) -> bool {
        kdistinct(self.values@)
    }

    /// Whether type `t` is opted into deep comparison.
    pub open spec fn spec_allowed(self, t: usize) -> bool {
        seq_has(self.ids@, t)
    }

    /// Opt type `t` into deep comparison.
    pub fn allow(&mut self, t: usize)
        requires
            old(self).wf(),
        ensures
            final(self).wf(),
            final(self).values@ == old(self).values@,
            forall|t2: usize|
                #[trigger] final(self).spec_allowed(t2) == (old(self).spec_allowed(t2) || t2 == t),
    {
        if !vec_has_usize(&self.ids, t) {
            self.ids.push(t);
            proof {
                assert forall|t2: usize|
                    #[trigger] self.spec_allowed(t2) == (old(self).spec_allowed(t2) || t2 == t) by {
                    crate::lookup::lemma_first_pos_push(old(self).ids@, t, t2);
                    assert(self.ids@ =~= old(self).ids@.push(t));
                }
            }
        }
    }

    /// Compare a freshly serialized value with the cached one.
    ///
    /// `None` means the type is not on the allow-list and the caller must not
    /// suppress anything. `Some(true)` means the cache already holds a
    /// structurally equal value: the event can be suppressed and the cache is
    /// untouched. `Some(false)` means the value is new or different: it is
    /// written to the cache and the event must go out.
    pub fn is_eq(&mut self, entity: u64, component_id: usize, new_value: &EncodedValue) -> (r:
        Option<bool>)
        requires
            old(self).wf(),
        ensures
            final(self).wf(),
            final(self).ids@ == old(self).ids@,
            r == (if !old(self).spec_allowed(component_id) {
                None
            } else {
                Some(
                    klookup(old(self).values@, entity, component_id) == Some(new_value@),
                )
            }),
            (r is None || r == Some(true)) ==> final(self).values@ == old(self).values@,
            r == Some(false) ==> forall|o2: u64, t2: usize|
                #![trigger klookup(final(self).values@, o2, t2)]
                klookup(final(self).values@, o2, t2) == (if o2 == entity && t2 == component_id {
                    Some(new_value@)
                } else {
                    klookup(old(self).values@, o2, t2)
                }),
    {
        if !vec_has_usize(&self.ids, component_id) {
            return None;
        }
        let equal = match self.values.get(entity, component_id) {
            Some(existing) => existing.deep_eq(new_value),
            None => false,
        };
        if equal {
            return Some(true);
        }
        self.values.put(entity, component_id, new_value.duplicate());
        Some(false)
    }

    /// Record a freshly reported serialization without comparing.
    pub fn record(&mut self, entity: u64, component_id: usize, value: &EncodedValue)
        requires
            old(self).wf(),
        ensures
            final(self).wf(),
            final(self).ids@ == old(self).ids@,
            forall|o2: u64, t2: usize|
                #![trigger klookup(final(self).values@, o2, t2)]
                klookup(final(self).values@, o2, t2) == (if o2 == entity && t2 == component_id {
                    Some(value@)
                } else {
                    klookup(old(self).values@, o2, t2)
                }),
    {
        self.values.put(entity, component_id, value.duplicate());
    }
}

/// The coordination context: overlay, visibility memory and deep-compare
/// cache, owned together and passed by reference.
pub struct InspectorContext {
    /// Values of attributes toggled off, keyed by (object, type).
    pub disabled_components: KeyedList<EncodedValue>,
    /// Explicit visibility flags remembered by `ToggleVisibity`, keyed by
    /// object under `VISIBILITY_SLOT`.
    pub entity_visibilities: KeyedList<bool>,
    /// The deep-compare cache.
    pub deep_compare_components: DeepCompareComponents,
}

impl InspectorContext {
    /// A fresh, empty context.
    pub fn new() -> (c: InspectorContext)
        ensures
            c.wf(),
            c.disabled_components@.len() == 0,
            c.entity_visibilities@.len() == 0,
            c.deep_compare_components.ids@.len() == 0,
            c.deep_compare_components.values@.len() == 0,
    {
        InspectorContext {
            disabled_components: KeyedList::new(),
            entity_visibilities: KeyedList::new(),
            deep_compare_components: DeepCompareComponents::new(),
        }
    }

    /// Key distinctness of all three side stores.
    pub open spec fn wf(self) -> bool {
        &&& kdistinct(self.disabled_components@)
        &&& kdistinct(self.entity_visibilities@)
        &&& self.deep_compare_components.wf()
    }

    /// Purge every piece of bookkeeping tied to `entity`.
    pub fn on_entity_removed(&mut self, entity: u64)
        requires
            old(self).wf(),
        ensures
            final(self).wf(),
            final(self).deep_compare_components.ids@ == old(self).deep_compare_components.ids@,
            final(self).disabled_components@ == kfilter(
                old(self).disabled_components@,
                |x: u64| x != entity,
            ),
            forall|o2: u64, t2: usize|
                #![trigger klookup(final(self).disabled_components@, o2, t2)]
                klookup(final(self).disabled_components@, o2, t2) == (if o2 == entity {
                    None
                } else {
                    klookup(old(self).disabled_components@, o2, t2)
                }),
            forall|o2: u64, t2: usize|
                #![trigger klookup(final(self).entity_visibilities@, o2, t2)]
                klookup(final(self).entity_visibilities@, o2, t2) == (if o2 == entity {
                    None
                } else {
                    klookup(old(self).entity_visibilities@, o2, t2)
                }),
            forall|o2: u64, t2: usize|
                #![trigger klookup(final(self).deep_compare_components.values@, o2, t2)]
                klookup(final(self).deep_compare_components.values@, o2, t2) == (if o2 == entity {
                    None
                } else {
                    klookup(old(self).deep_compare_components.values@, o2, t2)
                }),
    {
        self.disabled_components.purge_entity(entity);
        self.entity_visibilities.purge_entity(entity);
        self.deep_compare_components.values.purge_entity(entity);
    }

    /// Purge bookkeeping for every object that is no longer live.
    pub fn gc_dead_entries(&mut self, store: &Store)
        requires
            old(self).wf(),
        ensures
            final(self).wf(),
            final(self).deep_compare_components.ids@ == old(self).deep_compare_components.ids@,
            final(self).disabled_components@ == kfilter(
                old(self).disabled_components@,
                |x: u64| store@.live(x),
            ),
            forall|o2: u64, t2: usize|
                #![trigger klookup(final(self).disabled_components@, o2, t2)]
                klookup(final(self).disabled_components@, o2, t2) == (if store@.live(o2) {
                    klookup(old(self).disabled_components@, o2, t2)
                } else {
                    None
                }),
            forall|o2: u64, t2: usize|
                #![trigger klookup(final(self).entity_visibilities@, o2, t2)]
                klookup(final(self).entity_visibilities@, o2, t2) == (if store@.live(o2) {
                    klookup(old(self).entity_visibilities@, o2, t2)
                } else {
                    None
                }),
            forall|o2: u64, t2: usize|
                #![trigger klookup(final(self).deep_compare_components.values@, o2, t2)]
                klookup(final(self).deep_compare_components.values@, o2, t2) == (if store@.live(
                    o2,
                ) {
                    klookup(old(self).deep_compare_components.values@, o2, t2)
                } else {
                    None
                }),
    {
        self.disabled_components.retain_live(store);
        self.entity_visibilities.retain_live(store);
        self.deep_compare_components.values.retain_live(store);
    }
}

/// Mutual exclusion between the live store and the disabled overlay: no
/// (object, type) pair carries a live attribute and an overlay entry at once.
pub open spec fn exclusion_ok(store: StoreView, disabled: Seq<KeyedEntryView<ValueView>>) -> bool {
    forall|o: u64, t: usize|
        store.live(o) && store.slot_of(o).has_attr(t) ==> !#[trigger] khas(disabled, o, t)
}

/// Every key of a side store refers to a live object.
pub open spec fn keys_live<W>(store: StoreView, entries: Seq<KeyedEntryView<W>>) -> bool {
    forall|o: u64, t: usize| #[trigger] khas(entries, o, t) ==> store.live(o)
}

} // verus!
