//! The command executor: the closed set of remote mutations.
//!
//! Each command validates its request against the store, the schema catalog
//! and the coordination context, then applies it atomically: a failed
//! command changes nothing. Every command that can make tracking state stale
//! performs the corresponding cleanup itself, so the overlay and caches
//! never refer to state they should have forgotten.

use vstd::prelude::*;

use crate::context::{exclusion_ok, keys_live, InspectorContext};
use crate::error::CommandError;
use crate::keyed::{khas, klookup, KeyedEntryView};
use crate::schema::{spec_decode, spec_known, spec_registered, Catalog};
use crate::store::{
    attrs_distinct, lemma_slot_attrs_push, lemma_slot_attrs_remove, lemma_slot_attrs_update,
    AttrView, SlotView, Store,
};
use crate::value::EncodedValue;

verus! {

/// Update the payload of an existing attribute in place.
///
/// With this engine's flat payloads, partial application coincides with
/// replacement: the decoded value becomes the attribute's new payload.
pub struct UpdateComponent {
    pub entity: u64,
    pub component: usize,
    pub value: EncodedValue,
}

impl UpdateComponent {
    /// What the command returns, given the state it runs against.
    pub open spec fn outcome(self, cat: Seq<crate::schema::SchemaEntry>, pre: crate::store::StoreView) -> Result<(), CommandError> {
        if spec_decode(cat, self.component, self.value@) is Err {
            Err(spec_decode(cat, self.component, self.value@)->Err_0)
        } else if !(pre.live(self.entity) && pre.slot_of(self.entity).has_attr(self.component)) {
            Err(CommandError::NotFound)
        } else {
            Ok(())
        }
    }

    pub fn execute(self, ctx: &mut InspectorContext, store: &mut Store, catalog: &Catalog) -> (r:
        Result<(), CommandError>)
        requires
            old(store)@.wf(),
            old(ctx).wf(),
            old(store)@.tick < u64::MAX,
        ensures
            final(store)@.wf(),
            final(ctx).wf(),
            *final(ctx) == *old(ctx),
            r == self.outcome(catalog.entries@, old(store)@),
            r is Err ==> final(store)@ == old(store)@,
            r is Ok ==> {
                &&& final(store)@.tick == old(store)@.tick + 1
                &&& final(store)@.slots.len() == old(store)@.slots.len()
                &&& forall|x: u64| final(store)@.live(x) == old(store)@.live(x)
                &&& forall|x: u64|
                    x != self.entity && old(store)@.live(x) ==> final(store)@.slot_of(x) == old(
                        store,
                    )@.slot_of(x)
                &&& final(store)@.slot_of(self.entity) == (SlotView {
                    attrs: old(store)@.slot_of(self.entity).attrs.update(
                        old(store)@.slot_of(self.entity).attr_pos(self.component)->Some_0,
                        AttrView {
                            type_id: self.component,
                            value: spec_decode(catalog.entries@, self.component, self.value@)->Ok_0,
                            modified: (old(store)@.tick + 1) as u64,
                        },
                    ),
                    ..old(store)@.slot_of(self.entity)
                })
            },
            exclusion_ok(old(store)@, old(ctx).disabled_components@) ==> exclusion_ok(
                final(store)@,
                final(ctx).disabled_components@,
            ),
            keys_live(old(store)@, old(ctx).disabled_components@) ==> keys_live(
                final(store)@,
                final(ctx).disabled_components@,
            ),
    {
        let decoded = match crate::schema::decode_attr(catalog, self.component, &self.value) {
            Ok(v) => v,
            Err(e) => {
                return Err(e);
            },
        };
        if !store.is_live(self.entity) {
            return Err(CommandError::NotFound);
        }
        if !store.has_attr(self.entity, self.component) {
            return Err(CommandError::NotFound);
        }
        let ghost pre = store@;
        store.update_attr(self.entity, self.component, decoded);
        proof {
            let e = AttrView {
                type_id: self.component,
                value: spec_decode(catalog.entries@, self.component, self.value@)->Ok_0,
                modified: (pre.tick + 1) as u64,
            };
            lemma_slot_attrs_update(pre.slot_of(self.entity), store@.slot_of(self.entity), e);
            if exclusion_ok(pre, ctx.disabled_components@) {
                assert forall|o: u64, t: usize|
                    store@.live(o) && store@.slot_of(o).has_attr(t) implies !#[trigger] khas(
                    ctx.disabled_components@,
                    o,
                    t,
                ) by {
                    if o == self.entity {
                        assert(pre.slot_of(o).has_attr(t));
                    }
                }
            }
        }
        Ok(())
    }
}

/// Insert a fresh attribute on an object.
///
/// Presence decides first: an attribute already on the object — or sitting
/// in the disabled overlay, where inserting over it would break the
/// overlay's exclusivity — fails with `AlreadyExists` whatever the payload;
/// only then is the payload deserialized.
pub struct InsertComponent {
    pub entity: u64,
    pub component: usize,
    pub value: EncodedValue,
}

impl InsertComponent {
    /// What the command returns, given the state it runs against.
    pub open spec fn outcome(
        self,
        cat: Seq<crate::schema::SchemaEntry>,
        pre: crate::store::StoreView,
        disabled: Seq<KeyedEntryView<crate::value::ValueView>>,
    ) -> Result<(), CommandError> {
        if !pre.live(self.entity) {
            Err(CommandError::NotFound)
        } else if pre.slot_of(self.entity).has_attr(self.component) || khas(
            disabled,
            self.entity,
            self.component,
        ) {
            Err(CommandError::AlreadyExists)
        } else if spec_decode(cat, self.component, self.value@) is Err {
            Err(spec_decode(cat, self.component, self.value@)->Err_0)
        } else {
            Ok(())
        }
    }

    pub fn execute(self, ctx: &mut InspectorContext, store: &mut Store, catalog: &Catalog) -> (r:
        Result<(), CommandError>)
        requires
            old(store)@.wf(),
            old(ctx).wf(),
            old(store)@.tick < u64::MAX,
        ensures
            final(store)@.wf(),
            final(ctx).wf(),
            *final(ctx) == *old(ctx),
            r == self.outcome(catalog.entries@, old(store)@, old(ctx).disabled_components@),
            r is Err ==> final(store)@ == old(store)@,
            r is Ok ==> {
                &&& final(store)@.tick == old(store)@.tick + 1
                &&& final(store)@.slots.len() == old(store)@.slots.len()
                &&& forall|x: u64| final(store)@.live(x) == old(store)@.live(x)
                &&& forall|x: u64|
                    x != self.entity && old(store)@.live(x) ==> final(store)@.slot_of(x) == old(
                        store,
                    )@.slot_of(x)
                &&& final(store)@.slot_of(self.entity) == (SlotView {
                    attrs: old(store)@.slot_of(self.entity).attrs.push(
                        AttrView {
                            type_id: self.component,
                            value: spec_decode(catalog.entries@, self.component, self.value@)->Ok_0,
                            modified: (old(store)@.tick + 1) as u64,
                        },
                    ),
                    ..old(store)@.slot_of(self.entity)
                })
            },
            exclusion_ok(old(store)@, old(ctx).disabled_components@) ==> exclusion_ok(
                final(store)@,
                final(ctx).disabled_components@,
            ),
            keys_live(old(store)@, old(ctx).disabled_components@) ==> keys_live(
                final(store)@,
                final(ctx).disabled_components@,
            ),
    {
        if !store.is_live(self.entity) {
            return Err(CommandError::NotFound);
        }
        if store.has_attr(self.entity, self.component) {
            return Err(CommandError::AlreadyExists);
        }
        if ctx.disabled_components.contains_key(self.entity, self.component) {
            return Err(CommandError::AlreadyExists);
        }
        let decoded = match crate::schema::decode_attr(catalog, self.component, &self.value) {
            Ok(v) => v,
            Err(e) => {
                return Err(e);
            },
        };
        let ghost pre = store@;
        store.insert_attr(self.entity, self.component, decoded);
        proof {
            let e = AttrView {
                type_id: self.component,
                value: spec_decode(catalog.entries@, self.component, self.value@)->Ok_0,
                modified: (pre.tick + 1) as u64,
            };
            lemma_slot_attrs_push(pre.slot_of(self.entity), store@.slot_of(self.entity), e);
            if exclusion_ok(pre, ctx.disabled_components@) {
                assert forall|o: u64, t: usize|
                    store@.live(o) && store@.slot_of(o).has_attr(t) implies !#[trigger] khas(
                    ctx.disabled_components@,
                    o,
                    t,
                ) by {
                    if o == self.entity {
                        if t != self.component {
                            assert(pre.slot_of(o).has_attr(t));
                        }
                    }
                }
            }
        }
        Ok(())
    }
}

/// Remove an attribute from an object.
///
/// Removal of an absent attribute is a deliberate no-op: the command only
/// fails when the object itself does not exist. On success, any overlay or
/// deep-compare bookkeeping tied to exactly this (object, type) pair is
/// dropped.
pub struct RemoveComponent {
    pub entity: u64,
    pub component: usize,
}

impl RemoveComponent {
    pub fn execute(self, ctx: &mut InspectorContext, store: &mut Store, _catalog: &Catalog) -> (r:
        Result<(), CommandError>)
        requires
            old(store)@.wf(),
            old(ctx).wf(),
        ensures
            final(store)@.wf(),
            final(ctx).wf(),
            r == (if old(store)@.live(self.entity) {
                Ok(())
            } else {
                Err::<(), CommandError>(CommandError::NotFound)
            }),
            r is Err ==> final(store)@ == old(store)@ && *final(ctx) == *old(ctx),
            r is Ok ==> {
                &&& final(store)@.tick == old(store)@.tick
                &&& final(store)@.slots.len() == old(store)@.slots.len()
                &&& forall|x: u64| final(store)@.live(x) == old(store)@.live(x)
                &&& forall|x: u64|
                    x != self.entity && old(store)@.live(x) ==> final(store)@.slot_of(x) == old(
                        store,
                    )@.slot_of(x)
                &&& !final(store)@.slot_of(self.entity).has_attr(self.component)
                &&& forall|t: usize|
                    t != self.component ==> #[trigger] final(store)@.slot_of(self.entity).has_attr(
                        t,
                    ) == old(store)@.slot_of(self.entity).has_attr(t) && (old(store)@.slot_of(
                        self.entity,
                    ).has_attr(t) ==> final(store)@.slot_of(self.entity).attr_at(t) == old(
                        store,
                    )@.slot_of(self.entity).attr_at(t))
                &&& final(store)@.slot_of(self.entity).generation == old(store)@.slot_of(
                    self.entity,
                ).generation
                &&& final(store)@.slot_of(self.entity).visible == old(store)@.slot_of(
                    self.entity,
                ).visible
                &&& final(store)@.slot_of(self.entity).parent == old(store)@.slot_of(
                    self.entity,
                ).parent
                &&& forall|o2: u64, t2: usize|
                    #![trigger klookup(final(ctx).disabled_components@, o2, t2)]
                    klookup(final(ctx).disabled_components@, o2, t2) == (if o2 == self.entity && t2
                        == self.component {
                        None
                    } else {
                        klookup(old(ctx).disabled_components@, o2, t2)
                    })
                &&& forall|o2: u64, t2: usize|
                    #![trigger klookup(final(ctx).deep_compare_components.values@, o2, t2)]
                    klookup(final(ctx).deep_compare_components.values@, o2, t2) == (if o2
                        == self.entity && t2 == self.component {
                        None
                    } else {
                        klookup(old(ctx).deep_compare_components.values@, o2, t2)
                    })
                &&& final(ctx).entity_visibilities@ == old(ctx).entity_visibilities@
                &&& final(ctx).deep_compare_components.ids@ == old(
                    ctx,
                ).deep_compare_components.ids@
            },
            exclusion_ok(old(store)@, old(ctx).disabled_components@) ==> exclusion_ok(
                final(store)@,
                final(ctx).disabled_components@,
            ),
            keys_live(old(store)@, old(ctx).disabled_components@) ==> keys_live(
                final(store)@,
                final(ctx).disabled_components@,
            ),
    {
        if !store.is_live(self.entity) {
            return Err(CommandError::NotFound);
        }
        let ghost pre = store@;
        let ghost predis = ctx.disabled_components@;
        if store.has_attr(self.entity, self.component) {
            let ghost p = pre.slot_of(self.entity).attr_pos(self.component)->Some_0;
            let _removed = store.take_attr(self.entity, self.component);
            proof {
                crate::lookup::lemma_first_pos_props(
                    pre.slot_of(self.entity).attr_keys(),
                    self.component,
                );
                lemma_slot_attrs_remove(pre.slot_of(self.entity), store@.slot_of(self.entity), p);
            }
        }
        let _ = ctx.disabled_components.take(self.entity, self.component);
        let _ = ctx.deep_compare_components.values.take(self.entity, self.component);
        proof {
            if exclusion_ok(pre, predis) {
                assert forall|o: u64, t: usize|
                    store@.live(o) && store@.slot_of(o).has_attr(t) implies !#[trigger] khas(
                    ctx.disabled_components@,
                    o,
                    t,
                ) by {
                    if !(o == self.entity && t == self.component) {
                        if o == self.entity {
                            assert(pre.slot_of(o).has_attr(t));
                        }
                        assert(!khas(predis, o, t));
                        assert(klookup(ctx.disabled_components@, o, t) == klookup(predis, o, t));
                    }
                }
            }
            if keys_live(pre, predis) {
                assert forall|o: u64, t: usize|
                    #[trigger] khas(ctx.disabled_components@, o, t) implies store@.live(o) by {
                    assert(klookup(ctx.disabled_components@, o, t) == (if o == self.entity && t
                        == self.component {
                        None
                    } else {
                        klookup(predis, o, t)
                    }));
                    assert(khas(predis, o, t));
                    assert(pre.live(o));
                }
            }
        }
        Ok(())
    }
}

/// Flip an attribute between live and disabled.
///
/// With no overlay entry this is a disable: the live value moves into the
/// overlay and the attribute leaves the store. With an overlay entry it is
/// an enable: the stored value is re-applied to the store and the entry
/// leaves the overlay. A failed enable leaves the overlay untouched.
pub struct ToggleComponent {
    pub entity: u64,
    pub component: usize,
}

impl ToggleComponent {
    /// What the command returns, given the state it runs against.
    pub open spec fn outcome(
        self,
        cat: Seq<crate::schema::SchemaEntry>,
        pre: crate::store::StoreView,
        disabled: Seq<KeyedEntryView<crate::value::ValueView>>,
    ) -> Result<(), CommandError> {
        if !spec_known(cat, self.component) {
            Err(CommandError::NotFound)
        } else if !spec_registered(cat, self.component) {
            Err(CommandError::NotRegistered)
        } else if !pre.live(self.entity) {
            Err(CommandError::NotFound)
        } else if khas(disabled, self.entity, self.component) {
            if pre.slot_of(self.entity).has_attr(self.component) {
                Err(CommandError::ConstraintViolation)
            } else {
                Ok(())
            }
        } else {
            if !pre.slot_of(self.entity).has_attr(self.component) {
                Err(CommandError::NotFound)
            } else {
                Ok(())
            }
        }
    }

    pub fn execute(self, ctx: &mut InspectorContext, store: &mut Store, catalog: &Catalog) -> (r:
        Result<(), CommandError>)
        requires
            old(store)@.wf(),
            old(ctx).wf(),
            old(store)@.tick < u64::MAX,
        ensures
            final(store)@.wf(),
            final(ctx).wf(),
            r == self.outcome(catalog.entries@, old(store)@, old(ctx).disabled_components@),
            r is Err ==> final(store)@ == old(store)@ && *final(ctx) == *old(ctx),
            final(ctx).entity_visibilities@ == old(ctx).entity_visibilities@,
            final(ctx).deep_compare_components.ids@ == old(ctx).deep_compare_components.ids@,
            final(ctx).deep_compare_components.values@ == old(ctx).deep_compare_components.values@,
            r is Ok && khas(old(ctx).disabled_components@, self.entity, self.component) ==> {
                // enable: the stored value returns to the live store
                &&& final(store)@.tick == old(store)@.tick + 1
                &&& final(store)@.slots.len() == old(store)@.slots.len()
                &&& forall|x: u64| final(store)@.live(x) == old(store)@.live(x)
                &&& forall|x: u64|
                    x != self.entity && old(store)@.live(x) ==> final(store)@.slot_of(x) == old(
                        store,
                    )@.slot_of(x)
                &&& final(store)@.slot_of(self.entity) == (SlotView {
                    attrs: old(store)@.slot_of(self.entity).attrs.push(
                        AttrView {
                            type_id: self.component,
                            value: klookup(
                                old(ctx).disabled_components@,
                                self.entity,
                                self.component,
                            )->Some_0,
                            modified: (old(store)@.tick + 1) as u64,
                        },
                    ),
                    ..old(store)@.slot_of(self.entity)
                })
                &&& forall|o2: u64, t2: usize|
                    #![trigger klookup(final(ctx).disabled_components@, o2, t2)]
                    klookup(final(ctx).disabled_components@, o2, t2) == (if o2 == self.entity && t2
                        == self.component {
                        None
                    } else {
                        klookup(old(ctx).disabled_components@, o2, t2)
                    })
            },
            r is Ok && !khas(old(ctx).disabled_components@, self.entity, self.component) ==> {
                // disable: the live value moves into the overlay
                &&& final(store)@.tick == old(store)@.tick
                &&& final(store)@.slots.len() == old(store)@.slots.len()
                &&& forall|x: u64| final(store)@.live(x) == old(store)@.live(x)
                &&& forall|x: u64|
                    x != self.entity && old(store)@.live(x) ==> final(store)@.slot_of(x) == old(
                        store,
                    )@.slot_of(x)
                &&& final(store)@.slot_of(self.entity) == (SlotView {
                    attrs: old(store)@.slot_of(self.entity).attrs.remove(
                        old(store)@.slot_of(self.entity).attr_pos(self.component)->Some_0,
                    ),
                    ..old(store)@.slot_of(self.entity)
                })
                &&& final(ctx).disabled_components@ == old(ctx).disabled_components@.push(
                    KeyedEntryView {
                        entity: self.entity,
                        type_id: self.component,
                        value: old(store)@.slot_of(self.entity).attr_at(self.component).value,
                    },
                )
                &&& forall|o2: u64, t2: usize|
                    #![trigger klookup(final(ctx).disabled_components@, o2, t2)]
                    klookup(final(ctx).disabled_components@, o2, t2) == (if o2 == self.entity && t2
                        == self.component {
                        Some(old(store)@.slot_of(self.entity).attr_at(self.component).value)
                    } else {
                        klookup(old(ctx).disabled_components@, o2, t2)
                    })
            },
            exclusion_ok(old(store)@, old(ctx).disabled_components@) ==> exclusion_ok(
                final(store)@,
                final(ctx).disabled_components@,
            ),
            keys_live(old(store)@, old(ctx).disabled_components@) ==> keys_live(
                final(store)@,
                final(ctx).disabled_components@,
            ),
    {
        match catalog.entry(self.component) {
            None => {
                return Err(CommandError::NotFound);
            },
            Some(e) => {
                if !e.registered {
                    return Err(CommandError::NotRegistered);
                }
            },
        }
        if !store.is_live(self.entity) {
            return Err(CommandError::NotFound);
        }
        let ghost pre = store@;
        let ghost predis = ctx.disabled_components@;
        if ctx.disabled_components.contains_key(self.entity, self.component) {
            // enable
            if store.has_attr(self.entity, self.component) {
                return Err(CommandError::ConstraintViolation);
            }
            let stored = ctx.disabled_components.take(self.entity, self.component).unwrap();
            store.insert_attr(self.entity, self.component, stored);
            proof {
                let e = AttrView {
                    type_id: self.component,
                    value: klookup(predis, self.entity, self.component)->Some_0,
                    modified: (pre.tick + 1) as u64,
                };
                lemma_slot_attrs_push(pre.slot_of(self.entity), store@.slot_of(self.entity), e);
                if exclusion_ok(pre, predis) {
                    assert forall|o: u64, t: usize|
                        store@.live(o) && store@.slot_of(o).has_attr(t) implies !#[trigger] khas(
                        ctx.disabled_components@,
                        o,
                        t,
                    ) by {
                        if o == self.entity && t == self.component {
                            assert(!khas(ctx.disabled_components@, o, t));
                        } else {
                            assert(klookup(ctx.disabled_components@, o, t) == klookup(
                                predis,
                                o,
                                t,
                            ));
                            if o == self.entity {
                                assert(pre.slot_of(o).has_attr(t));
                            }
                            assert(!khas(predis, o, t));
                        }
                    }
                }
                if keys_live(pre, predis) {
                    assert forall|o: u64, t: usize|
                        #[trigger] khas(ctx.disabled_components@, o, t) implies store@.live(o) by {
                        assert(klookup(ctx.disabled_components@, o, t) == (if o == self.entity && t
                            == self.component {
                            None
                        } else {
                            klookup(predis, o, t)
                        }));
                        assert(khas(predis, o, t));
                        assert(pre.live(o));
                    }
                }
            }
            Ok(())
        } else {
            // disable
            if !store.has_attr(self.entity, self.component) {
                return Err(CommandError::NotFound);
            }
            let ghost p = pre.slot_of(self.entity).attr_pos(self.component)->Some_0;
            let value = store.take_attr(self.entity, self.component);
            ctx.disabled_components.insert_new(self.entity, self.component, value);
            proof {
                crate::lookup::lemma_first_pos_props(
                    pre.slot_of(self.entity).attr_keys(),
                    self.component,
                );
                lemma_slot_attrs_remove(pre.slot_of(self.entity), store@.slot_of(self.entity), p);
                if exclusion_ok(pre, predis) {
                    assert forall|o: u64, t: usize|
                        store@.live(o) && store@.slot_of(o).has_attr(t) implies !#[trigger] khas(
                        ctx.disabled_components@,
                        o,
                        t,
                    ) by {
                        if o == self.entity && t == self.component {
                            assert(!store@.slot_of(o).has_attr(t));
                        } else {
                            assert(klookup(ctx.disabled_components@, o, t) == klookup(
                                predis,
                                o,
                                t,
                            ));
                            if o == self.entity {
                                assert(pre.slot_of(o).has_attr(t));
                            }
                            assert(!khas(predis, o, t));
                        }
                    }
                }
                if keys_live(pre, predis) {
                    assert forall|o: u64, t: usize|
                        #[trigger] khas(ctx.disabled_components@, o, t) implies store@.live(o) by {
                        assert(klookup(ctx.disabled_components@, o, t) == (if o == self.entity && t
                            == self.component {
                            Some(pre.slot_of(self.entity).attr_at(self.component).value)
                        } else {
                            klookup(predis, o, t)
                        }));
                        if !(o == self.entity && t == self.component) {
                            assert(khas(predis, o, t));
                            assert(pre.live(o));
                        }
                    }
                }
            }
            Ok(())
        }
    }
}

/// Flip an object's visible flag, remembering the explicit state it had so
/// a second toggle restores it exactly.
pub struct ToggleVisibity {
    pub entity: u64,
}

impl ToggleVisibity {
    pub fn execute(self, ctx: &mut InspectorContext, store: &mut Store, _catalog: &Catalog) -> (r:
        Result<(), CommandError>)
        requires
            old(store)@.wf(),
            old(ctx).wf(),
        ensures
            final(store)@.wf(),
            final(ctx).wf(),
            r == (if old(store)@.live(self.entity) {
                Ok(())
            } else {
                Err::<(), CommandError>(CommandError::NotFound)
            }),
            r is Err ==> final(store)@ == old(store)@ && *final(ctx) == *old(ctx),
            final(ctx).disabled_components@ == old(ctx).disabled_components@,
            final(ctx).deep_compare_components.ids@ == old(ctx).deep_compare_components.ids@,
            final(ctx).deep_compare_components.values@ == old(ctx).deep_compare_components.values@,
            r is Ok ==> {
                &&& final(store)@.tick == old(store)@.tick
                &&& final(store)@.slots.len() == old(store)@.slots.len()
                &&& forall|x: u64| final(store)@.live(x) == old(store)@.live(x)
                &&& forall|x: u64|
                    x != self.entity && old(store)@.live(x) ==> final(store)@.slot_of(x) == old(
                        store,
                    )@.slot_of(x)
                &&& final(store)@.slot_of(self.entity) == (SlotView {
                    visible: match klookup(
                        old(ctx).entity_visibilities@,
                        self.entity,
                        crate::context::VISIBILITY_SLOT,
                    ) {
                        Some(saved) => saved,
                        None => !old(store)@.slot_of(self.entity).visible,
                    },
                    ..old(store)@.slot_of(self.entity)
                })
                &&& forall|o2: u64, t2: usize|
                    #![trigger klookup(final(ctx).entity_visibilities@, o2, t2)]
                    klookup(final(ctx).entity_visibilities@, o2, t2) == (if o2 == self.entity && t2
                        == crate::context::VISIBILITY_SLOT {
                        match klookup(
                            old(ctx).entity_visibilities@,
                            self.entity,
                            crate::context::VISIBILITY_SLOT,
                        ) {
                            Some(_) => None,
                            None => Some(old(store)@.slot_of(self.entity).visible),
                        }
                    } else {
                        klookup(old(ctx).entity_visibilities@, o2, t2)
                    })
            },
            exclusion_ok(old(store)@, old(ctx).disabled_components@) ==> exclusion_ok(
                final(store)@,
                final(ctx).disabled_components@,
            ),
            keys_live(old(store)@, old(ctx).disabled_components@) ==> keys_live(
                final(store)@,
                final(ctx).disabled_components@,
            ),
    {
        if !store.is_live(self.entity) {
            return Err(CommandError::NotFound);
        }
        let ghost pre = store@;
        match ctx.entity_visibilities.take(self.entity, crate::context::VISIBILITY_SLOT) {
            Some(saved) => {
                store.set_visible(self.entity, saved);
            },
            None => {
                let current = store.get_visible(self.entity);
                ctx.entity_visibilities.insert_new(
                    self.entity,
                    crate::context::VISIBILITY_SLOT,
                    current,
                );
                store.set_visible(self.entity, !current);
            },
        }
        proof {
            if exclusion_ok(pre, ctx.disabled_components@) {
                assert forall|o: u64, t: usize|
                    store@.live(o) && store@.slot_of(o).has_attr(t) implies !#[trigger] khas(
                    ctx.disabled_components@,
                    o,
                    t,
                ) by {
                    if o == self.entity {
                        assert(pre.slot_of(o).has_attr(t));
                    }
                }
            }
        }
        Ok(())
    }
}

/// Rewire an object's parent link, or clear it.
pub struct ReparentEntity {
    pub entity: u64,
    pub parent: Option<u64>,
}

impl ReparentEntity {
    /// What the command returns, given the state it runs against.
    pub open spec fn outcome(self, pre: crate::store::StoreView) -> Result<(), CommandError> {
        match self.parent {
            Some(p) => {
                if !pre.live(p) {
                    Err(CommandError::ConstraintViolation)
                } else if self.entity == p {
                    Err(CommandError::ConstraintViolation)
                } else if !pre.live(self.entity) {
                    Err(CommandError::NotFound)
                } else {
                    Ok(())
                }
            },
            None => {
                if !pre.live(self.entity) {
                    Err(CommandError::NotFound)
                } else {
                    Ok(())
                }
            },
        }
    }

    pub fn execute(self, ctx: &mut InspectorContext, store: &mut Store, _catalog: &Catalog) -> (r:
        Result<(), CommandError>)
        requires
            old(store)@.wf(),
            old(ctx).wf(),
        ensures
            final(store)@.wf(),
            final(ctx).wf(),
            *final(ctx) == *old(ctx),
            r == self.outcome(old(store)@),
            r is Err ==> final(store)@ == old(store)@,
            r is Ok ==> {
                &&& final(store)@.tick == old(store)@.tick
                &&& final(store)@.slots.len() == old(store)@.slots.len()
                &&& forall|x: u64| final(store)@.live(x) == old(store)@.live(x)
                &&& forall|x: u64|
                    x != self.entity && old(store)@.live(x) ==> final(store)@.slot_of(x) == old(
                        store,
                    )@.slot_of(x)
                &&& final(store)@.slot_of(self.entity) == (SlotView {
                    parent: self.parent,
                    ..old(store)@.slot_of(self.entity)
                })
            },
            exclusion_ok(old(store)@, old(ctx).disabled_components@) ==> exclusion_ok(
                final(store)@,
                final(ctx).disabled_components@,
            ),
            keys_live(old(store)@, old(ctx).disabled_components@) ==> keys_live(
                final(store)@,
                final(ctx).disabled_components@,
            ),
    {
        if let Some(p) = self.parent {
            if !store.is_live(p) {
                return Err(CommandError::ConstraintViolation);
            }
            if self.entity == p {
                return Err(CommandError::ConstraintViolation);
            }
        }
        if !store.is_live(self.entity) {
            return Err(CommandError::NotFound);
        }
        let ghost pre = store@;
        store.set_parent(self.entity, self.parent);
        proof {
            if exclusion_ok(pre, ctx.disabled_components@) {
                assert forall|o: u64, t: usize|
                    store@.live(o) && store@.slot_of(o).has_attr(t) implies !#[trigger] khas(
                    ctx.disabled_components@,
                    o,
                    t,
                ) by {
                    if o == self.entity {
                        assert(pre.slot_of(o).has_attr(t));
                    }
                }
            }
        }
        Ok(())
    }
}

/// Create a new empty object, optionally as a child of an existing one.
pub struct SpawnEntity {
    pub parent: Option<u64>,
}

impl SpawnEntity {
    pub fn execute(self, ctx: &mut InspectorContext, store: &mut Store, _catalog: &Catalog) -> (r:
        Result<u64, CommandError>)
        requires
            old(store)@.wf(),
            old(ctx).wf(),
            old(store)@.slots.len() < 0xFFFF_FFFF,
        ensures
            final(store)@.wf(),
            final(ctx).wf(),
            *final(ctx) == *old(ctx),
            r is Ok <==> (match self.parent {
                Some(p) => old(store)@.live(p),
                None => true,
            }),
            r is Err ==> r == Err::<u64, CommandError>(CommandError::NotFound) && final(store)@
                == old(store)@,
            old(store)@.slots.len() <= final(store)@.slots.len() <= old(store)@.slots.len() + 1,
            r is Ok ==> {
                &&& r->Ok_0 != 0
                &&& !old(store)@.live(r->Ok_0)
                &&& final(store)@.live(r->Ok_0)
                &&& final(store)@.tick == old(store)@.tick
                &&& final(store)@.slot_of(r->Ok_0).attrs.len() == 0
                &&& final(store)@.slot_of(r->Ok_0).parent == self.parent
                &&& forall|x: u64|
                    x != r->Ok_0 ==> final(store)@.live(x) == old(store)@.live(x)
                &&& forall|x: u64|
                    x != r->Ok_0 && old(store)@.live(x) ==> final(store)@.slot_of(x) == old(
                        store,
                    )@.slot_of(x)
            },
            exclusion_ok(old(store)@, old(ctx).disabled_components@) && keys_live(
                old(store)@,
                old(ctx).disabled_components@,
            ) ==> exclusion_ok(final(store)@, final(ctx).disabled_components@),
            keys_live(old(store)@, old(ctx).disabled_components@) ==> keys_live(
                final(store)@,
                final(ctx).disabled_components@,
            ),
    {
        if let Some(p) = self.parent {
            if !store.is_live(p) {
                return Err(CommandError::NotFound);
            }
        }
        let ghost pre = store@;
        let id = store.spawn(self.parent);
        proof {
            if exclusion_ok(pre, ctx.disabled_components@) && keys_live(
                pre,
                ctx.disabled_components@,
            ) {
                assert forall|o: u64, t: usize|
                    store@.live(o) && store@.slot_of(o).has_attr(t) implies !#[trigger] khas(
                    ctx.disabled_components@,
                    o,
                    t,
                ) by {
                    if o == id {
                        assert(store@.slot_of(o).attrs.len() == 0);
                        assert(!store@.slot_of(o).has_attr(t)) by {
                            crate::lookup::lemma_first_pos_props(store@.slot_of(o).attr_keys(), t);
                        }
                    } else {
                        assert(pre.slot_of(o).has_attr(t));
                    }
                }
            }
            if keys_live(pre, ctx.disabled_components@) {
                assert forall|o: u64, t: usize|
                    #[trigger] khas(ctx.disabled_components@, o, t) implies store@.live(o) by {
                    assert(pre.live(o));
                }
            }
        }
        Ok(id)
    }
}

/// Whether `x` occurs in `ids`.
pub open spec fn id_in(ids: Seq<u64>, x: u64) -> bool {
    exists|j: int| 0 <= j < ids.len() && ids[j] == x
}

/// Scan a vector of object identifiers for `x`.
fn contains_id(ids: &Vec<u64>, x: u64) -> (r: bool)
    ensures
        r == id_in(ids@, x),
{
    let mut j: usize = 0;
    while j < ids.len()
        invariant
            j <= ids.len(),
            forall|k: int| 0 <= k < j ==> ids@[k] != x,
        decreases ids.len() - j,
    {
        if ids[j] == x {
            return true;
        }
        j = j + 1;
    }
    false
}

/// A sequence of distinct live identifiers cannot outnumber the slots.
proof fn lemma_distinct_live_bound(s: crate::store::StoreView, ids: Seq<u64>)
    requires
        forall|k: int| 0 <= k < ids.len() ==> s.live(#[trigger] ids[k]),
        forall|i: int, j: int| 0 <= i < j < ids.len() ==> ids[i] != ids[j],
    ensures
        ids.len() <= s.slots.len(),
{
    let idx = Seq::new(ids.len(), |k: int| crate::store::spec_id_index(ids[k]));
    assert forall|i: int, j: int|
        0 <= i < idx.len() && 0 <= j < idx.len() && i != j implies idx[i] != idx[j] by {
        if idx[i] == idx[j] {
            crate::store::lemma_live_ids_distinct(s, ids[i], ids[j]);
        }
    }
    assert(idx.no_duplicates());
    idx.unique_seq_to_set();
    let range = vstd::set_lib::set_int_range(0, s.slots.len() as int);
    assert(idx.to_set().subset_of(range)) by {
        assert forall|a: int| idx.to_set().contains(a) implies range.contains(a) by {
            let k = choose|k: int| 0 <= k < idx.len() && idx[k] == a;
            assert(s.live(ids[k]));
        }
    }
    vstd::set_lib::lemma_int_range(0, s.slots.len() as int);
    vstd::set_lib::lemma_len_subset(idx.to_set(), range);
}

/// Gather `root` and every live object that hangs under it through parent
/// links.
fn collect_subtree(store: &Store, root: u64) -> (ids: Vec<u64>)
    requires
        store@.wf(),
        store@.live(root),
    ensures
        ids@.len() >= 1,
        ids@[0] == root,
        forall|k: int| 0 <= k < ids@.len() ==> store@.live(#[trigger] ids@[k]),
        forall|i: int, j: int| 0 <= i < j < ids@.len() ==> ids@[i] != ids@[j],
        forall|k: int|
            1 <= k < ids@.len() ==> (#[trigger] store@.slot_of(ids@[k]).parent) is Some && id_in(
                ids@,
                store@.slot_of(ids@[k]).parent->0,
            ),
        forall|x: u64|
            store@.live(x) && (#[trigger] store@.slot_of(x).parent) is Some && id_in(
                ids@,
                store@.slot_of(x).parent->0,
            ) ==> id_in(ids@, x),
{
    let mut ids: Vec<u64> = Vec::new();
    ids.push(root);
    let mut done = false;
    let mut pass: u64 = 0;
    let bound: u64 = store.slots.len() as u64 + 1;
    while pass < bound && !done
        invariant
            store@.wf(),
            store@.live(root),
            bound == store@.slots.len() + 1,
            pass <= bound,
            ids@.len() >= 1,
            ids@[0] == root,
            forall|k: int| 0 <= k < ids@.len() ==> store@.live(#[trigger] ids@[k]),
            forall|i: int, j: int| 0 <= i < j < ids@.len() ==> ids@[i] != ids@[j],
            forall|k: int|
                1 <= k < ids@.len() ==> (#[trigger] store@.slot_of(ids@[k]).parent) is Some
                    && id_in(ids@, store@.slot_of(ids@[k]).parent->0),
            !done ==> ids@.len() >= pass + 1,
            done ==> forall|x: u64|
                store@.live(x) && (#[trigger] store@.slot_of(x).parent) is Some && id_in(
                    ids@,
                    store@.slot_of(x).parent->0,
                ) ==> id_in(ids@, x),
        decreases bound - pass,
    {
        let ghost at_start = ids@;
        let mut added = false;
        let mut i: usize = 0;
        while i < store.slots.len()
            invariant
                store@.wf(),
                i <= store@.slots.len(),
                ids@.len() >= at_start.len() >= 1,
                forall|k: int| 0 <= k < at_start.len() ==> at_start[k] == ids@[k],
                ids@[0] == root,
                forall|k: int| 0 <= k < ids@.len() ==> store@.live(#[trigger] ids@[k]),
                forall|i2: int, j: int| 0 <= i2 < j < ids@.len() ==> ids@[i2] != ids@[j],
                forall|k: int|
                    1 <= k < ids@.len() ==> (#[trigger] store@.slot_of(ids@[k]).parent) is Some
                        && id_in(ids@, store@.slot_of(ids@[k]).parent->0),
                !added ==> ids@ == at_start,
                added ==> ids@.len() > at_start.len(),
                forall|x: u64|
                    store@.live(x) && crate::store::spec_id_index(x) < i && (
                    #[trigger] store@.slot_of(x).parent) is Some && id_in(
                        at_start,
                        store@.slot_of(x).parent->0,
                    ) ==> id_in(ids@, x),
            decreases store@.slots.len() - i,
        {
            let slot_alive = store.slots[i].alive;
            if slot_alive {
                let generation = store.slots[i].generation;
                let id = ((generation as u64) << 32) | (i as u64);
                proof {
                    crate::store::lemma_id_roundtrip(i as int, generation);
                    assert(store@.live(id));
                }
                if let Some(p) = store.slots[i].parent {
                    if contains_id(&ids, p) && !contains_id(&ids, id) {
                        let ghost before = ids@;
                        ids.push(id);
                        added = true;
                        proof {
                            assert(ids@ =~= before.push(id));
                            assert forall|x: u64|
                                store@.live(x) && crate::store::spec_id_index(x) < i + 1 && (
                                #[trigger] store@.slot_of(x).parent) is Some && id_in(
                                    at_start,
                                    store@.slot_of(x).parent->0,
                                ) implies id_in(ids@, x) by {
                                if crate::store::spec_id_index(x) == i as int {
                                    crate::store::lemma_live_ids_distinct(store@, x, id);
                                    assert(ids@[ids@.len() - 1] == x);
                                } else {
                                    assert(id_in(before, x));
                                    let j = choose|j: int|
                                        0 <= j < before.len() && before[j] == x;
                                    assert(ids@[j] == x);
                                }
                            }
                            assert forall|k: int|
                                1 <= k < ids@.len() implies (#[trigger] store@.slot_of(
                                ids@[k],
                            ).parent) is Some && id_in(ids@, store@.slot_of(ids@[k]).parent->0) by {
                                if k < before.len() {
                                    assert(id_in(before, store@.slot_of(ids@[k]).parent->0));
                                    let j = choose|j: int|
                                        0 <= j < before.len() && before[j] == store@.slot_of(
                                            ids@[k],
                                        ).parent->0;
                                    assert(ids@[j] == store@.slot_of(ids@[k]).parent->0);
                                } else {
                                    assert(ids@[k] == id);
                                    let j = choose|j: int| 0 <= j < before.len() && before[j] == p;
                                    assert(ids@[j] == p);
                                }
                            }
                        }
                    } else {
                        proof {
                            assert forall|x: u64|
                                store@.live(x) && crate::store::spec_id_index(x) < i + 1 && (
                                #[trigger] store@.slot_of(x).parent) is Some && id_in(
                                    at_start,
                                    store@.slot_of(x).parent->0,
                                ) implies id_in(ids@, x) by {
                                if crate::store::spec_id_index(x) == i as int {
                                    crate::store::lemma_live_ids_distinct(store@, x, id);
                                    if id_in(at_start, store@.slot_of(x).parent->0) {
                                        let j = choose|j: int|
                                            0 <= j < at_start.len() && at_start[j]
                                                == store@.slot_of(x).parent->0;
                                        assert(ids@[j] == at_start[j]);
                                        assert(id_in(ids@, store@.slot_of(x).parent->0));
                                    }
                                }
                            }
                        }
                    }
                } else {
                    proof {
                        assert forall|x: u64|
                            store@.live(x) && crate::store::spec_id_index(x) < i + 1 && (
                            #[trigger] store@.slot_of(x).parent) is Some && id_in(
                                at_start,
                                store@.slot_of(x).parent->0,
                            ) implies id_in(ids@, x) by {
                            if crate::store::spec_id_index(x) == i as int {
                                crate::store::lemma_live_ids_distinct(store@, x, id);
                            }
                        }
                    }
                }
            } else {
                proof {
                    assert forall|x: u64|
                        store@.live(x) && crate::store::spec_id_index(x) < i + 1 && (
                        #[trigger] store@.slot_of(x).parent) is Some && id_in(
                            at_start,
                            store@.slot_of(x).parent->0,
                        ) implies id_in(ids@, x) by {
                        if crate::store::spec_id_index(x) == i as int {
                            assert(!store@.live(x));
                        }
                    }
                }
            }
            i = i + 1;
        }
        if !added {
            done = true;
            proof {
                assert(ids@ == at_start);
                assert forall|x: u64|
                    store@.live(x) && (#[trigger] store@.slot_of(x).parent) is Some && id_in(
                        ids@,
                        store@.slot_of(x).parent->0,
                    ) implies id_in(ids@, x) by {
                    assert(crate::store::spec_id_index(x) < store@.slots.len());
                }
            }
        }
        pass = pass + 1;
        proof {
            if !done {
                lemma_distinct_live_bound(store@, ids@);
            }
        }
    }
    proof {
        if !done {
            lemma_distinct_live_bound(store@, ids@);
            assert(false);
        }
    }
    ids
}

/// How a despawn selects its victims: beyond the root, the recursive and
/// descendant flavors both take everything hanging under it.
pub enum DespawnEntityKind {
    Recursive,
    Descendant,
}

/// Destroy an object and its subtree, and purge all bookkeeping tied to the
/// destroyed objects.
pub struct DespawnEntity {
    pub entity: u64,
    pub kind: DespawnEntityKind,
}

impl DespawnEntity {
    pub fn execute(self, ctx: &mut InspectorContext, store: &mut Store, _catalog: &Catalog) -> (r:
        Result<(), CommandError>)
        requires
            old(store)@.wf(),
            old(ctx).wf(),
        ensures
            final(store)@.wf(),
            final(ctx).wf(),
            r == (if old(store)@.live(self.entity) {
                Ok(())
            } else {
                Err::<(), CommandError>(CommandError::NotFound)
            }),
            r is Err ==> final(store)@ == old(store)@ && *final(ctx) == *old(ctx),
            final(ctx).deep_compare_components.ids@ == old(ctx).deep_compare_components.ids@,
            r is Ok ==> {
                &&& !final(store)@.live(self.entity)
                &&& final(store)@.tick == old(store)@.tick
                &&& final(store)@.slots.len() == old(store)@.slots.len()
                &&& forall|x: u64| final(store)@.live(x) ==> old(store)@.live(x)
                &&& forall|x: u64|
                    final(store)@.live(x) ==> final(store)@.slot_of(x) == old(store)@.slot_of(x)
                &&& forall|x: u64|
                    old(store)@.live(x) && !final(store)@.live(x) && x != self.entity ==> (
                    #[trigger] old(store)@.slot_of(x).parent) is Some && old(store)@.live(
                        old(store)@.slot_of(x).parent->0,
                    ) && !final(store)@.live(old(store)@.slot_of(x).parent->0)
                &&& forall|x: u64|
                    old(store)@.live(x) && (#[trigger] old(store)@.slot_of(x).parent) is Some
                        && old(store)@.live(old(store)@.slot_of(x).parent->0)
                        && !final(store)@.live(old(store)@.slot_of(x).parent->0) ==> !final(
                    store)@.live(x)
                &&& forall|o2: u64, t2: usize|
                    #![trigger klookup(final(ctx).disabled_components@, o2, t2)]
                    klookup(final(ctx).disabled_components@, o2, t2) == (if old(store)@.live(o2)
                        && !final(store)@.live(o2) {
                        None
                    } else {
                        klookup(old(ctx).disabled_components@, o2, t2)
                    })
                &&& forall|o2: u64, t2: usize|
                    #![trigger klookup(final(ctx).entity_visibilities@, o2, t2)]
                    klookup(final(ctx).entity_visibilities@, o2, t2) == (if old(store)@.live(o2)
                        && !final(store)@.live(o2) {
                        None
                    } else {
                        klookup(old(ctx).entity_visibilities@, o2, t2)
                    })
                &&& forall|o2: u64, t2: usize|
                    #![trigger klookup(final(ctx).deep_compare_components.values@, o2, t2)]
                    klookup(final(ctx).deep_compare_components.values@, o2, t2) == (if old(
                        store,
                    )@.live(o2) && !final(store)@.live(o2) {
                        None
                    } else {
                        klookup(old(ctx).deep_compare_components.values@, o2, t2)
                    })
            },
            exclusion_ok(old(store)@, old(ctx).disabled_components@) ==> exclusion_ok(
                final(store)@,
                final(ctx).disabled_components@,
            ),
            keys_live(old(store)@, old(ctx).disabled_components@) ==> keys_live(
                final(store)@,
                final(ctx).disabled_components@,
            ),
    {
        if !store.is_live(self.entity) {
            return Err(CommandError::NotFound);
        }
        let ghost pre = store@;
        let ghost prectx = *ctx;
        let ids = collect_subtree(store, self.entity);
        let mut n: usize = 0;
        while n < ids.len()
            invariant
                store@.wf(),
                ctx.wf(),
                pre.wf(),
                n <= ids@.len(),
                ids@.len() >= 1,
                ids@[0] == self.entity,
                store@.tick == pre.tick,
                store@.slots.len() == pre.slots.len(),
                ctx.deep_compare_components.ids@ == prectx.deep_compare_components.ids@,
                forall|k: int| 0 <= k < ids@.len() ==> pre.live(#[trigger] ids@[k]),
                forall|i: int, j: int| 0 <= i < j < ids@.len() ==> ids@[i] != ids@[j],
                forall|k: int|
                    1 <= k < ids@.len() ==> (#[trigger] pre.slot_of(ids@[k]).parent) is Some
                        && id_in(ids@, pre.slot_of(ids@[k]).parent->0),
                forall|x: u64|
                    pre.live(x) && (#[trigger] pre.slot_of(x).parent) is Some && id_in(
                        ids@,
                        pre.slot_of(x).parent->0,
                    ) ==> id_in(ids@, x),
                forall|x: u64|
                    store@.live(x) == (pre.live(x) && !(exists|k: int|
                        0 <= k < n && ids@[k] == x)),
                forall|x: u64| store@.live(x) ==> store@.slot_of(x) == pre.slot_of(x),
                forall|o2: u64, t2: usize|
                    #![trigger klookup(ctx.disabled_components@, o2, t2)]
                    klookup(ctx.disabled_components@, o2, t2) == (if exists|k: int|
                        0 <= k < n && ids@[k] == o2 {
                        None
                    } else {
                        klookup(prectx.disabled_components@, o2, t2)
                    }),
                forall|o2: u64, t2: usize|
                    #![trigger klookup(ctx.entity_visibilities@, o2, t2)]
                    klookup(ctx.entity_visibilities@, o2, t2) == (if exists|k: int|
                        0 <= k < n && ids@[k] == o2 {
                        None
                    } else {
                        klookup(prectx.entity_visibilities@, o2, t2)
                    }),
                forall|o2: u64, t2: usize|
                    #![trigger klookup(ctx.deep_compare_components.values@, o2, t2)]
                    klookup(ctx.deep_compare_components.values@, o2, t2) == (if exists|k: int|
                        0 <= k < n && ids@[k] == o2 {
                        None
                    } else {
                        klookup(prectx.deep_compare_components.values@, o2, t2)
                    }),
            decreases ids@.len() - n,
        {
            proof {
                assert(store@.live(ids@[n as int]));
            }
            store.despawn(ids[n]);
            ctx.on_entity_removed(ids[n]);
            n = n + 1;
        }
        proof {
            assert(!store@.live(self.entity)) by {
                assert(ids@[0] == self.entity);
            }
            assert forall|x: u64|
                pre.live(x) && !store@.live(x) && x != self.entity implies (#[trigger] pre.slot_of(
                x,
            ).parent) is Some && pre.live(pre.slot_of(x).parent->0) && !store@.live(
                pre.slot_of(x).parent->0,
            ) by {
                let k = choose|k: int| 0 <= k < ids@.len() && ids@[k] == x;
                assert(k >= 1);
                assert(id_in(ids@, pre.slot_of(ids@[k]).parent->0));
                let j = choose|j: int|
                    0 <= j < ids@.len() && ids@[j] == pre.slot_of(x).parent->0;
                assert(pre.live(ids@[j]));
            }
            assert forall|x: u64|
                pre.live(x) && (#[trigger] pre.slot_of(x).parent) is Some && pre.live(
                    pre.slot_of(x).parent->0,
                ) && !store@.live(pre.slot_of(x).parent->0) implies !store@.live(x) by {
                let p = pre.slot_of(x).parent->0;
                let k = choose|k: int| 0 <= k < ids@.len() && ids@[k] == p;
                assert(id_in(ids@, p));
                assert(id_in(ids@, x));
            }
            if exclusion_ok(pre, prectx.disabled_components@) {
                assert forall|o: u64, t: usize|
                    store@.live(o) && store@.slot_of(o).has_attr(t) implies !#[trigger] khas(
                    ctx.disabled_components@,
                    o,
                    t,
                ) by {
                    assert(pre.slot_of(o).has_attr(t));
                    assert(!khas(prectx.disabled_components@, o, t));
                    assert(klookup(ctx.disabled_components@, o, t) == klookup(
                        prectx.disabled_components@,
                        o,
                        t,
                    ));
                }
            }
            if keys_live(pre, prectx.disabled_components@) {
                assert forall|o: u64, t: usize|
                    #[trigger] khas(ctx.disabled_components@, o, t) implies store@.live(o) by {
                    assert(khas(prectx.disabled_components@, o, t));
                    assert(pre.live(o));
                    if !store@.live(o) {
                        assert(klookup(ctx.disabled_components@, o, t) is None);
                    }
                }
            }
        }
        Ok(())
    }
}

/// The output of a successful command: unit, or the identifier of a newly
/// spawned object.
#[derive(Clone, Copy, Debug, PartialEq, Eq, Structural)]
pub enum CommandOutput {
    Done,
    Spawned(u64),
}

/// One remote mutation request.
pub enum Command {
    UpdateComponent(UpdateComponent),
    ToggleComponent(ToggleComponent),
    RemoveComponent(RemoveComponent),
    InsertComponent(InsertComponent),
    DespawnEntity(DespawnEntity),
    ToggleVisibity(ToggleVisibity),
    ReparentEntity(ReparentEntity),
    SpawnEntity(SpawnEntity),
}

impl Command {
    /// Validate and apply one command; each variant's own `execute` carries
    /// the exact contract of its state change.
    pub fn execute(self, ctx: &mut InspectorContext, store: &mut Store, catalog: &Catalog) -> (r:
        Result<CommandOutput, CommandError>)
        requires
            old(store)@.wf(),
            old(ctx).wf(),
            old(store)@.tick < u64::MAX,
            old(store)@.slots.len() < 0xFFFF_FFFF,
        ensures
            final(store)@.wf(),
            final(ctx).wf(),
            r is Err ==> final(store)@ == old(store)@ && *final(ctx) == *old(ctx),
            old(store)@.slots.len() <= final(store)@.slots.len() <= old(store)@.slots.len() + 1,
            match self {
                Command::UpdateComponent(c) => r == (match c.outcome(catalog.entries@, old(store)@) {
                    Ok(_) => Ok::<CommandOutput, CommandError>(CommandOutput::Done),
                    Err(e) => Err(e),
                }),
                Command::ToggleComponent(c) => r == (match c.outcome(
                    catalog.entries@,
                    old(store)@,
                    old(ctx).disabled_components@,
                ) {
                    Ok(_) => Ok::<CommandOutput, CommandError>(CommandOutput::Done),
                    Err(e) => Err(e),
                }),
                Command::RemoveComponent(c) => r == (if old(store)@.live(c.entity) {
                    Ok::<CommandOutput, CommandError>(CommandOutput::Done)
                } else {
                    Err(CommandError::NotFound)
                }),
                Command::InsertComponent(c) => r == (match c.outcome(
                    catalog.entries@,
                    old(store)@,
                    old(ctx).disabled_components@,
                ) {
                    Ok(_) => Ok::<CommandOutput, CommandError>(CommandOutput::Done),
                    Err(e) => Err(e),
                }),
                Command::DespawnEntity(c) => r == (if old(store)@.live(c.entity) {
                    Ok::<CommandOutput, CommandError>(CommandOutput::Done)
                } else {
                    Err(CommandError::NotFound)
                }),
                Command::ToggleVisibity(c) => r == (if old(store)@.live(c.entity) {
                    Ok::<CommandOutput, CommandError>(CommandOutput::Done)
                } else {
                    Err(CommandError::NotFound)
                }),
                Command::ReparentEntity(c) => r == (match c.outcome(old(store)@) {
                    Ok(_) => Ok::<CommandOutput, CommandError>(CommandOutput::Done),
                    Err(e) => Err(e),
                }),
                Command::SpawnEntity(c) => (r is Ok <==> (match c.parent {
                    Some(p) => old(store)@.live(p),
                    None => true,
                })) && (r is Ok ==> r->Ok_0 is Spawned),
            },
            exclusion_ok(old(store)@, old(ctx).disabled_components@) && keys_live(
                old(store)@,
                old(ctx).disabled_components@,
            ) ==> exclusion_ok(final(store)@, final(ctx).disabled_components@) && keys_live(
                final(store)@,
                final(ctx).disabled_components@,
            ),
    {
        match self {
            Command::UpdateComponent(c) => match c.execute(ctx, store, catalog) {
                Ok(_) => Ok(CommandOutput::Done),
                Err(e) => Err(e),
            },
            Command::ToggleComponent(c) => match c.execute(ctx, store, catalog) {
                Ok(_) => Ok(CommandOutput::Done),
                Err(e) => Err(e),
            },
            Command::RemoveComponent(c) => match c.execute(ctx, store, catalog) {
                Ok(_) => Ok(CommandOutput::Done),
                Err(e) => Err(e),
            },
            Command::InsertComponent(c) => match c.execute(ctx, store, catalog) {
                Ok(_) => Ok(CommandOutput::Done),
                Err(e) => Err(e),
            },
            Command::DespawnEntity(c) => match c.execute(ctx, store, catalog) {
                Ok(_) => Ok(CommandOutput::Done),
                Err(e) => Err(e),
            },
            Command::ToggleVisibity(c) => match c.execute(ctx, store, catalog) {
                Ok(_) => Ok(CommandOutput::Done),
                Err(e) => Err(e),
            },
            Command::ReparentEntity(c) => match c.execute(ctx, store, catalog) {
                Ok(_) => Ok(CommandOutput::Done),
                Err(e) => Err(e),
            },
            Command::SpawnEntity(c) => match c.execute(ctx, store, catalog) {
                Ok(id) => Ok(CommandOutput::Spawned(id)),
                Err(e) => Err(e),
            },
        }
    }
}

} // verus!
