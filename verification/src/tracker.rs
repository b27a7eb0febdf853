//! The change tracker: per-observer baselines and minimal diffs.
//!
//! Each connected observer owns a `TrackedData`: the objects and attribute
//! types already reported to it, plus the tick of its last look at the
//! store. A diff pass first drops bookkeeping for destroyed objects (with a
//! `Remove` event per forgotten object), then walks the live store: objects
//! new to the baseline are reported whole, known objects contribute exactly
//! their attribute-level delta, and an object with no delta contributes
//! nothing at all.
//!
//! The mathematical model of one pass is spelled out by the fold functions
//! here (`removal_events`, `live_events`, `baseline_after_at`,
//! `cache_after_at`); the executable pass is proved to produce precisely
//! those events and that post-state.

use vstd::prelude::*;

use crate::context::InspectorContext;
use crate::events::{
    changes_view, events_view, ChangeView, ComponentInfo, EntityMutation, EntityMutationChange,
    EventView, InspectorEvent, MutationView, RemovedAttr, ScheduleInfo, SchemaDescriptor,
    spec_descriptor,
};
use crate::keyed::{kdistinct, kfilter, khas, klookup, KeyedEntryView, KeyedList};
use crate::lookup::{seq_has, vec_has_usize};
use crate::schema::{spec_encode, spec_zero_sized, Catalog, SchemaEntry};
use crate::store::{spec_id_index, AttrView, SlotView, Store, StoreView};
use crate::value::ValueView;

verus! {

/// Baselines are keyed by object alone; their type slot parks here.
pub const BASELINE_SLOT: usize = 0;

/// Pairwise distinctness of a list of type identifiers.
pub open spec fn types_distinct(s: Seq<usize>) -> bool {
    forall|i: int, j: int| 0 <= i < j < s.len() ==> s[i] != s[j]
}

/// One windowed attribute's contribution to a known object's change list.
///
/// Zero-sized types are reported only on first sight; other types are
/// serialized, and a serialization equal to the deep-compare cache entry is
/// suppressed when the type opted in.
pub open spec fn attr_change(
    cat: Seq<SchemaEntry>,
    o: u64,
    e: AttrView,
    types: Seq<usize>,
    disabled: Seq<KeyedEntryView<ValueView>>,
    allowed: Seq<usize>,
    cache: Seq<KeyedEntryView<ValueView>>,
    last_seen: u64,
) -> Seq<ChangeView> {
    if !(e.modified > last_seen) {
        Seq::empty()
    } else if spec_zero_sized(cat, e.type_id) {
        if !seq_has(types, e.type_id) {
            seq![
                ChangeView {
                    type_id: e.type_id,
                    disabled: khas(disabled, o, e.type_id),
                    value: None,
                },
            ]
        } else {
            Seq::empty()
        }
    } else {
        let serialized = spec_encode(cat, e.type_id, e.value);
        if serialized is Some && seq_has(allowed, e.type_id) && klookup(cache, o, e.type_id)
            == serialized {
            Seq::empty()
        } else if !seq_has(types, e.type_id) || serialized is Some {
            seq![
                ChangeView {
                    type_id: e.type_id,
                    disabled: khas(disabled, o, e.type_id),
                    value: serialized,
                },
            ]
        } else {
            Seq::empty()
        }
    }
}

/// The change list of a known object, over its first `n` attributes.
pub open spec fn known_changes(
    cat: Seq<SchemaEntry>,
    o: u64,
    attrs: Seq<AttrView>,
    types: Seq<usize>,
    disabled: Seq<KeyedEntryView<ValueView>>,
    allowed: Seq<usize>,
    cache: Seq<KeyedEntryView<ValueView>>,
    last_seen: u64,
    n: int,
) -> Seq<ChangeView>
    decreases n,
{
    if n <= 0 {
        Seq::empty()
    } else {
        known_changes(cat, o, attrs, types, disabled, allowed, cache, last_seen, n - 1)
            + attr_change(cat, o, attrs[n - 1], types, disabled, allowed, cache, last_seen)
    }
}

/// The attribute types a pass adds to a known object's baseline: windowed
/// attributes not yet in its known set, in storage order.
pub open spec fn known_added(attrs: Seq<AttrView>, types: Seq<usize>, last_seen: u64, n: int) -> Seq<
    usize,
>
    decreases n,
{
    if n <= 0 {
        Seq::empty()
    } else {
        known_added(attrs, types, last_seen, n - 1) + (if attrs[n - 1].modified > last_seen
            && !seq_has(types, attrs[n - 1].type_id) {
            seq![attrs[n - 1].type_id]
        } else {
            Seq::empty()
        })
    }
}

/// The known types that survive a pass: those still on the object.
pub open spec fn kept_types(types: Seq<usize>, slot: SlotView, n: int) -> Seq<usize>
    decreases n,
{
    if n <= 0 {
        Seq::empty()
    } else {
        kept_types(types, slot, n - 1) + (if slot.has_attr(types[n - 1]) {
            seq![types[n - 1]]
        } else {
            Seq::empty()
        })
    }
}

/// The removals reported for a known object: known types no longer on it,
/// flagged with whether the disabled overlay holds them.
pub open spec fn removed_attrs(
    types: Seq<usize>,
    slot: SlotView,
    o: u64,
    disabled: Seq<KeyedEntryView<ValueView>>,
    n: int,
) -> Seq<RemovedAttr>
    decreases n,
{
    if n <= 0 {
        Seq::empty()
    } else {
        removed_attrs(types, slot, o, disabled, n - 1) + (if !slot.has_attr(types[n - 1]) {
            seq![RemovedAttr { type_id: types[n - 1], disabled: khas(disabled, o, types[n - 1]) }]
        } else {
            Seq::empty()
        })
    }
}

/// The change list announcing a new object's live attributes: every one of
/// them, with no payload for zero-sized or unserializable types.
pub open spec fn new_changes(cat: Seq<SchemaEntry>, attrs: Seq<AttrView>, n: int) -> Seq<ChangeView>
    decreases n,
{
    if n <= 0 {
        Seq::empty()
    } else {
        new_changes(cat, attrs, n - 1) + seq![
            ChangeView {
                type_id: attrs[n - 1].type_id,
                disabled: false,
                value: if spec_zero_sized(cat, attrs[n - 1].type_id) {
                    None
                } else {
                    spec_encode(cat, attrs[n - 1].type_id, attrs[n - 1].value)
                },
            },
        ]
    }
}

/// The overlay entries appended when announcing a new object: its disabled
/// attributes, with their stored values serialized.
pub open spec fn overlay_changes(
    cat: Seq<SchemaEntry>,
    disabled: Seq<KeyedEntryView<ValueView>>,
    o: u64,
    n: int,
) -> Seq<ChangeView>
    decreases n,
{
    if n <= 0 {
        Seq::empty()
    } else {
        overlay_changes(cat, disabled, o, n - 1) + (if disabled[n - 1].entity == o {
            seq![
                ChangeView {
                    type_id: disabled[n - 1].type_id,
                    disabled: true,
                    value: spec_encode(cat, disabled[n - 1].type_id, disabled[n - 1].value),
                },
            ]
        } else {
            Seq::empty()
        })
    }
}

/// The `Remove` events of a pass, over the first `n` baseline entries.
pub open spec fn removal_events(
    baseline: Seq<KeyedEntryView<Seq<usize>>>,
    store: StoreView,
    n: int,
) -> Seq<EventView>
    decreases n,
{
    if n <= 0 {
        Seq::empty()
    } else {
        removal_events(baseline, store, n - 1) + (if !store.live(baseline[n - 1].entity) {
            seq![
                EventView::Entity {
                    entity: baseline[n - 1].entity,
                    mutation: MutationView::Remove,
                },
            ]
        } else {
            Seq::empty()
        })
    }
}

/// The events slot `i` contributes to a pass: nothing when dead or
/// unchanged, one `Change` event otherwise.
pub open spec fn slot_events(
    cat: Seq<SchemaEntry>,
    store: StoreView,
    i: int,
    baseline: Seq<KeyedEntryView<Seq<usize>>>,
    disabled: Seq<KeyedEntryView<ValueView>>,
    allowed: Seq<usize>,
    cache: Seq<KeyedEntryView<ValueView>>,
    last_seen: u64,
) -> Seq<EventView> {
    let slot = store.slots[i];
    if !slot.alive {
        Seq::empty()
    } else {
        let o = store.id_at(i);
        match klookup(baseline, o, BASELINE_SLOT) {
            Some(types) => {
                let changes = known_changes(
                    cat,
                    o,
                    slot.attrs,
                    types,
                    disabled,
                    allowed,
                    cache,
                    last_seen,
                    slot.attrs.len() as int,
                );
                let removes = removed_attrs(types, slot, o, disabled, types.len() as int);
                if changes.len() > 0 || removes.len() > 0 {
                    seq![
                        EventView::Entity {
                            entity: o,
                            mutation: MutationView::Change { changes, removes },
                        },
                    ]
                } else {
                    Seq::empty()
                }
            },
            None => seq![
                EventView::Entity {
                    entity: o,
                    mutation: MutationView::Change {
                        changes: new_changes(cat, slot.attrs, slot.attrs.len() as int)
                            + overlay_changes(cat, disabled, o, disabled.len() as int),
                        removes: Seq::empty(),
                    },
                },
            ],
        }
    }
}

/// The per-object events of a pass, over the first `n` slots.
pub open spec fn live_events(
    cat: Seq<SchemaEntry>,
    store: StoreView,
    baseline: Seq<KeyedEntryView<Seq<usize>>>,
    disabled: Seq<KeyedEntryView<ValueView>>,
    allowed: Seq<usize>,
    cache: Seq<KeyedEntryView<ValueView>>,
    last_seen: u64,
    n: int,
) -> Seq<EventView>
    decreases n,
{
    if n <= 0 {
        Seq::empty()
    } else {
        live_events(cat, store, baseline, disabled, allowed, cache, last_seen, n - 1)
            + slot_events(cat, store, n - 1, baseline, disabled, allowed, cache, last_seen)
    }
}

/// What a known object's baseline becomes after a pass.
pub open spec fn known_types_after(
    types: Seq<usize>,
    slot: SlotView,
    last_seen: u64,
) -> Seq<usize> {
    kept_types(types, slot, types.len() as int) + known_added(
        slot.attrs,
        types,
        last_seen,
        slot.attrs.len() as int,
    )
}

/// What any object's baseline entry holds after a pass.
pub open spec fn baseline_after_at(
    store: StoreView,
    baseline: Seq<KeyedEntryView<Seq<usize>>>,
    last_seen: u64,
    o: u64,
) -> Option<Seq<usize>> {
    if !store.live(o) {
        None
    } else {
        match klookup(baseline, o, BASELINE_SLOT) {
            Some(types) => Some(known_types_after(types, store.slot_of(o), last_seen)),
            None => Some(store.slot_of(o).attr_keys()),
        }
    }
}

/// Whether a pass (re)writes the deep-compare cache at type `t` of a known
/// object with this slot.
pub open spec fn known_cache_write(
    cat: Seq<SchemaEntry>,
    slot: SlotView,
    allowed: Seq<usize>,
    last_seen: u64,
    t: usize,
) -> bool {
    &&& slot.has_attr(t)
    &&& slot.attr_at(t).modified > last_seen
    &&& !spec_zero_sized(cat, t)
    &&& spec_encode(cat, t, slot.attr_at(t).value) is Some
    &&& seq_has(allowed, t)
}

/// Whether a pass writes the deep-compare cache at type `t` while announcing
/// a new object with this slot.
pub open spec fn new_cache_write(
    cat: Seq<SchemaEntry>,
    slot: SlotView,
    allowed: Seq<usize>,
    t: usize,
) -> bool {
    &&& slot.has_attr(t)
    &&& !spec_zero_sized(cat, t)
    &&& spec_encode(cat, t, slot.attr_at(t).value) is Some
    &&& seq_has(allowed, t)
}

/// What the deep-compare cache holds at (`o`, `t`) after a pass.
pub open spec fn cache_after_at(
    cat: Seq<SchemaEntry>,
    store: StoreView,
    baseline: Seq<KeyedEntryView<Seq<usize>>>,
    allowed: Seq<usize>,
    cache: Seq<KeyedEntryView<ValueView>>,
    last_seen: u64,
    o: u64,
    t: usize,
) -> Option<ValueView> {
    if !store.live(o) {
        None
    } else {
        let slot = store.slot_of(o);
        let written = if klookup(baseline, o, BASELINE_SLOT) is Some {
            known_cache_write(cat, slot, allowed, last_seen, t)
        } else {
            new_cache_write(cat, slot, allowed, t)
        };
        if written {
            Some(spec_encode(cat, t, slot.attr_at(t).value)->Some_0)
        } else {
            klookup(cache, o, t)
        }
    }
}

/// Membership in a sequence extended by one element.
proof fn lemma_seq_has_append_one(s: Seq<usize>, x: usize, t: usize)
    ensures
        seq_has(s + seq![x], t) == (seq_has(s, t) || x == t),
{
    assert(s + seq![x] =~= s.push(x));
    crate::lookup::lemma_first_pos_push(s, x, t);
    crate::lookup::lemma_first_pos_props(s, t);
}

/// What `kept_types` holds: exactly the known types still on the object,
/// each taken from the prefix, pairwise distinct when the input is.
proof fn lemma_kept_types_props(types: Seq<usize>, slot: SlotView, n: int)
    requires
        0 <= n <= types.len(),
        types_distinct(types),
    ensures
        forall|t: usize|
            #[trigger] seq_has(kept_types(types, slot, n), t) == ((exists|i: int|
                0 <= i < n && types[i] == t) && slot.has_attr(t)),
        types_distinct(kept_types(types, slot, n)),
        forall|k: int|
            0 <= k < kept_types(types, slot, n).len() ==> slot.has_attr(
                #[trigger] kept_types(types, slot, n)[k],
            ) && (exists|i: int| 0 <= i < n && types[i] == kept_types(types, slot, n)[k]),
    decreases n,
{
    if n > 0 {
        lemma_kept_types_props(types, slot, n - 1);
        let prev = kept_types(types, slot, n - 1);
        let cur = kept_types(types, slot, n);
        if slot.has_attr(types[n - 1]) {
            assert(cur == prev + seq![types[n - 1]]);
            assert forall|t: usize| #[trigger] seq_has(cur, t) == ((exists|i: int|
                0 <= i < n && types[i] == t) && slot.has_attr(t)) by {
                lemma_seq_has_append_one(prev, types[n - 1], t);
            }
            assert forall|k: int|
                0 <= k < cur.len() implies slot.has_attr(#[trigger] cur[k]) && (exists|i: int|
                0 <= i < n && types[i] == cur[k]) by {
                if k < prev.len() {
                    assert(cur[k] == prev[k]);
                } else {
                    assert(cur[k] == types[n - 1]);
                }
            }
            assert forall|a: int, b: int| 0 <= a < b < cur.len() implies cur[a] != cur[b] by {
                if b == cur.len() - 1 {
                    assert(cur[a] == prev[a]);
                    let i = choose|i: int| 0 <= i < n - 1 && types[i] == prev[a];
                    assert(types[i] != types[n - 1]);
                } else {
                    assert(cur[a] == prev[a] && cur[b] == prev[b]);
                }
            }
        } else {
            assert(cur == prev + Seq::<usize>::empty());
            assert(cur =~= prev);
            assert forall|t: usize| #[trigger] seq_has(cur, t) == ((exists|i: int|
                0 <= i < n && types[i] == t) && slot.has_attr(t)) by {
                if (exists|i: int| 0 <= i < n && types[i] == t) && slot.has_attr(t) {
                    let i = choose|i: int| 0 <= i < n && types[i] == t;
                    assert(i < n - 1);
                }
            }
        }
    }
}

/// What `known_added` holds: exactly the windowed, not-yet-known attribute
/// types of the prefix, pairwise distinct when the attributes are.
proof fn lemma_known_added_props(attrs: Seq<AttrView>, types: Seq<usize>, last_seen: u64, n: int)
    requires
        0 <= n <= attrs.len(),
        forall|i: int, j: int| 0 <= i < j < attrs.len() ==> attrs[i].type_id != attrs[j].type_id,
    ensures
        forall|t: usize|
            #[trigger] seq_has(known_added(attrs, types, last_seen, n), t) == ((exists|i: int|
                0 <= i < n && attrs[i].type_id == t && attrs[i].modified > last_seen) && !seq_has(
                types,
                t,
            )),
        types_distinct(known_added(attrs, types, last_seen, n)),
        forall|k: int|
            0 <= k < known_added(attrs, types, last_seen, n).len() ==> !seq_has(
                types,
                #[trigger] known_added(attrs, types, last_seen, n)[k],
            ),
    decreases n,
{
    if n > 0 {
        lemma_known_added_props(attrs, types, last_seen, n - 1);
        let prev = known_added(attrs, types, last_seen, n - 1);
        let cur = known_added(attrs, types, last_seen, n);
        if attrs[n - 1].modified > last_seen && !seq_has(types, attrs[n - 1].type_id) {
            assert(cur == prev + seq![attrs[n - 1].type_id]);
            assert forall|t: usize| #[trigger] seq_has(cur, t) == ((exists|i: int|
                0 <= i < n && attrs[i].type_id == t && attrs[i].modified > last_seen) && !seq_has(
                types,
                t,
            )) by {
                lemma_seq_has_append_one(prev, attrs[n - 1].type_id, t);
            }
            assert forall|k: int|
                0 <= k < cur.len() implies !seq_has(types, #[trigger] cur[k]) by {
                if k < prev.len() {
                    assert(cur[k] == prev[k]);
                } else {
                    assert(cur[k] == attrs[n - 1].type_id);
                }
            }
            assert forall|a: int, b: int| 0 <= a < b < cur.len() implies cur[a] != cur[b] by {
                if b == cur.len() - 1 {
                    assert(cur[a] == prev[a]);
                    assert(seq_has(prev, prev[a])) by {
                        crate::lookup::lemma_first_pos_props(prev, prev[a]);
                        if !seq_has(prev, prev[a]) {
                            assert(prev[a] != prev[a]);
                        }
                    }
                    let i = choose|i: int|
                        0 <= i < n - 1 && attrs[i].type_id == prev[a] && attrs[i].modified
                            > last_seen;
                    assert(attrs[i].type_id != attrs[n - 1].type_id);
                } else {
                    assert(cur[a] == prev[a] && cur[b] == prev[b]);
                }
            }
        } else {
            assert(cur == prev + Seq::<usize>::empty());
            assert(cur =~= prev);
            assert forall|t: usize| #[trigger] seq_has(cur, t) == ((exists|i: int|
                0 <= i < n && attrs[i].type_id == t && attrs[i].modified > last_seen) && !seq_has(
                types,
                t,
            )) by {
                if (exists|i: int|
                    0 <= i < n && attrs[i].type_id == t && attrs[i].modified > last_seen)
                    && !seq_has(types, t) {
                    let i = choose|i: int|
                        0 <= i < n && attrs[i].type_id == t && attrs[i].modified > last_seen;
                    assert(i < n - 1);
                }
            }
        }
    }
}

/// Membership in what a pass leaves as a known object's baseline: a type is
/// known afterwards exactly when it is still live and was known before, or
/// just moved inside the window.
pub proof fn lemma_known_types_after_has(
    types: Seq<usize>,
    slot: SlotView,
    last_seen: u64,
)
    requires
        types_distinct(types),
        forall|i: int, j: int| 0 <= i < j < slot.attrs.len() ==> slot.attrs[i].type_id != slot.attrs[j].type_id,
    ensures
        forall|t: usize|
            #[trigger] seq_has(known_types_after(types, slot, last_seen), t) == ((seq_has(types, t)
                && slot.has_attr(t)) || (slot.has_attr(t) && slot.attr_at(t).modified > last_seen
                && !seq_has(types, t))),
        types_distinct(known_types_after(types, slot, last_seen)),
{
    lemma_kept_types_props(types, slot, types.len() as int);
    lemma_known_added_props(slot.attrs, types, last_seen, slot.attrs.len() as int);
    let kept = kept_types(types, slot, types.len() as int);
    let added = known_added(slot.attrs, types, last_seen, slot.attrs.len() as int);
    let all = known_types_after(types, slot, last_seen);
    assert forall|t: usize| #[trigger] seq_has(all, t) == (seq_has(kept, t) || seq_has(added, t))
        by {
        crate::lookup::lemma_first_pos_props(all, t);
        crate::lookup::lemma_first_pos_props(kept, t);
        crate::lookup::lemma_first_pos_props(added, t);
        if seq_has(kept, t) {
            let i = crate::lookup::first_pos(kept, t)->Some_0;
            assert(all[i] == t);
            crate::lookup::lemma_first_pos_props(all, t);
            if !seq_has(all, t) {
                assert(all[i] != t);
            }
        }
        if seq_has(added, t) {
            let i = crate::lookup::first_pos(added, t)->Some_0;
            assert(all[kept.len() + i] == t);
            if !seq_has(all, t) {
                assert(all[kept.len() + i] != t);
            }
        }
        if seq_has(all, t) {
            let i = crate::lookup::first_pos(all, t)->Some_0;
            if i < kept.len() {
                assert(kept[i] == t);
                if !seq_has(kept, t) {
                    assert(kept[i] != t);
                }
            } else {
                assert(added[i - kept.len()] == t);
                if !seq_has(added, t) {
                    assert(added[i - kept.len()] != t);
                }
            }
        }
    }
    assert forall|t: usize| #[trigger] seq_has(all, t) == ((seq_has(types, t) && slot.has_attr(t))
        || (slot.has_attr(t) && slot.attr_at(t).modified > last_seen && !seq_has(types, t))) by {
        crate::lookup::lemma_first_pos_props(types, t);
        if slot.has_attr(t) && slot.attr_at(t).modified > last_seen && !seq_has(types, t) {
            crate::lookup::lemma_first_pos_props(slot.attr_keys(), t);
            let i = slot.attr_pos(t)->Some_0;
            assert(slot.attr_keys()[i] == t);
            assert(slot.attrs[i].type_id == t && slot.attrs[i] == slot.attr_at(t));
        }
        if seq_has(added, t) {
            let i = choose|i: int|
                0 <= i < slot.attrs.len() && slot.attrs[i].type_id == t && slot.attrs[i].modified
                    > last_seen;
            crate::lookup::lemma_first_pos_props(slot.attr_keys(), t);
            assert(slot.attr_keys()[i] == t);
            assert(slot.has_attr(t));
            let p = slot.attr_pos(t)->Some_0;
            assert(slot.attr_keys()[p] == t && slot.attrs[p].type_id == t);
            assert(p == i);
            assert(slot.attr_at(t).modified > last_seen);
        }
    }
    assert forall|a: int, b: int| 0 <= a < b < all.len() implies all[a] != all[b] by {
        if a < kept.len() && b >= kept.len() {
            assert(all[a] == kept[a] && all[b] == added[b - kept.len()]);
            if kept[a] == added[b - kept.len()] {
                let x = kept[a];
                assert(exists|i: int| 0 <= i < types.len() && types[i] == x);
                let i = choose|i: int| 0 <= i < types.len() && types[i] == x;
                crate::lookup::lemma_first_pos_props(types, x);
                if !seq_has(types, x) {
                    assert(types[i] != x);
                }
                assert(seq_has(types, x));
                assert(!seq_has(types, added[b - kept.len()]));
            }
        } else if b < kept.len() {
            assert(all[a] == kept[a] && all[b] == kept[b]);
        } else {
            assert(all[a] == added[a - kept.len()] && all[b] == added[b - kept.len()]);
        }
    }
}

/// The change list of a known object only reads the cache at its own keys:
/// two caches that agree there yield the same list.
proof fn lemma_known_changes_cache_agree(
    cat: Seq<SchemaEntry>,
    o: u64,
    attrs: Seq<AttrView>,
    types: Seq<usize>,
    disabled: Seq<KeyedEntryView<ValueView>>,
    allowed: Seq<usize>,
    cache_a: Seq<KeyedEntryView<ValueView>>,
    cache_b: Seq<KeyedEntryView<ValueView>>,
    last_seen: u64,
    n: int,
)
    requires
        forall|t: usize|
            #[trigger] klookup(cache_a, o, t) == klookup(cache_b, o, t),
    ensures
        known_changes(cat, o, attrs, types, disabled, allowed, cache_a, last_seen, n)
            == known_changes(cat, o, attrs, types, disabled, allowed, cache_b, last_seen, n),
    decreases n,
{
    if n > 0 {
        lemma_known_changes_cache_agree(
            cat,
            o,
            attrs,
            types,
            disabled,
            allowed,
            cache_a,
            cache_b,
            last_seen,
            n - 1,
        );
        assert(klookup(cache_a, o, attrs[n - 1].type_id) == klookup(
            cache_b,
            o,
            attrs[n - 1].type_id,
        ));
    }
}

/// Compute a known object's delta: its change list, its removal list, and
/// the baseline types that replace the old entry. The deep-compare cache is
/// consulted and updated on the way.
fn diff_known_object(
    o: u64,
    types: &Vec<usize>,
    store: &Store,
    catalog: &Catalog,
    ctx: &mut InspectorContext,
    last_seen: u64,
) -> (r: (Vec<EntityMutationChange>, Vec<RemovedAttr>, Vec<usize>))
    requires
        store@.wf(),
        old(ctx).wf(),
        store@.live(o),
        types_distinct(types@),
    ensures
        final(ctx).wf(),
        final(ctx).disabled_components@ == old(ctx).disabled_components@,
        final(ctx).entity_visibilities@ == old(ctx).entity_visibilities@,
        final(ctx).deep_compare_components.ids@ == old(ctx).deep_compare_components.ids@,
        changes_view(r.0@) == known_changes(
            catalog.entries@,
            o,
            store@.slot_of(o).attrs,
            types@,
            old(ctx).disabled_components@,
            old(ctx).deep_compare_components.ids@,
            old(ctx).deep_compare_components.values@,
            last_seen,
            store@.slot_of(o).attrs.len() as int,
        ),
        r.1@ == removed_attrs(
            types@,
            store@.slot_of(o),
            o,
            old(ctx).disabled_components@,
            types@.len() as int,
        ),
        r.2@ == known_types_after(types@, store@.slot_of(o), last_seen),
        types_distinct(r.2@),
        forall|o2: u64, t2: usize|
            #![trigger klookup(final(ctx).deep_compare_components.values@, o2, t2)]
            klookup(final(ctx).deep_compare_components.values@, o2, t2) == (if o2 == o
                && known_cache_write(
                catalog.entries@,
                store@.slot_of(o),
                old(ctx).deep_compare_components.ids@,
                last_seen,
                t2,
            ) {
                Some(
                    spec_encode(
                        catalog.entries@,
                        t2,
                        store@.slot_of(o).attr_at(t2).value,
                    )->Some_0,
                )
            } else {
                klookup(old(ctx).deep_compare_components.values@, o2, t2)
            }),
{
    let ghost slot = store@.slot_of(o);
    let ghost cat = catalog.entries@;
    let ghost disabled0 = old(ctx).disabled_components@;
    let ghost allowed0 = old(ctx).deep_compare_components.ids@;
    let ghost cache0 = old(ctx).deep_compare_components.values@;
    let index = store.resolve(o).unwrap();

    let mut removes: Vec<RemovedAttr> = Vec::new();
    let mut kept: Vec<usize> = Vec::new();
    let mut k: usize = 0;
    while k < types.len()
        invariant
            store@.wf(),
            store@.live(o),
            slot == store@.slot_of(o),
            *ctx == *old(ctx),
            ctx.wf(),
            disabled0 == old(ctx).disabled_components@,
            k <= types@.len(),
            removes@ == removed_attrs(types@, slot, o, disabled0, k as int),
            kept@ == kept_types(types@, slot, k as int),
        decreases types@.len() - k,
    {
        let t = types[k];
        if store.has_attr(o, t) {
            kept.push(t);
            proof {
                assert(kept@ =~= kept_types(types@, slot, k + 1));
            }
        } else {
            let dis = ctx.disabled_components.contains_key(o, t);
            removes.push(RemovedAttr { type_id: t, disabled: dis });
            proof {
                assert(removes@ =~= removed_attrs(types@, slot, o, disabled0, k + 1));
            }
        }
        k = k + 1;
    }

    let mut changes: Vec<EntityMutationChange> = Vec::new();
    let mut added: Vec<usize> = Vec::new();
    let attr_count = store.slots[index].attrs.len();
    let mut j: usize = 0;
    while j < attr_count
        invariant
            store@.wf(),
            store@.live(o),
            index == spec_id_index(o),
            slot == store@.slot_of(o),
            cat == catalog.entries@,
            ctx.wf(),
            ctx.disabled_components@ == disabled0,
            ctx.entity_visibilities@ == old(ctx).entity_visibilities@,
            ctx.deep_compare_components.ids@ == allowed0,
            attr_count == slot.attrs.len(),
            j <= attr_count,
            changes_view(changes@) == known_changes(
                cat,
                o,
                slot.attrs,
                types@,
                disabled0,
                allowed0,
                cache0,
                last_seen,
                j as int,
            ),
            added@ == known_added(slot.attrs, types@, last_seen, j as int),
            forall|o2: u64, t2: usize|
                #![trigger klookup(ctx.deep_compare_components.values@, o2, t2)]
                klookup(ctx.deep_compare_components.values@, o2, t2) == (if o2 == o
                    && known_cache_write(cat, slot, allowed0, last_seen, t2) && 0 <= slot.attr_pos(
                    t2,
                )->Some_0 < j {
                    Some(spec_encode(cat, t2, slot.attr_at(t2).value)->Some_0)
                } else {
                    klookup(cache0, o2, t2)
                }),
        decreases attr_count - j,
    {
        let ghost e = slot.attrs[j as int];
        let entry = &store.slots[index].attrs[j];
        let t = entry.type_id;
        proof {
            assert(e.type_id == t && e.value == entry.value@ && e.modified == entry.modified);
            assert forall|k2: int| 0 <= k2 < j implies slot.attr_keys()[k2] != t by {
                assert(slot.attrs[k2].type_id == slot.attr_keys()[k2]);
            }
            crate::lookup::lemma_first_pos_found(slot.attr_keys(), t, j as int);
            assert(slot.attr_pos(t) == Some(j as int));
            assert(slot.attr_at(t) == e);
        }
        if entry.modified > last_seen {
            let dis = ctx.disabled_components.contains_key(o, t);
            let known_type = vec_has_usize(types, t);
            if catalog.is_zero_sized(t) {
                if !known_type {
                    changes.push(EntityMutationChange { type_id: t, disabled: dis, value: None });
                    added.push(t);
                    proof {
                        assert(changes_view(changes@) =~= known_changes(
                            cat,
                            o,
                            slot.attrs,
                            types@,
                            disabled0,
                            allowed0,
                            cache0,
                            last_seen,
                            j + 1,
                        ));
                        assert(added@ =~= known_added(slot.attrs, types@, last_seen, j + 1));
                    }
                } else {
                    proof {
                        assert(attr_change(cat, o, e, types@, disabled0, allowed0, cache0, last_seen)
                            =~= Seq::<ChangeView>::empty());
                        assert(changes_view(changes@) =~= known_changes(
                            cat,
                            o,
                            slot.attrs,
                            types@,
                            disabled0,
                            allowed0,
                            cache0,
                            last_seen,
                            j + 1,
                        ));
                        assert(added@ =~= known_added(slot.attrs, types@, last_seen, j + 1));
                    }
                }
            } else {
                let serialized = crate::schema::encode_attr(catalog, t, &entry.value);
                if !known_type {
                    added.push(t);
                }
                proof {
                    assert(added@ =~= known_added(slot.attrs, types@, last_seen, j + 1));
                }
                match serialized {
                    Some(v) => {
                        proof {
                            assert(klookup(ctx.deep_compare_components.values@, o, t) == klookup(
                                cache0,
                                o,
                                t,
                            ));
                        }
                        let verdict = ctx.deep_compare_components.is_eq(o, t, &v);
                        let suppress = match verdict {
                            Some(true) => true,
                            _ => false,
                        };
                        if !suppress {
                            changes.push(
                                EntityMutationChange { type_id: t, disabled: dis, value: Some(v) },
                            );
                            proof {
                                assert(changes_view(changes@) =~= known_changes(
                                    cat,
                                    o,
                                    slot.attrs,
                                    types@,
                                    disabled0,
                                    allowed0,
                                    cache0,
                                    last_seen,
                                    j + 1,
                                ));
                            }
                        } else {
                            proof {
                                assert(attr_change(
                                    cat,
                                    o,
                                    e,
                                    types@,
                                    disabled0,
                                    allowed0,
                                    cache0,
                                    last_seen,
                                ) =~= Seq::<ChangeView>::empty());
                                assert(changes_view(changes@) =~= known_changes(
                                    cat,
                                    o,
                                    slot.attrs,
                                    types@,
                                    disabled0,
                                    allowed0,
                                    cache0,
                                    last_seen,
                                    j + 1,
                                ));
                            }
                        }
                    },
                    None => {
                        if !known_type {
                            changes.push(
                                EntityMutationChange { type_id: t, disabled: dis, value: None },
                            );
                            proof {
                                assert(changes_view(changes@) =~= known_changes(
                                    cat,
                                    o,
                                    slot.attrs,
                                    types@,
                                    disabled0,
                                    allowed0,
                                    cache0,
                                    last_seen,
                                    j + 1,
                                ));
                            }
                        } else {
                            proof {
                                assert(attr_change(
                                    cat,
                                    o,
                                    e,
                                    types@,
                                    disabled0,
                                    allowed0,
                                    cache0,
                                    last_seen,
                                ) =~= Seq::<ChangeView>::empty());
                                assert(changes_view(changes@) =~= known_changes(
                                    cat,
                                    o,
                                    slot.attrs,
                                    types@,
                                    disabled0,
                                    allowed0,
                                    cache0,
                                    last_seen,
                                    j + 1,
                                ));
                            }
                        }
                    },
                }
            }
        } else {
            proof {
                assert(attr_change(cat, o, e, types@, disabled0, allowed0, cache0, last_seen)
                    =~= Seq::<ChangeView>::empty());
                assert(changes_view(changes@) =~= known_changes(
                    cat,
                    o,
                    slot.attrs,
                    types@,
                    disabled0,
                    allowed0,
                    cache0,
                    last_seen,
                    j + 1,
                ));
                assert(added@ =~= known_added(slot.attrs, types@, last_seen, j + 1));
            }
        }
        proof {
            assert forall|o2: u64, t2: usize|
                #![trigger klookup(ctx.deep_compare_components.values@, o2, t2)]
                klookup(ctx.deep_compare_components.values@, o2, t2) == (if o2 == o
                    && known_cache_write(cat, slot, allowed0, last_seen, t2) && 0 <= slot.attr_pos(
                    t2,
                )->Some_0 < j + 1 {
                    Some(spec_encode(cat, t2, slot.attr_at(t2).value)->Some_0)
                } else {
                    klookup(cache0, o2, t2)
                }) by {
                crate::lookup::lemma_first_pos_props(slot.attr_keys(), t2);
                if known_cache_write(cat, slot, allowed0, last_seen, t2) {
                    let p = slot.attr_pos(t2)->Some_0;
                    assert(slot.attr_keys()[p] == t2);
                    assert(slot.attrs[p] == slot.attr_at(t2));
                }
            }
        }
        j = j + 1;
    }

    proof {
        assert forall|o2: u64, t2: usize|
            #![trigger klookup(ctx.deep_compare_components.values@, o2, t2)]
            klookup(ctx.deep_compare_components.values@, o2, t2) == (if o2 == o
                && known_cache_write(cat, slot, allowed0, last_seen, t2) {
                Some(spec_encode(cat, t2, slot.attr_at(t2).value)->Some_0)
            } else {
                klookup(cache0, o2, t2)
            }) by {
            if o2 == o && known_cache_write(cat, slot, allowed0, last_seen, t2) {
                crate::lookup::lemma_first_pos_props(slot.attr_keys(), t2);
            }
        }
    }
    let mut newtypes = kept;
    let mut a: usize = 0;
    while a < added.len()
        invariant
            a <= added@.len(),
            kept_types(types@, slot, types@.len() as int).len() + a == newtypes@.len(),
            newtypes@ == kept_types(types@, slot, types@.len() as int) + added@.subrange(
                0,
                a as int,
            ),
        decreases added@.len() - a,
    {
        newtypes.push(added[a]);
        proof {
            assert(added@.subrange(0, a + 1) =~= added@.subrange(0, a as int).push(
                added@[a as int],
            ));
            assert(newtypes@ =~= kept_types(types@, slot, types@.len() as int) + added@.subrange(
                0,
                a + 1,
            ));
        }
        a = a + 1;
    }
    proof {
        assert(added@.subrange(0, added@.len() as int) =~= added@);
        assert(newtypes@ == known_types_after(types@, slot, last_seen));
        lemma_known_types_after_has(types@, slot, last_seen);
    }
    (changes, removes, newtypes)
}

/// Announce an object the observer has never seen: every live attribute in
/// storage order, then its disabled-overlay entries; the deep-compare cache
/// learns the serializations of opted-in types.
fn snapshot_new_object(
    o: u64,
    store: &Store,
    catalog: &Catalog,
    ctx: &mut InspectorContext,
) -> (r: (Vec<EntityMutationChange>, Vec<usize>))
    requires
        store@.wf(),
        old(ctx).wf(),
        store@.live(o),
    ensures
        final(ctx).wf(),
        final(ctx).disabled_components@ == old(ctx).disabled_components@,
        final(ctx).entity_visibilities@ == old(ctx).entity_visibilities@,
        final(ctx).deep_compare_components.ids@ == old(ctx).deep_compare_components.ids@,
        changes_view(r.0@) == new_changes(
            catalog.entries@,
            store@.slot_of(o).attrs,
            store@.slot_of(o).attrs.len() as int,
        ) + overlay_changes(
            catalog.entries@,
            old(ctx).disabled_components@,
            o,
            old(ctx).disabled_components@.len() as int,
        ),
        r.1@ == store@.slot_of(o).attr_keys(),
        types_distinct(r.1@),
        forall|o2: u64, t2: usize|
            #![trigger klookup(final(ctx).deep_compare_components.values@, o2, t2)]
            klookup(final(ctx).deep_compare_components.values@, o2, t2) == (if o2 == o
                && new_cache_write(
                catalog.entries@,
                store@.slot_of(o),
                old(ctx).deep_compare_components.ids@,
                t2,
            ) {
                Some(
                    spec_encode(
                        catalog.entries@,
                        t2,
                        store@.slot_of(o).attr_at(t2).value,
                    )->Some_0,
                )
            } else {
                klookup(old(ctx).deep_compare_components.values@, o2, t2)
            }),
{
    let ghost slot = store@.slot_of(o);
    let ghost cat = catalog.entries@;
    let ghost disabled0 = old(ctx).disabled_components@;
    let ghost allowed0 = old(ctx).deep_compare_components.ids@;
    let ghost cache0 = old(ctx).deep_compare_components.values@;
    let index = store.resolve(o).unwrap();

    let mut changes: Vec<EntityMutationChange> = Vec::new();
    let mut types_out: Vec<usize> = Vec::new();
    let attr_count = store.slots[index].attrs.len();
    let mut j: usize = 0;
    while j < attr_count
        invariant
            store@.wf(),
            store@.live(o),
            index == spec_id_index(o),
            slot == store@.slot_of(o),
            cat == catalog.entries@,
            ctx.wf(),
            ctx.disabled_components@ == disabled0,
            ctx.entity_visibilities@ == old(ctx).entity_visibilities@,
            ctx.deep_compare_components.ids@ == allowed0,
            attr_count == slot.attrs.len(),
            j <= attr_count,
            changes_view(changes@) == new_changes(cat, slot.attrs, j as int),
            types_out@ == slot.attr_keys().subrange(0, j as int),
            forall|o2: u64, t2: usize|
                #![trigger klookup(ctx.deep_compare_components.values@, o2, t2)]
                klookup(ctx.deep_compare_components.values@, o2, t2) == (if o2 == o
                    && new_cache_write(cat, slot, allowed0, t2) && 0 <= slot.attr_pos(
                    t2,
                )->Some_0 < j {
                    Some(spec_encode(cat, t2, slot.attr_at(t2).value)->Some_0)
                } else {
                    klookup(cache0, o2, t2)
                }),
        decreases attr_count - j,
    {
        let ghost e = slot.attrs[j as int];
        let entry = &store.slots[index].attrs[j];
        let t = entry.type_id;
        proof {
            assert(e.type_id == t && e.value == entry.value@);
            assert forall|k2: int| 0 <= k2 < j implies slot.attr_keys()[k2] != t by {
                assert(slot.attrs[k2].type_id == slot.attr_keys()[k2]);
            }
            crate::lookup::lemma_first_pos_found(slot.attr_keys(), t, j as int);
            assert(slot.attr_pos(t) == Some(j as int));
            assert(slot.attr_at(t) == e);
        }
        types_out.push(t);
        let serialized: Option<crate::value::EncodedValue> = if catalog.is_zero_sized(t) {
            None
        } else {
            crate::schema::encode_attr(catalog, t, &entry.value)
        };
        if let Some(v) = &serialized {
            if vec_has_usize(&ctx.deep_compare_components.ids, t) {
                ctx.deep_compare_components.record(o, t, v);
            }
        }
        changes.push(EntityMutationChange { type_id: t, disabled: false, value: serialized });
        proof {
            assert(types_out@ =~= slot.attr_keys().subrange(0, j + 1));
            assert(changes_view(changes@) =~= new_changes(cat, slot.attrs, j + 1));
            assert forall|o2: u64, t2: usize|
                #![trigger klookup(ctx.deep_compare_components.values@, o2, t2)]
                klookup(ctx.deep_compare_components.values@, o2, t2) == (if o2 == o
                    && new_cache_write(cat, slot, allowed0, t2) && 0 <= slot.attr_pos(t2)->Some_0
                    < j + 1 {
                    Some(spec_encode(cat, t2, slot.attr_at(t2).value)->Some_0)
                } else {
                    klookup(cache0, o2, t2)
                }) by {
                crate::lookup::lemma_first_pos_props(slot.attr_keys(), t2);
                if new_cache_write(cat, slot, allowed0, t2) {
                    let p = slot.attr_pos(t2)->Some_0;
                    assert(slot.attr_keys()[p] == t2);
                    assert(slot.attrs[p] == slot.attr_at(t2));
                }
            }
        }
        j = j + 1;
    }

    proof {
        assert forall|o2: u64, t2: usize|
            #![trigger klookup(ctx.deep_compare_components.values@, o2, t2)]
            klookup(ctx.deep_compare_components.values@, o2, t2) == (if o2 == o && new_cache_write(
                cat,
                slot,
                allowed0,
                t2,
            ) {
                Some(spec_encode(cat, t2, slot.attr_at(t2).value)->Some_0)
            } else {
                klookup(cache0, o2, t2)
            }) by {
            if o2 == o && new_cache_write(cat, slot, allowed0, t2) {
                crate::lookup::lemma_first_pos_props(slot.attr_keys(), t2);
            }
        }
    }
    let overlay_count = ctx.disabled_components.entries.len();
    let mut m: usize = 0;
    while m < overlay_count
        invariant
            store@.wf(),
            store@.live(o),
            slot == store@.slot_of(o),
            cat == catalog.entries@,
            ctx.wf(),
            ctx.disabled_components@ == disabled0,
            ctx.entity_visibilities@ == old(ctx).entity_visibilities@,
            ctx.deep_compare_components.ids@ == allowed0,
            overlay_count == disabled0.len(),
            m <= overlay_count,
            changes_view(changes@) == new_changes(cat, slot.attrs, slot.attrs.len() as int)
                + overlay_changes(cat, disabled0, o, m as int),
            forall|o2: u64, t2: usize|
                #![trigger klookup(ctx.deep_compare_components.values@, o2, t2)]
                klookup(ctx.deep_compare_components.values@, o2, t2) == (if o2 == o
                    && new_cache_write(cat, slot, allowed0, t2) {
                    Some(spec_encode(cat, t2, slot.attr_at(t2).value)->Some_0)
                } else {
                    klookup(cache0, o2, t2)
                }),
        decreases overlay_count - m,
    {
        proof {
            assert(ctx.disabled_components@[m as int] == disabled0[m as int]);
        }
        let ghost prec = changes@;
        let hit = ctx.disabled_components.entries[m].entity == o;
        if hit {
            let t = ctx.disabled_components.entries[m].type_id;
            let encoded = crate::schema::encode_attr(
                catalog,
                t,
                &ctx.disabled_components.entries[m].value,
            );
            let next = EntityMutationChange { type_id: t, disabled: true, value: encoded };
            proof {
                assert(next@ == ChangeView {
                    type_id: disabled0[m as int].type_id,
                    disabled: true,
                    value: spec_encode(cat, disabled0[m as int].type_id, disabled0[m as int].value),
                });
            }
            changes.push(next);
            proof {
                assert(changes@ =~= prec.push(next));
                assert(changes_view(changes@) =~= changes_view(prec).push(next@));
            }
        }
        proof {
            assert(changes_view(changes@) =~= new_changes(cat, slot.attrs, slot.attrs.len() as int)
                + overlay_changes(cat, disabled0, o, m + 1));
        }
        m = m + 1;
    }
    proof {
        assert(types_out@ =~= slot.attr_keys());
        assert forall|a: int, b: int|
            0 <= a < b < types_out@.len() implies types_out@[a] != types_out@[b] by {
            assert(slot.attrs[a].type_id == slot.attr_keys()[a]);
            assert(slot.attrs[b].type_id == slot.attr_keys()[b]);
        }
        assert forall|o2: u64, t2: usize|
            #![trigger klookup(ctx.deep_compare_components.values@, o2, t2)]
            klookup(ctx.deep_compare_components.values@, o2, t2) == (if o2 == o && new_cache_write(
                cat,
                slot,
                allowed0,
                t2,
            ) {
                Some(spec_encode(cat, t2, slot.attr_at(t2).value)->Some_0)
            } else {
                klookup(cache0, o2, t2)
            }) by {
            if o2 == o && new_cache_write(cat, slot, allowed0, t2) {
                crate::lookup::lemma_first_pos_props(slot.attr_keys(), t2);
            }
        }
    }
    (changes, types_out)
}

/// The attribute types a pass announces: registered entries not yet in the
/// observer's announced set, in type-identifier order.
pub open spec fn new_components(cat: Seq<SchemaEntry>, comps: Seq<usize>, n: int) -> Seq<
    ComponentInfo,
>
    decreases n,
{
    if n <= 0 {
        Seq::empty()
    } else {
        new_components(cat, comps, n - 1) + (if cat[n - 1].registered && !seq_has(
            comps,
            (n - 1) as usize,
        ) {
            seq![ComponentInfo { type_id: (n - 1) as usize, kind: cat[n - 1].kind }]
        } else {
            Seq::empty()
        })
    }
}

/// The type identifiers of a list of component announcements.
pub open spec fn component_ids(s: Seq<ComponentInfo>) -> Seq<usize> {
    Seq::new(s.len(), |i: int| s[i].type_id)
}

/// The shapes of a list of schedule names.
pub open spec fn schedules_view(s: Seq<String>) -> Seq<Seq<char>> {
    Seq::new(s.len(), |i: int| s[i]@)
}

/// What one observer has been told so far.
pub struct TrackedData {
    /// Whether the type registry was already announced.
    pub type_registry: bool,
    /// The attribute types already announced.
    pub components: Vec<usize>,
    /// Baseline: per known object, the attribute types believed known.
    pub entities: KeyedList<Vec<usize>>,
    /// Whether the schedules were already announced.
    pub schedules: bool,
    /// The store tick of this observer's previous diff pass.
    pub last_seen: u64,
}

impl TrackedData {
    /// A fresh observer that has been told nothing.
    pub fn new() -> (d: TrackedData)
        ensures
            d.wf(),
            !d.type_registry,
            d.components@.len() == 0,
            d.entities@.len() == 0,
            !d.schedules,
            d.last_seen == 0,
    {
        TrackedData {
            type_registry: false,
            components: Vec::new(),
            entities: KeyedList::new(),
            schedules: false,
            last_seen: 0,
        }
    }

    /// Baseline entries never collide, each keyed by object alone, and no
    /// entry holds a type twice.
    pub open spec fn wf(self) -> bool {
        &&& kdistinct(self.entities@)
        &&& forall|k: int|
            0 <= k < self.entities@.len() ==> types_distinct(
                (#[trigger] self.entities@[k]).value,
            )
        &&& forall|k: int|
            0 <= k < self.entities@.len() ==> (#[trigger] self.entities@[k]).type_id
                == BASELINE_SLOT
    }

    /// One diff pass over the store for this observer.
    ///
    /// First, bookkeeping for destroyed objects is dropped and a `Remove`
    /// event is emitted for each object the observer knew. Then every live
    /// object contributes its delta: known objects exactly their changed
    /// and removed attributes, new objects their full attribute set plus
    /// their disabled-overlay entries. The appended events and the new
    /// baseline, visibility, and cache states are pinned down exactly by
    /// the fold functions of this module.
    pub fn track_entities(
        &mut self,
        events: &mut Vec<InspectorEvent>,
        store: &Store,
        catalog: &Catalog,
        ctx: &mut InspectorContext,
    )
        requires
            store@.wf(),
            old(ctx).wf(),
            old(self).wf(),
        ensures
            final(self).wf(),
            final(ctx).wf(),
            final(self).type_registry == old(self).type_registry,
            final(self).components@ == old(self).components@,
            final(self).schedules == old(self).schedules,
            final(self).last_seen == store@.tick,
            final(ctx).deep_compare_components.ids@ == old(ctx).deep_compare_components.ids@,
            final(ctx).disabled_components@ == kfilter(
                old(ctx).disabled_components@,
                |x: u64| store@.live(x),
            ),
            forall|o2: u64, t2: usize|
                #![trigger klookup(final(ctx).entity_visibilities@, o2, t2)]
                klookup(final(ctx).entity_visibilities@, o2, t2) == (if store@.live(o2) {
                    klookup(old(ctx).entity_visibilities@, o2, t2)
                } else {
                    None
                }),
            events_view(final(events)@) == events_view(old(events)@) + removal_events(
                old(self).entities@,
                store@,
                old(self).entities@.len() as int,
            ) + live_events(
                catalog.entries@,
                store@,
                old(self).entities@,
                kfilter(old(ctx).disabled_components@, |x: u64| store@.live(x)),
                old(ctx).deep_compare_components.ids@,
                kfilter(old(ctx).deep_compare_components.values@, |x: u64| store@.live(x)),
                old(self).last_seen,
                store@.slots.len() as int,
            ),
            forall|o2: u64|
                #![trigger klookup(final(self).entities@, o2, BASELINE_SLOT)]
                klookup(final(self).entities@, o2, BASELINE_SLOT) == baseline_after_at(
                    store@,
                    old(self).entities@,
                    old(self).last_seen,
                    o2,
                ),
            forall|o2: u64, t2: usize|
                #![trigger klookup(final(ctx).deep_compare_components.values@, o2, t2)]
                klookup(final(ctx).deep_compare_components.values@, o2, t2) == cache_after_at(
                    catalog.entries@,
                    store@,
                    old(self).entities@,
                    old(ctx).deep_compare_components.ids@,
                    old(ctx).deep_compare_components.values@,
                    old(self).last_seen,
                    o2,
                    t2,
                ),
    {
        let ghost baseline0 = old(self).entities@;
        let ghost last0 = old(self).last_seen;
        let ghost ev0 = events_view(old(events)@);
        let ghost cat = catalog.entries@;
        let ghost keep = |x: u64| store@.live(x);
        let ghost disabled_gc = kfilter(old(ctx).disabled_components@, keep);
        let ghost allowed0 = old(ctx).deep_compare_components.ids@;
        let ghost cache0 = old(ctx).deep_compare_components.values@;
        let ghost cache_gc = kfilter(cache0, keep);
        let ghost vis0 = old(ctx).entity_visibilities@;
        let ghost baseline_gc = kfilter(baseline0, keep);

        ctx.gc_dead_entries(store);

        let mut i: usize = 0;
        let ghost mut k: int = 0;
        while i < self.entities.entries.len()
            invariant
                store@.wf(),
                0 <= k <= baseline0.len(),
                i == kfilter(baseline0.subrange(0, k), keep).len(),
                i <= self.entities.entries.len(),
                self.entities@ =~= kfilter(baseline0.subrange(0, k), keep) + baseline0.subrange(
                    k,
                    baseline0.len() as int,
                ),
                keep == (|x: u64| store@.live(x)),
                events_view(events@) == ev0 + removal_events(baseline0, store@, k),
                ctx.wf(),
                ctx.disabled_components@ == disabled_gc,
                ctx.deep_compare_components.ids@ == allowed0,
                forall|o2: u64, t2: usize|
                    #![trigger klookup(ctx.entity_visibilities@, o2, t2)]
                    klookup(ctx.entity_visibilities@, o2, t2) == (if store@.live(o2) {
                        klookup(vis0, o2, t2)
                    } else {
                        None
                    }),
                forall|o2: u64, t2: usize|
                    #![trigger klookup(ctx.deep_compare_components.values@, o2, t2)]
                    klookup(ctx.deep_compare_components.values@, o2, t2) == (if store@.live(o2) {
                        klookup(cache0, o2, t2)
                    } else {
                        None
                    }),
                self.type_registry == old(self).type_registry,
                self.components@ == old(self).components@,
                self.schedules == old(self).schedules,
                self.last_seen == last0,
                forall|k2: int|
                    0 <= k2 < baseline0.len() ==> types_distinct(
                        (#[trigger] baseline0[k2]).value,
                    ),
                forall|k2: int|
                    0 <= k2 < baseline0.len() ==> (#[trigger] baseline0[k2]).type_id
                        == BASELINE_SLOT,
                kdistinct(baseline0),
            decreases baseline0.len() - k,
        {
            proof {
                assert(self.entities@[i as int] == baseline0[k]);
                assert(baseline0.subrange(0, k + 1) =~= baseline0.subrange(0, k).push(
                    baseline0[k],
                ));
                crate::keyed::lemma_kfilter_push(baseline0.subrange(0, k), baseline0[k], keep);
            }
            let ent = self.entities.entries[i].entity;
            proof {
                assert(ent == baseline0[k].entity);
            }
            if store.is_live(ent) {
                i = i + 1;
                proof {
                    k = k + 1;
                    assert(self.entities@ =~= kfilter(baseline0.subrange(0, k), keep)
                        + baseline0.subrange(k, baseline0.len() as int));
                    assert(removal_events(baseline0, store@, k) =~= removal_events(
                        baseline0,
                        store@,
                        k - 1,
                    ));
                }
            } else {
                let ghost before = self.entities@;
                self.entities.entries.remove(i);
                events.push(
                    InspectorEvent::Entity { entity: ent, mutation: EntityMutation::Remove },
                );
                proof {
                    k = k + 1;
                    assert(self.entities@ =~= before.remove(i as int));
                    assert(self.entities@ =~= kfilter(baseline0.subrange(0, k), keep)
                        + baseline0.subrange(k, baseline0.len() as int));
                    let rv = EventView::Entity { entity: ent, mutation: MutationView::Remove };
                    assert(removal_events(baseline0, store@, k) =~= removal_events(
                        baseline0,
                        store@,
                        k - 1,
                    ).push(rv));
                    assert(events_view(events@) =~= (ev0 + removal_events(
                        baseline0,
                        store@,
                        k - 1,
                    )).push(rv));
                    assert(events_view(events@) =~= ev0 + removal_events(baseline0, store@, k));
                }
            }
        }
        proof {
            assert(k == baseline0.len());
            assert(baseline0.subrange(0, k) =~= baseline0);
            assert(baseline0.subrange(k, baseline0.len() as int) =~= Seq::<
                KeyedEntryView<Seq<usize>>,
            >::empty());
            assert(self.entities@ =~= kfilter(baseline0, keep) + Seq::<
                KeyedEntryView<Seq<usize>>,
            >::empty());
            assert(self.entities@ =~= baseline_gc);
            crate::keyed::lemma_kfilter_distinct(baseline0, keep);
            assert forall|k2: int|
                0 <= k2 < self.entities@.len() implies types_distinct(
                (#[trigger] self.entities@[k2]).value,
            ) && (#[trigger] self.entities@[k2]).type_id == BASELINE_SLOT by {
                crate::keyed::lemma_kfilter_member(baseline0, keep, k2);
                let k0 = choose|k0: int|
                    0 <= k0 < baseline0.len() && kfilter(baseline0, keep)[k2] == baseline0[k0];
                assert(types_distinct(baseline0[k0].value));
                assert(baseline0[k0].type_id == BASELINE_SLOT);
            }
        }

        let slot_count = store.slots.len();
        let mut s: usize = 0;
        while s < slot_count
            invariant
                store@.wf(),
                cat == catalog.entries@,
                keep == (|x: u64| store@.live(x)),
                cache_gc == kfilter(cache0, keep),
                baseline_gc == kfilter(baseline0, keep),
                slot_count == store@.slots.len(),
                s <= slot_count,
                ctx.wf(),
                ctx.disabled_components@ == disabled_gc,
                ctx.deep_compare_components.ids@ == allowed0,
                forall|o2: u64, t2: usize|
                    #![trigger klookup(ctx.entity_visibilities@, o2, t2)]
                    klookup(ctx.entity_visibilities@, o2, t2) == (if store@.live(o2) {
                        klookup(vis0, o2, t2)
                    } else {
                        None
                    }),
                forall|o2: u64, t2: usize|
                    #![trigger klookup(ctx.deep_compare_components.values@, o2, t2)]
                    klookup(ctx.deep_compare_components.values@, o2, t2) == (if store@.live(o2)
                        && spec_id_index(o2) < s {
                        cache_after_at(cat, store@, baseline0, allowed0, cache0, last0, o2, t2)
                    } else if store@.live(o2) {
                        klookup(cache0, o2, t2)
                    } else {
                        None
                    }),
                kdistinct(self.entities@),
                forall|k2: int|
                    0 <= k2 < self.entities@.len() ==> types_distinct(
                        (#[trigger] self.entities@[k2]).value,
                    ),
                forall|k2: int|
                    0 <= k2 < self.entities@.len() ==> (#[trigger] self.entities@[k2]).type_id
                        == BASELINE_SLOT,
                forall|o2: u64|
                    #![trigger klookup(self.entities@, o2, BASELINE_SLOT)]
                    klookup(self.entities@, o2, BASELINE_SLOT) == (if store@.live(o2)
                        && spec_id_index(o2) < s {
                        baseline_after_at(store@, baseline0, last0, o2)
                    } else {
                        klookup(baseline_gc, o2, BASELINE_SLOT)
                    }),
                events_view(events@) == ev0 + removal_events(
                    baseline0,
                    store@,
                    baseline0.len() as int,
                ) + live_events(
                    cat,
                    store@,
                    baseline0,
                    disabled_gc,
                    allowed0,
                    cache_gc,
                    last0,
                    s as int,
                ),
                self.type_registry == old(self).type_registry,
                self.components@ == old(self).components@,
                self.schedules == old(self).schedules,
                self.last_seen == last0,
            decreases slot_count - s,
        {
            let alive = store.slots[s].alive;
            if alive {
                let generation = store.slots[s].generation;
                let o = ((generation as u64) << 32) | (s as u64);
                proof {
                    crate::store::lemma_id_roundtrip(s as int, generation);
                    assert(o == crate::store::spec_make_id(s as int, generation));
                    assert(store@.live(o));
                    assert(store@.id_at(s as int) == o);
                    crate::keyed::lemma_kfilter_lookup(baseline0, keep, o, BASELINE_SLOT);
                    assert forall|t2: usize|
                        #[trigger] klookup(cache_gc, o, t2) == klookup(cache0, o, t2) by {
                        crate::keyed::lemma_kfilter_lookup(cache0, keep, o, t2);
                    }
                }
                let ghost pre_take = self.entities@;
                let taken = self.entities.take(o, BASELINE_SLOT);
                match taken {
                    Some(types) => {
                        proof {
                            assert(klookup(pre_take, o, BASELINE_SLOT) == Some(types@));
                            assert(klookup(baseline0, o, BASELINE_SLOT) == Some(types@));
                            crate::keyed::lemma_klookup_index(pre_take, o, BASELINE_SLOT);
                            let kw = choose|kw: int|
                                0 <= kw < pre_take.len() && pre_take[kw].entity == o
                                    && pre_take[kw].type_id == BASELINE_SLOT
                                    && pre_take[kw].value == klookup(
                                    pre_take,
                                    o,
                                    BASELINE_SLOT,
                                )->Some_0;
                            assert(types_distinct(types@));
                        }
                        let ghost pre_cache_call = ctx.deep_compare_components.values@;
                        let (changes, removes, newtypes) = diff_known_object(
                            o,
                            &types,
                            store,
                            catalog,
                            ctx,
                            self.last_seen,
                        );
                        let ghost chv = changes_view(changes@);
                        let ghost rmv = removes@;
                        let has_delta = changes.len() > 0 || removes.len() > 0;
                        if has_delta {
                            events.push(
                                InspectorEvent::Entity {
                                    entity: o,
                                    mutation: EntityMutation::Change { changes, removes },
                                },
                            );
                        }
                        let ghost pre_insert = self.entities@;
                        self.entities.insert_new(o, BASELINE_SLOT, newtypes);
                        proof {
                            let slot = store@.slot_of(o);
                            assert forall|k2: int|
                                0 <= k2 < self.entities@.len() implies types_distinct(
                                (#[trigger] self.entities@[k2]).value,
                            ) && (#[trigger] self.entities@[k2]).type_id == BASELINE_SLOT by {
                                if k2 == self.entities@.len() - 1 {
                                    assert(self.entities@[k2].value == newtypes@);
                                    assert(self.entities@[k2].type_id == BASELINE_SLOT);
                                } else {
                                    assert(self.entities@[k2] == pre_insert[k2]);
                                    let j = choose|j: int|
                                        0 <= j < pre_take.len() && pre_insert == pre_take.remove(
                                            j,
                                        );
                                    let k0 = if k2 < j {
                                        k2
                                    } else {
                                        k2 + 1
                                    };
                                    assert(pre_insert[k2] == pre_take[k0]);
                                }
                            }
                            lemma_known_changes_cache_agree(
                                cat,
                                o,
                                slot.attrs,
                                types@,
                                disabled_gc,
                                allowed0,
                                pre_cache_call,
                                cache_gc,
                                last0,
                                slot.attrs.len() as int,
                            );
                            assert(chv == known_changes(
                                cat,
                                o,
                                slot.attrs,
                                types@,
                                disabled_gc,
                                allowed0,
                                cache_gc,
                                last0,
                                slot.attrs.len() as int,
                            ));
                            assert(rmv == removed_attrs(
                                types@,
                                slot,
                                o,
                                disabled_gc,
                                types@.len() as int,
                            ));
                            let se = slot_events(
                                cat,
                                store@,
                                s as int,
                                baseline0,
                                disabled_gc,
                                allowed0,
                                cache_gc,
                                last0,
                            );
                            if has_delta {
                                let ev = EventView::Entity {
                                    entity: o,
                                    mutation: MutationView::Change { changes: chv, removes: rmv },
                                };
                                assert(se =~= seq![ev]);
                                assert(events_view(events@) =~= (ev0 + removal_events(
                                    baseline0,
                                    store@,
                                    baseline0.len() as int,
                                ) + live_events(
                                    cat,
                                    store@,
                                    baseline0,
                                    disabled_gc,
                                    allowed0,
                                    cache_gc,
                                    last0,
                                    s as int,
                                )).push(ev));
                                assert(events_view(events@) =~= ev0 + removal_events(
                                    baseline0,
                                    store@,
                                    baseline0.len() as int,
                                ) + live_events(
                                    cat,
                                    store@,
                                    baseline0,
                                    disabled_gc,
                                    allowed0,
                                    cache_gc,
                                    last0,
                                    s + 1,
                                ));
                            } else {
                                assert(se =~= Seq::<EventView>::empty());
                                assert(live_events(
                                    cat,
                                    store@,
                                    baseline0,
                                    disabled_gc,
                                    allowed0,
                                    cache_gc,
                                    last0,
                                    s + 1,
                                ) =~= live_events(
                                    cat,
                                    store@,
                                    baseline0,
                                    disabled_gc,
                                    allowed0,
                                    cache_gc,
                                    last0,
                                    s as int,
                                ));
                            }
                            assert forall|o2: u64|
                                #![trigger klookup(self.entities@, o2, BASELINE_SLOT)]
                                klookup(self.entities@, o2, BASELINE_SLOT) == (if store@.live(o2)
                                    && spec_id_index(o2) < s + 1 {
                                    baseline_after_at(store@, baseline0, last0, o2)
                                } else {
                                    klookup(baseline_gc, o2, BASELINE_SLOT)
                                }) by {
                                if o2 == o {
                                    assert(klookup(self.entities@, o, BASELINE_SLOT) == Some(
                                        newtypes@,
                                    ));
                                } else if spec_id_index(o2) == s as int && store@.live(o2) {
                                    crate::store::lemma_live_ids_distinct(store@, o2, o);
                                }
                            }
                            assert forall|o2: u64, t2: usize|
                                #![trigger klookup(ctx.deep_compare_components.values@, o2, t2)]
                                klookup(ctx.deep_compare_components.values@, o2, t2) == (if store@.live(
                                    o2,
                                ) && spec_id_index(o2) < s + 1 {
                                    cache_after_at(
                                        cat,
                                        store@,
                                        baseline0,
                                        allowed0,
                                        cache0,
                                        last0,
                                        o2,
                                        t2,
                                    )
                                } else if store@.live(o2) {
                                    klookup(cache0, o2, t2)
                                } else {
                                    None
                                }) by {
                                if o2 == o {
                                    assert(klookup(baseline0, o, BASELINE_SLOT) is Some);
                                } else if spec_id_index(o2) == s as int && store@.live(o2) {
                                    crate::store::lemma_live_ids_distinct(store@, o2, o);
                                }
                            }
                        }
                    },
                    None => {
                        proof {
                            assert(klookup(baseline0, o, BASELINE_SLOT) is None);
                        }
                        let (changes, newtypes) = snapshot_new_object(o, store, catalog, ctx);
                        let ghost chv = changes_view(changes@);
                        events.push(
                            InspectorEvent::Entity {
                                entity: o,
                                mutation: EntityMutation::Change {
                                    changes,
                                    removes: Vec::new(),
                                },
                            },
                        );
                        let ghost pre_insert = self.entities@;
                        self.entities.insert_new(o, BASELINE_SLOT, newtypes);
                        proof {
                            let slot = store@.slot_of(o);
                            assert forall|k2: int|
                                0 <= k2 < self.entities@.len() implies types_distinct(
                                (#[trigger] self.entities@[k2]).value,
                            ) && (#[trigger] self.entities@[k2]).type_id == BASELINE_SLOT by {
                                if k2 == self.entities@.len() - 1 {
                                    assert(self.entities@[k2].value == newtypes@);
                                    assert(self.entities@[k2].type_id == BASELINE_SLOT);
                                } else {
                                    assert(self.entities@[k2] == pre_insert[k2]);
                                    assert(pre_insert == pre_take);
                                }
                            }
                            assert(chv == new_changes(cat, slot.attrs, slot.attrs.len() as int)
                                + overlay_changes(cat, disabled_gc, o, disabled_gc.len() as int));
                            let ev = EventView::Entity {
                                entity: o,
                                mutation: MutationView::Change {
                                    changes: chv,
                                    removes: Seq::empty(),
                                },
                            };
                            let se = slot_events(
                                cat,
                                store@,
                                s as int,
                                baseline0,
                                disabled_gc,
                                allowed0,
                                cache_gc,
                                last0,
                            );
                            assert(se =~= seq![ev]);
                            assert(events_view(events@) =~= (ev0 + removal_events(
                                baseline0,
                                store@,
                                baseline0.len() as int,
                            ) + live_events(
                                cat,
                                store@,
                                baseline0,
                                disabled_gc,
                                allowed0,
                                cache_gc,
                                last0,
                                s as int,
                            )).push(ev));
                            assert(events_view(events@) =~= ev0 + removal_events(
                                baseline0,
                                store@,
                                baseline0.len() as int,
                            ) + live_events(
                                cat,
                                store@,
                                baseline0,
                                disabled_gc,
                                allowed0,
                                cache_gc,
                                last0,
                                s + 1,
                            ));
                            assert forall|o2: u64|
                                #![trigger klookup(self.entities@, o2, BASELINE_SLOT)]
                                klookup(self.entities@, o2, BASELINE_SLOT) == (if store@.live(o2)
                                    && spec_id_index(o2) < s + 1 {
                                    baseline_after_at(store@, baseline0, last0, o2)
                                } else {
                                    klookup(baseline_gc, o2, BASELINE_SLOT)
                                }) by {
                                if o2 == o {
                                    assert(klookup(self.entities@, o, BASELINE_SLOT) == Some(
                                        newtypes@,
                                    ));
                                } else if spec_id_index(o2) == s as int && store@.live(o2) {
                                    crate::store::lemma_live_ids_distinct(store@, o2, o);
                                }
                            }
                            assert forall|o2: u64, t2: usize|
                                #![trigger klookup(ctx.deep_compare_components.values@, o2, t2)]
                                klookup(ctx.deep_compare_components.values@, o2, t2) == (if store@.live(
                                    o2,
                                ) && spec_id_index(o2) < s + 1 {
                                    cache_after_at(
                                        cat,
                                        store@,
                                        baseline0,
                                        allowed0,
                                        cache0,
                                        last0,
                                        o2,
                                        t2,
                                    )
                                } else if store@.live(o2) {
                                    klookup(cache0, o2, t2)
                                } else {
                                    None
                                }) by {
                                if o2 == o {
                                    assert(klookup(baseline0, o, BASELINE_SLOT) is None);
                                } else if spec_id_index(o2) == s as int && store@.live(o2) {
                                    crate::store::lemma_live_ids_distinct(store@, o2, o);
                                }
                            }
                        }
                    },
                }
            } else {
                proof {
                    assert(slot_events(
                        cat,
                        store@,
                        s as int,
                        baseline0,
                        disabled_gc,
                        allowed0,
                        cache_gc,
                        last0,
                    ) =~= Seq::<EventView>::empty());
                    assert(live_events(
                        cat,
                        store@,
                        baseline0,
                        disabled_gc,
                        allowed0,
                        cache_gc,
                        last0,
                        s + 1,
                    ) =~= live_events(
                        cat,
                        store@,
                        baseline0,
                        disabled_gc,
                        allowed0,
                        cache_gc,
                        last0,
                        s as int,
                    ));
                    assert forall|o2: u64|
                        #![trigger klookup(self.entities@, o2, BASELINE_SLOT)]
                        klookup(self.entities@, o2, BASELINE_SLOT) == (if store@.live(o2)
                            && spec_id_index(o2) < s + 1 {
                            baseline_after_at(store@, baseline0, last0, o2)
                        } else {
                            klookup(baseline_gc, o2, BASELINE_SLOT)
                        }) by {
                        if spec_id_index(o2) == s as int {
                            assert(!store@.live(o2));
                        }
                    }
                    assert forall|o2: u64, t2: usize|
                        #![trigger klookup(ctx.deep_compare_components.values@, o2, t2)]
                        klookup(ctx.deep_compare_components.values@, o2, t2) == (if store@.live(o2)
                            && spec_id_index(o2) < s + 1 {
                            cache_after_at(cat, store@, baseline0, allowed0, cache0, last0, o2, t2)
                        } else if store@.live(o2) {
                            klookup(cache0, o2, t2)
                        } else {
                            None
                        }) by {
                        if spec_id_index(o2) == s as int {
                            assert(!store@.live(o2));
                        }
                    }
                }
            }
            s = s + 1;
        }
        self.last_seen = store.current_tick();
        proof {
            assert forall|o2: u64|
                #![trigger klookup(self.entities@, o2, BASELINE_SLOT)]
                klookup(self.entities@, o2, BASELINE_SLOT) == baseline_after_at(
                    store@,
                    baseline0,
                    last0,
                    o2,
                ) by {
                if store@.live(o2) {
                    assert(spec_id_index(o2) < store@.slots.len());
                } else {
                    crate::keyed::lemma_kfilter_lookup(baseline0, keep, o2, BASELINE_SLOT);
                }
            }
            assert forall|o2: u64, t2: usize|
                #![trigger klookup(ctx.deep_compare_components.values@, o2, t2)]
                klookup(ctx.deep_compare_components.values@, o2, t2) == cache_after_at(
                    cat,
                    store@,
                    baseline0,
                    allowed0,
                    cache0,
                    last0,
                    o2,
                    t2,
                ) by {
                if store@.live(o2) {
                    assert(spec_id_index(o2) < store@.slots.len());
                }
            }
        }
    }
}

impl TrackedData {
    /// Announce the runtime type registry, once per observer.
    pub fn track_type_registry(&mut self, events: &mut Vec<InspectorEvent>, catalog: &Catalog)
        ensures
            final(self).type_registry,
            final(self).components@ == old(self).components@,
            final(self).entities@ == old(self).entities@,
            final(self).schedules == old(self).schedules,
            final(self).last_seen == old(self).last_seen,
            events_view(final(events)@) == events_view(old(events)@) + (if old(
                self,
            ).type_registry {
                Seq::empty()
            } else {
                seq![
                    EventView::TypeRegistry {
                        types: Seq::new(
                            catalog.entries@.len(),
                            |i: int| spec_descriptor(catalog.entries@, i),
                        ),
                    },
                ]
            }),
    {
        if self.type_registry {
            proof {
                assert(events_view(events@) =~= events_view(events@) + Seq::<EventView>::empty());
            }
            return ;
        }
        let mut types: Vec<SchemaDescriptor> = Vec::new();
        let mut t: usize = 0;
        while t < catalog.entries.len()
            invariant
                t <= catalog.entries@.len(),
                types@.len() == t,
                forall|i: int|
                    0 <= i < t ==> types@[i] == spec_descriptor(catalog.entries@, i),
            decreases catalog.entries@.len() - t,
        {
            let e = &catalog.entries[t];
            types.push(SchemaDescriptor { type_id: t, registered: e.registered, kind: e.kind });
            t = t + 1;
        }
        proof {
            assert(types@ =~= Seq::new(
                catalog.entries@.len(),
                |i: int| spec_descriptor(catalog.entries@, i),
            ));
        }
        let ghost pre_ev = events_view(events@);
        events.push(InspectorEvent::TypeRegistry { types });
        self.type_registry = true;
        proof {
            assert(events_view(events@) =~= pre_ev + seq![
                EventView::TypeRegistry {
                    types: Seq::new(
                        catalog.entries@.len(),
                        |i: int| spec_descriptor(catalog.entries@, i),
                    ),
                },
            ]);
        }
    }

    /// Announce attribute types the observer has not seen announced yet.
    pub fn track_components(&mut self, events: &mut Vec<InspectorEvent>, catalog: &Catalog)
        ensures
            final(self).type_registry == old(self).type_registry,
            final(self).entities@ == old(self).entities@,
            final(self).schedules == old(self).schedules,
            final(self).last_seen == old(self).last_seen,
            final(self).components@ == old(self).components@ + component_ids(
                new_components(
                    catalog.entries@,
                    old(self).components@,
                    catalog.entries@.len() as int,
                ),
            ),
            events_view(final(events)@) == events_view(old(events)@) + (if new_components(
                catalog.entries@,
                old(self).components@,
                catalog.entries@.len() as int,
            ).len() == 0 {
                Seq::empty()
            } else {
                seq![
                    EventView::ComponentCatalog {
                        components: new_components(
                            catalog.entries@,
                            old(self).components@,
                            catalog.entries@.len() as int,
                        ),
                    },
                ]
            }),
    {
        let ghost cat = catalog.entries@;
        let ghost comps0 = self.components@;
        let mut news: Vec<ComponentInfo> = Vec::new();
        let mut t: usize = 0;
        while t < catalog.entries.len()
            invariant
                cat == catalog.entries@,
                comps0 == self.components@,
                *self == *old(self),
                t <= cat.len(),
                news@ == new_components(cat, comps0, t as int),
            decreases cat.len() - t,
        {
            let e = &catalog.entries[t];
            if e.registered && !vec_has_usize(&self.components, t) {
                news.push(ComponentInfo { type_id: t, kind: e.kind });
                proof {
                    assert(news@ =~= new_components(cat, comps0, t + 1));
                }
            } else {
                proof {
                    assert(news@ =~= new_components(cat, comps0, t + 1));
                }
            }
            t = t + 1;
        }
        if news.len() == 0 {
            proof {
                assert(self.components@ =~= comps0 + component_ids(
                    new_components(cat, comps0, cat.len() as int),
                ));
                assert(events_view(events@) =~= events_view(events@) + Seq::<EventView>::empty());
            }
            return ;
        }
        let ghost fullnews = news@;
        let mut a: usize = 0;
        while a < news.len()
            invariant
                news@ == fullnews,
                a <= fullnews.len(),
                self.components@ == comps0 + component_ids(fullnews).subrange(0, a as int),
                self.type_registry == old(self).type_registry,
                self.entities@ == old(self).entities@,
                self.schedules == old(self).schedules,
                self.last_seen == old(self).last_seen,
            decreases fullnews.len() - a,
        {
            self.components.push(news[a].type_id);
            proof {
                assert(component_ids(fullnews).subrange(0, a + 1) =~= component_ids(
                    fullnews,
                ).subrange(0, a as int).push(fullnews[a as int].type_id));
                assert(self.components@ =~= comps0 + component_ids(fullnews).subrange(0, a + 1));
            }
            a = a + 1;
        }
        proof {
            assert(component_ids(fullnews).subrange(0, fullnews.len() as int) =~= component_ids(
                fullnews,
            ));
        }
        let ghost pre_ev = events_view(events@);
        events.push(InspectorEvent::ComponentCatalog { components: news });
        proof {
            assert(events_view(events@) =~= pre_ev + seq![
                EventView::ComponentCatalog { components: fullnews },
            ]);
        }
    }

    /// Announce the host's schedules, once per observer.
    pub fn track_schedules(&mut self, events: &mut Vec<InspectorEvent>, catalog: &Catalog)
        ensures
            final(self).schedules,
            final(self).type_registry == old(self).type_registry,
            final(self).components@ == old(self).components@,
            final(self).entities@ == old(self).entities@,
            final(self).last_seen == old(self).last_seen,
            events_view(final(events)@) == events_view(old(events)@) + (if old(self).schedules {
                Seq::empty()
            } else {
                seq![EventView::Schedules { schedules: schedules_view(catalog.schedules@) }]
            }),
    {
        if self.schedules {
            proof {
                assert(events_view(events@) =~= events_view(events@) + Seq::<EventView>::empty());
            }
            return ;
        }
        let mut schedules: Vec<ScheduleInfo> = Vec::new();
        let mut t: usize = 0;
        while t < catalog.schedules.len()
            invariant
                t <= catalog.schedules@.len(),
                schedules@.len() == t,
                forall|i: int|
                    0 <= i < t ==> (#[trigger] schedules@[i])@ == catalog.schedules@[i]@,
            decreases catalog.schedules@.len() - t,
        {
            schedules.push(ScheduleInfo { name: catalog.schedules[t].clone() });
            t = t + 1;
        }
        proof {
            assert(Seq::new(schedules@.len(), |i: int| schedules@[i]@) =~= schedules_view(
                catalog.schedules@,
            ));
        }
        let ghost pre_ev = events_view(events@);
        events.push(InspectorEvent::Schedules { schedules });
        self.schedules = true;
        proof {
            assert(events_view(events@) =~= pre_ev + seq![
                EventView::Schedules { schedules: schedules_view(catalog.schedules@) },
            ]);
        }
    }
}

/// One connected observer's identity and tracking state.
pub struct ClientEntry {
    pub client_id: u32,
    pub data: TrackedData,
}

/// The tracking states of all connected observers, one per client id.
pub struct TrackedDatas {
    pub clients: Vec<ClientEntry>,
}

/// Position of a client's entry.
pub open spec fn client_pos(s: Seq<ClientEntry>, client_id: u32) -> Option<int> {
    crate::lookup::first_pos(Seq::new(s.len(), |i: int| s[i].client_id), client_id)
}

impl TrackedDatas {
    /// No observers yet.
    pub fn new() -> (d: TrackedDatas)
        ensures
            d.wf(),
            d.clients@.len() == 0,
    {
        TrackedDatas { clients: Vec::new() }
    }

    /// Client identifiers are unique and every tracking state is sound.
    pub open spec fn wf(self) -> bool {
        &&& forall|i: int, j: int|
            0 <= i < j < self.clients@.len() ==> self.clients@[i].client_id
                != self.clients@[j].client_id
        &&& forall|i: int|
            0 <= i < self.clients@.len() ==> (#[trigger] self.clients@[i]).data.wf()
    }

    /// Discard one observer's baseline entirely, forcing a full resync on
    /// its next query. Reports whether the observer was known.
    pub fn reset_client(&mut self, client_id: u32) -> (r: bool)
        requires
            old(self).wf(),
        ensures
            final(self).wf(),
            r == (client_pos(old(self).clients@, client_id) is Some),
            client_pos(final(self).clients@, client_id) is None,
            forall|c2: u32|
                c2 != client_id ==> (match #[trigger] client_pos(final(self).clients@, c2) {
                    Some(p) => client_pos(old(self).clients@, c2) is Some
                        && final(self).clients@[p] == old(self).clients@[client_pos(
                        old(self).clients@,
                        c2,
                    )->Some_0],
                    None => client_pos(old(self).clients@, c2) is None,
                }),
    {
        let ghost pre = self.clients@;
        let ghost keys = Seq::new(pre.len(), |i: int| pre[i].client_id);
        let mut i: usize = 0;
        while i < self.clients.len()
            invariant
                self.clients@ == pre,
                pre == old(self).clients@,
                old(self).wf(),
                keys == Seq::new(pre.len(), |i2: int| pre[i2].client_id),
                i <= pre.len(),
                forall|k: int| 0 <= k < i ==> pre[k].client_id != client_id,
            decreases pre.len() - i,
        {
            if self.clients[i].client_id == client_id {
                proof {
                    crate::lookup::lemma_first_pos_found(keys, client_id, i as int);
                }
                self.clients.remove(i);
                proof {
                    assert forall|a: int, b: int|
                        0 <= a < b < self.clients@.len() implies self.clients@[a].client_id
                        != self.clients@[b].client_id by {
                        let a0 = if a < i as int { a } else { a + 1 };
                        let b0 = if b < i as int { b } else { b + 1 };
                        assert(self.clients@[a] == pre[a0] && self.clients@[b] == pre[b0]);
                    }
                    assert forall|i2: int|
                        0 <= i2 < self.clients@.len() implies (#[trigger] self.clients@[i2]).data.wf() by {
                        let i0 = if i2 < i as int { i2 } else { i2 + 1 };
                        assert(self.clients@[i2] == pre[i0]);
                    }
                    assert forall|c2: u32|
                        c2 != client_id implies (match #[trigger] client_pos(self.clients@, c2) {
                        Some(p) => client_pos(pre, c2) is Some && self.clients@[p] == pre[client_pos(
                            pre,
                            c2,
                        )->Some_0],
                        None => client_pos(pre, c2) is None,
                    }) by {
                        let nkeys = Seq::new(
                            self.clients@.len(),
                            |i2: int| self.clients@[i2].client_id,
                        );
                        crate::lookup::lemma_first_pos_props(nkeys, c2);
                        crate::lookup::lemma_first_pos_props(keys, c2);
                        match client_pos(self.clients@, c2) {
                            Some(p) => {
                                let p0 = if p < i as int {
                                    p
                                } else {
                                    p + 1
                                };
                                assert(self.clients@[p] == pre[p0]);
                                assert(keys[p0] == c2);
                                assert forall|k: int| 0 <= k < p0 implies keys[k] != c2 by {
                                    if k < i as int {
                                        assert(self.clients@[k] == pre[k]);
                                        assert(nkeys[k] == keys[k]);
                                    } else if k > i as int {
                                        assert(self.clients@[k - 1] == pre[k]);
                                        assert(nkeys[k - 1] == keys[k]);
                                    }
                                }
                                crate::lookup::lemma_first_pos_found(keys, c2, p0);
                            },
                            None => {
                                if client_pos(pre, c2) is Some {
                                    let q = client_pos(pre, c2)->Some_0;
                                    assert(keys[q] == c2);
                                    assert(q != i as int);
                                    let q2 = if q < i as int {
                                        q
                                    } else {
                                        q - 1
                                    };
                                    assert(self.clients@[q2] == pre[q]);
                                    assert(nkeys[q2] == c2);
                                }
                            },
                        }
                    }
                    assert(client_pos(self.clients@, client_id) is None) by {
                        let nkeys = Seq::new(
                            self.clients@.len(),
                            |i2: int| self.clients@[i2].client_id,
                        );
                        crate::lookup::lemma_first_pos_props(nkeys, client_id);
                        if client_pos(self.clients@, client_id) is Some {
                            let p = client_pos(self.clients@, client_id)->Some_0;
                            let p0 = if p < i as int {
                                p
                            } else {
                                p + 1
                            };
                            assert(self.clients@[p] == pre[p0]);
                            assert(p0 != i as int);
                        }
                    }
                }
                return true;
            }
            i = i + 1;
        }
        proof {
            crate::lookup::lemma_first_pos_absent(keys, client_id);
            assert forall|c2: u32|
                c2 != client_id implies (match #[trigger] client_pos(self.clients@, c2) {
                Some(p) => client_pos(pre, c2) is Some && self.clients@[p] == pre[client_pos(
                    pre,
                    c2,
                )->Some_0],
                None => client_pos(pre, c2) is None,
            }) by {}
        }
        false
    }
}

impl TrackedDatas {
    /// The index of `client_id`'s entry, creating a fresh one on first
    /// sight.
    fn ensure_client(&mut self, client_id: u32) -> (i: usize)
        requires
            old(self).wf(),
        ensures
            final(self).wf(),
            i < final(self).clients@.len(),
            final(self).clients@[i as int].client_id == client_id,
            match client_pos(old(self).clients@, client_id) {
                Some(p) => final(self).clients@ == old(self).clients@ && p == i as int,
                None => {
                    &&& i as int == old(self).clients@.len()
                    &&& final(self).clients@.len() == old(self).clients@.len() + 1
                    &&& forall|k: int|
                        0 <= k < old(self).clients@.len() ==> final(self).clients@[k] == old(
                            self,
                        ).clients@[k]
                    &&& !final(self).clients@[i as int].data.type_registry
                    &&& final(self).clients@[i as int].data.components@ =~= Seq::<usize>::empty()
                    &&& final(self).clients@[i as int].data.entities@ =~= Seq::<
                        KeyedEntryView<Seq<usize>>,
                    >::empty()
                    &&& !final(self).clients@[i as int].data.schedules
                    &&& final(self).clients@[i as int].data.last_seen == 0
                },
            },
    {
        let ghost pre = self.clients@;
        let ghost keys = Seq::new(pre.len(), |i2: int| pre[i2].client_id);
        let mut i: usize = 0;
        while i < self.clients.len()
            invariant
                self.clients@ == pre,
                pre == old(self).clients@,
                old(self).wf(),
                keys == Seq::new(pre.len(), |i2: int| pre[i2].client_id),
                i <= pre.len(),
                forall|k: int| 0 <= k < i ==> pre[k].client_id != client_id,
            decreases pre.len() - i,
        {
            if self.clients[i].client_id == client_id {
                proof {
                    crate::lookup::lemma_first_pos_found(keys, client_id, i as int);
                }
                return i;
            }
            i = i + 1;
        }
        proof {
            crate::lookup::lemma_first_pos_absent(keys, client_id);
        }
        let at = self.clients.len();
        self.clients.push(ClientEntry { client_id, data: TrackedData::new() });
        proof {
            assert forall|a: int, b: int|
                0 <= a < b < self.clients@.len() implies self.clients@[a].client_id
                != self.clients@[b].client_id by {
                if b == pre.len() as int {
                    assert(self.clients@[a] == pre[a]);
                    assert(keys[a] == pre[a].client_id);
                }
            }
            assert forall|i2: int|
                0 <= i2 < self.clients@.len() implies (#[trigger] self.clients@[i2]).data.wf() by {
                if i2 < pre.len() {
                    assert(self.clients@[i2] == pre[i2]);
                }
            }
        }
        at
    }
}

/// The one-shot catalog announcements and the per-object diff of one pass,
/// in emission order, as a function of the observer's prior state.
pub open spec fn pass_events(
    cat: Seq<SchemaEntry>,
    scheds: Seq<String>,
    store: StoreView,
    pre_tr: bool,
    pre_comps: Seq<usize>,
    pre_entities: Seq<KeyedEntryView<Seq<usize>>>,
    pre_sched: bool,
    pre_last: u64,
    disabled: Seq<KeyedEntryView<ValueView>>,
    allowed: Seq<usize>,
    cache: Seq<KeyedEntryView<ValueView>>,
) -> Seq<EventView> {
    (if pre_tr {
        Seq::empty()
    } else {
        seq![
            EventView::TypeRegistry {
                types: Seq::new(cat.len(), |i: int| spec_descriptor(cat, i)),
            },
        ]
    }) + (if new_components(cat, pre_comps, cat.len() as int).len() == 0 {
        Seq::empty()
    } else {
        seq![
            EventView::ComponentCatalog {
                components: new_components(cat, pre_comps, cat.len() as int),
            },
        ]
    }) + removal_events(pre_entities, store, pre_entities.len() as int) + live_events(
        cat,
        store,
        pre_entities,
        kfilter(disabled, |x: u64| store.live(x)),
        allowed,
        kfilter(cache, |x: u64| store.live(x)),
        pre_last,
        store.slots.len() as int,
    ) + (if pre_sched {
        Seq::empty()
    } else {
        seq![EventView::Schedules { schedules: schedules_view(scheds) }]
    })
}

/// Run one full pass for `client_id` and return the events it owes that
/// observer: catalog announcements it has not seen, then the store diff
/// against its baseline. A client id never seen before starts from an empty
/// baseline and is told everything.
pub fn get_inspector_events(
    store: &Store,
    catalog: &Catalog,
    ctx: &mut InspectorContext,
    observers: &mut TrackedDatas,
    client_id: u32,
) -> (events: Vec<InspectorEvent>)
    requires
        store@.wf(),
        old(ctx).wf(),
        old(observers).wf(),
    ensures
        final(observers).wf(),
        final(ctx).wf(),
        final(ctx).deep_compare_components.ids@ == old(ctx).deep_compare_components.ids@,
        final(ctx).disabled_components@ == kfilter(
            old(ctx).disabled_components@,
            |x: u64| store@.live(x),
        ),
        forall|o2: u64, t2: usize|
            #![trigger klookup(final(ctx).entity_visibilities@, o2, t2)]
            klookup(final(ctx).entity_visibilities@, o2, t2) == (if store@.live(o2) {
                klookup(old(ctx).entity_visibilities@, o2, t2)
            } else {
                None
            }),
        client_pos(old(observers).clients@, client_id) is Some ==> ({
            let p = client_pos(old(observers).clients@, client_id)->Some_0;
            let pre = old(observers).clients@[p].data;
            &&& events_view(events@) == pass_events(
                catalog.entries@,
                catalog.schedules@,
                store@,
                pre.type_registry,
                pre.components@,
                pre.entities@,
                pre.schedules,
                pre.last_seen,
                old(ctx).disabled_components@,
                old(ctx).deep_compare_components.ids@,
                old(ctx).deep_compare_components.values@,
            )
            &&& final(observers).clients@.len() == old(observers).clients@.len()
            &&& forall|k: int|
                0 <= k < old(observers).clients@.len() && k != p ==> final(observers).clients@[k]
                    == old(observers).clients@[k]
            &&& final(observers).clients@[p].client_id == client_id
            &&& final(observers).clients@[p].data.type_registry
            &&& final(observers).clients@[p].data.schedules
            &&& final(observers).clients@[p].data.last_seen == store@.tick
            &&& final(observers).clients@[p].data.components@ == pre.components@ + component_ids(
                new_components(catalog.entries@, pre.components@, catalog.entries@.len() as int),
            )
            &&& forall|o2: u64|
                #![trigger klookup(final(observers).clients@[p].data.entities@, o2, BASELINE_SLOT)]
                klookup(final(observers).clients@[p].data.entities@, o2, BASELINE_SLOT)
                    == baseline_after_at(store@, pre.entities@, pre.last_seen, o2)
            &&& forall|o2: u64, t2: usize|
                #![trigger klookup(final(ctx).deep_compare_components.values@, o2, t2)]
                klookup(final(ctx).deep_compare_components.values@, o2, t2) == cache_after_at(
                    catalog.entries@,
                    store@,
                    pre.entities@,
                    old(ctx).deep_compare_components.ids@,
                    old(ctx).deep_compare_components.values@,
                    pre.last_seen,
                    o2,
                    t2,
                )
        }),
        client_pos(old(observers).clients@, client_id) is None ==> ({
            &&& events_view(events@) == pass_events(
                catalog.entries@,
                catalog.schedules@,
                store@,
                false,
                Seq::empty(),
                Seq::empty(),
                false,
                0,
                old(ctx).disabled_components@,
                old(ctx).deep_compare_components.ids@,
                old(ctx).deep_compare_components.values@,
            )
            &&& final(observers).clients@.len() == old(observers).clients@.len() + 1
            &&& forall|k: int|
                0 <= k < old(observers).clients@.len() ==> final(observers).clients@[k] == old(
                    observers,
                ).clients@[k]
            &&& final(observers).clients@[old(observers).clients@.len() as int].client_id == client_id
            &&& final(observers).clients@[old(observers).clients@.len() as int].data.type_registry
            &&& final(observers).clients@[old(observers).clients@.len() as int].data.schedules
            &&& final(observers).clients@[old(observers).clients@.len() as int].data.last_seen
                == store@.tick
            &&& final(observers).clients@[old(observers).clients@.len() as int].data.components@
                == component_ids(
                new_components(catalog.entries@, Seq::empty(), catalog.entries@.len() as int),
            )
            &&& forall|o2: u64|
                #![trigger
                    klookup(
                        final(observers).clients@[old(observers).clients@.len() as int].data.entities@,
                        o2,
                        BASELINE_SLOT,
                    )
                ]
                klookup(
                    final(observers).clients@[old(observers).clients@.len() as int].data.entities@,
                    o2,
                    BASELINE_SLOT,
                ) == baseline_after_at(store@, Seq::empty(), 0, o2)
            &&& forall|o2: u64, t2: usize|
                #![trigger klookup(final(ctx).deep_compare_components.values@, o2, t2)]
                klookup(final(ctx).deep_compare_components.values@, o2, t2) == cache_after_at(
                    catalog.entries@,
                    store@,
                    Seq::empty(),
                    old(ctx).deep_compare_components.ids@,
                    old(ctx).deep_compare_components.values@,
                    0,
                    o2,
                    t2,
                )
        }),
{
    let ghost cat = catalog.entries@;
    let idx = observers.ensure_client(client_id);
    let mut events: Vec<InspectorEvent> = Vec::new();
    proof {
        assert(events_view(events@) =~= Seq::<EventView>::empty());
        if client_pos(old(observers).clients@, client_id) is None {
            crate::lookup::lemma_first_pos_props(
                Seq::new(
                    old(observers).clients@.len(),
                    |i2: int| old(observers).clients@[i2].client_id,
                ),
                client_id,
            );
        }
    }
    let entry = &mut observers.clients[idx];
    let ghost pre_tr = entry.data.type_registry;
    let ghost pre_comps = entry.data.components@;
    let ghost pre_entities = entry.data.entities@;
    let ghost pre_sched = entry.data.schedules;
    let ghost pre_last = entry.data.last_seen;
    entry.data.track_type_registry(&mut events, catalog);
    entry.data.track_components(&mut events, catalog);
    entry.data.track_entities(&mut events, store, catalog, ctx);
    entry.data.track_schedules(&mut events, catalog);
    proof {
        assert(events_view(events@) =~= pass_events(
            cat,
            catalog.schedules@,
            store@,
            pre_tr,
            pre_comps,
            pre_entities,
            pre_sched,
            pre_last,
            old(ctx).disabled_components@,
            old(ctx).deep_compare_components.ids@,
            old(ctx).deep_compare_components.values@,
        ));
    }
    proof {
        assert forall|a: int, b: int|
            0 <= a < b < observers.clients@.len() implies observers.clients@[a].client_id
            != observers.clients@[b].client_id by {}
        if client_pos(old(observers).clients@, client_id) is None {
            assert(pre_entities =~= Seq::<KeyedEntryView<Seq<usize>>>::empty());
            assert(pre_comps =~= Seq::<usize>::empty());
        }
    }
    events
}

/// Pacing state for the continuous streaming loop: when enabled, a diff
/// pass is owed every `update_every_n_ticks` ticks.
pub struct InspectorStreamingState {
    pub continuous_streaming_enabled: bool,
    pub last_update_tick: u32,
    pub update_every_n_ticks: u32,
}

impl Default for InspectorStreamingState {
    /// Streaming starts enabled, counting from zero, one update every three
    /// ticks.
    fn default() -> (s: InspectorStreamingState)
        ensures
            s.continuous_streaming_enabled,
            s.last_update_tick == 0,
            s.update_every_n_ticks == 3,
    {
        InspectorStreamingState {
            continuous_streaming_enabled: true,
            last_update_tick: 0,
            update_every_n_ticks: 3,
        }
    }
}

impl InspectorStreamingState {
    /// Count one tick and decide whether a continuous update is due.
    pub fn should_stream(&mut self) -> (r: bool)
        requires
            old(self).last_update_tick < u32::MAX,
        ensures
            final(self).continuous_streaming_enabled == old(self).continuous_streaming_enabled,
            final(self).update_every_n_ticks == old(self).update_every_n_ticks,
            r == (old(self).continuous_streaming_enabled && old(self).last_update_tick + 1
                >= old(self).update_every_n_ticks),
            final(self).last_update_tick == (if !old(self).continuous_streaming_enabled {
                old(self).last_update_tick
            } else if r {
                0u32
            } else {
                (old(self).last_update_tick + 1) as u32
            }),
    {
        if !self.continuous_streaming_enabled {
            return false;
        }
        self.last_update_tick = self.last_update_tick + 1;
        if self.last_update_tick >= self.update_every_n_ticks {
            self.last_update_tick = 0;
            true
        } else {
            false
        }
    }

    /// Turn continuous streaming on.
    pub fn enable(&mut self)
        ensures
            final(self).continuous_streaming_enabled,
            final(self).last_update_tick == old(self).last_update_tick,
            final(self).update_every_n_ticks == old(self).update_every_n_ticks,
    {
        self.continuous_streaming_enabled = true;
    }

    /// Turn continuous streaming off.
    pub fn disable(&mut self)
        ensures
            !final(self).continuous_streaming_enabled,
            final(self).last_update_tick == old(self).last_update_tick,
            final(self).update_every_n_ticks == old(self).update_every_n_ticks,
    {
        self.continuous_streaming_enabled = false;
    }

    /// Set the pacing, never below one tick between updates.
    pub fn set_frequency(&mut self, ticks: u32)
        ensures
            final(self).continuous_streaming_enabled == old(self).continuous_streaming_enabled,
            final(self).last_update_tick == old(self).last_update_tick,
            final(self).update_every_n_ticks == (if ticks >= 1 {
                ticks
            } else {
                1u32
            }),
    {
        self.update_every_n_ticks = if ticks >= 1 {
            ticks
        } else {
            1
        };
    }
}

} // verus!
