//! The engine's cross-cutting guarantees, stated and proved against the
//! mathematical model of the tracker and the command executor.
//!
//! The mutual-exclusion guarantee between the live store and the disabled
//! overlay lives in the `ensures` of every command (`exclusion_ok` in
//! `command`); this module adds the laws that relate several operations:
//! diff idempotence, the toggle round trip, deep-compare suppression,
//! minimality of a diff, and the absence of stale side-store data for dead
//! or fresh identifiers.

use vstd::prelude::*;

use crate::context::{exclusion_ok, keys_live};
use crate::events::{ChangeView, EventView, MutationView};
use crate::keyed::{kdistinct, kfilter, khas, klookup, KeyedEntryView};
use crate::lookup::seq_has;
use crate::schema::{spec_encode, spec_zero_sized, SchemaEntry};
use crate::store::{AttrView, SlotView, StoreView};
use crate::tracker::{
    attr_change, baseline_after_at, component_ids, known_changes, known_types_after, live_events,
    new_components, pass_events, removal_events, removed_attrs, slot_events, BASELINE_SLOT,
};
use crate::value::ValueView;

verus! {

/// An observer baseline in step with the store: it knows exactly the live
/// objects, it is keyed by object alone, every type it believes known is
/// still on its object, and it has seen every stamp the store has issued.
pub open spec fn synced(
    store: StoreView,
    baseline: Seq<KeyedEntryView<Seq<usize>>>,
    last_seen: u64,
) -> bool {
    &&& kdistinct(baseline)
    &&& forall|k: int|
        0 <= k < baseline.len() ==> (#[trigger] baseline[k]).type_id == BASELINE_SLOT
    &&& forall|o: u64, t: usize| #[trigger] khas(baseline, o, t) ==> store.live(o)
    &&& forall|o: u64| store.live(o) ==> #[trigger] khas(baseline, o, BASELINE_SLOT)
    &&& forall|o: u64, t: usize|
        store.live(o) && #[trigger] seq_has(
            klookup(baseline, o, BASELINE_SLOT)->Some_0,
            t,
        ) ==> store.slot_of(o).has_attr(t)
    &&& store.tick <= last_seen
}

/// After a diff pass, the observer's baseline is in step with the store.
///
/// The hypotheses are exactly what `TrackedData::track_entities` ensures of
/// its post-state: the baseline is well formed and reads, per object, as
/// `baseline_after_at` of the pre-state.
pub proof fn lemma_pass_establishes_sync(
    store: StoreView,
    pre_baseline: Seq<KeyedEntryView<Seq<usize>>>,
    pre_last: u64,
    post_baseline: Seq<KeyedEntryView<Seq<usize>>>,
)
    requires
        store.wf(),
        kdistinct(post_baseline),
        forall|k: int|
            0 <= k < post_baseline.len() ==> (#[trigger] post_baseline[k]).type_id
                == BASELINE_SLOT,
        forall|k: int|
            0 <= k < pre_baseline.len() ==> crate::tracker::types_distinct(
                (#[trigger] pre_baseline[k]).value,
            ),
        kdistinct(pre_baseline),
        forall|o: u64|
            #![trigger klookup(post_baseline, o, BASELINE_SLOT)]
            klookup(post_baseline, o, BASELINE_SLOT) == baseline_after_at(
                store,
                pre_baseline,
                pre_last,
                o,
            ),
    ensures
        synced(store, post_baseline, store.tick),
{
    assert forall|o: u64, t: usize| #[trigger] khas(post_baseline, o, t) implies store.live(o) by {
        if t == BASELINE_SLOT {
            assert(klookup(post_baseline, o, t) == baseline_after_at(
                store,
                pre_baseline,
                pre_last,
                o,
            ));
        } else {
            crate::keyed::lemma_klookup_index(post_baseline, o, t);
        }
    }
    assert forall|o: u64| store.live(o) implies #[trigger] khas(
        post_baseline,
        o,
        BASELINE_SLOT,
    ) by {
        assert(klookup(post_baseline, o, BASELINE_SLOT) == baseline_after_at(
            store,
            pre_baseline,
            pre_last,
            o,
        ));
    }
    assert forall|o: u64, t: usize|
        store.live(o) && #[trigger] seq_has(
            klookup(post_baseline, o, BASELINE_SLOT)->Some_0,
            t,
        ) implies store.slot_of(o).has_attr(t) by {
        let slot = store.slot_of(o);
        assert(slot.wf(store.tick));
        match klookup(pre_baseline, o, BASELINE_SLOT) {
            Some(types) => {
                crate::keyed::lemma_klookup_index(pre_baseline, o, BASELINE_SLOT);
                let kw = choose|kw: int|
                    0 <= kw < pre_baseline.len() && pre_baseline[kw].entity == o
                        && pre_baseline[kw].type_id == BASELINE_SLOT && pre_baseline[kw].value
                        == types;
                assert(crate::tracker::types_distinct(types));
                crate::tracker::lemma_known_types_after_has(types, slot, pre_last);
                assert(klookup(post_baseline, o, BASELINE_SLOT) == Some(
                    known_types_after(types, slot, pre_last),
                ));
            },
            None => {
                assert(klookup(post_baseline, o, BASELINE_SLOT) == Some(slot.attr_keys()));
                crate::lookup::lemma_first_pos_props(slot.attr_keys(), t);
            },
        }
    }
}

/// A pass over a synced baseline reports no removed objects.
proof fn lemma_removal_events_empty(
    baseline: Seq<KeyedEntryView<Seq<usize>>>,
    store: StoreView,
    n: int,
)
    requires
        kdistinct(baseline),
        forall|o: u64, t: usize| #[trigger] khas(baseline, o, t) ==> store.live(o),
        n <= baseline.len(),
    ensures
        removal_events(baseline, store, n) =~= Seq::<EventView>::empty(),
    decreases n,
{
    if n > 0 {
        lemma_removal_events_empty(baseline, store, n - 1);
        let e = baseline[n - 1];
        crate::keyed::lemma_klookup_found(baseline, e.entity, e.type_id, n - 1);
        assert(khas(baseline, e.entity, e.type_id));
        assert(store.live(e.entity));
    }
}

/// No attribute inside the observation window means no change entries.
proof fn lemma_known_changes_empty(
    cat: Seq<SchemaEntry>,
    o: u64,
    attrs: Seq<AttrView>,
    types: Seq<usize>,
    disabled: Seq<KeyedEntryView<ValueView>>,
    allowed: Seq<usize>,
    cache: Seq<KeyedEntryView<ValueView>>,
    last_seen: u64,
    n: int,
)
    requires
        forall|j: int| 0 <= j < n ==> (#[trigger] attrs[j]).modified <= last_seen,
    ensures
        known_changes(cat, o, attrs, types, disabled, allowed, cache, last_seen, n) =~= Seq::<
            ChangeView,
        >::empty(),
    decreases n,
{
    if n > 0 {
        lemma_known_changes_empty(cat, o, attrs, types, disabled, allowed, cache, last_seen, n - 1);
        assert(attrs[n - 1].modified <= last_seen);
    }
}

/// A baseline whose known types are all still live reports no removals.
proof fn lemma_removed_attrs_empty(
    types: Seq<usize>,
    slot: SlotView,
    o: u64,
    disabled: Seq<KeyedEntryView<ValueView>>,
    n: int,
)
    requires
        n <= types.len(),
        forall|j: int| 0 <= j < types.len() ==> slot.has_attr(#[trigger] types[j]),
    ensures
        removed_attrs(types, slot, o, disabled, n) =~= Seq::<crate::events::RemovedAttr>::empty(),
    decreases n,
{
    if n > 0 {
        lemma_removed_attrs_empty(types, slot, o, disabled, n - 1);
    }
}

/// Idempotence of the diff: against a synced baseline, a pass produces no
/// events at all — no removals and no per-object deltas.
///
/// Running a diff pass right after another one, with no store mutation in
/// between, is exactly this situation: the first pass leaves the baseline
/// synced (`lemma_pass_establishes_sync`), so the second pass's event list
/// is empty.
pub proof fn lemma_synced_pass_empty(
    cat: Seq<SchemaEntry>,
    store: StoreView,
    baseline: Seq<KeyedEntryView<Seq<usize>>>,
    disabled: Seq<KeyedEntryView<ValueView>>,
    allowed: Seq<usize>,
    cache: Seq<KeyedEntryView<ValueView>>,
    last_seen: u64,
)
    requires
        store.wf(),
        synced(store, baseline, last_seen),
    ensures
        removal_events(baseline, store, baseline.len() as int) =~= Seq::<EventView>::empty(),
        live_events(cat, store, baseline, disabled, allowed, cache, last_seen, store.slots.len() as int)
            =~= Seq::<EventView>::empty(),
{
    lemma_removal_events_empty(baseline, store, baseline.len() as int);
    lemma_live_events_empty(
        cat,
        store,
        baseline,
        disabled,
        allowed,
        cache,
        last_seen,
        store.slots.len() as int,
    );
}

/// The per-slot half of diff idempotence.
proof fn lemma_live_events_empty(
    cat: Seq<SchemaEntry>,
    store: StoreView,
    baseline: Seq<KeyedEntryView<Seq<usize>>>,
    disabled: Seq<KeyedEntryView<ValueView>>,
    allowed: Seq<usize>,
    cache: Seq<KeyedEntryView<ValueView>>,
    last_seen: u64,
    n: int,
)
    requires
        store.wf(),
        synced(store, baseline, last_seen),
        n <= store.slots.len(),
    ensures
        live_events(cat, store, baseline, disabled, allowed, cache, last_seen, n) =~= Seq::<
            EventView,
        >::empty(),
    decreases n,
{
    if n > 0 {
        lemma_live_events_empty(cat, store, baseline, disabled, allowed, cache, last_seen, n - 1);
        let i = n - 1;
        let slot = store.slots[i];
        if slot.alive {
            let o = store.id_at(i);
            assert(slot.wf(store.tick));
            crate::store::lemma_id_roundtrip(i, slot.generation);
            assert(store.live(o));
            assert(store.slot_of(o) == slot);
            assert(khas(baseline, o, BASELINE_SLOT));
            let types = klookup(baseline, o, BASELINE_SLOT)->Some_0;
            assert forall|j: int| 0 <= j < slot.attrs.len() implies (
            #[trigger] slot.attrs[j]).modified <= last_seen by {
                assert(slot.attrs[j].modified <= store.tick);
            }
            lemma_known_changes_empty(
                cat,
                o,
                slot.attrs,
                types,
                disabled,
                allowed,
                cache,
                last_seen,
                slot.attrs.len() as int,
            );
            assert forall|j: int| 0 <= j < types.len() implies slot.has_attr(
                #[trigger] types[j],
            ) by {
                crate::lookup::lemma_first_pos_props(types, types[j]);
                if !seq_has(types, types[j]) {
                    assert(types[j] != types[j]);
                }
                assert(seq_has(types, types[j]));
            }
            lemma_removed_attrs_empty(types, slot, o, disabled, types.len() as int);
            assert(slot_events(cat, store, i, baseline, disabled, allowed, cache, last_seen) =~= Seq::<
                EventView,
            >::empty());
        }
    }
}

/// Mutual exclusion holds from the start: a fresh context has an empty
/// overlay, which excludes nothing and refers to no object.
pub proof fn lemma_exclusion_initial(store: StoreView, disabled: Seq<KeyedEntryView<ValueView>>)
    requires
        disabled.len() == 0,
    ensures
        exclusion_ok(store, disabled),
        keys_live(store, disabled),
{
    assert forall|o: u64, t: usize| !#[trigger] khas(disabled, o, t) by {}
}

/// A component set that already covers every registered type yields no
/// further announcements.
proof fn lemma_new_components_covered(cat: Seq<SchemaEntry>, comps: Seq<usize>, n: int)
    requires
        n <= cat.len(),
        forall|t: int|
            0 <= t < n && cat[t].registered ==> seq_has(comps, #[trigger] (t as usize)),
    ensures
        new_components(cat, comps, n) =~= Seq::<crate::events::ComponentInfo>::empty(),
    decreases n,
{
    if n > 0 {
        lemma_new_components_covered(cat, comps, n - 1);
        if cat[n - 1].registered {
            assert(seq_has(comps, ((n - 1) as int) as usize));
        }
    }
}

/// After a pass extends the announced set by `new_components`, every
/// registered type is announced.
pub proof fn lemma_components_after_covers(cat: Seq<SchemaEntry>, comps0: Seq<usize>, n: int)
    requires
        0 <= n <= cat.len(),
    ensures
        forall|t: int|
            0 <= t < n && cat[t].registered ==> seq_has(
                comps0 + component_ids(new_components(cat, comps0, cat.len() as int)),
                #[trigger] (t as usize),
            ),
{
    let full = comps0 + component_ids(new_components(cat, comps0, cat.len() as int));
    assert forall|t: int|
        0 <= t < n && cat[t].registered implies seq_has(full, #[trigger] (t as usize)) by {
        if seq_has(comps0, t as usize) {
            crate::lookup::lemma_first_pos_props(comps0, t as usize);
            let i = crate::lookup::first_pos(comps0, t as usize)->Some_0;
            assert(full[i] == t as usize);
            crate::lookup::lemma_first_pos_props(full, t as usize);
            if !seq_has(full, t as usize) {
                assert(full[i] != t as usize);
            }
        } else {
            lemma_new_components_member(cat, comps0, t, cat.len() as int);
            let j = choose|j: int|
                0 <= j < new_components(cat, comps0, cat.len() as int).len() && new_components(
                    cat,
                    comps0,
                    cat.len() as int,
                )[j].type_id == t as usize;
            assert(full[comps0.len() + j] == t as usize);
            crate::lookup::lemma_first_pos_props(full, t as usize);
            if !seq_has(full, t as usize) {
                assert(full[comps0.len() + j] != t as usize);
            }
        }
    }
}

/// An unannounced registered type appears in the pass's announcement list.
proof fn lemma_new_components_member(cat: Seq<SchemaEntry>, comps: Seq<usize>, t: int, n: int)
    requires
        0 <= t < n <= cat.len(),
        cat[t].registered,
        !seq_has(comps, t as usize),
    ensures
        exists|j: int|
            0 <= j < new_components(cat, comps, n).len() && new_components(
                cat,
                comps,
                n,
            )[j].type_id == t as usize,
    decreases n,
{
    let cur = new_components(cat, comps, n);
    let prev = new_components(cat, comps, n - 1);
    if t == n - 1 {
        assert(cur[prev.len() as int].type_id == t as usize);
    } else {
        lemma_new_components_member(cat, comps, t, n - 1);
        let j = choose|j: int| 0 <= j < prev.len() && prev[j].type_id == t as usize;
        assert(cur[j] == prev[j]);
    }
}

/// Idempotence at the observer entry point: after any first pass — which
/// leaves the announce flags set, every registered type announced, and the
/// baseline synced — the next pass's whole event list is empty: no
/// announcements, no removals, no per-object deltas.
pub proof fn lemma_pass_events_idempotent(
    cat: Seq<SchemaEntry>,
    scheds: Seq<String>,
    store: StoreView,
    comps: Seq<usize>,
    baseline: Seq<KeyedEntryView<Seq<usize>>>,
    last_seen: u64,
    disabled: Seq<KeyedEntryView<ValueView>>,
    allowed: Seq<usize>,
    cache: Seq<KeyedEntryView<ValueView>>,
)
    requires
        store.wf(),
        synced(store, baseline, last_seen),
        forall|t: int|
            0 <= t < cat.len() && cat[t].registered ==> seq_has(comps, #[trigger] (t as usize)),
    ensures
        pass_events(cat, scheds, store, true, comps, baseline, true, last_seen, disabled, allowed, cache)
            =~= Seq::<EventView>::empty(),
{
    lemma_new_components_covered(cat, comps, cat.len() as int);
    lemma_removal_events_empty(baseline, store, baseline.len() as int);
    lemma_live_events_empty(
        cat,
        store,
        baseline,
        kfilter(disabled, |x: u64| store.live(x)),
        allowed,
        kfilter(cache, |x: u64| store.live(x)),
        last_seen,
        store.slots.len() as int,
    );
}

/// Idempotence at the observer entry point, composed: the hypotheses are
/// exactly what `get_inspector_events` ensures of an observer's entry after
/// a pass (announce flags set, announced set extended by that pass's
/// `new_components`, baseline read as `baseline_after_at`, last-seen tick
/// equal to the store tick), and the conclusion is that a second pass with
/// no intervening mutation owes that observer nothing at all.
pub proof fn lemma_entry_pass_idempotent(
    cat: Seq<SchemaEntry>,
    scheds: Seq<String>,
    store: StoreView,
    pre_comps: Seq<usize>,
    pre_baseline: Seq<KeyedEntryView<Seq<usize>>>,
    pre_last: u64,
    post_comps: Seq<usize>,
    post_baseline: Seq<KeyedEntryView<Seq<usize>>>,
    disabled: Seq<KeyedEntryView<ValueView>>,
    allowed: Seq<usize>,
    cache: Seq<KeyedEntryView<ValueView>>,
)
    requires
        store.wf(),
        kdistinct(post_baseline),
        forall|k: int|
            0 <= k < post_baseline.len() ==> (#[trigger] post_baseline[k]).type_id
                == BASELINE_SLOT,
        kdistinct(pre_baseline),
        forall|k: int|
            0 <= k < pre_baseline.len() ==> crate::tracker::types_distinct(
                (#[trigger] pre_baseline[k]).value,
            ),
        forall|o: u64|
            #![trigger klookup(post_baseline, o, BASELINE_SLOT)]
            klookup(post_baseline, o, BASELINE_SLOT) == baseline_after_at(
                store,
                pre_baseline,
                pre_last,
                o,
            ),
        post_comps == pre_comps + component_ids(
            new_components(cat, pre_comps, cat.len() as int),
        ),
    ensures
        pass_events(cat, scheds, store, true, post_comps, post_baseline, true, store.tick, disabled, allowed, cache)
            =~= Seq::<EventView>::empty(),
{
    lemma_pass_establishes_sync(store, pre_baseline, pre_last, post_baseline);
    lemma_components_after_covers(cat, pre_comps, cat.len() as int);
    lemma_pass_events_idempotent(
        cat,
        scheds,
        store,
        post_comps,
        post_baseline,
        store.tick,
        disabled,
        allowed,
        cache,
    );
}

/// Dropping dead objects from the overlay cannot break mutual exclusion.
///
/// Together with the `exclusion_ok` clause in the `ensures` of every
/// command, this covers all ways the overlay ever changes: at all times, no
/// (object, type) pair is live in the store and present in the overlay at
/// once.
pub proof fn lemma_gc_preserves_exclusion(
    store: StoreView,
    disabled: Seq<KeyedEntryView<ValueView>>,
)
    requires
        exclusion_ok(store, disabled),
    ensures
        exclusion_ok(store, kfilter(disabled, |x: u64| store.live(x))),
        keys_live(store, kfilter(disabled, |x: u64| store.live(x))),
{
    let gcd = kfilter(disabled, |x: u64| store.live(x));
    assert forall|o: u64, t: usize|
        store.live(o) && store.slot_of(o).has_attr(t) implies !#[trigger] khas(gcd, o, t) by {
        crate::keyed::lemma_kfilter_lookup(disabled, |x: u64| store.live(x), o, t);
        assert(!khas(disabled, o, t));
    }
    assert forall|o: u64, t: usize| #[trigger] khas(gcd, o, t) implies store.live(o) by {
        crate::keyed::lemma_kfilter_lookup(disabled, |x: u64| store.live(x), o, t);
    }
}

/// Cleanup on destroy: while every side-store key refers to a live object —
/// which despawning maintains by purging the bookkeeping of everything it
/// destroys — an identifier that is not live observes no stale entry. A
/// freshly spawned identifier was not live before its spawn, so a respawn
/// can never see the overlay or cache data of the object it replaces.
pub proof fn lemma_dead_id_unseen<W>(
    store: StoreView,
    entries: Seq<KeyedEntryView<W>>,
    id: u64,
    t: usize,
)
    requires
        keys_live(store, entries),
        !store.live(id),
    ensures
        !khas(entries, id, t),
{
    if khas(entries, id, t) {
        assert(store.live(id));
    }
}

/// Toggle inverse law: disabling a present attribute and enabling it again
/// restores the object's attribute set and payloads and the overlay,
/// exactly — only the modification stamp of the toggled attribute moves.
///
/// The two hypothesis blocks are the exact post-states of
/// `ToggleComponent::execute` for its disable and enable outcomes.
pub proof fn lemma_toggle_roundtrip(
    s: SlotView,
    s1: SlotView,
    s2: SlotView,
    dis0: Seq<KeyedEntryView<ValueView>>,
    dis1: Seq<KeyedEntryView<ValueView>>,
    dis2: Seq<KeyedEntryView<ValueView>>,
    o: u64,
    t: usize,
    stamp: u64,
)
    requires
        crate::store::attrs_distinct(s.attrs),
        s.has_attr(t),
        !khas(dis0, o, t),
        // the disable step, as ToggleComponent ensures it
        s1 == (SlotView { attrs: s.attrs.remove(s.attr_pos(t)->Some_0), ..s }),
        dis1 == dis0.push(KeyedEntryView { entity: o, type_id: t, value: s.attr_at(t).value }),
        // the enable step, as ToggleComponent ensures it
        s2 == (SlotView {
            attrs: s1.attrs.push(
                AttrView { type_id: t, value: klookup(dis1, o, t)->Some_0, modified: stamp },
            ),
            ..s1
        }),
        forall|o2: u64, t2: usize|
            #![trigger klookup(dis2, o2, t2)]
            klookup(dis2, o2, t2) == (if o2 == o && t2 == t {
                None
            } else {
                klookup(dis1, o2, t2)
            }),
    ensures
        forall|t2: usize| #[trigger] s2.has_attr(t2) == s.has_attr(t2),
        forall|t2: usize|
            t2 != t && s.has_attr(t2) ==> #[trigger] s2.attr_at(t2) == s.attr_at(t2),
        s2.attr_at(t).value == s.attr_at(t).value && s2.attr_at(t).type_id == t,
        forall|o2: u64, t2: usize| #[trigger] klookup(dis2, o2, t2) == klookup(dis0, o2, t2),
        s2.generation == s.generation && s2.alive == s.alive && s2.visible == s.visible
            && s2.parent == s.parent,
{
    crate::lookup::lemma_first_pos_props(s.attr_keys(), t);
    let p = s.attr_pos(t)->Some_0;
    assert(s.attr_keys()[p] == t);
    assert(s.attrs[p].type_id == t);
    crate::store::lemma_slot_attrs_remove(s, s1, p);
    assert(!s1.has_attr(t));
    crate::keyed::lemma_klookup_push(
        dis0,
        KeyedEntryView { entity: o, type_id: t, value: s.attr_at(t).value },
        o,
        t,
    );
    assert(klookup(dis1, o, t) == Some(s.attr_at(t).value));
    let e = AttrView { type_id: t, value: s.attr_at(t).value, modified: stamp };
    crate::store::lemma_slot_attrs_push(s1, s2, e);
    assert forall|t2: usize| #[trigger] s2.has_attr(t2) == s.has_attr(t2) by {
        if t2 != t {
            assert(s1.has_attr(t2) == s.has_attr(t2));
            assert(s2.has_attr(t2) == s1.has_attr(t2));
        }
    }
    assert forall|t2: usize|
        t2 != t && s.has_attr(t2) implies #[trigger] s2.attr_at(t2) == s.attr_at(t2) by {
        assert(s1.has_attr(t2) == s.has_attr(t2));
        assert(s1.attr_at(t2) == s.attr_at(t2));
        assert(s2.has_attr(t2) == s1.has_attr(t2));
        assert(s2.attr_at(t2) == s1.attr_at(t2));
    }
    assert forall|o2: u64, t2: usize| #[trigger] klookup(dis2, o2, t2) == klookup(
        dis0,
        o2,
        t2,
    ) by {
        crate::keyed::lemma_klookup_push(
            dis0,
            KeyedEntryView { entity: o, type_id: t, value: s.attr_at(t).value },
            o2,
            t2,
        );
    }
}

/// The toggle inverse law across two observations: disable the attribute
/// and run a diff, enable it and run another — the observer's known type
/// set for the object ends exactly where it began, as if nothing happened.
///
/// `last0` and `last1` are the two passes' window bases; the only stamp
/// inside either window is the re-insertion stamp of the toggled attribute.
pub proof fn lemma_toggle_baseline_neutral(
    s: SlotView,
    s1: SlotView,
    s2: SlotView,
    types0: Seq<usize>,
    t: usize,
    stamp: u64,
    last0: u64,
    last1: u64,
)
    requires
        crate::store::attrs_distinct(s.attrs),
        crate::tracker::types_distinct(types0),
        s.has_attr(t),
        // the disable step removed exactly t
        s1.attrs == s.attrs.remove(s.attr_pos(t)->Some_0),
        // the enable step re-inserted it with a fresh stamp
        s2.attrs == s1.attrs.push(
            AttrView { type_id: t, value: s.attr_at(t).value, modified: stamp },
        ),
        stamp > last1,
        // no other mutation falls inside either observation window
        forall|j: int| 0 <= j < s1.attrs.len() ==> (#[trigger] s1.attrs[j]).modified <= last0,
        forall|j: int| 0 <= j < s1.attrs.len() ==> (#[trigger] s1.attrs[j]).modified <= last1,
        // the baseline tracked exactly the live attribute set
        forall|t2: usize| #[trigger] seq_has(types0, t2) == s.has_attr(t2),
    ensures
        forall|t2: usize|
            #[trigger] seq_has(
                known_types_after(known_types_after(types0, s1, last0), s2, last1),
                t2,
            ) == seq_has(types0, t2),
{
    crate::lookup::lemma_first_pos_props(s.attr_keys(), t);
    let p = s.attr_pos(t)->Some_0;
    assert(s.attrs[p].type_id == t);
    crate::store::lemma_slot_attrs_remove(s, s1, p);
    assert forall|a: int, b: int|
        0 <= a < b < s1.attrs.len() implies s1.attrs[a].type_id != s1.attrs[b].type_id by {
        let a0 = if a < p {
            a
        } else {
            a + 1
        };
        let b0 = if b < p {
            b
        } else {
            b + 1
        };
        assert(s1.attrs[a] == s.attrs[a0] && s1.attrs[b] == s.attrs[b0]);
    }
    let types1 = known_types_after(types0, s1, last0);
    crate::tracker::lemma_known_types_after_has(types0, s1, last0);
    assert forall|t2: usize| #[trigger] seq_has(types1, t2) == (seq_has(types0, t2) && t2 != t) by {
        if t2 != t {
            assert(s1.has_attr(t2) == s.has_attr(t2));
            if seq_has(types0, t2) {
                assert(s1.attr_at(t2) == s.attr_at(t2));
            }
        } else {
            assert(!s1.has_attr(t));
        }
    }
    let e = AttrView { type_id: t, value: s.attr_at(t).value, modified: stamp };
    crate::store::lemma_slot_attrs_push(s1, s2, e);
    assert forall|a: int, b: int|
        0 <= a < b < s2.attrs.len() implies s2.attrs[a].type_id != s2.attrs[b].type_id by {
        if b == s2.attrs.len() - 1 {
            assert(s2.attrs[a] == s1.attrs[a]);
            assert(s2.attrs[b] == e);
            if s1.attrs[a].type_id == t {
                crate::lookup::lemma_first_pos_found(s1.attr_keys(), t, a);
            }
        } else {
            assert(s2.attrs[a] == s1.attrs[a] && s2.attrs[b] == s1.attrs[b]);
        }
    }
    crate::tracker::lemma_known_types_after_has(types1, s2, last1);
    assert forall|t2: usize|
        #[trigger] seq_has(known_types_after(types1, s2, last1), t2) == seq_has(types0, t2) by {
        if t2 == t {
            assert(s2.has_attr(t));
            assert(s2.attr_at(t) == e);
            assert(seq_has(known_types_after(types1, s2, last1), t));
            assert(seq_has(types0, t));
        } else {
            assert(s2.has_attr(t2) == s1.has_attr(t2));
            if s1.has_attr(t2) {
                assert(s2.attr_at(t2) == s1.attr_at(t2));
                if s1.attr_at(t2).modified > last1 {
                    let q = s1.attr_pos(t2)->Some_0;
                    crate::lookup::lemma_first_pos_props(s1.attr_keys(), t2);
                    assert(s1.attrs[q] == s1.attr_at(t2));
                }
            }
            assert(s1.has_attr(t2) == s.has_attr(t2));
        }
    }
}

/// Whether a windowed attribute's change report survives deep comparison.
pub open spec fn reportable(
    cat: Seq<SchemaEntry>,
    o: u64,
    e: AttrView,
    allowed: Seq<usize>,
    cache: Seq<KeyedEntryView<ValueView>>,
) -> bool {
    &&& !spec_zero_sized(cat, e.type_id)
    &&& spec_encode(cat, e.type_id, e.value) is Some
    &&& !(seq_has(allowed, e.type_id) && klookup(cache, o, e.type_id) == spec_encode(
        cat,
        e.type_id,
        e.value,
    ))
}

/// Deep-compare, first write: a windowed serializable attribute whose
/// serialization differs from the cache entry (or has none) is reported,
/// and the pass leaves exactly that serialization in the cache.
pub proof fn lemma_deep_compare_first_report(
    cat: Seq<SchemaEntry>,
    store: StoreView,
    baseline: Seq<KeyedEntryView<Seq<usize>>>,
    o: u64,
    e: AttrView,
    types: Seq<usize>,
    disabled: Seq<KeyedEntryView<ValueView>>,
    allowed: Seq<usize>,
    cache: Seq<KeyedEntryView<ValueView>>,
    last_seen: u64,
)
    requires
        e.modified > last_seen,
        reportable(cat, o, e, allowed, cache),
        store.live(o),
        store.slot_of(o).has_attr(e.type_id),
        store.slot_of(o).attr_at(e.type_id) == e,
        khas(baseline, o, BASELINE_SLOT),
        seq_has(allowed, e.type_id),
    ensures
        attr_change(cat, o, e, types, disabled, allowed, cache, last_seen) == seq![
            ChangeView {
                type_id: e.type_id,
                disabled: khas(disabled, o, e.type_id),
                value: spec_encode(cat, e.type_id, e.value),
            },
        ],
        crate::tracker::cache_after_at(cat, store, baseline, allowed, cache, last_seen, o, e.type_id)
            == spec_encode(cat, e.type_id, e.value),
{
    assert(crate::tracker::known_cache_write(
        cat,
        store.slot_of(o),
        allowed,
        last_seen,
        e.type_id,
    ));
}

/// Deep-compare suppression: when the cache already holds the attribute's
/// serialization and the type opted in, a later pass reports nothing for
/// it, even though the store's modification stamp moved again.
///
/// With the cache hypothesis discharged by `lemma_deep_compare_first_report`
/// for the previous pass, this is the law that writing the same value twice
/// produces one event on the first write and none on the second.
pub proof fn lemma_deep_compare_suppression(
    cat: Seq<SchemaEntry>,
    o: u64,
    e: AttrView,
    types: Seq<usize>,
    disabled: Seq<KeyedEntryView<ValueView>>,
    allowed: Seq<usize>,
    cache: Seq<KeyedEntryView<ValueView>>,
    last_seen: u64,
)
    requires
        seq_has(allowed, e.type_id),
        spec_encode(cat, e.type_id, e.value) is Some,
        klookup(cache, o, e.type_id) == spec_encode(cat, e.type_id, e.value),
        !spec_zero_sized(cat, e.type_id),
    ensures
        attr_change(cat, o, e, types, disabled, allowed, cache, last_seen) =~= Seq::<
            ChangeView,
        >::empty(),
{
}

/// The number of attributes of this slot inside the observation window.
pub open spec fn windowed_count(attrs: Seq<AttrView>, last_seen: u64, n: int) -> int
    decreases n,
{
    if n <= 0 {
        0
    } else {
        windowed_count(attrs, last_seen, n - 1) + (if attrs[n - 1].modified > last_seen {
            1int
        } else {
            0int
        })
    }
}

/// The number of live objects with at least one windowed attribute.
pub open spec fn changed_slot_count(store: StoreView, last_seen: u64, n: int) -> int
    decreases n,
{
    if n <= 0 {
        0
    } else {
        changed_slot_count(store, last_seen, n - 1) + (if store.slots[n - 1].alive
            && windowed_count(
            store.slots[n - 1].attrs,
            last_seen,
            store.slots[n - 1].attrs.len() as int,
        ) > 0 {
            1int
        } else {
            0int
        })
    }
}

/// An event that changes exactly one attribute and removes none.
pub open spec fn single_change(e: EventView) -> bool {
    match e {
        EventView::Entity { entity: _, mutation } => match mutation {
            MutationView::Change { changes, removes } => changes.len() == 1 && removes.len() == 0,
            MutationView::Remove => false,
        },
        _ => false,
    }
}

/// Every windowed, reportable attribute contributes exactly one change.
proof fn lemma_known_changes_count(
    cat: Seq<SchemaEntry>,
    o: u64,
    attrs: Seq<AttrView>,
    types: Seq<usize>,
    disabled: Seq<KeyedEntryView<ValueView>>,
    allowed: Seq<usize>,
    cache: Seq<KeyedEntryView<ValueView>>,
    last_seen: u64,
    n: int,
)
    requires
        forall|j: int|
            0 <= j < n && (#[trigger] attrs[j]).modified > last_seen ==> reportable(
                cat,
                o,
                attrs[j],
                allowed,
                cache,
            ),
    ensures
        known_changes(cat, o, attrs, types, disabled, allowed, cache, last_seen, n).len()
            == windowed_count(attrs, last_seen, n),
    decreases n,
{
    if n > 0 {
        lemma_known_changes_count(
            cat,
            o,
            attrs,
            types,
            disabled,
            allowed,
            cache,
            last_seen,
            n - 1,
        );
        let e = attrs[n - 1];
        if e.modified > last_seen {
            assert(reportable(cat, o, e, allowed, cache));
            assert(attr_change(cat, o, e, types, disabled, allowed, cache, last_seen).len() == 1);
        }
    }
}

/// Minimality: against a baseline that knows exactly the live objects and
/// their attribute sets, a pass emits exactly one `Change` event per object
/// with a windowed attribute and nothing else; and if no object has more
/// than one windowed attribute, every emitted event changes exactly one
/// attribute and removes none. In particular, N independent
/// single-attribute mutations to N distinct objects yield exactly N events,
/// each with a single change.
pub proof fn lemma_diff_minimal(
    cat: Seq<SchemaEntry>,
    store: StoreView,
    baseline: Seq<KeyedEntryView<Seq<usize>>>,
    disabled: Seq<KeyedEntryView<ValueView>>,
    allowed: Seq<usize>,
    cache: Seq<KeyedEntryView<ValueView>>,
    last_seen: u64,
    n: int,
)
    requires
        store.wf(),
        kdistinct(baseline),
        forall|o: u64, t: usize| #[trigger] khas(baseline, o, t) ==> store.live(o),
        forall|o: u64| store.live(o) ==> #[trigger] khas(baseline, o, BASELINE_SLOT),
        forall|o: u64, t: usize|
            store.live(o) && #[trigger] seq_has(
                klookup(baseline, o, BASELINE_SLOT)->Some_0,
                t,
            ) ==> store.slot_of(o).has_attr(t),
        forall|i: int, j: int|
            0 <= i < store.slots.len() && store.slots[i].alive && 0 <= j
                < store.slots[i].attrs.len() && (#[trigger] store.slots[i].attrs[j]).modified
                > last_seen ==> reportable(
                cat,
                store.id_at(i),
                store.slots[i].attrs[j],
                allowed,
                cache,
            ),
        n <= store.slots.len(),
    ensures
        live_events(cat, store, baseline, disabled, allowed, cache, last_seen, n).len()
            == changed_slot_count(store, last_seen, n),
        (forall|i: int|
            0 <= i < store.slots.len() && store.slots[i].alive ==> windowed_count(
                (#[trigger] store.slots[i]).attrs,
                last_seen,
                store.slots[i].attrs.len() as int,
            ) <= 1) ==> forall|k: int|
            0 <= k < live_events(cat, store, baseline, disabled, allowed, cache, last_seen, n).len()
                ==> single_change(
                #[trigger] live_events(
                    cat,
                    store,
                    baseline,
                    disabled,
                    allowed,
                    cache,
                    last_seen,
                    n,
                )[k],
            ),
    decreases n,
{
    if n > 0 {
        lemma_diff_minimal(cat, store, baseline, disabled, allowed, cache, last_seen, n - 1);
        let i = n - 1;
        let slot = store.slots[i];
        let prev = live_events(cat, store, baseline, disabled, allowed, cache, last_seen, n - 1);
        let se = slot_events(cat, store, i, baseline, disabled, allowed, cache, last_seen);
        if slot.alive {
            let o = store.id_at(i);
            assert(slot.wf(store.tick));
            crate::store::lemma_id_roundtrip(i, slot.generation);
            assert(store.live(o));
            assert(store.slot_of(o) == slot);
            assert(khas(baseline, o, BASELINE_SLOT));
            let types = klookup(baseline, o, BASELINE_SLOT)->Some_0;
            lemma_known_changes_count(
                cat,
                o,
                slot.attrs,
                types,
                disabled,
                allowed,
                cache,
                last_seen,
                slot.attrs.len() as int,
            );
            assert forall|j: int| 0 <= j < types.len() implies slot.has_attr(
                #[trigger] types[j],
            ) by {
                crate::lookup::lemma_first_pos_props(types, types[j]);
                if !seq_has(types, types[j]) {
                    assert(types[j] != types[j]);
                }
            }
            lemma_removed_attrs_empty(types, slot, o, disabled, types.len() as int);
            let wc = windowed_count(slot.attrs, last_seen, slot.attrs.len() as int);
            if wc > 0 {
                assert(se.len() == 1);
            } else {
                assert(known_changes(
                    cat,
                    o,
                    slot.attrs,
                    types,
                    disabled,
                    allowed,
                    cache,
                    last_seen,
                    slot.attrs.len() as int,
                ).len() == 0);
                assert(se.len() == 0);
            }
            if (forall|i2: int|
                0 <= i2 < store.slots.len() && store.slots[i2].alive ==> windowed_count(
                    (#[trigger] store.slots[i2]).attrs,
                    last_seen,
                    store.slots[i2].attrs.len() as int,
                ) <= 1) {
                assert forall|k: int|
                    0 <= k < live_events(
                        cat,
                        store,
                        baseline,
                        disabled,
                        allowed,
                        cache,
                        last_seen,
                        n,
                    ).len() implies single_change(
                    #[trigger] live_events(
                        cat,
                        store,
                        baseline,
                        disabled,
                        allowed,
                        cache,
                        last_seen,
                        n,
                    )[k],
                ) by {
                    let cur = live_events(
                        cat,
                        store,
                        baseline,
                        disabled,
                        allowed,
                        cache,
                        last_seen,
                        n,
                    );
                    if k < prev.len() {
                        assert(cur[k] == prev[k]);
                    } else {
                        assert(cur[k] == se[k - prev.len()]);
                        assert(wc == 1);
                    }
                }
            }
        } else {
            assert(se.len() == 0);
        }
    }
}

} // verus!
