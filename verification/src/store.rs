//! The live object/attribute store.
//!
//! Objects live in generational slots: an object identifier packs a slot
//! index and a generation into one 64-bit handle, so a destroyed object's
//! handle is never revived by a later occupant of the same slot. Each object
//! carries a set of typed attributes stamped with the tick of their last
//! modification; the change tracker windows on those stamps.

use vstd::prelude::*;

use crate::lookup::{first_pos, lemma_first_pos_absent, lemma_first_pos_found, lemma_first_pos_props};
use crate::value::{EncodedValue, ValueView};

verus! {

/// One attribute attached to an object: a typed payload plus the tick at
/// which it was last modified.
pub struct AttrEntry {
    pub type_id: usize,
    pub value: EncodedValue,
    pub modified: u64,
}

/// Mathematical shape of an attribute.
pub struct AttrView {
    pub type_id: usize,
    pub value: ValueView,
    pub modified: u64,
}

impl View for AttrEntry {
    type V = AttrView;

    open spec fn view(&self) -> AttrView {
        AttrView { type_id: self.type_id, value: self.value@, modified: self.modified }
    }
}

/// One generational slot of the store.
pub struct Slot {
    pub generation: u32,
    pub alive: bool,
    pub visible: bool,
    pub parent: Option<u64>,
    pub attrs: Vec<AttrEntry>,
}

/// Mathematical shape of a slot.
pub struct SlotView {
    pub generation: u32,
    pub alive: bool,
    pub visible: bool,
    pub parent: Option<u64>,
    pub attrs: Seq<AttrView>,
}

/// The element-wise mathematical shape of an attribute vector.
pub open spec fn attrs_view(s: Seq<AttrEntry>) -> Seq<AttrView> {
    Seq::new(s.len(), |i: int| s[i]@)
}

impl View for Slot {
    type V = SlotView;

    open spec fn view(&self) -> SlotView {
        SlotView {
            generation: self.generation,
            alive: self.alive,
            visible: self.visible,
            parent: self.parent,
            attrs: attrs_view(self.attrs@),
        }
    }
}

/// The store: a vector of slots plus the current mutation tick.
pub struct Store {
    pub slots: Vec<Slot>,
    pub tick: u64,
}

/// Mathematical shape of the store.
pub struct StoreView {
    pub slots: Seq<SlotView>,
    pub tick: u64,
}

impl View for Store {
    type V = StoreView;

    open spec fn view(&self) -> StoreView {
        StoreView {
            slots: Seq::new(self.slots@.len(), |i: int| self.slots@[i]@),
            tick: self.tick,
        }
    }
}

/// Slot index packed in the low half of an object identifier.
pub open spec fn spec_id_index(id: u64) -> int {
    (id & 0xFFFF_FFFFu64) as int
}

/// Generation packed in the high half of an object identifier.
pub open spec fn spec_id_generation(id: u64) -> u64 {
    id >> 32u64
}

/// The identifier formed from a slot index and a generation.
pub open spec fn spec_make_id(index: int, generation: u32) -> u64 {
    (((generation as u64) << 32u64) | (index as u64)) as u64
}

impl SlotView {
    /// The attribute type identifiers of this slot, in storage order.
    pub open spec fn attr_keys(self) -> Seq<usize> {
        Seq::new(self.attrs.len(), |i: int| self.attrs[i].type_id)
    }

    /// Position of the attribute of type `t`, if present.
    pub open spec fn attr_pos(self, t: usize) -> Option<int> {
        first_pos(self.attr_keys(), t)
    }

    /// Whether an attribute of type `t` is present.
    pub open spec fn has_attr(self, t: usize) -> bool {
        self.attr_pos(t) is Some
    }

    /// The attribute of type `t`.
    pub open spec fn attr_at(self, t: usize) -> AttrView
        recommends
            self.has_attr(t),
    {
        self.attrs[self.attr_pos(t)->Some_0]
    }

    /// Well-formedness of one slot: a real generation, distinct attribute
    /// types, stamps that do not outrun the store tick, and no attributes on
    /// a dead slot.
    pub open spec fn wf(self, tick: u64) -> bool {
        &&& self.generation >= 1
        &&& forall|i: int, j: int|
            0 <= i < j < self.attrs.len() ==> self.attrs[i].type_id != self.attrs[j].type_id
        &&& forall|i: int| 0 <= i < self.attrs.len() ==> (#[trigger] self.attrs[i]).modified <= tick
        &&& (!self.alive ==> self.attrs.len() == 0)
    }
}

impl StoreView {
    /// Whether `id` addresses a live object.
    pub open spec fn live(self, id: u64) -> bool {
        &&& spec_id_index(id) < self.slots.len()
        &&& self.slots[spec_id_index(id)].alive
        &&& self.slots[spec_id_index(id)].generation as u64 == spec_id_generation(id)
    }

    /// The slot addressed by a live `id`.
    pub open spec fn slot_of(self, id: u64) -> SlotView
        recommends
            self.live(id),
    {
        self.slots[spec_id_index(id)]
    }

    /// The payload of attribute `t` on object `id`, if the object is live and
    /// carries it.
    pub open spec fn attr_value(self, id: u64, t: usize) -> Option<ValueView> {
        if self.live(id) && self.slot_of(id).has_attr(t) {
            Some(self.slot_of(id).attr_at(t).value)
        } else {
            None
        }
    }

    /// The identifier of the object occupying slot `i`.
    pub open spec fn id_at(self, i: int) -> u64
        recommends
            0 <= i < self.slots.len(),
    {
        spec_make_id(i, self.slots[i].generation)
    }

    /// Well-formedness of the whole store.
    pub open spec fn wf(self) -> bool {
        &&& self.slots.len() <= 0xFFFF_FFFF
        &&& forall|i: int| 0 <= i < self.slots.len() ==> (#[trigger] self.slots[i]).wf(self.tick)
    }
}

/// Packing and unpacking agree, for any in-range index and generation.
pub proof fn lemma_id_roundtrip(index: int, generation: u32)
    requires
        0 <= index < 0x1_0000_0000,
    ensures
        spec_id_index(spec_make_id(index, generation)) == index,
        spec_id_generation(spec_make_id(index, generation)) == generation as u64,
        generation >= 1 ==> spec_make_id(index, generation) != 0,
{
    let ix = index as u64;
    let g = generation as u64;
    assert((((g << 32u64) | ix) & 0xFFFF_FFFFu64) == ix && (((g << 32u64) | ix) >> 32u64) == g
        && (g >= 1 ==> ((g << 32u64) | ix) != 0) && ((g << 32u64) | ix) >= ix) by (bit_vector)
        requires
            ix < 0x1_0000_0000u64,
            g < 0x1_0000_0000u64,
    ;
}

/// Two live objects with distinct identifiers sit in distinct slots.
pub proof fn lemma_live_ids_distinct(s: StoreView, a: u64, b: u64)
    requires
        s.live(a),
        s.live(b),
        spec_id_index(a) == spec_id_index(b),
    ensures
        a == b,
{
    let ia = spec_id_index(a);
    assert((a & 0xFFFF_FFFFu64) | ((a >> 32u64) << 32u64) == a) by (bit_vector);
    assert((b & 0xFFFF_FFFFu64) | ((b >> 32u64) << 32u64) == b) by (bit_vector);
    assert(spec_id_generation(a) == spec_id_generation(b));
    assert(a as int == ((a & 0xFFFF_FFFFu64) | ((a >> 32u64) << 32u64)) as int);
}

impl Store {
    /// An empty store at tick zero.
    pub fn new() -> (s: Store)
        ensures
            s@.wf(),
            s@.slots.len() == 0,
            s@.tick == 0,
    {
        Store { slots: Vec::new(), tick: 0 }
    }

    /// The current mutation tick.
    pub fn current_tick(&self) -> (t: u64)
        ensures
            t == self@.tick,
    {
        self.tick
    }

    /// How many slots the store has ever allocated, live or dead.
    pub fn slot_count(&self) -> (n: usize)
        ensures
            n == self@.slots.len(),
    {
        self.slots.len()
    }

    /// Move time forward by one tick without touching any object.
    pub fn advance_tick(&mut self)
        requires
            old(self)@.wf(),
            old(self)@.tick < u64::MAX,
        ensures
            final(self)@.wf(),
            final(self)@.tick == old(self)@.tick + 1,
            final(self)@.slots =~= old(self)@.slots,
    {
        self.tick = self.tick + 1;
    }

    /// The slot index and generation check behind `live`.
    pub fn resolve(&self, id: u64) -> (r: Option<usize>)
        ensures
            match r {
                Some(i) => self@.live(id) && i == spec_id_index(id),
                None => !self@.live(id),
            },
    {
        proof {
            assert((id & 0xFFFF_FFFFu64) <= 0xFFFF_FFFFu64) by (bit_vector);
        }
        let index = (id & 0xFFFF_FFFF) as usize;
        let generation = id >> 32;
        if index < self.slots.len() {
            let slot = &self.slots[index];
            if slot.alive && slot.generation as u64 == generation {
                Some(index)
            } else {
                None
            }
        } else {
            None
        }
    }

    /// Whether `id` addresses a live object.
    pub fn is_live(&self, id: u64) -> (r: bool)
        ensures
            r == self@.live(id),
    {
        self.resolve(id).is_some()
    }

    /// Create a new empty object, reusing a dead slot under a fresh
    /// generation when one is free.
    pub fn spawn(&mut self, parent: Option<u64>) -> (id: u64)
        requires
            old(self)@.wf(),
            old(self)@.slots.len() < 0xFFFF_FFFF,
        ensures
            final(self)@.wf(),
            final(self)@.tick == old(self)@.tick,
            old(self)@.slots.len() <= final(self)@.slots.len() <= old(self)@.slots.len() + 1,
            final(self)@.live(id),
            !old(self)@.live(id),
            id != 0,
            final(self)@.slot_of(id).attrs.len() == 0,
            final(self)@.slot_of(id).parent == parent,
            final(self)@.slot_of(id).visible,
            forall|x: u64| x != id ==> final(self)@.live(x) == old(self)@.live(x),
            forall|x: u64|
                x != id && old(self)@.live(x) ==> final(self)@.slot_of(x) == old(self)@.slot_of(x),
    {
        let ghost pre = self@;
        let mut i: usize = 0;
        while i < self.slots.len()
            invariant
                i <= self.slots.len(),
                self@ == pre,
                pre == old(self)@,
                pre.wf(),
                pre.slots.len() < 0xFFFF_FFFF,
            decreases self.slots.len() - i,
        {
            if !self.slots[i].alive && self.slots[i].generation < u32::MAX {
                let generation = self.slots[i].generation + 1;
                self.slots[i] = Slot {
                    generation,
                    alive: true,
                    visible: true,
                    parent,
                    attrs: Vec::new(),
                };
                let id = ((generation as u64) << 32) | (i as u64);
                proof {
                    assert(pre.wf());
                    assert(i < pre.slots.len() <= 0xFFFF_FFFF);
                    lemma_id_roundtrip(i as int, generation);
                    assert(!pre.slots[i as int].alive);
                    assert(id == spec_make_id(i as int, generation));
                    assert(self@.slots =~= pre.slots.update(
                        i as int,
                        self@.slots[i as int],
                    ));
                    assert forall|x: u64| x != id implies self@.live(x) == pre.live(x) by {
                        if spec_id_index(x) == i as int {
                            lemma_id_recompose(x);
                            assert(!pre.live(x));
                            assert(!self@.live(x));
                        }
                    }
                }
                return id;
            }
            i = i + 1;
        }
        let generation: u32 = 1;
        let index = self.slots.len();
        self.slots.push(Slot { generation, alive: true, visible: true, parent, attrs: Vec::new() });
        let id = ((generation as u64) << 32) | (index as u64);
        proof {
            lemma_id_roundtrip(index as int, generation);
            assert(id == spec_make_id(index as int, generation));
            assert(self@.slots =~= pre.slots.push(self@.slots[index as int]));
            assert forall|x: u64| x != id implies self@.live(x) == pre.live(x) by {
                if spec_id_index(x) == index as int {
                    lemma_id_recompose(x);
                    assert(!self@.live(x));
                }
            }
        }
        id
    }

    /// Destroy one live object; its identifier goes dead and its attributes
    /// are dropped.
    pub fn despawn(&mut self, id: u64)
        requires
            old(self)@.wf(),
            old(self)@.live(id),
        ensures
            final(self)@.wf(),
            final(self)@.tick == old(self)@.tick,
            final(self)@.slots.len() == old(self)@.slots.len(),
            forall|x: u64| final(self)@.live(x) == (old(self)@.live(x) && x != id),
            forall|x: u64|
                x != id && old(self)@.live(x) ==> final(self)@.slot_of(x) == old(self)@.slot_of(x),
    {
        let ghost pre = self@;
        let index = self.resolve(id).unwrap();
        let slot = &mut self.slots[index];
        slot.alive = false;
        slot.attrs = Vec::new();
        proof {
            assert(self@.slots =~= pre.slots.update(
                index as int,
                self@.slots[index as int],
            ));
            assert forall|x: u64| self@.live(x) == (pre.live(x) && x != id) by {
                if spec_id_index(x) == index as int {
                    if pre.live(x) {
                        lemma_live_ids_distinct(pre, x, id);
                    }
                    assert(!self@.live(x));
                }
            }
        }
    }

    /// Attach a fresh attribute of type `t` to a live object that lacks it.
    pub fn insert_attr(&mut self, id: u64, t: usize, value: EncodedValue)
        requires
            old(self)@.wf(),
            old(self)@.live(id),
            !old(self)@.slot_of(id).has_attr(t),
            old(self)@.tick < u64::MAX,
        ensures
            final(self)@.wf(),
            final(self)@.tick == old(self)@.tick + 1,
            final(self)@.slots.len() == old(self)@.slots.len(),
            forall|x: u64| final(self)@.live(x) == old(self)@.live(x),
            forall|x: u64|
                x != id && old(self)@.live(x) ==> final(self)@.slot_of(x) == old(self)@.slot_of(x),
            final(self)@.slot_of(id) == (SlotView {
                attrs: old(self)@.slot_of(id).attrs.push(
                    AttrView {
                        type_id: t,
                        value: value@,
                        modified: (old(self)@.tick + 1) as u64,
                    },
                ),
                ..old(self)@.slot_of(id)
            }),
    {
        let ghost pre = self@;
        let index = self.resolve(id).unwrap();
        self.tick = self.tick + 1;
        let stamp = self.tick;
        let slot = &mut self.slots[index];
        slot.attrs.push(AttrEntry { type_id: t, value, modified: stamp });
        proof {
            assert(self@.slot_of(id).attrs =~= pre.slot_of(id).attrs.push(
                AttrView { type_id: t, value: value@, modified: stamp },
            ));
            assert(self@.slots =~= pre.slots.update(
                index as int,
                self@.slots[index as int],
            ));
            lemma_frame_after_slot_update(pre, self@, id);
            assert(self@.wf()) by {
                lemma_first_pos_props(pre.slot_of(id).attr_keys(), t);
                assert forall|k: int|
                    0 <= k < self@.slots.len() implies (#[trigger] self@.slots[k]).wf(self@.tick) by {
                    assert(pre.slots[k].wf(pre.tick));
                    if k == index as int {
                        assert forall|a: int|
                            0 <= a < pre.slot_of(id).attrs.len() implies pre.slot_of(
                            id,
                        ).attrs[a].type_id != t by {
                            assert(pre.slot_of(id).attr_keys()[a] == pre.slot_of(
                                id,
                            ).attrs[a].type_id);
                        }
                    }
                }
            }
        }
    }

    /// Overwrite the payload of an existing attribute in place.
    pub fn update_attr(&mut self, id: u64, t: usize, value: EncodedValue)
        requires
            old(self)@.wf(),
            old(self)@.live(id),
            old(self)@.slot_of(id).has_attr(t),
            old(self)@.tick < u64::MAX,
        ensures
            final(self)@.wf(),
            final(self)@.tick == old(self)@.tick + 1,
            final(self)@.slots.len() == old(self)@.slots.len(),
            forall|x: u64| final(self)@.live(x) == old(self)@.live(x),
            forall|x: u64|
                x != id && old(self)@.live(x) ==> final(self)@.slot_of(x) == old(self)@.slot_of(x),
            final(self)@.slot_of(id) == (SlotView {
                attrs: old(self)@.slot_of(id).attrs.update(
                    old(self)@.slot_of(id).attr_pos(t)->Some_0,
                    AttrView {
                        type_id: t,
                        value: value@,
                        modified: (old(self)@.tick + 1) as u64,
                    },
                ),
                ..old(self)@.slot_of(id)
            }),
    {
        let ghost pre = self@;
        let index = self.resolve(id).unwrap();
        self.tick = self.tick + 1;
        let stamp = self.tick;
        let slot = &mut self.slots[index];
        let position = find_attr_pos(&slot.attrs, t).unwrap();
        proof {
            let keys = Seq::new(
                attrs_view(slot.attrs@).len(),
                |i: int| attrs_view(slot.attrs@)[i].type_id,
            );
            assert(keys =~= pre.slot_of(id).attr_keys());
            lemma_first_pos_props(keys, t);
        }
        slot.attrs[position] = AttrEntry { type_id: t, value, modified: stamp };
        proof {
            let p = pre.slot_of(id).attr_pos(t)->Some_0;
            lemma_first_pos_props(pre.slot_of(id).attr_keys(), t);
            assert(p == position as int);
            assert(self@.slot_of(id).attrs =~= pre.slot_of(id).attrs.update(
                p,
                AttrView { type_id: t, value: value@, modified: stamp },
            ));
            assert(self@.slots =~= pre.slots.update(
                index as int,
                self@.slots[index as int],
            ));
            lemma_frame_after_slot_update(pre, self@, id);
            assert(self@.wf()) by {
                assert forall|k: int|
                    0 <= k < self@.slots.len() implies (#[trigger] self@.slots[k]).wf(self@.tick) by {
                    assert(pre.slots[k].wf(pre.tick));
                }
            }
        }
    }

    /// Detach and return the attribute of type `t` from a live object.
    pub fn take_attr(&mut self, id: u64, t: usize) -> (value: EncodedValue)
        requires
            old(self)@.wf(),
            old(self)@.live(id),
            old(self)@.slot_of(id).has_attr(t),
        ensures
            final(self)@.wf(),
            final(self)@.tick == old(self)@.tick,
            final(self)@.slots.len() == old(self)@.slots.len(),
            forall|x: u64| final(self)@.live(x) == old(self)@.live(x),
            forall|x: u64|
                x != id && old(self)@.live(x) ==> final(self)@.slot_of(x) == old(self)@.slot_of(x),
            value@ == old(self)@.slot_of(id).attr_at(t).value,
            final(self)@.slot_of(id) == (SlotView {
                attrs: old(self)@.slot_of(id).attrs.remove(
                    old(self)@.slot_of(id).attr_pos(t)->Some_0,
                ),
                ..old(self)@.slot_of(id)
            }),
    {
        let ghost pre = self@;
        let index = self.resolve(id).unwrap();
        let slot = &mut self.slots[index];
        let position = find_attr_pos(&slot.attrs, t).unwrap();
        proof {
            let keys = Seq::new(
                attrs_view(slot.attrs@).len(),
                |i: int| attrs_view(slot.attrs@)[i].type_id,
            );
            assert(keys =~= pre.slot_of(id).attr_keys());
            lemma_first_pos_props(keys, t);
        }
        let entry = slot.attrs.remove(position);
        proof {
            let p = pre.slot_of(id).attr_pos(t)->Some_0;
            lemma_first_pos_props(pre.slot_of(id).attr_keys(), t);
            assert(p == position as int);
            assert(self@.slot_of(id).attrs =~= pre.slot_of(id).attrs.remove(p));
            assert(self@.slots =~= pre.slots.update(
                index as int,
                self@.slots[index as int],
            ));
            lemma_frame_after_slot_update(pre, self@, id);
            assert(self@.wf()) by {
                assert forall|k: int|
                    0 <= k < self@.slots.len() implies (#[trigger] self@.slots[k]).wf(self@.tick) by {
                    assert(pre.slots[k].wf(pre.tick));
                    if k == index as int {
                        let sa = pre.slot_of(id).attrs;
                        let na = self@.slots[k].attrs;
                        assert forall|a: int, b: int|
                            0 <= a < b < na.len() implies na[a].type_id != na[b].type_id by {
                            let a0 = if a < p { a } else { a + 1 };
                            let b0 = if b < p { b } else { b + 1 };
                            assert(na[a] == sa[a0] && na[b] == sa[b0]);
                        }
                    }
                }
            }
        }
        entry.value
    }

    /// Borrow the payload of attribute `t` on live object `id`.
    pub fn get_attr_value(&self, id: u64, t: usize) -> (r: Option<&EncodedValue>)
        requires
            self@.live(id),
        ensures
            match r {
                Some(v) => self@.slot_of(id).has_attr(t) && v@ == self@.slot_of(id).attr_at(
                    t,
                ).value,
                None => !self@.slot_of(id).has_attr(t),
            },
    {
        let index = self.resolve(id).unwrap();
        match find_attr_pos(&self.slots[index].attrs, t) {
            Some(position) => {
                proof {
                    let keys = Seq::new(
                        attrs_view(self.slots@[index as int].attrs@).len(),
                        |i: int| attrs_view(self.slots@[index as int].attrs@)[i].type_id,
                    );
                    assert(keys =~= self@.slot_of(id).attr_keys());
                    lemma_first_pos_props(keys, t);
                }
                Some(&self.slots[index].attrs[position].value)
            },
            None => {
                proof {
                    let keys = Seq::new(
                        attrs_view(self.slots@[index as int].attrs@).len(),
                        |i: int| attrs_view(self.slots@[index as int].attrs@)[i].type_id,
                    );
                    assert(keys =~= self@.slot_of(id).attr_keys());
                }
                None
            },
        }
    }

    /// Whether live object `id` currently carries an attribute of type `t`.
    pub fn has_attr(&self, id: u64, t: usize) -> (r: bool)
        requires
            self@.live(id),
        ensures
            r == self@.slot_of(id).has_attr(t),
    {
        let index = self.resolve(id).unwrap();
        find_attr_pos(&self.slots[index].attrs, t).is_some()
    }

    /// The visible flag of a live object.
    pub fn get_visible(&self, id: u64) -> (r: bool)
        requires
            self@.live(id),
        ensures
            r == self@.slot_of(id).visible,
    {
        let index = self.resolve(id).unwrap();
        self.slots[index].visible
    }

    /// Set the visible flag of a live object.
    pub fn set_visible(&mut self, id: u64, visible: bool)
        requires
            old(self)@.wf(),
            old(self)@.live(id),
        ensures
            final(self)@.wf(),
            final(self)@.tick == old(self)@.tick,
            final(self)@.slots.len() == old(self)@.slots.len(),
            forall|x: u64| final(self)@.live(x) == old(self)@.live(x),
            forall|x: u64|
                x != id && old(self)@.live(x) ==> final(self)@.slot_of(x) == old(self)@.slot_of(x),
            final(self)@.slot_of(id) == (SlotView { visible, ..old(self)@.slot_of(id) }),
    {
        let ghost pre = self@;
        let index = self.resolve(id).unwrap();
        let slot = &mut self.slots[index];
        slot.visible = visible;
        proof {
            assert(self@.slot_of(id).attrs =~= pre.slot_of(id).attrs);
            assert(self@.slots =~= pre.slots.update(
                index as int,
                self@.slots[index as int],
            ));
            lemma_frame_after_slot_update(pre, self@, id);
        }
    }

    /// The parent link of a live object.
    pub fn parent_of(&self, id: u64) -> (r: Option<u64>)
        requires
            self@.live(id),
        ensures
            r == self@.slot_of(id).parent,
    {
        let index = self.resolve(id).unwrap();
        self.slots[index].parent
    }

    /// Rewire the parent link of a live object.
    pub fn set_parent(&mut self, id: u64, parent: Option<u64>)
        requires
            old(self)@.wf(),
            old(self)@.live(id),
        ensures
            final(self)@.wf(),
            final(self)@.tick == old(self)@.tick,
            final(self)@.slots.len() == old(self)@.slots.len(),
            forall|x: u64| final(self)@.live(x) == old(self)@.live(x),
            forall|x: u64|
                x != id && old(self)@.live(x) ==> final(self)@.slot_of(x) == old(self)@.slot_of(x),
            final(self)@.slot_of(id) == (SlotView { parent, ..old(self)@.slot_of(id) }),
    {
        let ghost pre = self@;
        let index = self.resolve(id).unwrap();
        let slot = &mut self.slots[index];
        slot.parent = parent;
        proof {
            assert(self@.slot_of(id).attrs =~= pre.slot_of(id).attrs);
            assert(self@.slots =~= pre.slots.update(
                index as int,
                self@.slots[index as int],
            ));
            lemma_frame_after_slot_update(pre, self@, id);
        }
    }
}

/// Any identifier is recomposed from its index and generation halves.
pub proof fn lemma_id_recompose(x: u64)
    ensures
        x == spec_make_id(spec_id_index(x), (spec_id_generation(x)) as u32),
        spec_id_generation(x) <= 0xFFFF_FFFFu64,
        0 <= spec_id_index(x) <= 0xFFFF_FFFFu64,
{
    assert(((((x >> 32u64) as u32) as u64) << 32u64) | ((x & 0xFFFF_FFFFu64) as u64) == x
        && (x >> 32u64) <= 0xFFFF_FFFFu64 && (x & 0xFFFF_FFFFu64) <= 0xFFFF_FFFFu64)
        by (bit_vector);
}

/// After a change confined to the slot of `id`, every other live object keeps
/// its liveness and its slot.
proof fn lemma_frame_after_slot_update(pre: StoreView, post: StoreView, id: u64)
    requires
        pre.live(id),
        post.slots.len() == pre.slots.len(),
        post.slots =~= pre.slots.update(spec_id_index(id), post.slots[spec_id_index(id)]),
        post.slots[spec_id_index(id)].alive == pre.slots[spec_id_index(id)].alive,
        post.slots[spec_id_index(id)].generation == pre.slots[spec_id_index(id)].generation,
    ensures
        forall|x: u64| post.live(x) == pre.live(x),
        forall|x: u64| x != id && pre.live(x) ==> post.slot_of(x) == pre.slot_of(x),
{
    assert forall|x: u64| post.live(x) == pre.live(x) by {
        if spec_id_index(x) == spec_id_index(id) {
            assert(post.slots[spec_id_index(x)].alive == pre.slots[spec_id_index(x)].alive);
        }
    }
    assert forall|x: u64| x != id && pre.live(x) implies post.slot_of(x) == pre.slot_of(x) by {
        if spec_id_index(x) == spec_id_index(id) {
            lemma_live_ids_distinct(pre, x, id);
        }
    }
}

/// Pairwise distinctness of a slot's attribute types.
pub open spec fn attrs_distinct(s: Seq<AttrView>) -> bool {
    forall|i: int, j: int| 0 <= i < j < s.len() ==> s[i].type_id != s[j].type_id
}

/// How appending an attribute changes a slot's lookups.
pub proof fn lemma_slot_attrs_push(s: SlotView, s2: SlotView, e: AttrView)
    requires
        !s.has_attr(e.type_id),
        s2.attrs == s.attrs.push(e),
    ensures
        s2.has_attr(e.type_id),
        s2.attr_at(e.type_id) == e,
        forall|t: usize|
            t != e.type_id ==> #[trigger] s2.has_attr(t) == s.has_attr(t) && (s.has_attr(t)
                ==> s2.attr_at(t) == s.attr_at(t)),
{
    assert(s2.attr_keys() =~= s.attr_keys().push(e.type_id));
    lemma_first_pos_props(s.attr_keys(), e.type_id);
    crate::lookup::lemma_first_pos_push(s.attr_keys(), e.type_id, e.type_id);
    assert(s2.attr_pos(e.type_id) == Some(s.attrs.len() as int));
    assert(s2.attr_at(e.type_id) == e);
    assert forall|t: usize|
        t != e.type_id implies #[trigger] s2.has_attr(t) == s.has_attr(t) && (s.has_attr(t)
        ==> s2.attr_at(t) == s.attr_at(t)) by {
        crate::lookup::lemma_first_pos_push(s.attr_keys(), e.type_id, t);
        if s.has_attr(t) {
            lemma_first_pos_props(s.attr_keys(), t);
            let i = s.attr_pos(t)->Some_0;
            assert(s2.attrs[i] == s.attrs[i]);
        }
    }
}

/// How replacing the attribute at its own position changes a slot's lookups.
pub proof fn lemma_slot_attrs_update(s: SlotView, s2: SlotView, e: AttrView)
    requires
        attrs_distinct(s.attrs),
        s.has_attr(e.type_id),
        s2.attrs == s.attrs.update(s.attr_pos(e.type_id)->Some_0, e),
    ensures
        s2.has_attr(e.type_id),
        s2.attr_at(e.type_id) == e,
        forall|t: usize|
            t != e.type_id ==> #[trigger] s2.has_attr(t) == s.has_attr(t) && (s.has_attr(t)
                ==> s2.attr_at(t) == s.attr_at(t)),
{
    lemma_first_pos_props(s.attr_keys(), e.type_id);
    let p = s.attr_pos(e.type_id)->Some_0;
    assert(s2.attr_keys() =~= s.attr_keys());
    assert(s2.attr_pos(e.type_id) == Some(p));
    assert(s2.attr_at(e.type_id) == e);
    assert forall|t: usize|
        t != e.type_id implies #[trigger] s2.has_attr(t) == s.has_attr(t) && (s.has_attr(t)
        ==> s2.attr_at(t) == s.attr_at(t)) by {
        if s.has_attr(t) {
            lemma_first_pos_props(s.attr_keys(), t);
            let i = s.attr_pos(t)->Some_0;
            assert(s.attr_keys()[i] == t);
            assert(i != p);
            assert(s2.attrs[i] == s.attrs[i]);
        }
    }
}

/// How detaching the attribute at position `p` changes a slot's lookups.
pub proof fn lemma_slot_attrs_remove(s: SlotView, s2: SlotView, p: int)
    requires
        attrs_distinct(s.attrs),
        0 <= p < s.attrs.len(),
        s2.attrs == s.attrs.remove(p),
    ensures
        !s2.has_attr(s.attrs[p].type_id),
        forall|t: usize|
            t != s.attrs[p].type_id ==> #[trigger] s2.has_attr(t) == s.has_attr(t) && (
            s.has_attr(t) ==> s2.attr_at(t) == s.attr_at(t)),
{
    let t0 = s.attrs[p].type_id;
    assert forall|k: int| 0 <= k < s2.attrs.len() implies s2.attr_keys()[k] == (if k < p {
        s.attr_keys()[k]
    } else {
        s.attr_keys()[k + 1]
    }) by {
        if k < p {
            assert(s2.attrs[k] == s.attrs[k]);
        } else {
            assert(s2.attrs[k] == s.attrs[k + 1]);
        }
    }
    assert forall|k: int| 0 <= k < s2.attrs.len() implies s2.attr_keys()[k] != t0 by {
        let k0 = if k < p { k } else { k + 1 };
        assert(s2.attr_keys()[k] == s.attr_keys()[k0]);
        assert(s.attrs[k0].type_id == s2.attr_keys()[k]);
    }
    lemma_first_pos_absent(s2.attr_keys(), t0);
    assert forall|t: usize|
        t != t0 implies #[trigger] s2.has_attr(t) == s.has_attr(t) && (s.has_attr(t)
        ==> s2.attr_at(t) == s.attr_at(t)) by {
        lemma_first_pos_props(s.attr_keys(), t);
        match s.attr_pos(t) {
            Some(i) => {
                assert(i != p);
                let i2 = if i < p { i } else { i - 1 };
                assert(s2.attr_keys()[i2] == s.attr_keys()[i]);
                assert(s2.attrs[i2] == s.attrs[i]);
                assert forall|k: int| 0 <= k < i2 implies s2.attr_keys()[k] != t by {
                    let k0 = if k < p { k } else { k + 1 };
                    assert(s2.attr_keys()[k] == s.attr_keys()[k0]);
                    assert(k0 < i);
                }
                lemma_first_pos_found(s2.attr_keys(), t, i2);
            },
            None => {
                assert forall|k: int| 0 <= k < s2.attrs.len() implies s2.attr_keys()[k] != t by {
                    let k0 = if k < p { k } else { k + 1 };
                    assert(s2.attr_keys()[k] == s.attr_keys()[k0]);
                }
                lemma_first_pos_absent(s2.attr_keys(), t);
            },
        }
    }
}

/// Scan an attribute vector for type `t` from the front.
pub fn find_attr_pos(attrs: &Vec<AttrEntry>, t: usize) -> (r: Option<usize>)
    ensures
        match r {
            Some(j) => first_pos(
                Seq::new(attrs_view(attrs@).len(), |i: int| attrs_view(attrs@)[i].type_id),
                t,
            ) == Some(j as int),
            None => first_pos(
                Seq::new(attrs_view(attrs@).len(), |i: int| attrs_view(attrs@)[i].type_id),
                t,
            ) is None,
        },
{
    let ghost keys = Seq::new(attrs_view(attrs@).len(), |i: int| attrs_view(attrs@)[i].type_id);
    let mut j: usize = 0;
    while j < attrs.len()
        invariant
            j <= attrs.len(),
            keys == Seq::new(
                attrs_view(attrs@).len(),
                |i: int| attrs_view(attrs@)[i].type_id,
            ),
            keys.len() == attrs.len(),
            forall|k: int| 0 <= k < j ==> keys[k] != t,
        decreases attrs.len() - j,
    {
        if attrs[j].type_id == t {
            proof {
                lemma_first_pos_found(keys, t, j as int);
            }
            return Some(j);
        }
        j = j + 1;
    }
    proof {
        lemma_first_pos_absent(keys, t);
    }
    None
}

} // verus!
