//! Association lists keyed by (object, attribute type).
//!
//! The engine's side stores — the disabled-attribute overlay, the
//! deep-compare cache and the remembered visibility flags — all map an
//! (object id, type id) pair to a value. They are kept as vectors scanned
//! from the front; `klookup` is the mathematical reading of that scan, and
//! the lemmas here cover the handful of shapes in which the vectors change:
//! push, in-place update, removal, and filtering by object.

use vstd::prelude::*;

verus! {

/// One entry of a keyed list.
pub struct KeyedEntry<V> {
    pub entity: u64,
    pub type_id: usize,
    pub value: V,
}

/// Mathematical shape of an entry.
pub struct KeyedEntryView<W> {
    pub entity: u64,
    pub type_id: usize,
    pub value: W,
}

impl<V: View> View for KeyedEntry<V> {
    type V = KeyedEntryView<V::V>;

    open spec fn view(&self) -> KeyedEntryView<V::V> {
        KeyedEntryView { entity: self.entity, type_id: self.type_id, value: self.value@ }
    }
}

/// A list of entries with (object, type) keys, scanned from the front.
pub struct KeyedList<V> {
    pub entries: Vec<KeyedEntry<V>>,
}

impl<V: View> View for KeyedList<V> {
    type V = Seq<KeyedEntryView<V::V>>;

    open spec fn view(&self) -> Seq<KeyedEntryView<V::V>> {
        Seq::new(self.entries@.len(), |i: int| self.entries@[i]@)
    }
}

/// The value under key `(o, t)`: the first matching entry wins.
pub open spec fn klookup<W>(s: Seq<KeyedEntryView<W>>, o: u64, t: usize) -> Option<W>
    decreases s.len(),
{
    if s.len() == 0 {
        None
    } else if s[0].entity == o && s[0].type_id == t {
        Some(s[0].value)
    } else {
        klookup(s.drop_first(), o, t)
    }
}

/// Whether any entry carries key `(o, t)`.
pub open spec fn khas<W>(s: Seq<KeyedEntryView<W>>, o: u64, t: usize) -> bool {
    klookup(s, o, t) is Some
}

/// No two entries share a key.
pub open spec fn kdistinct<W>(s: Seq<KeyedEntryView<W>>) -> bool {
    forall|i: int, j: int|
        0 <= i < j < s.len() ==> !(s[i].entity == s[j].entity && s[i].type_id == s[j].type_id)
}

/// The entries whose object survives `keep`, in order.
pub open spec fn kfilter<W>(s: Seq<KeyedEntryView<W>>, keep: spec_fn(u64) -> bool) -> Seq<
    KeyedEntryView<W>,
>
    decreases s.len(),
{
    if s.len() == 0 {
        Seq::empty()
    } else {
        let rest = kfilter(s.drop_first(), keep);
        if keep(s[0].entity) {
            seq![s[0]] + rest
        } else {
            rest
        }
    }
}

impl<V: View> KeyedList<V> {
    /// An empty list.
    pub fn new() -> (l: KeyedList<V>)
        ensures
            l@.len() == 0,
            kdistinct(l@),
    {
        KeyedList { entries: Vec::new() }
    }

    /// Key distinctness, the invariant every method here preserves.
    pub open spec fn wf(self) -> bool {
        kdistinct(self@)
    }

    /// Scan for the entry keyed `(o, t)`.
    fn find(&self, o: u64, t: usize) -> (r: Option<usize>)
        ensures
            match r {
                Some(j) => {
                    &&& j < self@.len()
                    &&& self@[j as int].entity == o && self@[j as int].type_id == t
                    &&& forall|k: int|
                        0 <= k < j ==> !(self@[k].entity == o && self@[k].type_id == t)
                    &&& klookup(self@, o, t) == Some(self@[j as int].value)
                },
                None => klookup(self@, o, t) is None,
            },
    {
        let mut j: usize = 0;
        while j < self.entries.len()
            invariant
                j <= self.entries.len(),
                forall|k: int| 0 <= k < j ==> !(self@[k].entity == o && self@[k].type_id == t),
            decreases self.entries.len() - j,
        {
            if self.entries[j].entity == o && self.entries[j].type_id == t {
                proof {
                    lemma_klookup_found(self@, o, t, j as int);
                }
                return Some(j);
            }
            j = j + 1;
        }
        proof {
            lemma_klookup_absent(self@, o, t);
        }
        None
    }

    /// Whether an entry with key `(o, t)` exists.
    pub fn contains_key(&self, o: u64, t: usize) -> (r: bool)
        ensures
            r == khas(self@, o, t),
    {
        self.find(o, t).is_some()
    }

    /// Borrow the value under key `(o, t)`.
    pub fn get(&self, o: u64, t: usize) -> (r: Option<&V>)
        ensures
            match r {
                Some(v) => klookup(self@, o, t) == Some(v@),
                None => klookup(self@, o, t) is None,
            },
    {
        match self.find(o, t) {
            Some(j) => Some(&self.entries[j].value),
            None => None,
        }
    }

    /// Add an entry under a key that is not yet present.
    pub fn insert_new(&mut self, o: u64, t: usize, value: V)
        requires
            old(self).wf(),
            !khas(old(self)@, o, t),
        ensures
            final(self).wf(),
            final(self)@ == old(self)@.push(
                KeyedEntryView { entity: o, type_id: t, value: value@ },
            ),
            forall|o2: u64, t2: usize|
                #![trigger klookup(final(self)@, o2, t2)]
                klookup(final(self)@, o2, t2) == (if o2 == o && t2 == t {
                    Some(value@)
                } else {
                    klookup(old(self)@, o2, t2)
                }),
    {
        let ghost pre = self@;
        let ghost e = KeyedEntryView { entity: o, type_id: t, value: value@ };
        self.entries.push(KeyedEntry { entity: o, type_id: t, value });
        proof {
            assert(self@ =~= pre.push(e));
            assert forall|o2: u64, t2: usize|
                #![trigger klookup(self@, o2, t2)]
                klookup(self@, o2, t2) == (if o2 == o && t2 == t {
                    Some(e.value)
                } else {
                    klookup(pre, o2, t2)
                }) by {
                lemma_klookup_push(pre, e, o2, t2);
                if o2 == o && t2 == t {
                    assert(klookup(pre, o2, t2) is None);
                }
            }
            assert forall|a: int, b: int|
                0 <= a < b < self@.len() implies !(self@[a].entity == self@[b].entity
                && self@[a].type_id == self@[b].type_id) by {
                if b == pre.len() as int {
                    if self@[a].entity == o && self@[a].type_id == t {
                        lemma_klookup_found(pre, o, t, a);
                    }
                }
            }
        }
    }

    /// Write `value` under key `(o, t)`, replacing any previous value.
    pub fn put(&mut self, o: u64, t: usize, value: V)
        requires
            old(self).wf(),
        ensures
            final(self).wf(),
            forall|o2: u64, t2: usize|
                #![trigger klookup(final(self)@, o2, t2)]
                klookup(final(self)@, o2, t2) == (if o2 == o && t2 == t {
                    Some(value@)
                } else {
                    klookup(old(self)@, o2, t2)
                }),
    {
        let ghost pre = self@;
        match self.find(o, t) {
            Some(j) => {
                let ghost e = KeyedEntryView { entity: o, type_id: t, value: value@ };
                self.entries[j] = KeyedEntry { entity: o, type_id: t, value };
                proof {
                    assert(self@ =~= pre.update(j as int, e));
                    assert forall|o2: u64, t2: usize|
                        #![trigger klookup(self@, o2, t2)]
                        klookup(self@, o2, t2) == (if o2 == o && t2 == t {
                            Some(e.value)
                        } else {
                            klookup(pre, o2, t2)
                        }) by {
                        lemma_klookup_update(pre, j as int, e, o2, t2);
                    }
                    assert forall|a: int, b: int|
                        0 <= a < b < self@.len() implies !(self@[a].entity == self@[b].entity
                        && self@[a].type_id == self@[b].type_id) by {
                        assert(pre[a].entity == self@[a].entity && pre[a].type_id
                            == self@[a].type_id);
                        assert(pre[b].entity == self@[b].entity && pre[b].type_id
                            == self@[b].type_id);
                    }
                }
            },
            None => {
                self.insert_new(o, t, value);
            },
        }
    }

    /// Remove and return the value under key `(o, t)`, if present.
    pub fn take(&mut self, o: u64, t: usize) -> (r: Option<V>)
        requires
            old(self).wf(),
        ensures
            final(self).wf(),
            match r {
                Some(v) => klookup(old(self)@, o, t) == Some(v@) && (exists|j: int|
                    0 <= j < old(self)@.len() && final(self)@ == old(self)@.remove(j)),
                None => klookup(old(self)@, o, t) is None && final(self)@ == old(self)@,
            },
            forall|o2: u64, t2: usize|
                #![trigger klookup(final(self)@, o2, t2)]
                klookup(final(self)@, o2, t2) == (if o2 == o && t2 == t {
                    None
                } else {
                    klookup(old(self)@, o2, t2)
                }),
    {
        let ghost pre = self@;
        match self.find(o, t) {
            Some(j) => {
                let entry = self.entries.remove(j);
                proof {
                    assert(self@ =~= pre.remove(j as int));
                    assert forall|o2: u64, t2: usize|
                        #![trigger klookup(self@, o2, t2)]
                        klookup(self@, o2, t2) == (if o2 == o && t2 == t {
                            None::<V::V>
                        } else {
                            klookup(pre, o2, t2)
                        }) by {
                        lemma_klookup_remove(pre, j as int, o2, t2);
                    }
                    assert forall|a: int, b: int|
                        0 <= a < b < self@.len() implies !(self@[a].entity == self@[b].entity
                        && self@[a].type_id == self@[b].type_id) by {
                        let a0 = if a < j as int { a } else { a + 1 };
                        let b0 = if b < j as int { b } else { b + 1 };
                        assert(self@[a] == pre[a0] && self@[b] == pre[b0]);
                    }
                    assert(self@ == pre.remove(j as int));
                }
                Some(entry.value)
            },
            None => {
                proof {
                    assert forall|o2: u64, t2: usize|
                        #![trigger klookup(self@, o2, t2)]
                        klookup(self@, o2, t2) == (if o2 == o && t2 == t {
                            klookup(self@, o2, t2)
                        } else {
                            klookup(pre, o2, t2)
                        }) by {}
                }
                None
            },
        }
    }

    /// Drop every entry keyed by object `entity`.
    pub fn purge_entity(&mut self, entity: u64)
        requires
            old(self).wf(),
        ensures
            final(self).wf(),
            final(self)@ == kfilter(old(self)@, |x: u64| x != entity),
            forall|o2: u64, t2: usize|
                #![trigger klookup(final(self)@, o2, t2)]
                klookup(final(self)@, o2, t2) == (if o2 == entity {
                    None
                } else {
                    klookup(old(self)@, o2, t2)
                }),
    {
        let ghost keep = |x: u64| x != entity;
        let ghost pre = self@;
        let mut i: usize = 0;
        let ghost mut k: int = 0;
        while i < self.entries.len()
            invariant
                0 <= k <= pre.len(),
                i == kfilter(pre.subrange(0, k), keep).len(),
                i <= self.entries.len(),
                self@ =~= kfilter(pre.subrange(0, k), keep) + pre.subrange(k, pre.len() as int),
                keep == (|x: u64| x != entity),
            decreases pre.len() - k,
        {
            proof {
                assert(self@[i as int] == pre[k]);
                assert(pre.subrange(0, k + 1) =~= pre.subrange(0, k).push(pre[k]));
                lemma_kfilter_push(pre.subrange(0, k), pre[k], keep);
            }
            if self.entries[i].entity != entity {
                i = i + 1;
                proof {
                    k = k + 1;
                    assert(self@ =~= kfilter(pre.subrange(0, k), keep) + pre.subrange(
                        k,
                        pre.len() as int,
                    ));
                }
            } else {
                let ghost before = self@;
                self.entries.remove(i);
                proof {
                    assert(self@ =~= before.remove(i as int));
                    k = k + 1;
                    assert(self@ =~= kfilter(pre.subrange(0, k), keep) + pre.subrange(
                        k,
                        pre.len() as int,
                    ));
                }
            }
        }
        proof {
            assert(k == pre.len());
            assert(pre.subrange(0, k) =~= pre);
            assert(self@ =~= kfilter(pre, keep));
            lemma_kfilter_distinct(pre, keep);
            assert forall|o2: u64, t2: usize|
                #![trigger klookup(self@, o2, t2)]
                klookup(self@, o2, t2) == (if o2 == entity {
                    None::<V::V>
                } else {
                    klookup(pre, o2, t2)
                }) by {
                lemma_kfilter_lookup(pre, keep, o2, t2);
            }
        }
    }

    /// Drop every entry whose object is no longer live in `store`.
    pub fn retain_live(&mut self, store: &crate::store::Store)
        requires
            old(self).wf(),
        ensures
            final(self).wf(),
            final(self)@ == kfilter(old(self)@, |x: u64| store@.live(x)),
            forall|o2: u64, t2: usize|
                #![trigger klookup(final(self)@, o2, t2)]
                klookup(final(self)@, o2, t2) == (if store@.live(o2) {
                    klookup(old(self)@, o2, t2)
                } else {
                    None
                }),
    {
        let ghost keep = |x: u64| store@.live(x);
        let ghost pre = self@;
        let mut i: usize = 0;
        let ghost mut k: int = 0;
        while i < self.entries.len()
            invariant
                0 <= k <= pre.len(),
                i == kfilter(pre.subrange(0, k), keep).len(),
                i <= self.entries.len(),
                self@ =~= kfilter(pre.subrange(0, k), keep) + pre.subrange(k, pre.len() as int),
                keep == (|x: u64| store@.live(x)),
            decreases pre.len() - k,
        {
            proof {
                assert(self@[i as int] == pre[k]);
                assert(pre.subrange(0, k + 1) =~= pre.subrange(0, k).push(pre[k]));
                lemma_kfilter_push(pre.subrange(0, k), pre[k], keep);
            }
            if store.is_live(self.entries[i].entity) {
                i = i + 1;
                proof {
                    k = k + 1;
                    assert(self@ =~= kfilter(pre.subrange(0, k), keep) + pre.subrange(
                        k,
                        pre.len() as int,
                    ));
                }
            } else {
                let ghost before = self@;
                self.entries.remove(i);
                proof {
                    assert(self@ =~= before.remove(i as int));
                    k = k + 1;
                    assert(self@ =~= kfilter(pre.subrange(0, k), keep) + pre.subrange(
                        k,
                        pre.len() as int,
                    ));
                }
            }
        }
        proof {
            assert(k == pre.len());
            assert(pre.subrange(0, k) =~= pre);
            assert(self@ =~= kfilter(pre, keep));
            lemma_kfilter_distinct(pre, keep);
            assert forall|o2: u64, t2: usize|
                #![trigger klookup(self@, o2, t2)]
                klookup(self@, o2, t2) == (if store@.live(o2) {
                    klookup(pre, o2, t2)
                } else {
                    None::<V::V>
                }) by {
                lemma_kfilter_lookup(pre, keep, o2, t2);
            }
        }
    }
}

/// A sequence without the key has lookup `None`.
pub proof fn lemma_klookup_absent<W>(s: Seq<KeyedEntryView<W>>, o: u64, t: usize)
    requires
        forall|k: int| 0 <= k < s.len() ==> !(s[k].entity == o && s[k].type_id == t),
    ensures
        klookup(s, o, t) is None,
    decreases s.len(),
{
    if s.len() > 0 {
        assert forall|k: int| 1 <= k < s.len() implies s.drop_first()[k - 1] == s[k] by {}
        lemma_klookup_absent(s.drop_first(), o, t);
    }
}

/// A match at `j` with no earlier match pins the lookup down.
pub proof fn lemma_klookup_found<W>(s: Seq<KeyedEntryView<W>>, o: u64, t: usize, j: int)
    requires
        0 <= j < s.len(),
        s[j].entity == o && s[j].type_id == t,
        forall|k: int| 0 <= k < j ==> !(s[k].entity == o && s[k].type_id == t),
    ensures
        klookup(s, o, t) == Some(s[j].value),
    decreases s.len(),
{
    if j > 0 {
        assert forall|k: int| 1 <= k < s.len() implies s.drop_first()[k - 1] == s[k] by {}
        lemma_klookup_found(s.drop_first(), o, t, j - 1);
    }
}

/// How a push changes lookups.
pub proof fn lemma_klookup_push<W>(s: Seq<KeyedEntryView<W>>, e: KeyedEntryView<W>, o: u64, t: usize)
    ensures
        klookup(s.push(e), o, t) == (match klookup(s, o, t) {
            Some(v) => Some(v),
            None => if e.entity == o && e.type_id == t {
                Some(e.value)
            } else {
                None
            },
        }),
    decreases s.len(),
{
    if s.len() == 0 {
        assert(s.push(e)[0] == e);
        assert(s.push(e).drop_first() =~= Seq::<KeyedEntryView<W>>::empty());
        assert(klookup(s.push(e).drop_first(), o, t) is None);
        if e.entity == o && e.type_id == t {
            assert(klookup(s.push(e), o, t) == Some(e.value));
        } else {
            assert(klookup(s.push(e), o, t) is None);
        }
        assert(klookup(s, o, t) is None);
    } else {
        assert(s.push(e)[0] == s[0]);
        assert(s.push(e).drop_first() =~= s.drop_first().push(e));
        lemma_klookup_push(s.drop_first(), e, o, t);
        assert(klookup(s.push(e).drop_first(), o, t) == klookup(s.drop_first().push(e), o, t));
        if s[0].entity == o && s[0].type_id == t {
            assert(klookup(s.push(e), o, t) == Some(s[0].value));
            assert(klookup(s, o, t) == Some(s[0].value));
        } else {
            assert(klookup(s.push(e), o, t) == klookup(s.drop_first().push(e), o, t));
            assert(klookup(s, o, t) == klookup(s.drop_first(), o, t));
        }
    }
}

/// Replacing the entry at `j` by one with the same key rewrites exactly that
/// key's lookup, provided keys are distinct.
pub proof fn lemma_klookup_update<W>(
    s: Seq<KeyedEntryView<W>>,
    j: int,
    e: KeyedEntryView<W>,
    o: u64,
    t: usize,
)
    requires
        0 <= j < s.len(),
        e.entity == s[j].entity && e.type_id == s[j].type_id,
        kdistinct(s),
    ensures
        klookup(s.update(j, e), o, t) == (if e.entity == o && e.type_id == t {
            Some(e.value)
        } else {
            klookup(s, o, t)
        }),
    decreases s.len(),
{
    if j == 0 {
        assert(s.update(0, e)[0] == e);
        assert(s.update(0, e).drop_first() =~= s.drop_first());
    } else {
        assert(s.update(j, e)[0] == s[0]);
        assert(s.update(j, e).drop_first() =~= s.drop_first().update(j - 1, e));
        assert forall|a: int, b: int|
            0 <= a < b < s.drop_first().len() implies !(s.drop_first()[a].entity
            == s.drop_first()[b].entity && s.drop_first()[a].type_id
            == s.drop_first()[b].type_id) by {
            assert(s.drop_first()[a] == s[a + 1] && s.drop_first()[b] == s[b + 1]);
        }
        lemma_klookup_update(s.drop_first(), j - 1, e, o, t);
    }
}

/// Removing the entry at `j` clears exactly that key's lookup, provided keys
/// are distinct.
pub proof fn lemma_klookup_remove<W>(s: Seq<KeyedEntryView<W>>, j: int, o: u64, t: usize)
    requires
        0 <= j < s.len(),
        kdistinct(s),
    ensures
        klookup(s.remove(j), o, t) == (if s[j].entity == o && s[j].type_id == t {
            None
        } else {
            klookup(s, o, t)
        }),
    decreases s.len(),
{
    if s[j].entity == o && s[j].type_id == t {
        assert forall|k: int|
            0 <= k < s.remove(j).len() implies !(s.remove(j)[k].entity == o && s.remove(
            j,
        )[k].type_id == t) by {
            if k < j {
                assert(s.remove(j)[k] == s[k]);
            } else {
                assert(s.remove(j)[k] == s[k + 1]);
            }
        }
        lemma_klookup_absent(s.remove(j), o, t);
    } else {
        if j == 0 {
            assert(s.remove(0) =~= s.drop_first());
        } else {
            assert(s.remove(j)[0] == s[0]);
            assert(s.remove(j).drop_first() =~= s.drop_first().remove(j - 1));
            assert forall|a: int, b: int|
                0 <= a < b < s.drop_first().len() implies !(s.drop_first()[a].entity
                == s.drop_first()[b].entity && s.drop_first()[a].type_id
                == s.drop_first()[b].type_id) by {
                assert(s.drop_first()[a] == s[a + 1] && s.drop_first()[b] == s[b + 1]);
            }
            lemma_klookup_remove(s.drop_first(), j - 1, o, t);
        }
    }
}

/// A successful lookup is witnessed by an entry.
pub proof fn lemma_klookup_index<W>(s: Seq<KeyedEntryView<W>>, o: u64, t: usize)
    requires
        klookup(s, o, t) is Some,
    ensures
        exists|k: int|
            0 <= k < s.len() && s[k].entity == o && s[k].type_id == t && s[k].value == klookup(
                s,
                o,
                t,
            )->Some_0,
    decreases s.len(),
{
    if s[0].entity == o && s[0].type_id == t {
        assert(s[0].value == klookup(s, o, t)->Some_0);
    } else {
        lemma_klookup_index(s.drop_first(), o, t);
        let k = choose|k: int|
            0 <= k < s.drop_first().len() && s.drop_first()[k].entity == o
                && s.drop_first()[k].type_id == t && s.drop_first()[k].value == klookup(
                s.drop_first(),
                o,
                t,
            )->Some_0;
        assert(s[k + 1] == s.drop_first()[k]);
    }
}

/// Filtering by object keeps lookups of kept objects and clears the rest.
pub proof fn lemma_kfilter_lookup<W>(
    s: Seq<KeyedEntryView<W>>,
    keep: spec_fn(u64) -> bool,
    o: u64,
    t: usize,
)
    ensures
        klookup(kfilter(s, keep), o, t) == (if keep(o) {
            klookup(s, o, t)
        } else {
            None
        }),
    decreases s.len(),
{
    if s.len() > 0 {
        lemma_kfilter_lookup(s.drop_first(), keep, o, t);
        if keep(s[0].entity) {
            let f = seq![s[0]] + kfilter(s.drop_first(), keep);
            assert(f[0] == s[0]);
            assert(f.drop_first() =~= kfilter(s.drop_first(), keep));
        }
    }
}

/// Every filtered entry comes from the input sequence.
pub proof fn lemma_kfilter_member<W>(s: Seq<KeyedEntryView<W>>, keep: spec_fn(u64) -> bool, j: int)
    requires
        0 <= j < kfilter(s, keep).len(),
    ensures
        exists|i: int| 0 <= i < s.len() && kfilter(s, keep)[j] == s[i],
    decreases s.len(),
{
    if s.len() > 0 {
        let rest = kfilter(s.drop_first(), keep);
        if keep(s[0].entity) {
            let f = seq![s[0]] + rest;
            if j == 0 {
                assert(f[0] == s[0]);
            } else {
                assert(f[j] == rest[j - 1]);
                lemma_kfilter_member(s.drop_first(), keep, j - 1);
                let i0 = choose|i: int|
                    0 <= i < s.drop_first().len() && rest[j - 1] == s.drop_first()[i];
                assert(s.drop_first()[i0] == s[i0 + 1]);
            }
        } else {
            lemma_kfilter_member(s.drop_first(), keep, j);
            let i0 = choose|i: int| 0 <= i < s.drop_first().len() && rest[j] == s.drop_first()[i];
            assert(s.drop_first()[i0] == s[i0 + 1]);
        }
    }
}

/// Filtering preserves key distinctness.
pub proof fn lemma_kfilter_distinct<W>(s: Seq<KeyedEntryView<W>>, keep: spec_fn(u64) -> bool)
    requires
        kdistinct(s),
    ensures
        kdistinct(kfilter(s, keep)),
    decreases s.len(),
{
    if s.len() > 0 {
        let rest = kfilter(s.drop_first(), keep);
        assert forall|a: int, b: int|
            0 <= a < b < s.drop_first().len() implies !(s.drop_first()[a].entity
            == s.drop_first()[b].entity && s.drop_first()[a].type_id
            == s.drop_first()[b].type_id) by {
            assert(s.drop_first()[a] == s[a + 1] && s.drop_first()[b] == s[b + 1]);
        }
        lemma_kfilter_distinct(s.drop_first(), keep);
        if keep(s[0].entity) {
            let f = seq![s[0]] + rest;
            assert forall|a: int, b: int|
                0 <= a < b < f.len() implies !(f[a].entity == f[b].entity && f[a].type_id
                == f[b].type_id) by {
                if a == 0 {
                    assert(f[b] == rest[b - 1]);
                    lemma_kfilter_member(s.drop_first(), keep, b - 1);
                    let i0 = choose|i: int|
                        0 <= i < s.drop_first().len() && rest[b - 1] == s.drop_first()[i];
                    assert(s.drop_first()[i0] == s[i0 + 1]);
                    assert(f[0] == s[0]);
                } else {
                    assert(f[a] == rest[a - 1] && f[b] == rest[b - 1]);
                }
            }
        }
    }
}

/// Appending one element extends the filter by at most that element.
pub proof fn lemma_kfilter_push<W>(
    s: Seq<KeyedEntryView<W>>,
    e: KeyedEntryView<W>,
    keep: spec_fn(u64) -> bool,
)
    ensures
        kfilter(s.push(e), keep) == (if keep(e.entity) {
            kfilter(s, keep).push(e)
        } else {
            kfilter(s, keep)
        }),
    decreases s.len(),
{
    if s.len() == 0 {
        assert(s.push(e)[0] == e);
        assert(s.push(e).drop_first() =~= Seq::<KeyedEntryView<W>>::empty());
        assert(kfilter(s.push(e).drop_first(), keep) =~= Seq::<KeyedEntryView<W>>::empty());
        assert(kfilter(s, keep) =~= Seq::<KeyedEntryView<W>>::empty());
        if keep(e.entity) {
            assert(kfilter(s.push(e), keep) == seq![e] + kfilter(s.push(e).drop_first(), keep));
            assert(seq![e] + Seq::<KeyedEntryView<W>>::empty() =~= kfilter(s, keep).push(e));
        } else {
            assert(kfilter(s.push(e), keep) == kfilter(s.push(e).drop_first(), keep));
        }
    } else {
        assert(s.push(e)[0] == s[0]);
        assert(s.push(e).drop_first() =~= s.drop_first().push(e));
        lemma_kfilter_push(s.drop_first(), e, keep);
        assert(kfilter(s.push(e).drop_first(), keep) == kfilter(s.drop_first().push(e), keep));
        if keep(s[0].entity) {
            assert(kfilter(s.push(e), keep) == seq![s[0]] + kfilter(s.drop_first().push(e), keep));
            assert(kfilter(s, keep) == seq![s[0]] + kfilter(s.drop_first(), keep));
            if keep(e.entity) {
                assert(seq![s[0]] + kfilter(s.drop_first(), keep).push(e) =~= (seq![s[0]] + kfilter(
                    s.drop_first(),
                    keep,
                )).push(e));
            }
        } else {
            assert(kfilter(s.push(e), keep) == kfilter(s.drop_first().push(e), keep));
            assert(kfilter(s, keep) == kfilter(s.drop_first(), keep));
        }
    }
}

} // verus!
