//! First-occurrence search over sequences.
//!
//! Every keyed collection in this crate (attributes of an object, overlay and
//! cache entries, observer baselines) is kept as a vector scanned from the
//! front. `first_pos` is the mathematical counterpart of that scan; the lemmas
//! here let exec searches and pointwise update reasoning meet it.

use vstd::prelude::*;

verus! {

/// Position of the first occurrence of `x` in `s`, if any.
pub open spec fn first_pos<T>(s: Seq<T>, x: T) -> Option<int>
    decreases s.len(),
{
    if s.len() == 0 {
        None
    } else if s[0] == x {
        Some(0int)
    } else {
        match first_pos(s.drop_first(), x) {
            Some(i) => Some(i + 1),
            None => None,
        }
    }
}

/// Whether `x` occurs in `s` at all.
pub open spec fn seq_has<T>(s: Seq<T>, x: T) -> bool {
    first_pos(s, x) is Some
}

/// What a `first_pos` result means, element by element.
pub proof fn lemma_first_pos_props<T>(s: Seq<T>, x: T)
    ensures
        match first_pos(s, x) {
            Some(i) => 0 <= i < s.len() && s[i] == x && forall|k: int| 0 <= k < i ==> s[k] != x,
            None => forall|k: int| 0 <= k < s.len() ==> s[k] != x,
        },
    decreases s.len(),
{
    if s.len() > 0 && s[0] != x {
        lemma_first_pos_props(s.drop_first(), x);
        assert forall|k: int| 1 <= k < s.len() implies s.drop_first()[k - 1] == s[k] by {}
    }
}

/// A witness index that is preceded by no occurrence pins `first_pos` down.
pub proof fn lemma_first_pos_found<T>(s: Seq<T>, x: T, i: int)
    requires
        0 <= i < s.len(),
        s[i] == x,
        forall|k: int| 0 <= k < i ==> s[k] != x,
    ensures
        first_pos(s, x) == Some(i),
    decreases s.len(),
{
    if i > 0 {
        assert(s[0] != x);
        assert forall|k: int| 1 <= k < s.len() implies s.drop_first()[k - 1] == s[k] by {}
        lemma_first_pos_found(s.drop_first(), x, i - 1);
    }
}

/// A sequence with no occurrence of `x` has `first_pos` `None`.
pub proof fn lemma_first_pos_absent<T>(s: Seq<T>, x: T)
    requires
        forall|k: int| 0 <= k < s.len() ==> s[k] != x,
    ensures
        first_pos(s, x) is None,
{
    lemma_first_pos_props(s, x);
    if first_pos(s, x) is Some {
        assert(s[first_pos(s, x)->Some_0] == x);
    }
}

/// How a push changes `first_pos`.
pub proof fn lemma_first_pos_push<T>(s: Seq<T>, y: T, x: T)
    ensures
        first_pos(s.push(y), x) == (match first_pos(s, x) {
            Some(i) => Some(i),
            None => if y == x {
                Some(s.len() as int)
            } else {
                None
            },
        }),
{
    lemma_first_pos_props(s, x);
    match first_pos(s, x) {
        Some(i) => {
            assert(s.push(y)[i] == x);
            assert forall|k: int| 0 <= k < i implies s.push(y)[k] != x by {
                assert(s.push(y)[k] == s[k]);
            }
            lemma_first_pos_found(s.push(y), x, i);
        },
        None => {
            if y == x {
                assert(s.push(y)[s.len() as int] == x);
                assert forall|k: int| 0 <= k < s.len() implies s.push(y)[k] != x by {
                    assert(s.push(y)[k] == s[k]);
                }
                lemma_first_pos_found(s.push(y), x, s.len() as int);
            } else {
                assert forall|k: int| 0 <= k < s.push(y).len() implies s.push(y)[k] != x by {
                    if k < s.len() {
                        assert(s.push(y)[k] == s[k]);
                    }
                }
                lemma_first_pos_absent(s.push(y), x);
            }
        },
    }
}

/// Scan a vector of type identifiers for `x`.
pub fn vec_has_usize(v: &Vec<usize>, x: usize) -> (r: bool)
    ensures
        r == seq_has(v@, x),
{
    let mut j: usize = 0;
    while j < v.len()
        invariant
            j <= v.len(),
            forall|k: int| 0 <= k < j ==> v@[k] != x,
        decreases v.len() - j,
    {
        if v[j] == x {
            proof {
                lemma_first_pos_found(v@, x, j as int);
            }
            return true;
        }
        j = j + 1;
    }
    proof {
        lemma_first_pos_absent(v@, x);
    }
    false
}

} // verus!
