//! A small map keyed by note identity that keeps the order in which its keys
//! came in.

use crate::identity::NoteId;
use vstd::prelude::*;

verus! {

/// Some pair of `s` has the key `id`.
pub open spec fn has_id<V>(s: Seq<(NoteId, V)>, id: NoteId) -> bool {
    exists|i: int| 0 <= i < s.len() && (#[trigger] s[i]).0 == id
}

/// No key stands twice in `s`.
pub open spec fn distinct_ids<V>(s: Seq<(NoteId, V)>) -> bool {
    forall|i: int, j: int| 0 <= i < j < s.len() ==> (#[trigger] s[i]).0 != (#[trigger] s[j]).0
}

/// A position of `s` that holds the key `id`, where there is one.
pub open spec fn index_of<V>(s: Seq<(NoteId, V)>, id: NoteId) -> int {
    choose|i: int| 0 <= i < s.len() && (#[trigger] s[i]).0 == id
}

/// The value that `s` holds for `id`.
pub open spec fn value_of<V>(s: Seq<(NoteId, V)>, id: NoteId) -> Option<V> {
    if has_id(s, id) {
        Some(s[index_of(s, id)].1)
    } else {
        None
    }
}

/// `s` with `value` under `id`: in the place of the pair that held `id`, or
/// else at the end.
pub open spec fn upsert<V>(s: Seq<(NoteId, V)>, id: NoteId, value: V) -> Seq<(NoteId, V)> {
    if has_id(s, id) {
        s.update(index_of(s, id), (id, value))
    } else {
        s.push((id, value))
    }
}

/// `s` without the pair that holds `id`.
pub open spec fn without<V>(s: Seq<(NoteId, V)>, id: NoteId) -> Seq<(NoteId, V)> {
    if has_id(s, id) {
        s.remove(index_of(s, id))
    } else {
        s
    }
}

/// With distinct keys, the position of a key is the one place where it stands.
pub proof fn lemma_index_of<V>(s: Seq<(NoteId, V)>, id: NoteId, i: int)
    requires
        distinct_ids(s),
        0 <= i < s.len(),
        s[i].0 == id,
    ensures
        has_id(s, id),
        index_of(s, id) == i,
        value_of(s, id) == Some(s[i].1),
{
    let j = index_of(s, id);
    assert(0 <= j < s.len() && s[j].0 == id);
    if j < i {
        assert(s[j].0 != s[i].0);
    } else if i < j {
        assert(s[i].0 != s[j].0);
    }
}

/// Putting a value under a key keeps the keys distinct, holds that value for
/// that key, and leaves every other key's value as it was.
pub proof fn lemma_upsert<V>(s: Seq<(NoteId, V)>, id: NoteId, value: V)
    requires
        distinct_ids(s),
    ensures
        distinct_ids(upsert(s, id, value)),
        value_of(upsert(s, id, value), id) == Some(value),
        forall|other: NoteId|
            other != id ==> #[trigger] value_of(upsert(s, id, value), other) == value_of(s, other),
        forall|other: NoteId|
            #[trigger] has_id(upsert(s, id, value), other) <==> other == id || has_id(s, other),
        upsert(s, id, value).len() == s.len() + if has_id(s, id) { 0int } else { 1int },
{
    let t = upsert(s, id, value);
    if has_id(s, id) {
        let k = index_of(s, id);
        assert(forall|i: int| 0 <= i < s.len() ==> (#[trigger] t[i]).0 == s[i].0);
        assert(distinct_ids(t));
        lemma_index_of(t, id, k);
        assert forall|other: NoteId| other != id implies #[trigger] value_of(t, other) == value_of(
            s,
            other,
        ) by {
            if has_id(s, other) {
                let j = index_of(s, other);
                assert(t[j] == s[j]);
                lemma_index_of(t, other, j);
            } else if has_id(t, other) {
                let j = index_of(t, other);
                assert(s[j].0 == other);
            }
        }
        assert forall|other: NoteId| #[trigger] has_id(t, other) <==> other == id || has_id(
            s,
            other,
        ) by {
            if has_id(t, other) {
                let j = index_of(t, other);
                assert(s[j].0 == t[j].0);
            }
            if has_id(s, other) {
                let j = index_of(s, other);
                assert(t[j].0 == other);
            }
        }
    } else {
        assert forall|i: int, j: int| 0 <= i < j < t.len() implies (#[trigger] t[i]).0 != (
        #[trigger] t[j]).0 by {
            if j == s.len() {
                assert(s[i].0 != id);
            } else {
                assert(s[i].0 != s[j].0);
            }
        }
        lemma_index_of(t, id, s.len() as int);
        assert forall|other: NoteId| other != id implies #[trigger] value_of(t, other) == value_of(
            s,
            other,
        ) by {
            if has_id(s, other) {
                let j = index_of(s, other);
                assert(t[j] == s[j]);
                lemma_index_of(t, other, j);
            } else if has_id(t, other) {
                let j = index_of(t, other);
                assert(j < s.len());
                assert(s[j].0 == other);
            }
        }
        assert forall|other: NoteId| #[trigger] has_id(t, other) <==> other == id || has_id(
            s,
            other,
        ) by {
            if has_id(t, other) && other != id {
                let j = index_of(t, other);
                assert(s[j].0 == other);
            }
            if has_id(s, other) {
                let j = index_of(s, other);
                assert(t[j].0 == other);
            }
        }
    }
}

/// Taking a key out keeps the keys distinct, leaves that key without a value,
/// and leaves every other key's value as it was.
pub proof fn lemma_without<V>(s: Seq<(NoteId, V)>, id: NoteId)
    requires
        distinct_ids(s),
    ensures
        distinct_ids(without(s, id)),
        !has_id(without(s, id), id),
        forall|other: NoteId|
            other != id ==> #[trigger] value_of(without(s, id), other) == value_of(s, other),
        forall|other: NoteId|
            #[trigger] has_id(without(s, id), other) <==> other != id && has_id(s, other),
        without(s, id).len() == s.len() - if has_id(s, id) { 1int } else { 0int },
{
    let t = without(s, id);
    if has_id(s, id) {
        let k = index_of(s, id);
        assert(forall|i: int| 0 <= i < k ==> #[trigger] t[i] == s[i]);
        assert(forall|i: int| k <= i < t.len() ==> #[trigger] t[i] == s[i + 1]);
        assert forall|i: int, j: int| 0 <= i < j < t.len() implies (#[trigger] t[i]).0 != (
        #[trigger] t[j]).0 by {
            let a = if i < k { i } else { i + 1 };
            let b = if j < k { j } else { j + 1 };
            assert(s[a].0 != s[b].0);
        }
        assert forall|other: NoteId| #[trigger] has_id(t, other) <==> other != id && has_id(
            s,
            other,
        ) by {
            if has_id(t, other) {
                let j = index_of(t, other);
                let b = if j < k { j } else { j + 1 };
                assert(s[b].0 == other);
                if other == id {
                    lemma_index_of(s, id, b);
                }
            }
            if other != id && has_id(s, other) {
                let j = index_of(s, other);
                let b = if j < k { j } else { j - 1 };
                assert(t[b].0 == other);
            }
        }
        assert forall|other: NoteId| other != id implies #[trigger] value_of(t, other) == value_of(
            s,
            other,
        ) by {
            if has_id(s, other) {
                let j = index_of(s, other);
                let b = if j < k { j } else { j - 1 };
                assert(t[b] == s[j]);
                lemma_index_of(t, other, b);
            }
        }
    }
}

/// `s` without the pairs that hold the keys `ids`, taken out one after the
/// other.
pub open spec fn without_all<V>(s: Seq<(NoteId, V)>, ids: Seq<NoteId>) -> Seq<(NoteId, V)>
    decreases ids.len(),
{
    if ids.len() == 0 {
        s
    } else {
        without_all(without(s, ids[0]), ids.drop_first())
    }
}

/// The pairs of `s` with `f` applied to each value.
pub open spec fn map_values<V, W>(s: Seq<(NoteId, V)>, f: spec_fn(V) -> W) -> Seq<(NoteId, W)> {
    Seq::new(s.len(), |i: int| (s[i].0, f(s[i].1)))
}

/// The keys of `s`, in their order.
pub open spec fn ids_of<V>(s: Seq<(NoteId, V)>) -> Seq<NoteId> {
    Seq::new(s.len(), |i: int| s[i].0)
}

/// Applying a function to the values changes neither the keys nor where they
/// stand, and commutes with looking a key up, putting a value in and taking a
/// key out.
pub proof fn lemma_map_values<V, W>(s: Seq<(NoteId, V)>, f: spec_fn(V) -> W, id: NoteId, value: V)
    requires
        distinct_ids(s),
    ensures
        distinct_ids(map_values(s, f)),
        has_id(map_values(s, f), id) == has_id(s, id),
        has_id(s, id) ==> index_of(map_values(s, f), id) == index_of(s, id),
        value_of(map_values(s, f), id) == match value_of(s, id) {
            Some(v) => Some(f(v)),
            None => None,
        },
        map_values(upsert(s, id, value), f) == upsert(map_values(s, f), id, f(value)),
        map_values(without(s, id), f) == without(map_values(s, f), id),
{
    let t = map_values(s, f);
    assert(forall|i: int| 0 <= i < s.len() ==> (#[trigger] t[i]).0 == s[i].0);
    assert forall|i: int, j: int| 0 <= i < j < t.len() implies (#[trigger] t[i]).0 != (
    #[trigger] t[j]).0 by {
        assert(s[i].0 != s[j].0);
    }
    if has_id(s, id) {
        let k = index_of(s, id);
        assert(t[k].0 == id);
        lemma_index_of(t, id, k);
        assert(map_values(upsert(s, id, value), f) =~= upsert(t, id, f(value)));
        assert(map_values(without(s, id), f) =~= without(t, id));
    } else {
        if has_id(t, id) {
            let k = index_of(t, id);
            assert(s[k].0 == id);
        }
        assert(map_values(upsert(s, id, value), f) =~= upsert(t, id, f(value)));
    }
}

/// Taking several keys out keeps the keys distinct; a key that was taken out
/// has no value, and every other key keeps its value.
pub proof fn lemma_without_all<V>(s: Seq<(NoteId, V)>, ids: Seq<NoteId>)
    requires
        distinct_ids(s),
    ensures
        distinct_ids(without_all(s, ids)),
        forall|id: NoteId|
            #[trigger] value_of(without_all(s, ids), id) == if ids.contains(id) {
                None
            } else {
                value_of(s, id)
            },
        forall|id: NoteId|
            #[trigger] has_id(without_all(s, ids), id) <==> !ids.contains(id) && has_id(s, id),
    decreases ids.len(),
{
    if ids.len() > 0 {
        let first = ids[0];
        let rest = ids.drop_first();
        lemma_without(s, first);
        lemma_without_all(without(s, first), rest);
        assert forall|id: NoteId| ids.contains(id) <==> id == first || rest.contains(id) by {
            if ids.contains(id) {
                let k = choose|k: int| 0 <= k < ids.len() && ids[k] == id;
                if k > 0 {
                    assert(rest[k - 1] == id);
                }
            }
            if rest.contains(id) {
                let k = choose|k: int| 0 <= k < rest.len() && rest[k] == id;
                assert(ids[k + 1] == id);
            }
            if id == first {
                assert(ids[0] == id);
            }
        }
        assert forall|id: NoteId| #[trigger]
            value_of(without_all(s, ids), id) == if ids.contains(id) {
                None
            } else {
                value_of(s, id)
            } by {
            if id == first {
                assert(!has_id(without(s, first), id));
            }
        }
    }
}

/// Taking several keys out of the pairs with `f` applied gives the pairs
/// without those keys with `f` applied.
pub proof fn lemma_map_without_all<V, W>(s: Seq<(NoteId, V)>, f: spec_fn(V) -> W, ids: Seq<NoteId>)
    requires
        distinct_ids(s),
    ensures
        map_values(without_all(s, ids), f) == without_all(map_values(s, f), ids),
    decreases ids.len(),
{
    if ids.len() > 0 {
        let first = ids[0];
        lemma_without(s, first);
        lemma_map_values(s, f, first, s[0].1);
        lemma_map_without_all(without(s, first), f, ids.drop_first());
    }
}

/// A map from note identities to values, in the order in which the keys came
/// in.
#[derive(Debug)]
pub struct IdMap<V> {
    items: Vec<(NoteId, V)>,
}

impl<V> View for IdMap<V> {
    type V = Seq<(NoteId, V)>;

    closed spec fn view(&self) -> Seq<(NoteId, V)> {
        self.items@
    }
}

impl<V> IdMap<V> {
    /// No key stands twice.
    pub open spec fn wf(&self) -> bool {
        distinct_ids(self@)
    }

    /// A map without keys.
    pub fn new() -> (m: IdMap<V>)
        ensures
            m@ == Seq::<(NoteId, V)>::empty(),
            m.wf(),
    {
        IdMap { items: Vec::new() }
    }

    /// The number of keys.
    pub fn len(&self) -> (n: usize)
        ensures
            n == self@.len(),
    {
        self.items.len()
    }

    /// The key at position `i`.
    pub fn key_at(&self, i: usize) -> (id: NoteId)
        requires
            i < self@.len(),
        ensures
            id == self@[i as int].0,
    {
        self.items[i].0
    }

    /// The value at position `i`.
    pub fn value_at(&self, i: usize) -> (v: &V)
        requires
            i < self@.len(),
        ensures
            *v == self@[i as int].1,
    {
        &self.items[i].1
    }

    /// The position of `id`, if it is a key.
    pub fn position(&self, id: NoteId) -> (r: Option<usize>)
        ensures
            match r {
                Some(i) => i < self@.len() && self@[i as int].0 == id,
                None => !has_id(self@, id),
            },
    {
        let mut i: usize = 0;
        while i < self.items.len()
            invariant
                i <= self.items.len(),
                forall|j: int| 0 <= j < i ==> (#[trigger] self.items@[j]).0 != id,
            decreases self.items.len() - i,
        {
            if self.items[i].0 == id {
                return Some(i);
            }
            i += 1;
        }
        None
    }

    /// The value under `id`.
    pub fn get(&self, id: NoteId) -> (r: Option<&V>)
        requires
            self.wf(),
        ensures
            match r {
                Some(v) => value_of(self@, id) == Some(*v),
                None => value_of(self@, id).is_none(),
            },
    {
        match self.position(id) {
            Some(i) => {
                proof {
                    lemma_index_of(self@, id, i as int);
                }
                Some(&self.items[i].1)
            },
            None => None,
        }
    }

    /// Puts `value` under `id`, in the place of the value that was there or
    /// else at the end.
    pub fn insert(&mut self, id: NoteId, value: V)
        requires
            old(self).wf(),
        ensures
            final(self)@ == upsert(old(self)@, id, value),
            final(self).wf(),
    {
        proof {
            lemma_upsert(self@, id, value);
        }
        match self.position(id) {
            Some(i) => {
                proof {
                    lemma_index_of(self@, id, i as int);
                }
                self.items.set(i, (id, value));
            },
            None => {
                self.items.push((id, value));
            },
        }
    }

    /// Takes `id` and its value out.
    pub fn remove(&mut self, id: NoteId) -> (r: Option<V>)
        requires
            old(self).wf(),
        ensures
            final(self)@ == without(old(self)@, id),
            final(self).wf(),
            r == value_of(old(self)@, id),
    {
        proof {
            lemma_without(self@, id);
        }
        match self.position(id) {
            Some(i) => {
                proof {
                    lemma_index_of(self@, id, i as int);
                }
                let pair = self.items.remove(i);
                Some(pair.1)
            },
            None => None,
        }
    }

    /// Puts `value` in the place of the value at position `i` and returns the
    /// value that was there.
    pub fn swap_at(&mut self, i: usize, value: V) -> (r: V)
        requires
            old(self).wf(),
            i < old(self)@.len(),
        ensures
            final(self)@ == old(self)@.update(i as int, (old(self)@[i as int].0, value)),
            final(self).wf(),
            r == old(self)@[i as int].1,
    {
        let ghost before = self@;
        let pair = self.items.remove(i);
        self.items.insert(i, (pair.0, value));
        proof {
            assert(self@ =~= before.update(i as int, (before[i as int].0, value)));
            assert forall|a: int, b: int| 0 <= a < b < self@.len() implies (#[trigger] self@[a]).0
                != (#[trigger] self@[b]).0 by {
                assert(before[a].0 != before[b].0);
            }
        }
        pair.1
    }

    /// Takes every key out.
    pub fn clear(&mut self)
        ensures
            final(self)@ == Seq::<(NoteId, V)>::empty(),
            final(self).wf(),
    {
        self.items.clear();
    }
}

} // verus!
