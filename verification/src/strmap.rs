//! An insertion-ordered map keyed by strings.
//!
//! The map is an association list: its view is the sequence of its entries,
//! each a pair of the key's characters and the value. A lookup finds the first
//! entry with the key. `insert` overwrites in place, so a map built through
//! this interface never holds a key twice (`distinct_keys`).

use crate::text::str_eq;
use vstd::prelude::*;

verus! {

// ---------------------------------------------------------------------------
// The model: operations on sequences of entries
// ---------------------------------------------------------------------------

/// The index of the first entry at or after `from` whose key is `k`; `-1` if
/// there is none.
pub open spec fn position_from<V>(m: Seq<(Seq<char>, V)>, k: Seq<char>, from: int) -> int
    decreases m.len() - from,
{
    if from < 0 || from >= m.len() {
        -1
    } else if m[from].0 == k {
        from
    } else {
        position_from(m, k, from + 1)
    }
}

/// The index of the first entry whose key is `k`; `-1` if there is none.
pub open spec fn position<V>(m: Seq<(Seq<char>, V)>, k: Seq<char>) -> int {
    position_from(m, k, 0)
}

/// Whether some entry has the key `k`.
pub open spec fn has_key<V>(m: Seq<(Seq<char>, V)>, k: Seq<char>) -> bool {
    position(m, k) >= 0
}

/// The value of the first entry with key `k`.
pub open spec fn lookup<V>(m: Seq<(Seq<char>, V)>, k: Seq<char>) -> V
    recommends
        has_key(m, k),
{
    m[position(m, k)].1
}

/// `m` with `k` bound to `v`: overwritten in place if `k` is present, appended
/// otherwise.
pub open spec fn put<V>(m: Seq<(Seq<char>, V)>, k: Seq<char>, v: V) -> Seq<(Seq<char>, V)> {
    if has_key(m, k) {
        m.update(position(m, k), (k, v))
    } else {
        m.push((k, v))
    }
}

/// `m` without the first entry whose key is `k`.
pub open spec fn without<V>(m: Seq<(Seq<char>, V)>, k: Seq<char>) -> Seq<(Seq<char>, V)> {
    if has_key(m, k) {
        m.remove(position(m, k))
    } else {
        m
    }
}

/// The keys of `m`, in entry order.
pub open spec fn keys_of<V>(m: Seq<(Seq<char>, V)>) -> Seq<Seq<char>> {
    Seq::new(m.len(), |i: int| m[i].0)
}

/// No key occurs in two entries.
pub open spec fn distinct_keys<V>(m: Seq<(Seq<char>, V)>) -> bool {
    forall|i: int, j: int| 0 <= i < j < m.len() ==> m[i].0 != m[j].0
}

/// The finite map that `m` stands for.
pub open spec fn as_map<V>(m: Seq<(Seq<char>, V)>) -> Map<Seq<char>, V> {
    Map::new(|k: Seq<char>| has_key(m, k), |k: Seq<char>| lookup(m, k))
}

/// `position_from` finds the least matching index.
pub proof fn lemma_position_from<V>(m: Seq<(Seq<char>, V)>, k: Seq<char>, from: int)
    requires
        0 <= from <= m.len(),
    ensures
        position_from(m, k, from) == -1 || from <= position_from(m, k, from) < m.len(),
        position_from(m, k, from) >= 0 ==> m[position_from(m, k, from)].0 == k,
        forall|j: int|
            from <= j < m.len() && (j < position_from(m, k, from) || position_from(m, k, from)
                == -1) ==> m[j].0 != k,
    decreases m.len() - from,
{
    if from < m.len() && m[from].0 != k {
        lemma_position_from(m, k, from + 1);
    }
}

/// What `position` returns: the least index that holds the key, if any does.
pub proof fn lemma_position<V>(m: Seq<(Seq<char>, V)>, k: Seq<char>)
    ensures
        -1 <= position(m, k) < m.len(),
        position(m, k) >= 0 ==> m[position(m, k)].0 == k,
        forall|j: int| 0 <= j < m.len() && (j < position(m, k) || position(m, k) == -1) ==> m[j].0 != k,
{
    lemma_position_from(m, k, 0);
}

/// In a map without repeated keys every entry is found under its own key.
pub proof fn lemma_position_distinct<V>(m: Seq<(Seq<char>, V)>, i: int)
    requires
        distinct_keys(m),
        0 <= i < m.len(),
    ensures
        position(m, m[i].0) == i,
{
    lemma_position(m, m[i].0);
}

/// No entry has the key exactly when `position` says so.
pub proof fn lemma_absent<V>(m: Seq<(Seq<char>, V)>, k: Seq<char>)
    ensures
        !has_key(m, k) <==> (forall|j: int| 0 <= j < m.len() ==> m[j].0 != k),
{
    lemma_position(m, k);
}

/// Two lists with the same keys, entry by entry, find every key at the same
/// place.
pub proof fn lemma_position_same_keys<A, B>(
    a: Seq<(Seq<char>, A)>,
    b: Seq<(Seq<char>, B)>,
    k: Seq<char>,
)
    requires
        a.len() == b.len(),
        forall|i: int| 0 <= i < a.len() ==> a[i].0 == b[i].0,
    ensures
        position(a, k) == position(b, k),
{
    lemma_position(a, k);
    lemma_position(b, k);
    let p = position(a, k);
    let q = position(b, k);
    if p >= 0 && (q == -1 || q > p) {
        assert(b[p].0 == k);
    }
    if q >= 0 && (p == -1 || p > q) {
        assert(a[q].0 == k);
    }
}

/// What an appended entry changes: its key is present afterwards, and it is
/// found there unless an earlier entry has the key.
pub proof fn lemma_push<V>(m: Seq<(Seq<char>, V)>, e: (Seq<char>, V), k: Seq<char>)
    ensures
        has_key(m.push(e), k) == (has_key(m, k) || e.0 == k),
        has_key(m, k) ==> position(m.push(e), k) == position(m, k),
        !has_key(m, k) && e.0 == k ==> position(m.push(e), k) == m.len(),
{
    let n = m.push(e);
    lemma_position(m, k);
    lemma_position(n, k);
    assert forall|j: int| 0 <= j < m.len() implies n[j] == m[j] by {}
    if has_key(m, k) {
        let p = position(m, k);
        assert(n[p].0 == k);
        if 0 <= position(n, k) < p {
            assert(m[position(n, k)].0 != k);
        }
    } else {
        if e.0 == k {
            assert(n[m.len() as int].0 == k);
            if 0 <= position(n, k) < m.len() {
                assert(m[position(n, k)].0 != k);
            }
        } else if has_key(n, k) {
            let q = position(n, k);
            if q < m.len() {
                assert(m[q].0 == k);
            }
        }
    }
}

/// `put` binds the key and leaves every other key as it was.
pub proof fn lemma_put<V>(m: Seq<(Seq<char>, V)>, k: Seq<char>, v: V, other: Seq<char>)
    ensures
        has_key(put(m, k, v), k),
        lookup(put(m, k, v), k) == v,
        other != k ==> has_key(put(m, k, v), other) == has_key(m, other),
        other != k && has_key(m, other) ==> lookup(put(m, k, v), other) == lookup(m, other),
        distinct_keys(m) ==> distinct_keys(put(m, k, v)),
{
    let n = put(m, k, v);
    lemma_position(m, k);
    lemma_position(m, other);
    lemma_position(n, k);
    lemma_position(n, other);
    if has_key(m, k) {
        let p = position(m, k);
        assert(n[p].0 == k);
        assert forall|j: int| 0 <= j < n.len() implies n[j].0 == m[j].0 by {}
        if position(n, k) == -1 {
            assert(n[p].0 != k);
        }
        if position(n, k) > p {
            assert(n[p].0 != k);
        }
        if 0 <= position(n, k) < p {
            assert(m[position(n, k)].0 != k);
        }
    } else {
        assert(n[m.len() as int].0 == k);
        assert forall|j: int| 0 <= j < m.len() implies n[j].0 == m[j].0 by {}
        if 0 <= position(n, k) < m.len() {
            assert(m[position(n, k)].0 != k);
        }
    }
    if other != k {
        if has_key(m, other) {
            let q = position(m, other);
            assert(n[q] == m[q]);
            if 0 <= position(n, other) < q {
                assert(m[position(n, other)].0 != other);
            }
        } else if has_key(n, other) {
            let q = position(n, other);
            assert(q < m.len());
            assert(m[q].0 != other);
        }
    }
}

// ---------------------------------------------------------------------------
// The executable map
// ---------------------------------------------------------------------------

/// An insertion-ordered map from strings to `V`.
#[derive(Clone, Debug)]
pub struct StrMap<V> {
    entries: Vec<(String, V)>,
}

impl<V> View for StrMap<V> {
    type V = Seq<(Seq<char>, V)>;

    closed spec fn view(&self) -> Seq<(Seq<char>, V)> {
        Seq::new(self.entries@.len(), |i: int| (self.entries@[i].0@, self.entries@[i].1))
    }
}

impl<V> StrMap<V> {
    /// An empty map.
    pub fn new() -> (m: Self)
        ensures
            m@ == Seq::<(Seq<char>, V)>::empty(),
    {
        let m = StrMap { entries: Vec::new() };
        assert(m@ =~= Seq::<(Seq<char>, V)>::empty());
        m
    }

    /// The number of entries.
    pub fn len(&self) -> (n: usize)
        ensures
            n == self@.len(),
    {
        self.entries.len()
    }

    /// Whether the map has no entries.
    pub fn is_empty(&self) -> (b: bool)
        ensures
            b == (self@.len() == 0),
    {
        self.entries.len() == 0
    }

    /// The key of entry `i`.
    pub fn key_at(&self, i: usize) -> (k: &String)
        requires
            i < self@.len(),
        ensures
            k@ == self@[i as int].0,
    {
        &self.entries[i].0
    }

    /// The value of entry `i`.
    pub fn value_at(&self, i: usize) -> (v: &V)
        requires
            i < self@.len(),
        ensures
            *v == self@[i as int].1,
    {
        &self.entries[i].1
    }

    /// Replaces the value of entry `i`; the key and all other entries stay.
    pub fn set_value_at(&mut self, i: usize, value: V)
        requires
            i < old(self)@.len(),
        ensures
            final(self)@ == old(self)@.update(i as int, (old(self)@[i as int].0, value)),
    {
        self.entries[i].1 = value;
        assert(self@ =~= old(self)@.update(i as int, (old(self)@[i as int].0, value)));
    }

    /// Mutable access to the value of entry `i`; the key and all other
    /// entries stay.
    pub fn value_at_mut(&mut self, i: usize) -> (v: &mut V)
        requires
            i < old(self)@.len(),
        ensures
            *v == old(self)@[i as int].1,
            final(self)@ =~= old(self)@.update(i as int, (old(self)@[i as int].0, *final(v))),
    {
        &mut self.entries[i].1
    }

    /// The index of the entry with key `key`, if there is one.
    pub fn position(&self, key: &str) -> (r: Option<usize>)
        ensures
            match r {
                Some(i) => i == position(self@, key@) && i < self@.len() && self@[i as int].0
                    == key@,
                None => position(self@, key@) == -1,
            },
    {
        proof {
            lemma_position(self@, key@);
        }
        let mut i: usize = 0;
        while i < self.entries.len()
            invariant
                i <= self.entries.len(),
                position(self@, key@) == position_from(self@, key@, i as int),
            decreases self.entries.len() - i,
        {
            if str_eq(self.entries[i].0.as_str(), key) {
                return Some(i);
            }
            i += 1;
        }
        None
    }

    /// Whether some entry has the key `key`.
    pub fn contains_key(&self, key: &str) -> (b: bool)
        ensures
            b == has_key(self@, key@),
    {
        self.position(key).is_some()
    }

    /// The value bound to `key`, if there is one.
    pub fn get(&self, key: &str) -> (r: Option<&V>)
        ensures
            match r {
                Some(v) => has_key(self@, key@) && *v == lookup(self@, key@),
                None => !has_key(self@, key@),
            },
    {
        match self.position(key) {
            Some(i) => {
                proof {
                    lemma_position(self@, key@);
                }
                Some(&self.entries[i].1)
            },
            None => None,
        }
    }

    /// Binds `key` to `value`: an existing entry is overwritten in place, a
    /// new key is appended.
    pub fn insert(&mut self, key: String, value: V)
        ensures
            final(self)@ == put(old(self)@, key@, value),
    {
        match self.position(key.as_str()) {
            Some(i) => {
                proof {
                    lemma_position(self@, key@);
                }
                self.entries[i].1 = value;
                assert(self@ =~= put(old(self)@, key@, value));
            },
            None => {
                self.entries.push((key, value));
                assert(self@ =~= put(old(self)@, key@, value));
            },
        }
    }

    /// Removes entry `i` and returns it; later entries move up by one.
    pub fn remove_at(&mut self, i: usize) -> (r: (String, V))
        requires
            i < old(self)@.len(),
        ensures
            final(self)@ == old(self)@.remove(i as int),
            r.0@ == old(self)@[i as int].0,
            r.1 == old(self)@[i as int].1,
    {
        let r = self.entries.remove(i);
        assert(self@ =~= old(self)@.remove(i as int));
        r
    }

    /// Removes the entry with key `key` and returns its value, if there is one.
    pub fn remove(&mut self, key: &str) -> (r: Option<V>)
        ensures
            final(self)@ == without(old(self)@, key@),
            match r {
                Some(v) => has_key(old(self)@, key@) && v == lookup(old(self)@, key@),
                None => !has_key(old(self)@, key@),
            },
    {
        match self.position(key) {
            Some(i) => {
                proof {
                    lemma_position(self@, key@);
                }
                let r = self.remove_at(i);
                Some(r.1)
            },
            None => None,
        }
    }

    /// Appends an entry without looking for the key.
    pub(crate) fn push_entry(&mut self, key: String, value: V)
        ensures
            final(self)@ == old(self)@.push((key@, value)),
    {
        self.entries.push((key, value));
        assert(self@ =~= old(self)@.push((key@, value)));
    }

    /// Removes every entry.
    pub fn clear(&mut self)
        ensures
            final(self)@ == Seq::<(Seq<char>, V)>::empty(),
    {
        self.entries.clear();
        assert(self@ =~= Seq::<(Seq<char>, V)>::empty());
    }
}

} // verus!
