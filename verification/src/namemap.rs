//! A map from names to values that keeps the order of insertion.

use vstd::prelude::*;

verus! {

/// The map that a sequence of distinct-keyed entries stands for.
pub open spec fn entries_map<V>(s: Seq<(String, V)>) -> Map<Seq<char>, V>
    decreases s.len(),
{
    if s.len() == 0 {
        Map::empty()
    } else {
        entries_map(s.drop_last()).insert(s.last().0@, s.last().1)
    }
}

/// No two entries of `s` have the same key.
pub open spec fn distinct_keys<V>(s: Seq<(String, V)>) -> bool {
    forall|i: int, j: int| 0 <= i < j < s.len() ==> s[i].0@ != s[j].0@
}

/// A key is in the map exactly if some entry has it, and it maps to that
/// entry's value.
pub proof fn lemma_entries_map<V>(s: Seq<(String, V)>, k: Seq<char>)
    requires
        distinct_keys(s),
    ensures
        entries_map(s).dom().contains(k) <==> exists|i: int| 0 <= i < s.len() && s[i].0@ == k,
        forall|i: int| 0 <= i < s.len() && s[i].0@ == k ==> entries_map(s)[k] == s[i].1,
    decreases s.len(),
{
    if s.len() > 0 {
        let t = s.drop_last();
        lemma_entries_map(t, k);
        if s.last().0@ == k {
            assert(s[s.len() - 1].0@ == k);
        } else {
            if entries_map(s).dom().contains(k) {
                let i = choose|i: int| 0 <= i < t.len() && t[i].0@ == k;
                assert(s[i].0@ == k);
            }
            if exists|i: int| 0 <= i < s.len() && s[i].0@ == k {
                let i = choose|i: int| 0 <= i < s.len() && s[i].0@ == k;
                assert(t[i].0@ == k);
            }
        }
        assert forall|i: int| 0 <= i < s.len() && s[i].0@ == k implies entries_map(s)[k] == s[i].1 by {
            if i < s.len() - 1 {
                assert(t[i].0@ == k);
            }
        }
    }
}

/// Replacing the value of entry `i` is an insertion under that entry's key.
pub proof fn lemma_entries_map_update<V>(s: Seq<(String, V)>, i: int, e: (String, V))
    requires
        distinct_keys(s),
        0 <= i < s.len(),
        e.0@ == s[i].0@,
    ensures
        distinct_keys(s.update(i, e)),
        entries_map(s.update(i, e)) == entries_map(s).insert(e.0@, e.1),
    decreases s.len(),
{
    let u = s.update(i, e);
    assert(distinct_keys(u)) by {
        assert forall|a: int, b: int| 0 <= a < b < u.len() implies u[a].0@ != u[b].0@ by {
            assert(s[a].0@ != s[b].0@);
        }
    }
    if i == s.len() - 1 {
        assert(u.drop_last() =~= s.drop_last());
        assert(entries_map(u) =~= entries_map(s).insert(e.0@, e.1));
    } else {
        let t = s.drop_last();
        assert(u.drop_last() =~= t.update(i, e));
        lemma_entries_map_update(t, i, e);
        assert(s.last().0@ != e.0@);
        assert(entries_map(u) =~= entries_map(s).insert(e.0@, e.1));
    }
}

/// A finite map keyed by names.
///
/// Entries are kept in the order in which their keys were first inserted.
#[derive(Debug)]
pub struct NameMap<V> {
    keys: Vec<String>,
    values: Vec<V>,
}

impl<V> NameMap<V> {
    #[verifier::type_invariant]
    spec fn well_formed(self) -> bool {
        &&& self.keys@.len() == self.values@.len()
        &&& forall|i: int, j: int| 0 <= i < j < self.keys@.len() ==> self.keys@[i]@ != self.keys@[j]@
    }

    /// The entries in insertion order.
    pub closed spec fn entries(&self) -> Seq<(String, V)> {
        Seq::new(self.keys@.len(), |i: int| (self.keys@[i], self.values@[i]))
    }

    /// The map from each key to its value.
    pub open spec fn view(&self) -> Map<Seq<char>, V> {
        entries_map(self.entries())
    }

    /// The index of the entry with key `k`.
    pub open spec fn position_of(&self, k: Seq<char>) -> Option<int> {
        if exists|i: int| 0 <= i < self.entries().len() && self.entries()[i].0@ == k {
            Some(choose|i: int| 0 <= i < self.entries().len() && self.entries()[i].0@ == k)
        } else {
            None
        }
    }

    /// The entries pair each key with the value at its index.
    proof fn lemma_entries(&self)
        requires
            self.well_formed(),
        ensures
            distinct_keys(self.entries()),
            self.entries().len() == self.keys@.len(),
            forall|i: int| 0 <= i < self.keys@.len() ==> self.entries()[i] == (self.keys@[i], self.values@[i]),
    {
    }

    /// A map without entries.
    pub fn new() -> (r: Self)
        ensures
            r.entries() == Seq::<(String, V)>::empty(),
            r@ == Map::<Seq<char>, V>::empty(),
    {
        let r = NameMap { keys: Vec::new(), values: Vec::new() };
        assert(r.entries() =~= Seq::<(String, V)>::empty());
        r
    }

    /// The number of entries, no two of which share a key.
    pub fn len(&self) -> (r: usize)
        ensures
            r == self.entries().len(),
            distinct_keys(self.entries()),
    {
        proof {
            use_type_invariant(self);
            self.lemma_entries();
        }
        self.keys.len()
    }

    /// The place of `key` among the entries.
    pub fn position(&self, key: &String) -> (r: Option<usize>)
        ensures
            match r {
                Some(i) => i < self.entries().len() && self.entries()[i as int].0@ == key@,
                None => forall|i: int| 0 <= i < self.entries().len() ==> self.entries()[i].0@ != key@,
            },
            r is Some <==> self@.dom().contains(key@),
            r is Some ==> self.position_of(key@) == Some(r.unwrap() as int),
            r is None ==> self.position_of(key@) is None,
    {
        let mut i: usize = 0;
        while i < self.keys.len()
            invariant
                i <= self.keys.len(),
                forall|j: int| 0 <= j < i ==> self.keys@[j]@ != key@,
            decreases self.keys.len() - i,
        {
            if self.keys[i] == *key {
                proof {
                    use_type_invariant(self);
                    self.lemma_entries();
                    lemma_entries_map(self.entries(), key@);
                    assert(self.entries()[i as int].0@ == key@);
                }
                return Some(i);
            }
            i += 1;
        }
        proof {
            use_type_invariant(self);
            self.lemma_entries();
            lemma_entries_map(self.entries(), key@);
        }
        None
    }

    /// Whether `key` has a value.
    pub fn contains_key(&self, key: &String) -> (r: bool)
        ensures
            r == self@.dom().contains(key@),
    {
        self.position(key).is_some()
    }

    /// The value of `key`, if it has one.
    pub fn get(&self, key: &String) -> (r: Option<&V>)
        ensures
            r == (if self@.dom().contains(key@) { Some(&self@[key@]) } else { None }),
    {
        match self.position(key) {
            Some(i) => {
                proof {
                    use_type_invariant(self);
                    self.lemma_entries();
                    lemma_entries_map(self.entries(), key@);
                }
                Some(&self.values[i])
            },
            None => None,
        }
    }

    /// The value of `key`, to be changed in place.
    pub fn get_mut(&mut self, key: &String) -> (r: Option<&mut V>)
        ensures
            match r {
                Some(v) => old(self)@.dom().contains(key@) && *v == old(self)@[key@]
                    && final(self)@ == old(self)@.insert(key@, *final(v)),
                None => !old(self)@.dom().contains(key@) && *final(self) == *old(self),
            },
    {
        match self.position(key) {
            Some(i) => {
                proof {
                    use_type_invariant(&*self);
                    self.lemma_entries();
                    lemma_entries_map(self.entries(), key@);
                }
                let ghost k = self.keys@[i as int];
                let v = &mut self.values[i];
                proof {
                    lemma_entries_map_update(old(self).entries(), i as int, (k, *final(v)));
                    let ks = old(self).keys@;
                    let vs = old(self).values@.update(i as int, *final(v));
                    assert forall|m: NameMap<V>| m.keys@ == ks && m.values@ == vs implies #[trigger] m.entries()
                        == old(self).entries().update(i as int, (k, *final(v))) by {
                        assert(m.entries() =~= old(self).entries().update(i as int, (k, *final(v))));
                    }
                }
                Some(v)
            },
            None => None,
        }
    }

    /// The key of the entry at `i`.
    pub fn key_at(&self, i: usize) -> (r: &String)
        requires
            i < self.entries().len(),
        ensures
            *r == self.entries()[i as int].0,
    {
        &self.keys[i]
    }

    /// The value of the entry at `i`.
    pub fn value_at(&self, i: usize) -> (r: &V)
        requires
            i < self.entries().len(),
        ensures
            *r == self.entries()[i as int].1,
    {
        proof {
            use_type_invariant(self);
        }
        &self.values[i]
    }

    /// Gives `key` the value `value` and returns the value it had.
    ///
    /// A new key goes behind the others; a known key keeps its place.
    pub fn insert(&mut self, key: String, value: V) -> (r: Option<V>)
        ensures
            final(self)@ == old(self)@.insert(key@, value),
            r == (if old(self)@.dom().contains(key@) { Some(old(self)@[key@]) } else { None }),
            match old(self).position_of(key@) {
                Some(i) => final(self).entries() == old(self).entries().update(
                    i,
                    (old(self).entries()[i].0, value),
                ),
                None => final(self).entries() == old(self).entries().push((key, value)),
            },
    {
        proof {
            use_type_invariant(&*self);
            self.lemma_entries();
            lemma_entries_map(self.entries(), key@);
        }
        let found = self.position(&key);
        proof {
            if found is None {
                assert forall|i: int| 0 <= i < self.keys@.len() implies self.keys@[i]@ != key@ by {
                    assert(self.entries()[i].0@ != key@);
                }
            }
        }
        let mut taken: NameMap<V> = NameMap::new();
        core::mem::swap(self, &mut taken);
        let NameMap { keys, values } = taken;
        let mut keys = keys;
        let mut values = values;
        match found {
            Some(i) => {
                let ghost k = keys@[i as int];
                proof {
                    lemma_entries_map_update(old(self).entries(), i as int, (k, value));
                }
                let mut v = value;
                core::mem::swap(&mut values[i], &mut v);
                let r = NameMap { keys, values };
                assert(r.entries() =~= old(self).entries().update(i as int, (k, value)));
                *self = r;
                Some(v)
            },
            None => {
                proof {
                    assert(old(self).entries().push((key, value)).drop_last() =~= old(self).entries());
                }
                keys.push(key);
                values.push(value);
                let r = NameMap { keys, values };
                assert(r.entries() =~= old(self).entries().push((key, value)));
                *self = r;
                None
            },
        }
    }
}

} // verus!
