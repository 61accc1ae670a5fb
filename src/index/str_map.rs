//! A map keyed by strings, kept as a vector of entries in insertion order.
use vstd::prelude::*;

verus! {

/// Some entry of `es` has key `k`.
pub open spec fn has_key<V>(es: Seq<(Seq<char>, V)>, k: Seq<char>) -> bool {
    exists|i: int| 0 <= i < es.len() && #[trigger] es[i].0 == k
}

/// No two entries of `es` share a key.
pub open spec fn keys_unique<V>(es: Seq<(Seq<char>, V)>) -> bool {
    forall|i: int, j: int| 0 <= i < j < es.len() ==> es[i].0 != es[j].0
}

/// The index of the entry of `es` with key `k`.
pub open spec fn key_index<V>(es: Seq<(Seq<char>, V)>, k: Seq<char>) -> int {
    choose|i: int| 0 <= i < es.len() && #[trigger] es[i].0 == k
}

/// The entries as a map from key to value.
pub open spec fn entries_map<V>(es: Seq<(Seq<char>, V)>) -> Map<Seq<char>, V> {
    Map::new(|k: Seq<char>| has_key(es, k), |k: Seq<char>| es[key_index(es, k)].1)
}

/// With unique keys, the entry found for the key of entry `i` is entry `i`.
pub proof fn lemma_key_index<V>(es: Seq<(Seq<char>, V)>, i: int)
    requires
        keys_unique(es),
        0 <= i < es.len(),
    ensures
        has_key(es, es[i].0),
        key_index(es, es[i].0) == i,
{
    assert(es[i].0 == es[i].0);
    let j = key_index(es, es[i].0);
    assert(0 <= j < es.len() && es[j].0 == es[i].0);
}

/// Adding an entry with a new key adds that key to the map.
pub proof fn lemma_map_push<V>(es: Seq<(Seq<char>, V)>, k: Seq<char>, v: V)
    requires
        keys_unique(es),
        !has_key(es, k),
    ensures
        keys_unique(es.push((k, v))),
        entries_map(es.push((k, v))) == entries_map(es).insert(k, v),
{
    let es2 = es.push((k, v));
    assert forall|x: Seq<char>| has_key(es2, x) <==> (has_key(es, x) || x == k) by {
        if has_key(es, x) {
            let i = choose|i: int| 0 <= i < es.len() && #[trigger] es[i].0 == x;
            assert(es2[i].0 == x);
        }
        if has_key(es2, x) && x != k {
            let i = choose|i: int| 0 <= i < es2.len() && #[trigger] es2[i].0 == x;
            assert(es[i].0 == x);
        }
        if x == k {
            assert(es2[es.len() as int].0 == x);
        }
    }
    assert forall|x: Seq<char>| #[trigger] has_key(es2, x) implies es2[key_index(es2, x)].1
        == entries_map(es).insert(k, v)[x] by {
        if x == k {
            lemma_key_index(es2, es.len() as int);
        } else {
            let i = key_index(es, x);
            lemma_key_index(es, i);
            lemma_key_index(es2, i);
        }
    }
    assert(entries_map(es2) =~= entries_map(es).insert(k, v));
}

/// Replacing the value of entry `i` replaces the value of its key in the map.
pub proof fn lemma_map_update<V>(es: Seq<(Seq<char>, V)>, i: int, v: V)
    requires
        keys_unique(es),
        0 <= i < es.len(),
    ensures
        keys_unique(es.update(i, (es[i].0, v))),
        entries_map(es.update(i, (es[i].0, v))) == entries_map(es).insert(es[i].0, v),
{
    let es2 = es.update(i, (es[i].0, v));
    assert forall|x: Seq<char>| has_key(es2, x) <==> has_key(es, x) by {
        if has_key(es, x) {
            let j = choose|j: int| 0 <= j < es.len() && #[trigger] es[j].0 == x;
            assert(es2[j].0 == x);
        }
        if has_key(es2, x) {
            let j = choose|j: int| 0 <= j < es2.len() && #[trigger] es2[j].0 == x;
            assert(es[j].0 == x);
        }
    }
    lemma_key_index(es, i);
    assert forall|x: Seq<char>| #[trigger] has_key(es2, x) implies es2[key_index(es2, x)].1
        == entries_map(es).insert(es[i].0, v)[x] by {
        let j = key_index(es, x);
        lemma_key_index(es, j);
        lemma_key_index(es2, j);
    }
    assert(entries_map(es2) =~= entries_map(es).insert(es[i].0, v));
}

/// A map keyed by strings: entries in insertion order, each key once.
pub struct StrMap<V> {
    entries: Vec<(String, V)>,
}

impl<V> StrMap<V> {
    /// The entries in insertion order, keys as characters.
    pub closed spec fn entries(&self) -> Seq<(Seq<char>, V)> {
        self.entries@.map(|i: int, e: (String, V)| (e.0@, e.1))
    }

    /// Keys are unique.
    pub open spec fn wf(&self) -> bool {
        keys_unique(self.entries())
    }

    /// The entries as a map.
    pub open spec fn as_map(&self) -> Map<Seq<char>, V> {
        entries_map(self.entries())
    }

    /// An empty map.
    pub fn new() -> (r: Self)
        ensures
            r.wf(),
            r.entries() == Seq::<(Seq<char>, V)>::empty(),
    {
        let r = StrMap { entries: Vec::new() };
        assert(r.entries() =~= Seq::<(Seq<char>, V)>::empty());
        r
    }

    /// The number of entries.
    pub fn len(&self) -> (r: usize)
        ensures
            r == self.entries().len(),
    {
        self.entries.len()
    }

    /// The index of the entry with the given key, if any.
    pub fn find(&self, key: &String) -> (r: Option<usize>)
        ensures
            r is None <==> !has_key(self.entries(), key@),
            r matches Some(i) ==> i < self.entries().len() && self.entries()[i as int].0 == key@,
    {
        let mut i: usize = 0;
        while i < self.entries.len()
            invariant
                i <= self.entries@.len(),
                forall|j: int| 0 <= j < i ==> self.entries()[j].0 != key@,
            decreases self.entries@.len() - i,
        {
            let same = self.entries[i].0 == *key;
            assert(self.entries()[i as int].0 == self.entries@[i as int].0@);
            if same {
                return Some(i);
            }
            i += 1;
        }
        proof {
            if has_key(self.entries(), key@) {
                let j = choose|j: int| 0 <= j < self.entries().len() && #[trigger] self.entries()[j].0 == key@;
            }
        }
        None
    }

    /// The key of entry `i`.
    pub fn key_at(&self, i: usize) -> (r: &String)
        requires
            i < self.entries().len(),
        ensures
            r@ == self.entries()[i as int].0,
    {
        &self.entries[i].0
    }

    /// The value of entry `i`.
    pub fn value_at(&self, i: usize) -> (r: &V)
        requires
            i < self.entries().len(),
        ensures
            *r == self.entries()[i as int].1,
    {
        &self.entries[i].1
    }

    /// Adds an entry under a key not yet present.
    pub fn push(&mut self, key: String, value: V)
        requires
            old(self).wf(),
            !has_key(old(self).entries(), key@),
        ensures
            final(self).wf(),
            final(self).entries() == old(self).entries().push((key@, value)),
            final(self).as_map() == old(self).as_map().insert(key@, value),
    {
        let ghost k = key@;
        let ghost es = self.entries();
        self.entries.push((key, value));
        proof {
            assert(self.entries() =~= es.push((k, value)));
            lemma_map_push(es, k, value);
        }
    }

    /// Puts `value` in entry `i` and returns what it held.
    pub fn replace(&mut self, i: usize, value: V) -> (r: V)
        requires
            old(self).wf(),
            i < old(self).entries().len(),
        ensures
            final(self).wf(),
            r == old(self).entries()[i as int].1,
            final(self).entries() == old(self).entries().update(
                i as int,
                (old(self).entries()[i as int].0, value),
            ),
            final(self).as_map() == old(self).as_map().insert(old(self).entries()[i as int].0, value),
    {
        let ghost es = self.entries();
        let mut v = value;
        std::mem::swap(&mut self.entries[i].1, &mut v);
        proof {
            assert(self.entries() =~= es.update(i as int, (es[i as int].0, value)));
            lemma_map_update(es, i as int, value);
        }
        v
    }

    /// Removes every entry.
    pub fn clear(&mut self)
        ensures
            final(self).wf(),
            final(self).entries() == Seq::<(Seq<char>, V)>::empty(),
    {
        self.entries.clear();
        assert(self.entries() =~= Seq::<(Seq<char>, V)>::empty());
    }
}

} // verus!
