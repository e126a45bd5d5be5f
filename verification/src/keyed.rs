//! A map from string keys to values that keeps its entries in ascending key
//! order, so that walking it always gives the same sequence.

use vstd::prelude::*;
use crate::order::{ascending, key_lt, relate, relation, Relation};
use crate::order::{lemma_key_lt_irreflexive, lemma_key_lt_transitive, lemma_key_lt_total};

verus! {

/// A map with string keys, held as a vector of entries sorted by key.
#[derive(Debug)]
pub struct KeyedMap<V> {
    entries: Vec<(String, V)>,
}

/// The map that sends each of `keys` to the value at the same position.
pub open spec fn paired<V>(keys: Seq<Seq<char>>, values: Seq<V>) -> Map<Seq<char>, V> {
    Map::new(|k: Seq<char>| keys.contains(k), |k: Seq<char>| values[keys.index_of(k)])
}

/// In an ascending sequence every key stands at one position only.
pub proof fn lemma_ascending_distinct(keys: Seq<Seq<char>>, i: int, j: int)
    requires
        ascending(keys),
        0 <= i < keys.len(),
        0 <= j < keys.len(),
        keys[i] == keys[j],
    ensures
        i == j,
{
    lemma_key_lt_irreflexive(keys[i]);
}

/// The paired map sends the key at position `i` to the value at position `i`.
pub proof fn lemma_paired_at<V>(keys: Seq<Seq<char>>, values: Seq<V>, i: int)
    requires
        ascending(keys),
        0 <= i < keys.len(),
    ensures
        paired(keys, values).contains_key(keys[i]),
        paired(keys, values)[keys[i]] == values[i],
{
    let j = keys.index_of(keys[i]);
    lemma_ascending_distinct(keys, i, j);
}

/// Two ascending sequences that hold the same keys are the same sequence.
pub proof fn lemma_ascending_unique(a: Seq<Seq<char>>, b: Seq<Seq<char>>)
    requires
        ascending(a),
        ascending(b),
        forall|k: Seq<char>| a.contains(k) <==> b.contains(k),
    ensures
        a == b,
    decreases a.len(),
{
    if a.len() == 0 {
        if b.len() > 0 {
            assert(b.contains(b[0]));
        }
        assert(a =~= b);
    } else {
        assert(a.contains(a.last()));
        let n = a.len() - 1;
        let m = b.len() - 1;
        // The greatest key of each sequence is its last one, so the two agree.
        assert(b.contains(b.last()));
        let i = a.index_of(b.last());
        let j = b.index_of(a.last());
        if i < n {
            lemma_key_lt_transitive(b[j], b.last(), a.last());
            lemma_key_lt_irreflexive(a.last());
        }
        assert(a.last() == b.last());
        assert forall|k: Seq<char>| a.drop_last().contains(k) <==> b.drop_last().contains(k) by {
            if a.drop_last().contains(k) {
                let x = a.drop_last().index_of(k);
                assert(a[x] == k);
                assert(a.contains(k));
                let y = b.index_of(k);
                if y == m {
                    lemma_ascending_distinct(a, x, n);
                }
                assert(b.drop_last()[y] == k);
            }
            if b.drop_last().contains(k) {
                let y = b.drop_last().index_of(k);
                assert(b[y] == k);
                assert(b.contains(k));
                let x = a.index_of(k);
                if x == n {
                    lemma_ascending_distinct(b, y, m);
                }
                assert(a.drop_last()[x] == k);
            }
        }
        lemma_ascending_unique(a.drop_last(), b.drop_last());
        assert(a =~= a.drop_last().push(a.last()));
        assert(b =~= b.drop_last().push(b.last()));
    }
}

impl<V> View for KeyedMap<V> {
    type V = Map<Seq<char>, V>;

    open spec fn view(&self) -> Map<Seq<char>, V> {
        paired(self.keys(), self.values())
    }
}

impl<V: DeepView> DeepView for KeyedMap<V> {
    type V = Map<Seq<char>, V::V>;

    open spec fn deep_view(&self) -> Map<Seq<char>, V::V> {
        self@.map_values(|value: V| value.deep_view())
    }
}

impl<V> KeyedMap<V> {
    /// The keys in the order in which the map is walked.
    pub closed spec fn keys(&self) -> Seq<Seq<char>> {
        Seq::new(self.entries@.len(), |i: int| self.entries@[i].0@)
    }

    /// The values, each at the position of its key.
    pub closed spec fn values(&self) -> Seq<V> {
        Seq::new(self.entries@.len(), |i: int| self.entries@[i].1)
    }

    /// The keys are strictly ascending, and each has its value.
    pub open spec fn wf(&self) -> bool {
        &&& self.keys().len() == self.values().len()
        &&& ascending(self.keys())
    }

    /// The keys of the walk are the keys of the map.
    pub proof fn lemma_keys_are_domain(&self, key: Seq<char>)
        ensures
            self.keys().contains(key) <==> self@.contains_key(key),
    {
    }

    /// The walk leads from each key to the value that the map holds for it.
    pub proof fn lemma_walk_at(&self, i: int)
        requires
            self.wf(),
            0 <= i < self.keys().len(),
        ensures
            self@.contains_key(self.keys()[i]),
            self@[self.keys()[i]] == self.values()[i],
    {
        lemma_paired_at(self.keys(), self.values(), i);
    }

    /// Two maps with the same keys are walked in the same order, whatever the
    /// order in which their entries were inserted.
    pub proof fn lemma_same_walk<W>(&self, other: &KeyedMap<W>)
        requires
            self.wf(),
            other.wf(),
            self@.dom() == other@.dom(),
        ensures
            self.keys() == other.keys(),
    {
        assert forall|key: Seq<char>| self.keys().contains(key) <==> other.keys().contains(
            key,
        ) by {
            self.lemma_keys_are_domain(key);
            other.lemma_keys_are_domain(key);
            assert(self@.dom().contains(key) == other@.dom().contains(key));
        }
        lemma_ascending_unique(self.keys(), other.keys());
    }

    /// A map without entries.
    pub fn new() -> (m: Self)
        ensures
            m.wf(),
            m.keys() == Seq::<Seq<char>>::empty(),
            m@ == Map::<Seq<char>, V>::empty(),
    {
        let m = KeyedMap { entries: Vec::new() };
        assert(m.keys() =~= Seq::<Seq<char>>::empty());
        assert(m@ =~= Map::<Seq<char>, V>::empty());
        m
    }

    /// The number of entries.
    pub fn len(&self) -> (n: usize)
        ensures
            n == self.keys().len(),
            n == self.values().len(),
    {
        self.entries.len()
    }

    /// The key at position `i` of the walk.
    pub fn key_at(&self, i: usize) -> (key: &String)
        requires
            i < self.keys().len(),
        ensures
            key@ == self.keys()[i as int],
    {
        &self.entries[i].0
    }

    /// The value at position `i` of the walk.
    pub fn value_at(&self, i: usize) -> (value: &V)
        requires
            i < self.values().len(),
        ensures
            *value == self.values()[i as int],
    {
        &self.entries[i].1
    }

    /// The entries in the order of the walk.
    pub fn into_entries(self) -> (entries: Vec<(String, V)>)
        ensures
            entries.len() == self.keys().len(),
            forall|i: int|
                0 <= i < entries.len() ==> (#[trigger] entries[i]).0@ == self.keys()[i]
                    && entries[i].1 == self.values()[i],
    {
        self.entries
    }

    /// The position of the first key that does not come before `key`, and
    /// whether the key at that position is `key` itself.
    fn locate(&self, key: &str) -> (r: (usize, bool))
        requires
            self.wf(),
        ensures
            r.0 <= self.keys().len(),
            forall|i: int| 0 <= i < r.0 ==> key_lt(#[trigger] self.keys()[i], key@),
            forall|i: int| r.0 < i < self.keys().len() ==> key_lt(key@, #[trigger] self.keys()[i]),
            r.1 ==> r.0 < self.keys().len() && self.keys()[r.0 as int] == key@,
            !r.1 && r.0 < self.keys().len() ==> key_lt(key@, self.keys()[r.0 as int]),
            r.1 <==> self.keys().contains(key@),
    {
        let mut lo: usize = 0;
        let mut hi: usize = self.entries.len();
        while lo < hi
            invariant
                self.wf(),
                lo <= hi <= self.keys().len(),
                self.keys().len() == self.entries@.len(),
                forall|i: int| 0 <= i < lo ==> key_lt(#[trigger] self.keys()[i], key@),
                forall|i: int| hi <= i < self.keys().len() ==> !key_lt(#[trigger] self.keys()[i], key@),
            decreases hi - lo,
        {
            let mid: usize = lo + (hi - lo) / 2;
            let ghost pivot = self.keys()[mid as int];
            match relate(self.entries[mid].0.as_str(), key) {
                Relation::Before => {
                    assert forall|i: int| 0 <= i < mid + 1 implies key_lt(
                        #[trigger] self.keys()[i],
                        key@,
                    ) by {
                        if i < mid {
                            lemma_key_lt_transitive(self.keys()[i], pivot, key@);
                        }
                    }
                    lo = mid + 1;
                },
                _ => {
                    assert forall|i: int| mid <= i < self.keys().len() implies !key_lt(
                        #[trigger] self.keys()[i],
                        key@,
                    ) by {
                        if mid < i && key_lt(self.keys()[i], key@) {
                            lemma_key_lt_transitive(pivot, self.keys()[i], key@);
                        }
                    }
                    hi = mid;
                },
            }
        }
        let found = lo < self.entries.len() && relate(self.entries[lo].0.as_str(), key)
            == Relation::Same;
        proof {
            let keys = self.keys();
            assert forall|i: int| lo < i < keys.len() implies key_lt(key@, #[trigger] keys[i]) by {
                lemma_key_lt_total(keys[lo as int], key@);
                if keys[lo as int] != key@ {
                    lemma_key_lt_transitive(key@, keys[lo as int], keys[i]);
                }
            }
            if !found && lo < keys.len() {
                lemma_key_lt_total(keys[lo as int], key@);
            }
            if keys.contains(key@) {
                let i = keys.index_of(key@);
                lemma_key_lt_irreflexive(key@);
            }
        }
        (lo, found)
    }

    /// Whether the map has an entry for `key`.
    pub fn contains_key(&self, key: &str) -> (found: bool)
        requires
            self.wf(),
        ensures
            found == self@.contains_key(key@),
    {
        self.locate(key).1
    }

    /// The value that the map holds for `key`, if any.
    pub fn get(&self, key: &str) -> (value: Option<&V>)
        requires
            self.wf(),
        ensures
            match value {
                Some(v) => self@.contains_key(key@) && *v == self@[key@],
                None => !self@.contains_key(key@),
            },
    {
        let (at, found) = self.locate(key);
        if found {
            proof {
                lemma_paired_at(self.keys(), self.values(), at as int);
            }
            Some(&self.entries[at].1)
        } else {
            None
        }
    }

    /// Sets the value for `key`, replacing the one that an earlier insertion
    /// gave it.
    pub fn insert(&mut self, key: String, value: V)
        requires
            old(self).wf(),
        ensures
            final(self).wf(),
            final(self)@ == old(self)@.insert(key@, value),
    {
        let (at, found) = self.locate(key.as_str());
        let ghost keys = self.keys();
        let ghost values = self.values();
        if found {
            self.entries.set(at, (key, value));
            proof {
                assert(self.keys() =~= keys);
                assert(self.values() =~= values.update(at as int, value));
                assert forall|k: Seq<char>| keys.contains(k) implies #[trigger] self@[k] == old(
                    self,
                )@.insert(key@, value)[k] by {
                    let j = keys.index_of(k);
                    if k == key@ {
                        lemma_ascending_distinct(keys, j, at as int);
                    }
                }
                assert(self@ =~= old(self)@.insert(key@, value));
            }
        } else {
            self.entries.insert(at, (key, value));
            proof {
                let grown = self.keys();
                assert(grown =~= keys.insert(at as int, key@));
                assert(self.values() =~= values.insert(at as int, value));
                assert(ascending(grown)) by {
                    assert forall|i: int, j: int| 0 <= i < j < grown.len() implies key_lt(
                        grown[i],
                        grown[j],
                    ) by {
                        if i < at && j > at {
                            assert(grown[i] == keys[i]);
                            assert(grown[j] == keys[j - 1]);
                        }
                    }
                }
                assert forall|k: Seq<char>| grown.contains(k) <==> (k == key@ || keys.contains(
                    k,
                )) by {
                    if grown.contains(k) {
                        let j = grown.index_of(k);
                        if j < at {
                            assert(keys[j] == k);
                        } else if j > at {
                            assert(keys[j - 1] == k);
                        }
                    }
                    if k == key@ {
                        assert(grown[at as int] == k);
                    }
                    if keys.contains(k) {
                        let j = keys.index_of(k);
                        if j < at {
                            assert(grown[j] == k);
                        } else {
                            assert(grown[j + 1] == k);
                        }
                    }
                }
                assert forall|k: Seq<char>| grown.contains(k) implies #[trigger] self@[k] == old(
                    self,
                )@.insert(key@, value)[k] by {
                    let j = grown.index_of(k);
                    lemma_paired_at(grown, self.values(), j);
                    if j < at {
                        lemma_paired_at(keys, values, j);
                    } else if j > at {
                        lemma_paired_at(keys, values, j - 1);
                    }
                }
                assert(self@ =~= old(self)@.insert(key@, value));
            }
        }
    }
}

} // verus!
