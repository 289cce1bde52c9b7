//! A table from labels to values that is kept in label order, so that walking
//! it gives the same sequence whatever the order of the insertions was.

use crate::label::{label_lt, lemma_label_order, rank, strictly_increasing, Rank};
use vstd::prelude::*;

verus! {

/// The labels of a vector of strings, one for one.
pub open spec fn labels_of(keys: Seq<String>) -> Seq<Seq<char>> {
    keys.map_values(|s: String| s@)
}

/// A table from labels to values, ordered by label.
#[derive(Clone, Debug, PartialEq, Eq)]
pub struct OrderedTable<V> {
    keys: Vec<String>,
    values: Vec<V>,
}

impl<V> OrderedTable<V> {
    /// The labels of the table, in the order in which it is walked.
    pub closed spec fn keys(&self) -> Seq<Seq<char>> {
        labels_of(self.keys@)
    }

    /// The values of the table, each at the index of its label.
    pub closed spec fn values(&self) -> Seq<V> {
        self.values@
    }

    /// Every label has one value and the labels strictly increase.
    pub open spec fn wf(&self) -> bool {
        &&& self.keys().len() == self.values().len()
        &&& strictly_increasing(self.keys())
    }

    /// Whether the table holds the label.
    pub open spec fn contains(&self, key: Seq<char>) -> bool {
        self.keys().contains(key)
    }

    /// The value under a label that the table holds.
    pub open spec fn value_of(&self, key: Seq<char>) -> V {
        self.values()[self.keys().index_of(key)]
    }

    /// The table as a map.
    pub open spec fn map(&self) -> Map<Seq<char>, V> {
        Map::new(|k: Seq<char>| self.contains(k), |k: Seq<char>| self.value_of(k))
    }

    /// In a well-formed table a label stands at one index only.
    pub proof fn lemma_index_unique(&self, i: int, j: int)
        requires
            self.wf(),
            0 <= i < self.keys().len(),
            0 <= j < self.keys().len(),
            self.keys()[i] == self.keys()[j],
        ensures
            i == j,
    {
        lemma_label_order(self.keys()[i], self.keys()[j], self.keys()[i]);
    }

    /// The value under the label at index `i` is the value at index `i`.
    pub proof fn lemma_value_at(&self, i: int)
        requires
            self.wf(),
            0 <= i < self.keys().len(),
        ensures
            self.contains(self.keys()[i]),
            self.value_of(self.keys()[i]) == self.values()[i],
    {
        let k = self.keys()[i];
        assert(self.keys().contains(k));
        self.lemma_index_unique(i, self.keys().index_of(k));
    }

    /// The empty table.
    pub fn new() -> (t: Self)
        ensures
            t.wf(),
            t.keys() == Seq::<Seq<char>>::empty(),
            t.values() == Seq::<V>::empty(),
            t.map() == Map::<Seq<char>, V>::empty(),
    {
        let t = OrderedTable { keys: Vec::new(), values: Vec::new() };
        proof {
            assert(t.keys() =~= Seq::<Seq<char>>::empty());
            assert(t.map() =~= Map::<Seq<char>, V>::empty());
        }
        t
    }

    /// The number of labels.
    pub fn len(&self) -> (n: usize)
        requires
            self.wf(),
        ensures
            n == self.keys().len(),
    {
        self.keys.len()
    }

    /// The index of a label, if the table holds it.
    pub fn position(&self, key: &str) -> (r: Option<usize>)
        requires
            self.wf(),
        ensures
            r is Some <==> self.contains(key@),
            r matches Some(i) ==> i < self.keys().len() && self.keys()[i as int] == key@,
    {
        let mut i: usize = 0;
        while i < self.keys.len()
            invariant
                i <= self.keys@.len(),
                forall|j: int| 0 <= j < i ==> self.keys()[j] != key@,
            decreases self.keys@.len() - i,
        {
            if rank(self.keys[i].as_str(), key) == Rank::Same {
                assert(self.keys()[i as int] == key@);
                return Some(i);
            }
            i += 1;
        }
        None
    }

    /// The label at an index.
    pub fn key_at(&self, i: usize) -> (k: &String)
        requires
            self.wf(),
            i < self.keys().len(),
        ensures
            k@ == self.keys()[i as int],
    {
        &self.keys[i]
    }

    /// The value at an index.
    pub fn value_at(&self, i: usize) -> (v: &V)
        requires
            self.wf(),
            i < self.keys().len(),
        ensures
            *v == self.values()[i as int],
            *v == self.value_of(self.keys()[i as int]),
    {
        proof {
            self.lemma_value_at(i as int);
        }
        &self.values[i]
    }

    /// A table with the labels of `self` and another value at index `i` is
    /// `self` as a map with that value under the label at `i`.
    pub proof fn lemma_value_replaced(&self, after: &Self, i: int)
        requires
            self.wf(),
            0 <= i < self.keys().len(),
            after.keys() == self.keys(),
            after.values() == self.values().update(i, after.values()[i]),
        ensures
            after.wf(),
            after.map() == self.map().insert(self.keys()[i], after.values()[i]),
    {
        let key = self.keys()[i];
        let value = after.values()[i];
        assert forall|k: Seq<char>| after.contains(k) implies #[trigger] after.value_of(k)
            == self.map().insert(key, value)[k] by {
            let j = after.keys().index_of(k);
            if k == key {
                after.lemma_index_unique(i, j);
            }
        }
        assert(after.map() =~= self.map().insert(key, value));
    }

    /// The value at an index, to be changed in place; the labels stay.
    pub fn value_at_mut(&mut self, i: usize) -> (v: &mut V)
        requires
            old(self).wf(),
            i < old(self).keys().len(),
        ensures
            *v == old(self).values()[i as int],
            final(self).keys() == old(self).keys(),
            final(self).values() == old(self).values().update(i as int, *final(v)),
    {
        &mut self.values[i]
    }

    /// Replaces the value at an index; the labels stay.
    pub fn set_value_at(&mut self, i: usize, value: V)
        requires
            old(self).wf(),
            i < old(self).keys().len(),
        ensures
            final(self).wf(),
            final(self).keys() == old(self).keys(),
            final(self).values() == old(self).values().update(i as int, value),
            final(self).map() == old(self).map().insert(old(self).keys()[i as int], value),
    {
        self.values[i] = value;
        proof {
            old(self).lemma_value_replaced(self, i as int);
        }
    }

    /// Puts the value under the label, at the label's place in the order,
    /// and gives back the value that stood under the label before, if one
    /// did.
    pub fn insert(&mut self, key: String, value: V) -> (previous: Option<V>)
        requires
            old(self).wf(),
        ensures
            final(self).wf(),
            final(self).map() == old(self).map().insert(key@, value),
            previous == if old(self).contains(key@) {
                Some(old(self).value_of(key@))
            } else {
                None
            },
    {
        match self.position(key.as_str()) {
            Some(i) => {
                proof {
                    self.lemma_value_at(i as int);
                }
                let mut value = value;
                std::mem::swap(&mut value, &mut self.values[i]);
                proof {
                    old(self).lemma_value_replaced(self, i as int);
                }
                Some(value)
            },
            None => {
                let _ = self.insert_new(key, value);
                None
            },
        }
    }

    /// Adds a label that the table does not hold yet, at its place in the
    /// order, and says at which index that is.
    pub(crate) fn insert_new(&mut self, key: String, value: V) -> (at: usize)
        requires
            old(self).wf(),
            !old(self).contains(key@),
        ensures
            final(self).wf(),
            final(self).map() == old(self).map().insert(key@, value),
            at <= old(self).keys().len(),
            final(self).keys() == old(self).keys().insert(at as int, key@),
            final(self).values() == old(self).values().insert(at as int, value),
    {
        let mut i: usize = 0;
        while i < self.keys.len() && rank(self.keys[i].as_str(), key.as_str()) == Rank::Before
            invariant
                i <= self.keys@.len(),
                *self == *old(self),
                forall|j: int| 0 <= j < i ==> label_lt(self.keys()[j], key@),
            decreases self.keys@.len() - i,
        {
            i += 1;
        }
        let ghost before = self.keys();
        proof {
            if i < before.len() {
                assert(before.contains(before[i as int]));
                lemma_label_order(before[i as int], key@, before[i as int]);
                assert forall|j: int| i <= j < before.len() implies label_lt(key@, before[j]) by {
                    if j > i {
                        lemma_label_order(key@, before[i as int], before[j]);
                    }
                }
            }
        }
        self.keys.insert(i, key);
        self.values.insert(i, value);
        proof {
            let after = self.keys();
            assert(after =~= before.insert(i as int, key@));
            assert forall|a: int, b: int| 0 <= a < b < after.len() implies label_lt(
                #[trigger] after[a],
                #[trigger] after[b],
            ) by {
                let pa = if a < i { a } else { a - 1 };
                let pb = if b < i { b } else { b - 1 };
                if a != i && b != i {
                    assert(label_lt(before[pa], before[pb]));
                }
            }
            assert forall|k: Seq<char>| self.contains(k) <==> (k == key@ || old(self).contains(k)) by {
                if before.contains(k) {
                    let j = before.index_of(k);
                    let pj = if j < i { j } else { j + 1 };
                    assert(after[pj] == k);
                }
                if after.contains(k) && k != key@ {
                    let j = after.index_of(k);
                    let pj = if j < i { j } else { j - 1 };
                    assert(before[pj] == k);
                }
                assert(after[i as int] == key@);
            }
            assert forall|k: Seq<char>| self.contains(k) implies #[trigger] self.value_of(k) == old(self).map().insert(key@, value)[k] by {
                let j = after.index_of(k);
                if k == key@ {
                    self.lemma_index_unique(i as int, j);
                } else {
                    let pj = if j < i { j } else { j - 1 };
                    assert(before[pj] == k);
                    old(self).lemma_index_unique(pj, before.index_of(k));
                }
            }
            assert(self.map() =~= old(self).map().insert(key@, value));
        }
        i
    }

    /// Takes the label at an index out of the table, with its value.
    pub fn remove_at(&mut self, i: usize) -> (v: V)
        requires
            old(self).wf(),
            i < old(self).keys().len(),
        ensures
            final(self).wf(),
            v == old(self).values()[i as int],
            final(self).map() == old(self).map().remove(old(self).keys()[i as int]),
            final(self).keys() == old(self).keys().remove(i as int),
            final(self).values() == old(self).values().remove(i as int),
    {
        let ghost before = self.keys();
        let _ = self.keys.remove(i);
        let v = self.values.remove(i);
        proof {
            let after = self.keys();
            let key = before[i as int];
            assert(after =~= before.remove(i as int));
            assert forall|a: int, b: int| 0 <= a < b < after.len() implies label_lt(
                #[trigger] after[a],
                #[trigger] after[b],
            ) by {
                let pa = if a < i { a } else { a + 1 };
                let pb = if b < i { b } else { b + 1 };
                assert(label_lt(before[pa], before[pb]));
            }
            assert forall|k: Seq<char>| self.contains(k) <==> (k != key && old(self).contains(k)) by {
                if before.contains(k) && k != key {
                    let j = before.index_of(k);
                    let pj = if j < i { j } else { j - 1 };
                    assert(after[pj] == k);
                }
                if after.contains(k) {
                    let j = after.index_of(k);
                    let pj = if j < i { j } else { j + 1 };
                    assert(before[pj] == k);
                    if k == key {
                        old(self).lemma_index_unique(pj, i as int);
                    }
                }
            }
            assert forall|k: Seq<char>| self.contains(k) implies #[trigger] self.value_of(k) == old(self).value_of(k) by {
                let j = after.index_of(k);
                let pj = if j < i { j } else { j + 1 };
                assert(before[pj] == k);
                old(self).lemma_index_unique(pj, before.index_of(k));
            }
            assert(self.map() =~= old(self).map().remove(key));
        }
        v
    }

    /// The entries in label order, giving up the table.
    pub fn into_entries(self) -> (r: Vec<(String, V)>)
        requires
            self.wf(),
        ensures
            r@.len() == self.keys().len(),
            forall|i: int|
                0 <= i < r@.len() ==> (#[trigger] r@[i]).0@ == self.keys()[i] && r@[i].1
                    == self.values()[i],
    {
        let ghost all_keys = self.keys@;
        let ghost all_values = self.values@;
        let ghost n = all_keys.len() as int;
        let mut keys = self.keys;
        let mut values = self.values;
        let mut reversed: Vec<(String, V)> = Vec::new();
        while keys.len() > 0
            invariant
                n == all_keys.len() == all_values.len(),
                keys@.len() == values@.len(),
                keys@.len() + reversed@.len() == n,
                keys@ == all_keys.take(keys@.len() as int),
                values@ == all_values.take(values@.len() as int),
                forall|j: int|
                    0 <= j < reversed@.len() ==> (#[trigger] reversed@[j]).0 == all_keys[n - 1 - j]
                        && reversed@[j].1 == all_values[n - 1 - j],
            decreases keys@.len(),
        {
            let k = keys.pop().unwrap();
            let v = values.pop().unwrap();
            reversed.push((k, v));
        }
        let ghost all = reversed@;
        let mut entries: Vec<(String, V)> = Vec::new();
        while reversed.len() > 0
            invariant
                all.len() == n,
                reversed@ == all.take(reversed@.len() as int),
                entries@.len() + reversed@.len() == n,
                forall|j: int| 0 <= j < entries@.len() ==> #[trigger] entries@[j] == all[n - 1 - j],
            decreases reversed@.len(),
        {
            let e = reversed.pop().unwrap();
            entries.push(e);
        }
        entries
    }
}

impl<V: Copy> OrderedTable<V> {
    /// A table of its own with the same labels and values.
    pub fn snapshot(&self) -> (t: Self)
        requires
            self.wf(),
        ensures
            t.wf(),
            t.keys() == self.keys(),
            t.values() == self.values(),
            t.map() == self.map(),
    {
        let mut keys: Vec<String> = Vec::new();
        let mut values: Vec<V> = Vec::new();
        let mut i: usize = 0;
        while i < self.keys.len()
            invariant
                i <= self.keys@.len(),
                self.keys@.len() == self.values@.len(),
                keys@ == self.keys@.take(i as int),
                values@ == self.values@.take(i as int),
            decreases self.keys@.len() - i,
        {
            keys.push(self.keys[i].clone());
            values.push(self.values[i]);
            proof {
                assert(self.keys@.take(i + 1) =~= self.keys@.take(i as int).push(self.keys@[i as int]));
                assert(self.values@.take(i + 1) =~= self.values@.take(i as int).push(
                    self.values@[i as int],
                ));
            }
            i += 1;
        }
        proof {
            assert(self.keys@.take(i as int) =~= self.keys@);
            assert(self.values@.take(i as int) =~= self.values@);
        }
        let t = OrderedTable { keys, values };
        proof {
            assert(t.map() =~= self.map());
        }
        t
    }
}

} // verus!
