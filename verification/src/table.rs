//! A table from texts to values that can be looked up by key and walked by
//! position.
//!
//! The entries lie in one vector; an index gives the position of each key, so that
//! lookup, insertion and removal do not walk the table.

use vstd::hash_map::StringHashMap;
use vstd::prelude::*;

verus! {

/// A table keyed by text.
pub struct Table<V> {
    index: StringHashMap<usize>,
    entries: Vec<(String, V)>,
}

impl<V> View for Table<V> {
    type V = Map<Seq<char>, V>;

    closed spec fn view(&self) -> Map<Seq<char>, V> {
        Map::new(
            |k: Seq<char>| self.index@.contains_key(k),
            |k: Seq<char>| self.entries@[self.index@[k] as int].1,
        )
    }
}

impl<V> Table<V> {
    /// The index and the entries agree.
    pub closed spec fn wf(&self) -> bool {
        &&& forall|i: int|
            #![trigger self.entries@[i]]
            0 <= i < self.entries@.len() ==> self.index@.contains_key(self.entries@[i].0@)
                && self.index@[self.entries@[i].0@] == i
        &&& forall|k: Seq<char>| #[trigger]
            self.index@.contains_key(k) ==> self.index@[k] < self.entries@.len()
                && self.entries@[self.index@[k] as int].0@ == k
    }

    /// The keys in the order of their positions.
    pub closed spec fn keys(&self) -> Seq<Seq<char>> {
        self.entries@.map_values(|e: (String, V)| e.0@)
    }

    /// No key occurs twice, and the keys are those of the map.
    pub proof fn lemma_keys(&self)
        requires
            self.wf(),
        ensures
            self.keys().no_duplicates(),
            forall|k: Seq<char>| self@.contains_key(k) <==> #[trigger] self.keys().contains(k),
            self.keys().len() == self@.len(),
            self@.dom().finite(),
    {
        assert forall|i: int, j: int|
            0 <= i < self.keys().len() && 0 <= j < self.keys().len() && i
                != j implies self.keys()[i] != self.keys()[j] by {
            assert(self.index@[self.entries@[i].0@] == i);
            assert(self.index@[self.entries@[j].0@] == j);
        }
        assert forall|k: Seq<char>| self@.contains_key(k) <==> #[trigger] self.keys().contains(
            k,
        ) by {
            if self@.contains_key(k) {
                assert(self.index@.contains_key(k));
                assert(self.keys()[self.index@[k] as int] == k);
            }
            if self.keys().contains(k) {
                let i = choose|i: int| 0 <= i < self.keys().len() && self.keys()[i] == k;
                assert(self.entries@[i].0@ == k);
            }
        }
        self.keys().unique_seq_to_set();
        assert(self@.dom() =~= self.keys().to_set());
    }

    /// A table without entries.
    pub fn new() -> (t: Self)
        ensures
            t.wf(),
            t@ == Map::<Seq<char>, V>::empty(),
            t.keys() == Seq::<Seq<char>>::empty(),
    {
        let t = Table { index: StringHashMap::new(), entries: Vec::new() };
        assert(t@ =~= Map::<Seq<char>, V>::empty());
        assert(t.keys() =~= Seq::<Seq<char>>::empty());
        t
    }

    /// The number of entries.
    pub fn len(&self) -> (n: usize)
        requires
            self.wf(),
        ensures
            n == self@.len(),
            n == self.keys().len(),
    {
        proof {
            self.lemma_keys();
        }
        self.entries.len()
    }

    /// Whether there is an entry for `key`.
    pub fn contains_key(&self, key: &str) -> (r: bool)
        ensures
            r == self@.contains_key(key@),
    {
        self.index.contains_key(key)
    }

    /// The value for `key`.
    pub fn get(&self, key: &str) -> (r: Option<&V>)
        requires
            self.wf(),
        ensures
            match r {
                Some(v) => self@.contains_key(key@) && *v == self@[key@],
                None => !self@.contains_key(key@),
            },
    {
        match self.index.get(key) {
            Some(i) => {
                assert(self.index@.contains_key(key@));
                Some(&self.entries[*i].1)
            },
            None => None,
        }
    }

    /// The key at position `i`.
    pub fn key_at(&self, i: usize) -> (k: &String)
        requires
            i < self.keys().len(),
        ensures
            k@ == self.keys()[i as int],
    {
        &self.entries[i].0
    }

    /// The value at position `i`.
    pub fn value_at(&self, i: usize) -> (v: &V)
        requires
            self.wf(),
            i < self.keys().len(),
        ensures
            self@.contains_key(self.keys()[i as int]),
            *v == self@[self.keys()[i as int]],
    {
        assert(self.index@[self.entries@[i as int].0@] == i);
        &self.entries[i].1
    }

    /// Sets the value for `key`, in place of the one it had.
    pub fn insert(&mut self, key: &str, value: V)
        requires
            old(self).wf(),
        ensures
            final(self).wf(),
            final(self)@ == old(self)@.insert(key@, value),
    {
        let found: Option<usize> = match self.index.get(key) {
            Some(i) => Some(*i),
            None => None,
        };
        match found {
            Some(i) => {
                assert(self.index@.contains_key(key@));
                let name = key.to_owned();
                let ghost before = self.entries@;
                self.entries[i] = (name, value);
                assert(self.entries@ =~= before.update(i as int, (name, value)));
                assert forall|j: int| 0 <= j < self.entries@.len() implies self.entries@[j].0@
                    == before[j].0@ by {}
                assert forall|j: int|
                    #![trigger self.entries@[j]]
                    0 <= j < self.entries@.len() implies self.index@.contains_key(
                    self.entries@[j].0@,
                ) && self.index@[self.entries@[j].0@] == j by {
                    assert(self.index@.contains_key(before[j].0@));
                }
            },
            None => {
                let n = self.entries.len();
                let ghost before = self.entries@;
                self.index.insert(key.to_owned(), n);
                self.entries.push((key.to_owned(), value));
                assert forall|j: int|
                    #![trigger self.entries@[j]]
                    0 <= j < self.entries@.len() implies self.index@.contains_key(
                    self.entries@[j].0@,
                ) && self.index@[self.entries@[j].0@] == j by {
                    if j < n {
                        assert(old(self).index@.contains_key(before[j].0@));
                    }
                }
            },
        }
        assert(self@ =~= old(self)@.insert(key@, value));
    }

    /// Removes the entry at position `i`; the last entry takes its place.
    fn remove_at(&mut self, i: usize)
        requires
            old(self).wf(),
            i < old(self).keys().len(),
        ensures
            final(self).wf(),
            final(self)@ == old(self)@.remove(old(self).keys()[i as int]),
            final(self).keys().len() == old(self).keys().len() - 1,
            forall|j: int| 0 <= j < i ==> final(self).keys()[j] == old(self).keys()[j],
    {
        let ghost before = self.entries@;
        let ghost gone = self.entries@[i as int].0@;
        let key = self.entries[i].0.clone();
        self.index.remove(key.as_str());
        let _ = self.entries.swap_remove(i);
        let last: usize = self.entries.len();
        assert(before[i as int].0@ == gone);
        assert forall|j: int, k: int|
            0 <= j < before.len() && 0 <= k < before.len() && j != k implies before[j].0@
            != before[k].0@ by {
            assert(old(self).index@[before[j].0@] == j);
            assert(old(self).index@[before[k].0@] == k);
        }
        if i < last {
            let moved = self.entries[i].0.clone();
            assert(moved@ == before[last as int].0@);
            self.index.insert(moved, i);
        }
        assert forall|j: int|
            #![trigger self.entries@[j]]
            0 <= j < self.entries@.len() implies self.index@.contains_key(self.entries@[j].0@)
            && self.index@[self.entries@[j].0@] == j by {
            if j == i {
            } else {
                assert(self.entries@[j] == before[j]);
                assert(old(self).index@[before[j].0@] == j);
            }
        }
        assert forall|k: Seq<char>| #[trigger] self.index@.contains_key(k) implies self.index@[k]
            < self.entries@.len() && self.entries@[self.index@[k] as int].0@ == k by {
            if i < last && k == before[last as int].0@ {
            } else {
                assert(old(self).index@.contains_key(k));
            }
        }
        assert(self@ =~= old(self)@.remove(gone));
    }

    /// Removes the entry for `key`; says whether there was one.
    pub fn remove(&mut self, key: &str) -> (removed: bool)
        requires
            old(self).wf(),
        ensures
            final(self).wf(),
            final(self)@ == old(self)@.remove(key@),
            removed == old(self)@.contains_key(key@),
    {
        let found: Option<usize> = match self.index.get(key) {
            Some(i) => Some(*i),
            None => None,
        };
        match found {
            Some(i) => {
                assert(self.index@.contains_key(key@));
                self.remove_at(i);
                true
            },
            None => {
                assert(self@ =~= old(self)@.remove(key@));
                false
            },
        }
    }

    /// Keeps the entries whose value satisfies `keep` and removes the others.
    pub(crate) fn retain<F: Fn(&V) -> bool>(
        &mut self,
        keep: F,
        Ghost(pred): Ghost<spec_fn(V) -> bool>,
    )
        requires
            old(self).wf(),
            forall|v: &V| call_requires(keep, (v,)),
            forall|v: &V, r: bool| call_ensures(keep, (v,), r) ==> r == pred(*v),
        ensures
            final(self).wf(),
            final(self)@ == kept(old(self)@, pred),
    {
        let mut i: usize = 0;
        while i < self.entries.len()
            invariant
                self.wf(),
                i <= self.entries@.len(),
                forall|v: &V| call_requires(keep, (v,)),
                forall|v: &V, r: bool| call_ensures(keep, (v,), r) ==> r == pred(*v),
                forall|k: Seq<char>| #[trigger]
                    self@.contains_key(k) ==> old(self)@.contains_key(k) && self@[k] == old(
                        self,
                    )@[k],
                forall|k: Seq<char>|
                    #![trigger self@.contains_key(k)]
                    old(self)@.contains_key(k) && pred(old(self)@[k]) ==> self@.contains_key(k),
                forall|j: int| 0 <= j < i ==> pred(self@[#[trigger] self.keys()[j]]),
            decreases self.entries@.len() - i,
        {
            let ghost before = *self;
            proof {
                self.lemma_keys();
            }
            let good = {
                let value = self.value_at(i);
                keep(value)
            };
            if good {
                i += 1;
            } else {
                self.remove_at(i);
                assert forall|j: int| 0 <= j < i implies pred(self@[#[trigger] self.keys()[j]]) by {
                    assert(before.keys()[j] == self.keys()[j]);
                    assert(before.keys()[j] != before.keys()[i as int]);
                }
                assert(self.keys().len() == self.entries@.len());
            }
        }
        proof {
            self.lemma_keys();
            assert forall|k: Seq<char>| #[trigger] self@.contains_key(k) implies pred(self@[k]) by {
                assert(self.keys().contains(k));
                let j = choose|j: int| 0 <= j < self.keys().len() && self.keys()[j] == k;
                assert(pred(self@[self.keys()[j]]));
            }
        }
        assert(self@ =~= kept(old(self)@, pred));
    }
}

/// The entries of `m` whose value satisfies `pred`.
pub open spec fn kept<V>(m: Map<Seq<char>, V>, pred: spec_fn(V) -> bool) -> Map<Seq<char>, V> {
    m.restrict(Set::new(|k: Seq<char>| m.contains_key(k) && pred(m[k])))
}

/// What is kept of a table are the entries whose value is wanted, each as it was.
pub proof fn law_entries_that_are_kept<V>(
    m: Map<Seq<char>, V>,
    pred: spec_fn(V) -> bool,
    key: Seq<char>,
)
    ensures
        kept(m, pred).contains_key(key) <==> m.contains_key(key) && pred(m[key]),
        kept(m, pred).contains_key(key) ==> kept(m, pred)[key] == m[key],
{
}

} // verus!
