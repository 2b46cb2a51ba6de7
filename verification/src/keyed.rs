//! A mapping from names to values that is kept in ascending order of its
//! names, so that walking it is deterministic.

use crate::text::{
    ascending, lemma_absent, lemma_ascending_no_duplicates, lemma_ascending_unique,
    lemma_insert_ascending, lemma_lex_total, lex_lt, ordered, str_eq, str_lt,
};
use vstd::prelude::*;

verus! {

/// A mapping from names to values. No name occurs twice, and the entries are
/// walked in ascending order of their names.
#[derive(Debug)]
pub struct Keyed<V> {
    entries: Vec<(String, V)>,
}

/// The names of a sequence of entries.
pub open spec fn entry_keys<V>(entries: Seq<(String, V)>) -> Seq<Seq<char>> {
    Seq::new(entries.len(), |i: int| entries[i].0@)
}

impl<V> View for Keyed<V> {
    type V = Map<Seq<char>, V>;

    closed spec fn view(&self) -> Map<Seq<char>, V> {
        Map::new(
            |k: Seq<char>| entry_keys(self.entries@).contains(k),
            |k: Seq<char>| self.entries@[entry_keys(self.entries@).index_of(k)].1,
        )
    }
}

impl<V> Keyed<V> {
    /// The invariant of the type: the names of the entries ascend.
    pub closed spec fn wf(&self) -> bool {
        ascending(entry_keys(self.entries@))
    }

    /// The names of the mapping, in the order in which it is walked.
    pub open spec fn keys(&self) -> Seq<Seq<char>> {
        ordered(self@.dom())
    }

    /// The names of a mapping ascend, and are those that it maps.
    pub proof fn lemma_keys(&self)
        requires
            self.wf(),
        ensures
            ascending(self.keys()),
            self.keys().to_set() == self@.dom(),
            self.keys().no_duplicates(),
            self@.dom().finite(),
    {
        self.lemma_entries();
        lemma_ascending_no_duplicates(self.keys());
    }

    /// How the entries stand for the mapping.
    proof fn lemma_entries(&self)
        requires
            self.wf(),
        ensures
            self.keys() == entry_keys(self.entries@),
            ascending(self.keys()),
            self.keys().to_set() == self@.dom(),
            self@.dom().finite(),
            forall|i: int|
                0 <= i < self.entries@.len() ==> self@.contains_key(
                    #[trigger] entry_keys(self.entries@)[i],
                ) && self@[entry_keys(self.entries@)[i]] == self.entries@[i].1,
    {
        let keys = entry_keys(self.entries@);
        assert(keys.to_set() =~= self@.dom());
        let chosen = ordered(self@.dom());
        assert(ascending(chosen) && chosen.to_set() == self@.dom());
        lemma_ascending_unique(chosen, keys);
        lemma_ascending_no_duplicates(keys);
        assert forall|i: int| 0 <= i < self.entries@.len() implies self@.contains_key(
            #[trigger] keys[i],
        ) && self@[keys[i]] == self.entries@[i].1 by {
            assert(keys.contains(keys[i]));
            let j = keys.index_of(keys[i]);
            assert(keys[j] == keys[i]);
        }
        vstd::seq_lib::seq_to_set_is_finite(keys);
    }

    /// An empty mapping.
    pub fn new() -> (r: Self)
        ensures
            r.wf(),
            r@ == Map::<Seq<char>, V>::empty(),
    {
        let r = Keyed { entries: Vec::new() };
        assert(r@ =~= Map::<Seq<char>, V>::empty());
        r
    }

    /// The number of names.
    pub fn len(&self) -> (n: usize)
        requires
            self.wf(),
        ensures
            n == self.keys().len(),
            n == self@.dom().len(),
    {
        proof {
            self.lemma_entries();
            lemma_ascending_no_duplicates(self.keys());
            self.keys().unique_seq_to_set();
        }
        self.entries.len()
    }

    /// The name at place `i` of the ascending order.
    pub fn key(&self, i: usize) -> (r: &String)
        requires
            self.wf(),
            i < self.keys().len(),
        ensures
            r@ == self.keys()[i as int],
    {
        proof {
            self.lemma_entries();
        }
        &self.entries[i].0
    }

    /// The value under the name at place `i` of the ascending order.
    pub fn value(&self, i: usize) -> (r: &V)
        requires
            self.wf(),
            i < self.keys().len(),
        ensures
            self@.contains_key(self.keys()[i as int]),
            *r == self@[self.keys()[i as int]],
    {
        proof {
            self.lemma_entries();
            assert(self@.contains_key(entry_keys(self.entries@)[i as int]));
        }
        &self.entries[i].1
    }

    /// The first place whose name does not come before `key`, and whether
    /// that name is `key`.
    fn position(&self, key: &str) -> (r: (usize, bool))
        requires
            self.wf(),
        ensures
            r.0 <= self.entries@.len(),
            forall|k: int| 0 <= k < r.0 ==> lex_lt(#[trigger] entry_keys(self.entries@)[k], key@),
            r.1 ==> r.0 < self.entries@.len() && entry_keys(self.entries@)[r.0 as int] == key@,
            !r.1 && r.0 < self.entries@.len() ==> lex_lt(
                key@,
                entry_keys(self.entries@)[r.0 as int],
            ),
            r.1 == self@.contains_key(key@),
    {
        let mut i: usize = 0;
        while i < self.entries.len() && str_lt(self.entries[i].0.as_str(), key)
            invariant
                i <= self.entries@.len(),
                forall|k: int| 0 <= k < i ==> lex_lt(#[trigger] entry_keys(self.entries@)[k], key@),
            decreases self.entries@.len() - i,
        {
            i += 1;
        }
        let found = i < self.entries.len() && str_eq(self.entries[i].0.as_str(), key);
        proof {
            let keys = entry_keys(self.entries@);
            self.lemma_entries();
            if found {
                assert(self@.contains_key(keys[i as int]));
            } else {
                if i < self.entries@.len() {
                    lemma_lex_total(keys[i as int], key@);
                }
                lemma_absent(keys, i as int, key@);
            }
        }
        (i, found)
    }

    /// The value under `key`, if the mapping has that name.
    pub fn get(&self, key: &str) -> (r: Option<&V>)
        requires
            self.wf(),
        ensures
            match r {
                Some(v) => self@.contains_key(key@) && *v == self@[key@],
                None => !self@.contains_key(key@),
            },
    {
        let (i, found) = self.position(key);
        if found {
            proof {
                self.lemma_entries();
                assert(self@.contains_key(entry_keys(self.entries@)[i as int]));
            }
            Some(&self.entries[i].1)
        } else {
            None
        }
    }

    /// Maps `key` to `value`; a value that stood under `key` is replaced.
    pub fn insert(&mut self, key: String, value: V)
        requires
            old(self).wf(),
        ensures
            final(self).wf(),
            final(self)@ == old(self)@.insert(key@, value),
    {
        let (i, found) = self.position(key.as_str());
        let ghost before = entry_keys(self.entries@);
        proof {
            self.lemma_entries();
        }
        if found {
            self.entries[i] = (key, value);
            proof {
                assert(entry_keys(self.entries@) =~= before);
                self.lemma_entries();
                assert forall|k: Seq<char>| #[trigger] self@.contains_key(k) implies self@[k] == old(
                    self,
                )@.insert(key@, value)[k] by {
                    let j = choose|j: int| 0 <= j < before.len() && before[j] == k;
                    assert(self@.contains_key(entry_keys(self.entries@)[j]));
                    assert(old(self)@.contains_key(entry_keys(old(self).entries@)[j]));
                }
                assert(self@ =~= old(self)@.insert(key@, value));
            }
        } else {
            proof {
                lemma_insert_ascending(before, i as int, key@);
            }
            self.entries.insert(i, (key, value));
            proof {
                let after = entry_keys(self.entries@);
                assert(after =~= before.insert(i as int, key@));
                self.lemma_entries();
                lemma_ascending_no_duplicates(after);
                assert forall|k: Seq<char>| #[trigger] self@.contains_key(k) implies self@[k] == old(
                    self,
                )@.insert(key@, value)[k] by {
                    let j = choose|j: int| 0 <= j < after.len() && after[j] == k;
                    assert(self@.contains_key(entry_keys(self.entries@)[j]));
                    if j < i {
                        assert(old(self)@.contains_key(entry_keys(old(self).entries@)[j]));
                    } else if j > i {
                        assert(old(self)@.contains_key(entry_keys(old(self).entries@)[j - 1]));
                    }
                }
                assert(self@ =~= old(self)@.insert(key@, value));
            }
        }
    }
}

impl<T> Keyed<Vec<T>> {
    /// Adds `item` at the end of the list under `key`; a name that the mapping
    /// did not have gets a list of that one item.
    pub fn push(&mut self, key: String, item: T)
        requires
            old(self).wf(),
        ensures
            final(self).wf(),
            final(self)@.dom() == old(self)@.dom().insert(key@),
            final(self)@[key@]@ == (if old(self)@.contains_key(key@) {
                old(self)@[key@]@
            } else {
                Seq::empty()
            }).push(item),
            forall|k: Seq<char>|
                k != key@ && old(self)@.contains_key(k) ==> final(self)@[k] == old(self)@[k],
    {
        let (i, found) = self.position(key.as_str());
        let ghost before = entry_keys(self.entries@);
        proof {
            self.lemma_entries();
        }
        if found {
            self.entries[i].1.push(item);
            proof {
                assert(entry_keys(self.entries@) =~= before);
                self.lemma_entries();
                assert(self@.contains_key(entry_keys(self.entries@)[i as int]));
                assert(old(self)@.contains_key(entry_keys(old(self).entries@)[i as int]));
                assert(self@.dom() =~= old(self)@.dom().insert(key@));
                assert forall|k: Seq<char>| k != key@ && old(self)@.contains_key(k) implies self@[k]
                    == old(self)@[k] by {
                    let j = choose|j: int| 0 <= j < before.len() && before[j] == k;
                    assert(self@.contains_key(entry_keys(self.entries@)[j]));
                    assert(old(self)@.contains_key(entry_keys(old(self).entries@)[j]));
                }
            }
        } else {
            proof {
                lemma_insert_ascending(before, i as int, key@);
            }
            let mut list: Vec<T> = Vec::new();
            list.push(item);
            self.entries.insert(i, (key, list));
            proof {
                let after = entry_keys(self.entries@);
                assert(after =~= before.insert(i as int, key@));
                self.lemma_entries();
                lemma_ascending_no_duplicates(after);
                assert(self@.contains_key(entry_keys(self.entries@)[i as int]));
                assert(list@ =~= Seq::<T>::empty().push(item));
                assert forall|k: Seq<char>| k != key@ && old(self)@.contains_key(k) implies self@[k]
                    == old(self)@[k] by {
                    let j = choose|j: int| 0 <= j < before.len() && before[j] == k;
                    assert(old(self)@.contains_key(entry_keys(old(self).entries@)[j]));
                    if j < i {
                        assert(self@.contains_key(entry_keys(self.entries@)[j]));
                    } else {
                        assert(self@.contains_key(entry_keys(self.entries@)[j + 1]));
                    }
                }
            }
        }
    }
}

} // verus!
