//! Tables from names to values, kept in ascending order of their keys.

use crate::names::{ascending, lemma_ascending_no_duplicates, NameSet};
use vstd::prelude::*;

verus! {

/// In a sequence without repetition, the position of a text is the one at
/// which it stands.
pub proof fn lemma_index_of(s: Seq<Seq<char>>, i: int)
    requires
        s.no_duplicates(),
        0 <= i < s.len(),
    ensures
        s.contains(s[i]),
        s.index_of(s[i]) == i,
{
    let j = s.index_of(s[i]);
    assert(0 <= j < s.len() && s[j] == s[i]);
}

/// A table that holds one value for each of its keys. Its entries stand in
/// ascending order of their keys, and are searched in that order.
#[derive(Debug, PartialEq, Eq)]
pub struct Table<V> {
    keys: NameSet,
    values: Vec<V>,
}

impl<V> Table<V> {
    /// The keys, in ascending order.
    pub closed spec fn keys(&self) -> Seq<Seq<char>> {
        self.keys@
    }

    /// The values, each at the position of its key.
    pub closed spec fn values(&self) -> Seq<V> {
        self.values@
    }

    /// The keys ascend, and each has its value.
    pub closed spec fn wf(&self) -> bool {
        self.keys.wf() && self.keys@.len() == self.values@.len()
    }

    /// What well-formedness means for the keys and the values.
    pub proof fn lemma_wf(&self)
        requires
            self.wf(),
        ensures
            ascending(self.keys()),
            self.keys().len() == self.values().len(),
    {
    }

    /// The number of entries.
    pub open spec fn size(&self) -> nat {
        self.keys().len()
    }

    /// The table as a map from its keys to their values.
    pub open spec fn map(&self) -> Map<Seq<char>, V> {
        Map::new(
            |k: Seq<char>| self.keys().contains(k),
            |k: Seq<char>| self.values()[self.keys().index_of(k)],
        )
    }

    /// This table is `before` with `value` given to `key`: in place of the
    /// value that `key` had, or as a new entry where the order of the keys
    /// assigns it.
    pub open spec fn holds_more(&self, before: Table<V>, key: Seq<char>, value: V) -> bool {
        &&& self.map() == before.map().insert(key, value)
        &&& before.keys().contains(key) ==> self.keys() == before.keys() && exists|p: int|
            0 <= p < before.size() && before.keys()[p] == key && self.values() == before.values().update(
                p,
                value,
            )
        &&& !before.keys().contains(key) ==> exists|p: int|
            0 <= p <= before.size() && self.keys() == before.keys().insert(p, key) && self.values()
                == before.values().insert(p, value)
    }

    /// The entry at a position is an entry of the map.
    pub proof fn lemma_map_at(&self, i: int)
        requires
            self.wf(),
            0 <= i < self.size(),
        ensures
            self.map().contains_key(self.keys()[i]),
            self.map()[self.keys()[i]] == self.values()[i],
    {
        lemma_ascending_no_duplicates(self.keys());
        lemma_index_of(self.keys(), i);
    }

    /// The table without entries.
    pub fn new() -> (out: Table<V>)
        ensures
            out.wf(),
            out.keys() == Seq::<Seq<char>>::empty(),
            out.values() == Seq::<V>::empty(),
    {
        Table { keys: NameSet::new(), values: Vec::new() }
    }

    /// The number of entries.
    pub fn len(&self) -> (n: usize)
        requires
            self.wf(),
        ensures
            n == self.size(),
            n == self.values().len(),
    {
        self.values.len()
    }

    /// The key of the entry at position `i`.
    pub fn key(&self, i: usize) -> (key: &String)
        requires
            self.wf(),
            i < self.size(),
        ensures
            key@ == self.keys()[i as int],
    {
        self.keys.get(i)
    }

    /// The value of the entry at position `i`.
    pub fn value(&self, i: usize) -> (value: &V)
        requires
            self.wf(),
            i < self.size(),
        ensures
            *value == self.values()[i as int],
    {
        &self.values[i]
    }

    /// The position of the entry with the key `key`.
    pub fn find(&self, key: &str) -> (out: Option<usize>)
        requires
            self.wf(),
        ensures
            out matches Some(i) ==> i < self.size() && self.keys()[i as int] == key@,
            out is None <==> !self.keys().contains(key@),
    {
        let at = self.keys.slot(key);
        if at.1 {
            Some(at.0)
        } else {
            proof {
                crate::order::lemma_lex_irreflexive(key@);
                if self.keys().contains(key@) {
                    let j = choose|j: int| 0 <= j < self.keys().len() && self.keys()[j] == key@;
                    assert(crate::order::lex_lt(self.keys()[j], key@) || crate::order::lex_lt(
                        key@,
                        self.keys()[j],
                    ));
                }
            }
            None
        }
    }

    /// The value of `key`.
    pub fn get(&self, key: &str) -> (out: Option<&V>)
        requires
            self.wf(),
        ensures
            out is Some <==> self.map().contains_key(key@),
            out matches Some(v) ==> *v == self.map()[key@],
    {
        match self.find(key) {
            Some(i) => {
                proof {
                    self.lemma_map_at(i as int);
                }
                Some(&self.values[i])
            },
            None => None,
        }
    }

    /// Gives `key` the value `value`: in place of the value it had, or as a new
    /// entry at the position that the order of the keys assigns.
    pub fn insert(&mut self, key: String, value: V)
        requires
            old(self).wf(),
        ensures
            final(self).wf(),
            final(self).holds_more(*old(self), key@, value),
    {
        let ghost text = key@;
        let at = self.keys.place(key);
        if at.1 {
            self.values.insert(at.0, value);
        } else {
            self.values.set(at.0, value);
        }
        proof {
            let p = at.0 as int;
            let before = old(self).keys();
            let after = self.keys();
            lemma_ascending_no_duplicates(before);
            lemma_ascending_no_duplicates(after);
            lemma_index_of(after, p);
            assert forall|k: Seq<char>| #[trigger]
                self.map().contains_key(k) == old(self).map().insert(text, value).contains_key(k) && (self.map().contains_key(
                    k,
                ) ==> self.map()[k] == old(self).map().insert(text, value)[k]) by {
                if k != text {
                    if before.contains(k) {
                        let i = before.index_of(k);
                        let j = if at.1 && i >= p { i + 1 } else { i };
                        assert(after[j] == k);
                        lemma_index_of(after, j);
                    }
                    if after.contains(k) {
                        let j = after.index_of(k);
                        let i = if at.1 && j > p { j - 1 } else { j };
                        assert(before[i] == k);
                    }
                }
            }
            assert(self.map() =~= old(self).map().insert(text, value));
        }
    }

    /// Takes the entry of `key` out of the table and hands out its value.
    pub fn remove(&mut self, key: &str) -> (out: Option<V>)
        requires
            old(self).wf(),
        ensures
            final(self).wf(),
            final(self).map() == old(self).map().remove(key@),
            out is Some <==> old(self).map().contains_key(key@),
            out matches Some(v) ==> v == old(self).map()[key@],
    {
        match self.keys.displace(key) {
            Some(p) => {
                let value = self.values.remove(p);
                proof {
                    let before = old(self).keys();
                    let after = self.keys();
                    lemma_ascending_no_duplicates(before);
                    lemma_ascending_no_duplicates(after);
                    lemma_index_of(before, p as int);
                    assert forall|k: Seq<char>| #[trigger]
                        self.map().contains_key(k) == old(self).map().remove(key@).contains_key(k) && (self.map().contains_key(
                            k,
                        ) ==> self.map()[k] == old(self).map().remove(key@)[k]) by {
                        if before.contains(k) && k != key@ {
                            let i = before.index_of(k);
                            let j = if i > p { i - 1 } else { i };
                            assert(after[j] == k);
                            lemma_index_of(after, j);
                        }
                        if after.contains(k) {
                            let j = after.index_of(k);
                            let i = if j >= p { j + 1 } else { j };
                            assert(before[i] == k);
                            lemma_index_of(before, i);
                        }
                    }
                    assert(self.map() =~= old(self).map().remove(key@));
                }
                Some(value)
            },
            None => {
                assert(self.map() =~= old(self).map().remove(key@));
                None
            },
        }
    }
}

} // verus!
