//! A small map from strings to strings, used for path variables and headers.
//!
//! The map is kept as a list of entries with pairwise distinct keys. Its view
//! is a `Map<Seq<char>, Seq<char>>`.

use crate::assoc::{
    assoc_distinct, assoc_has, assoc_map, lemma_assoc_at, lemma_assoc_len, lemma_assoc_push,
    lemma_assoc_update,
};
use vstd::prelude::*;

verus! {

/// A map from strings to strings.
#[derive(Debug, Clone)]
pub struct StringMap {
    entries: Vec<(String, String)>,
}

impl View for StringMap {
    type V = Map<Seq<char>, Seq<char>>;

    closed spec fn view(&self) -> Map<Seq<char>, Seq<char>> {
        assoc_map(self.pairs())
    }
}

impl StringMap {
    /// The entries as pairs of views, in storage order.
    pub closed spec fn pairs(&self) -> Seq<(Seq<char>, Seq<char>)> {
        Seq::new(self.entries@.len(), |i: int| (self.entries@[i].0@, self.entries@[i].1@))
    }

    /// The representation invariant: no key is stored twice.
    pub closed spec fn wf(&self) -> bool {
        assoc_distinct(self.pairs())
    }

    /// The empty map.
    pub fn new() -> (m: Self)
        ensures
            m.wf(),
            m@ == Map::<Seq<char>, Seq<char>>::empty(),
    {
        let m = StringMap { entries: Vec::new() };
        assert(m@ =~= Map::<Seq<char>, Seq<char>>::empty());
        m
    }

    /// Position of the entry with key `key`, if there is one.
    fn position(&self, key: &str) -> (r: Option<usize>)
        requires
            self.wf(),
        ensures
            match r {
                Some(i) => i < self.entries.len() && self.entries[i as int].0@ == key@,
                None => !assoc_has(self.pairs(), key@),
            },
    {
        let wanted = key.to_owned();
        let mut i: usize = 0;
        while i < self.entries.len()
            invariant
                i <= self.entries.len(),
                wanted@ == key@,
                forall|j: int| 0 <= j < i ==> (#[trigger] self.pairs()[j]).0 != key@,
            decreases self.entries.len() - i,
        {
            if self.entries[i].0 == wanted {
                return Some(i);
            }
            assert(self.pairs()[i as int].0 == self.entries[i as int].0@);
            i = i + 1;
        }
        None
    }

    /// Number of keys.
    pub fn len(&self) -> (n: usize)
        requires
            self.wf(),
        ensures
            self@.dom().finite(),
            n == self@.dom().len(),
    {
        proof {
            lemma_assoc_len(self.pairs());
        }
        self.entries.len()
    }

    /// Whether the map has no key.
    pub fn is_empty(&self) -> (b: bool)
        requires
            self.wf(),
        ensures
            b == (self@ == Map::<Seq<char>, Seq<char>>::empty()),
    {
        proof {
            lemma_assoc_len(self.pairs());
            if self.entries.len() == 0 {
                assert(self@ =~= Map::<Seq<char>, Seq<char>>::empty());
            } else {
                lemma_assoc_at(self.pairs(), 0);
            }
        }
        self.entries.len() == 0
    }

    /// Whether `key` is in the map.
    pub fn contains_key(&self, key: &str) -> (b: bool)
        requires
            self.wf(),
        ensures
            b == self@.dom().contains(key@),
    {
        let r = self.position(key);
        proof {
            if let Some(i) = r {
                lemma_assoc_at(self.pairs(), i as int);
            }
        }
        r.is_some()
    }

    /// The value stored for `key`.
    pub fn get(&self, key: &str) -> (r: Option<&String>)
        requires
            self.wf(),
        ensures
            match r {
                Some(v) => self@.dom().contains(key@) && v@ == self@[key@],
                None => !self@.dom().contains(key@),
            },
    {
        match self.position(key) {
            Some(i) => {
                proof {
                    lemma_assoc_at(self.pairs(), i as int);
                }
                Some(&self.entries[i].1)
            },
            None => None,
        }
    }

    /// Stores `value` for `key`, replacing what was stored for it before.
    pub fn insert(&mut self, key: String, value: String)
        requires
            old(self).wf(),
        ensures
            final(self).wf(),
            final(self)@ == old(self)@.insert(key@, value@),
    {
        let ghost before = self.pairs();
        match self.position(key.as_str()) {
            Some(i) => {
                proof {
                    lemma_assoc_update(before, i as int, value@);
                }
                self.entries[i].1 = value;
                assert(self.pairs() == before.update(i as int, (before[i as int].0, value@)));
            },
            None => {
                proof {
                    lemma_assoc_push(before, key@, value@);
                }
                self.entries.push((key, value));
                assert(self.pairs() == before.push((key@, value@)));
            },
        }
    }

    /// A copy of the entries, one per key, in no particular order.
    pub fn to_pairs(&self) -> (out: Vec<(String, String)>)
        requires
            self.wf(),
        ensures
            self@.dom().finite(),
            out.len() == self@.dom().len(),
            forall|i: int|
                0 <= i < out.len() ==> self@.dom().contains((#[trigger] out[i]).0@) && self@[out[i].0@]
                    == out[i].1@,
            forall|i: int, j: int|
                0 <= i < j < out.len() ==> (#[trigger] out[i]).0@ != (#[trigger] out[j]).0@,
    {
        proof {
            lemma_assoc_len(self.pairs());
        }
        let mut out: Vec<(String, String)> = Vec::new();
        let mut i: usize = 0;
        while i < self.entries.len()
            invariant
                i <= self.entries.len(),
                out.len() == i,
                self.wf(),
                forall|j: int|
                    0 <= j < i ==> (#[trigger] out[j]).0@ == self.entries[j].0@ && out[j].1@
                        == self.entries[j].1@,
            decreases self.entries.len() - i,
        {
            let k = self.entries[i].0.clone();
            let v = self.entries[i].1.clone();
            out.push((k, v));
            i = i + 1;
        }
        proof {
            assert forall|j: int| 0 <= j < out.len() implies self@.dom().contains(
                (#[trigger] out[j]).0@,
            ) && self@[out[j].0@] == out[j].1@ by {
                lemma_assoc_at(self.pairs(), j);
            }
            assert forall|a: int, b: int| 0 <= a < b < out.len() implies (#[trigger] out[a]).0@
                != (#[trigger] out[b]).0@ by {
                assert(self.pairs()[a].0 == out[a].0@);
                assert(self.pairs()[b].0 == out[b].0@);
            }
        }
        out
    }
}

} // verus!
