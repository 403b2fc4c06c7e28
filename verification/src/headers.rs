//! The case-insensitive header map: keys are folded to ASCII lower
//! case on every operation, so `Host`, `host` and `HOST` name one
//! entry.

use vstd::prelude::*;
use crate::strmap::StrMap;
use crate::strutil::{lower_chars, string_lower};

verus! {

#[derive(Debug)]
pub struct HttpHeaders {
    inner: StrMap,
}

impl HttpHeaders {
    /// The map from lower-cased header names to values.
    pub closed spec fn view(&self) -> Map<Seq<char>, Seq<char>> {
        self.inner@
    }

    pub closed spec fn wf(&self) -> bool {
        self.inner.wf()
    }

    /// The header pairs in insertion order, names lower-cased.
    pub closed spec fn pairs(&self) -> Seq<(Seq<char>, Seq<char>)> {
        self.inner.pairs()
    }

    /// How the stored pairs and the map view correspond.
    pub proof fn lemma_pairs(&self)
        requires
            self.wf(),
        ensures
            forall|i: int, j: int|
                0 <= i < j < self.pairs().len() ==> self.pairs()[i].0 != self.pairs()[j].0,
            forall|i: int|
                0 <= i < self.pairs().len() ==> self@.contains_key(#[trigger] self.pairs()[i].0)
                    && self@[self.pairs()[i].0] == self.pairs()[i].1,
            forall|k: Seq<char>|
                self@.contains_key(k) ==> exists|i: int|
                    0 <= i < self.pairs().len() && #[trigger] self.pairs()[i].0 == k,
    {
        self.inner.lemma_pairs();
        assert forall|k: Seq<char>| self@.contains_key(k) implies exists|i: int|
            0 <= i < self.pairs().len() && #[trigger] self.pairs()[i].0 == k by {
            let i = choose|i: int|
                0 <= i < self.inner.pairs().len() && #[trigger] self.inner.pairs()[i].0 == k;
            assert(self.pairs()[i].0 == k);
        }
    }

    pub fn new() -> (r: HttpHeaders)
        ensures
            r@ == Map::<Seq<char>, Seq<char>>::empty(),
            r.wf(),
            r.pairs() == Seq::<(Seq<char>, Seq<char>)>::empty(),
    {
        HttpHeaders { inner: StrMap::new() }
    }

    /// Binds the header, replacing any earlier value under the same
    /// name in any case.
    pub fn insert(&mut self, key: &str, value: &str)
        requires
            old(self).wf(),
            key.is_ascii(),
        ensures
            final(self).wf(),
            final(self)@ == old(self)@.insert(lower_chars(key@), value@),
    {
        let low = string_lower(key);
        self.inner.insert(low.as_str(), value);
    }

    /// The value under the name, in any case.
    pub fn get(&self, key: &str) -> (r: Option<&String>)
        requires
            self.wf(),
            key.is_ascii(),
        ensures
            match r {
                Some(v) => self@.contains_key(lower_chars(key@)) && v@ == self@[lower_chars(
                    key@,
                )],
                None => !self@.contains_key(lower_chars(key@)),
            },
    {
        let low = string_lower(key);
        self.inner.get(low.as_str())
    }

    /// How many headers are bound.
    pub fn len(&self) -> (r: usize)
        requires
            self.wf(),
        ensures
            r == self@.dom().len(),
    {
        self.inner.len()
    }

    /// Unbinds the header, handing back the value it had.
    pub fn remove(&mut self, key: &str) -> (r: Option<String>)
        requires
            old(self).wf(),
            key.is_ascii(),
        ensures
            final(self).wf(),
            final(self)@ == old(self)@.remove(lower_chars(key@)),
            match r {
                Some(v) => old(self)@.contains_key(lower_chars(key@)) && v@ == old(
                    self,
                )@[lower_chars(key@)],
                None => !old(self)@.contains_key(lower_chars(key@)),
            },
    {
        let low = string_lower(key);
        self.inner.remove(low.as_str())
    }

    /// The number of stored pairs.
    pub fn pair_count(&self) -> (r: usize)
        ensures
            r == self.pairs().len(),
    {
        self.inner.pair_count()
    }

    /// The `i`-th header in insertion order.
    pub fn pair_at(&self, i: usize) -> (r: (&String, &String))
        requires
            i < self.pairs().len(),
        ensures
            r.0@ == self.pairs()[i as int].0,
            r.1@ == self.pairs()[i as int].1,
    {
        self.inner.pair_at(i)
    }
}

} // verus!
