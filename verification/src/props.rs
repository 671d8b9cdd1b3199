//! The properties of a node: texts under text keys, no key twice.

use crate::entries::{find, lemma_views_rising, put, rising, take, views};
use crate::pairs::{keys_rising, lemma_rising_unique, lemma_to_map_len, to_map};
use vstd::std_specs::cmp::PartialEqSpecImpl;
use vstd::prelude::*;

verus! {

/// A map from text keys to text values, held in rising key order.
#[derive(Debug)]
pub struct Props {
    entries: Vec<(String, String)>,
}

impl View for Props {
    type V = Map<Seq<char>, Seq<char>>;

    /// The properties as a map.
    open spec fn view(&self) -> Map<Seq<char>, Seq<char>> {
        to_map(self.pairs())
    }
}

impl Props {
    #[verifier::type_invariant]
    spec fn ordered(self) -> bool {
        rising(self.entries@)
    }

    /// The properties as pairs of key and value, in rising key order.
    pub closed spec fn pairs(&self) -> Seq<(Seq<char>, Seq<char>)> {
        views(self.entries@)
    }

    /// No properties.
    pub fn new() -> (r: Props)
        ensures
            r.pairs() == Seq::<(Seq<char>, Seq<char>)>::empty(),
            r@ == Map::<Seq<char>, Seq<char>>::empty(),
    {
        let r = Props { entries: Vec::new() };
        assert(r.pairs() =~= Seq::<(Seq<char>, Seq<char>)>::empty());
        r
    }

    /// How many properties there are.
    pub fn len(&self) -> (r: usize)
        ensures
            r == self.pairs().len(),
            r == self@.len(),
            keys_rising(self.pairs()),
    {
        proof {
            use_type_invariant(self);
            lemma_views_rising(self.entries@);
            lemma_to_map_len(self.pairs());
        }
        self.entries.len()
    }

    /// Whether there is no property.
    pub fn is_empty(&self) -> (r: bool)
        ensures
            r == (self.pairs().len() == 0),
            r == (self@.len() == 0),
    {
        self.len() == 0
    }

    /// The `i`-th property in rising key order, as key and value.
    pub fn entry(&self, i: usize) -> (r: (&String, &String))
        requires
            i < self.pairs().len(),
        ensures
            r.0@ == self.pairs()[i as int].0,
            r.1@ == self.pairs()[i as int].1,
    {
        let e = &self.entries[i];
        (&e.0, &e.1)
    }

    /// The value under `key`, if there is one.
    pub fn get(&self, key: &str) -> (r: Option<&String>)
        ensures
            match r {
                Some(v) => self@.contains_key(key@) && v@ == self@[key@],
                None => !self@.contains_key(key@),
            },
    {
        proof {
            use_type_invariant(self);
        }
        find(&self.entries, key)
    }

    /// Whether there is a value under `key`.
    pub fn contains_key(&self, key: &str) -> (r: bool)
        ensures
            r == self@.contains_key(key@),
    {
        self.get(key).is_some()
    }

    /// Puts `value` under `key`, and hands back the value that stood there.
    pub fn insert(&mut self, key: String, value: String) -> (r: Option<String>)
        ensures
            final(self)@ == old(self)@.insert(key@, value@),
            match r {
                Some(v) => old(self)@.contains_key(key@) && v@ == old(self)@[key@],
                None => !old(self)@.contains_key(key@),
            },
    {
        proof {
            use_type_invariant(&*self);
        }
        let mut entries: Vec<(String, String)> = Vec::new();
        core::mem::swap(&mut self.entries, &mut entries);
        let r = put(&mut entries, key, value);
        core::mem::swap(&mut self.entries, &mut entries);
        r
    }

    /// Takes the property under `key` out, and hands its value back.
    pub fn remove(&mut self, key: &str) -> (r: Option<String>)
        ensures
            final(self)@ == old(self)@.remove(key@),
            match r {
                Some(v) => old(self)@.contains_key(key@) && v@ == old(self)@[key@],
                None => !old(self)@.contains_key(key@),
            },
    {
        proof {
            use_type_invariant(&*self);
        }
        let mut entries: Vec<(String, String)> = Vec::new();
        core::mem::swap(&mut self.entries, &mut entries);
        let r = take(&mut entries, key);
        core::mem::swap(&mut self.entries, &mut entries);
        r
    }
}

impl PartialEq for Props {
    /// Whether two lists of properties hold the same values under the same
    /// keys.
    fn eq(&self, other: &Props) -> (r: bool) {
        proof {
            use_type_invariant(self);
            use_type_invariant(other);
            lemma_views_rising(self.entries@);
            lemma_views_rising(other.entries@);
            if self@ == other@ {
                lemma_rising_unique(self.pairs(), other.pairs());
            }
        }
        if self.entries.len() != other.entries.len() {
            return false;
        }
        let mut i: usize = 0;
        while i < self.entries.len()
            invariant
                self.entries@.len() == other.entries@.len(),
                i <= self.entries@.len(),
                self@ == other@ ==> self.pairs() == other.pairs(),
                forall|j: int| 0 <= j < i ==> (#[trigger] self.pairs()[j]) == other.pairs()[j],
            decreases self.entries@.len() - i,
        {
            let a = &self.entries[i];
            let b = &other.entries[i];
            if !(a.0 == b.0 && a.1 == b.1) {
                assert(self.pairs()[i as int] != other.pairs()[i as int]);
                return false;
            }
            i = i + 1;
        }
        assert(self.pairs() =~= other.pairs());
        true
    }
}

impl PartialEqSpecImpl for Props {
    open spec fn obeys_eq_spec() -> bool {
        true
    }

    open spec fn eq_spec(&self, other: &Props) -> bool {
        self@ == other@
    }
}

} // verus!
