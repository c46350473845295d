//! A map from text to values that keeps its entries in one list.

use crate::text;
use vstd::prelude::*;

verus! {

/// A map keyed by text. No key occurs twice.
#[derive(Debug)]
pub struct TextMap<T> {
    entries: Vec<(String, T)>,
}

impl<T> View for TextMap<T> {
    type V = Map<Seq<char>, T>;

    closed spec fn view(&self) -> Map<Seq<char>, T> {
        let keys = self.keys();
        Map::new(|k: Seq<char>| keys.contains(k), |k: Seq<char>| self.entries@[keys.index_of(k)].1)
    }
}

impl<T> TextMap<T> {
    /// The keys, in the order in which the entries are kept.
    pub closed spec fn keys(self) -> Seq<Seq<char>> {
        self.entries@.map_values(|e: (String, T)| e.0@)
    }

    #[verifier::type_invariant]
    spec fn distinct(self) -> bool {
        self.keys().no_duplicates()
    }

    /// The value kept under a key.
    pub open spec fn lookup(self, key: Seq<char>) -> Option<T> {
        if self@.contains_key(key) {
            Some(self@[key])
        } else {
            None
        }
    }

    proof fn lemma_entry(self, i: int)
        requires
            self.distinct(),
            0 <= i < self.entries@.len(),
        ensures
            self.keys()[i] == self.entries@[i].0@,
            self@.contains_key(self.entries@[i].0@),
            self@[self.entries@[i].0@] == self.entries@[i].1,
    {
        let keys = self.keys();
        let k = self.entries@[i].0@;
        assert(keys[i] == k);
        assert(keys.contains(k));
        assert(keys[keys.index_of(k)] == k);
    }

    /// An empty map.
    pub fn new() -> (r: TextMap<T>)
        ensures
            r@ == Map::<Seq<char>, T>::empty(),
    {
        let r = TextMap { entries: Vec::new() };
        assert(r.keys().len() == 0);
        assert(r@ =~= Map::<Seq<char>, T>::empty());
        r
    }

    /// The number of entries.
    pub fn len(&self) -> (n: usize)
        ensures
            n == self.keys().len(),
            self.keys().no_duplicates(),
    {
        proof {
            use_type_invariant(self);
        }
        self.entries.len()
    }

    /// Whether there is no entry.
    pub fn is_empty(&self) -> (r: bool)
        ensures
            r == (self@ == Map::<Seq<char>, T>::empty()),
            r == (self.keys().len() == 0),
    {
        proof {
            use_type_invariant(self);
            if self.entries@.len() > 0 {
                self.lemma_entry(0);
            } else {
                assert(self@ =~= Map::<Seq<char>, T>::empty());
            }
        }
        self.entries.len() == 0
    }

    /// The key of an entry.
    pub fn key_at(&self, i: usize) -> (k: &String)
        requires
            i < self.keys().len(),
        ensures
            k@ == self.keys()[i as int],
            self@.contains_key(k@),
    {
        proof {
            use_type_invariant(self);
            self.lemma_entry(i as int);
        }
        &self.entries[i].0
    }

    /// The value of an entry.
    pub fn value_at(&self, i: usize) -> (v: &T)
        requires
            i < self.keys().len(),
        ensures
            *v == self@[self.keys()[i as int]],
    {
        proof {
            use_type_invariant(self);
            self.lemma_entry(i as int);
        }
        &self.entries[i].1
    }

    fn find(&self, key: &str) -> (r: Option<usize>)
        ensures
            match r {
                Some(i) => i < self.entries@.len() && self.entries@[i as int].0@ == key@,
                None => !self@.contains_key(key@),
            },
    {
        let mut i: usize = 0;
        while i < self.entries.len()
            invariant
                i <= self.entries@.len(),
                forall|j: int| 0 <= j < i ==> #[trigger] self.entries@[j].0@ != key@,
            decreases self.entries@.len() - i,
        {
            if text::same(self.entries[i].0.as_str(), key) {
                return Some(i);
            }
            i += 1;
        }
        assert(!self.keys().contains(key@)) by {
            if self.keys().contains(key@) {
                let j = self.keys().index_of(key@);
                assert(self.keys()[j] == self.entries@[j].0@);
            }
        }
        None
    }

    /// The value kept under a key.
    pub fn get(&self, key: &str) -> (r: Option<&T>)
        ensures
            match r {
                Some(v) => self@.contains_key(key@) && self@[key@] == *v,
                None => !self@.contains_key(key@),
            },
    {
        match self.find(key) {
            Some(i) => {
                proof {
                    use_type_invariant(self);
                    self.lemma_entry(i as int);
                }
                Some(&self.entries[i].1)
            },
            None => None,
        }
    }

    /// Whether a key is present.
    pub fn contains_key(&self, key: &str) -> (r: bool)
        ensures
            r == self@.contains_key(key@),
    {
        match self.find(key) {
            Some(i) => {
                proof {
                    use_type_invariant(self);
                    self.lemma_entry(i as int);
                }
                true
            },
            None => false,
        }
    }

    /// Takes the value kept under a key out of the map.
    pub fn remove(&mut self, key: &str) -> (r: Option<T>)
        ensures
            r == old(self).lookup(key@),
            final(self)@ == old(self)@.remove(key@),
    {
        let found = self.find(key);
        proof {
            use_type_invariant(&*self);
        }
        match found {
            Some(i) => {
                let ghost before = *self;
                let mut entries: Vec<(String, T)> = Vec::new();
                assert(entries@.map_values(|e: (String, T)| e.0@).no_duplicates());
                std::mem::swap(&mut entries, &mut self.entries);
                let (_, value) = entries.remove(i);
                proof {
                    let after = TextMap { entries };
                    Self::lemma_removed(before, after, i as int);
                }
                self.entries = entries;
                Some(value)
            },
            None => {
                assert(self@.remove(key@) =~= self@);
                None
            },
        }
    }

    proof fn lemma_removed(before: Self, after: Self, i: int)
        requires
            before.distinct(),
            0 <= i < before.entries@.len(),
            after.entries@ == before.entries@.remove(i),
        ensures
            after.distinct(),
            before@.contains_key(before.entries@[i].0@),
            before@[before.entries@[i].0@] == before.entries@[i].1,
            after@ == before@.remove(before.entries@[i].0@),
    {
        let key = before.entries@[i].0@;
        before.lemma_entry(i);
        assert(after.keys() =~= before.keys().remove(i));
        assert(after.distinct());
        assert forall|k: Seq<char>| after@.contains_key(k) <==> before@.remove(key).contains_key(k) by {
            if after@.contains_key(k) {
                let j = after.keys().index_of(k);
                assert(after.keys()[j] == k);
                let m = if j < i { j } else { j + 1 };
                assert(before.keys()[m] == k);
                assert(before.keys().contains(k));
                assert(before.keys()[i] == key);
            }
            if before@.remove(key).contains_key(k) {
                let m = before.keys().index_of(k);
                assert(before.keys()[m] == k);
                assert(m != i);
                let j = if m < i { m } else { m - 1 };
                assert(after.keys()[j] == k);
                assert(after.keys().contains(k));
            }
        }
        assert forall|k: Seq<char>| after@.contains_key(k) implies after@[k] == before@[k] by {
            let j = after.keys().index_of(k);
            assert(after.keys()[j] == k);
            after.lemma_entry(j);
            let m = if j < i { j } else { j + 1 };
            before.lemma_entry(m);
        }
        assert(after@ =~= before@.remove(key));
    }

    proof fn lemma_pushed(before: Self, after: Self, key: Seq<char>, value: T)
        requires
            before.distinct(),
            !before@.contains_key(key),
            after.entries@.len() == before.entries@.len() + 1,
            after.entries@.drop_last() == before.entries@,
            after.entries@.last().0@ == key,
            after.entries@.last().1 == value,
        ensures
            after.distinct(),
            after@ == before@.insert(key, value),
    {
        let n = before.entries@.len() as int;
        assert(after.keys() =~= before.keys().push(key));
        assert(!before.keys().contains(key));
        assert(after.distinct());
        after.lemma_entry(n);
        assert(after.entries@[n] == after.entries@.last());
        let grown = before@.insert(key, value);
        assert forall|k: Seq<char>| #[trigger] grown.contains_key(k) implies after@.contains_key(k)
            && after@[k] == grown[k] by {
            if k != key {
                let j = before.keys().index_of(k);
                assert(before.keys()[j] == k);
                before.lemma_entry(j);
                after.lemma_entry(j);
                assert(after.entries@[j] == after.entries@.drop_last()[j]);
            }
        }
        assert forall|k: Seq<char>| #[trigger] after@.contains_key(k) implies grown.contains_key(k) by {
            let j = after.keys().index_of(k);
            assert(after.keys()[j] == k);
            if j < n {
                before.lemma_entry(j);
                assert(after.entries@[j] == after.entries@.drop_last()[j]);
            }
        }
        assert(after@.dom() =~= grown.dom());
        assert(after@ =~= grown);
    }

    /// Keeps a value under a key, in place of one kept there before.
    pub fn insert(&mut self, key: String, value: T)
        ensures
            final(self)@ == old(self)@.insert(key@, value),
    {
        let _ = self.remove(key.as_str());
        proof {
            use_type_invariant(&*self);
        }
        let ghost before = *self;
        let ghost name = key@;
        let mut entries: Vec<(String, T)> = Vec::new();
        assert(entries@.map_values(|e: (String, T)| e.0@).no_duplicates());
        std::mem::swap(&mut entries, &mut self.entries);
        entries.push((key, value));
        proof {
            let after = TextMap { entries };
            assert(after.entries@.drop_last() =~= before.entries@);
            Self::lemma_pushed(before, after, name, value);
        }
        self.entries = entries;
        assert(self@ =~= old(self)@.insert(name, value));
    }
}

impl<T: Clone> Clone for TextMap<T> {
    fn clone(&self) -> (r: Self)
        ensures
            r.keys() == self.keys(),
            r@.dom() == self@.dom(),
            forall|k: Seq<char>| #[trigger]
                r@.contains_key(k) ==> cloned::<T>(self@[k], r@[k]),
    {
        proof {
            use_type_invariant(self);
        }
        let mut entries: Vec<(String, T)> = Vec::new();
        let mut i: usize = 0;
        while i < self.entries.len()
            invariant
                i == entries@.len(),
                i <= self.entries@.len(),
                forall|j: int|
                    0 <= j < i ==> #[trigger] entries@[j].0@ == self.entries@[j].0@ && cloned::<T>(
                        self.entries@[j].1,
                        entries@[j].1,
                    ),
            decreases self.entries@.len() - i,
        {
            entries.push((self.entries[i].0.clone(), self.entries[i].1.clone()));
            i += 1;
        }
        proof {
            let r = TextMap { entries };
            assert(r.keys() =~= self.keys());
            assert(r@.dom() =~= self@.dom());
            assert forall|k: Seq<char>| #[trigger] r@.contains_key(k) implies cloned::<T>(self@[k], r@[k]) by {
                let j = r.keys().index_of(k);
                assert(r.keys()[j] == k);
                r.lemma_entry(j);
                self.lemma_entry(j);
            }
        }
        TextMap { entries }
    }
}

impl TextMap<String> {
    /// The map as text from text.
    pub open spec fn texts(self) -> Map<Seq<char>, Seq<char>> {
        self@.map_values(|s: String| s@)
    }

    fn within(&self, other: &TextMap<String>) -> (r: bool)
        ensures
            r == (forall|k: Seq<char>| #[trigger]
                self.texts().contains_key(k) ==> other.texts().contains_key(k)
                    && other.texts()[k] == self.texts()[k]),
    {
        let mut i: usize = 0;
        while i < self.len()
            invariant
                i <= self.keys().len(),
                forall|j: int|
                    0 <= j < i ==> other.texts().contains_key(#[trigger] self.keys()[j])
                        && other.texts()[self.keys()[j]] == self.texts()[self.keys()[j]],
            decreases self.keys().len() - i,
        {
            let key: &String = self.key_at(i);
            let value: &String = self.value_at(i);
            assert(self.texts().contains_key(self.keys()[i as int]));
            match other.get(key.as_str()) {
                Some(v) => {
                    if !text::same(v.as_str(), value.as_str()) {
                        return false;
                    }
                },
                None => {
                    return false;
                },
            }
            i += 1;
        }
        proof {
            law_keys(self);
            assert forall|k: Seq<char>| #[trigger] self.texts().contains_key(k) implies other.texts().contains_key(k)
                && other.texts()[k] == self.texts()[k] by {
                assert(self.keys().contains(k));
                let j = self.keys().index_of(k);
                assert(self.keys()[j] == k);
            }
        }
        true
    }
}

impl PartialEq for TextMap<String> {
    fn eq(&self, other: &Self) -> (r: bool) {
        let r: bool = self.within(other) && other.within(self);
        proof {
            if r {
                assert(self.texts() =~= other.texts());
            }
        }
        r
    }
}

impl vstd::std_specs::cmp::PartialEqSpecImpl for TextMap<String> {
    open spec fn obeys_eq_spec() -> bool {
        true
    }

    open spec fn eq_spec(&self, other: &Self) -> bool {
        self.texts() == other.texts()
    }
}

/// A map has a key just when its list of keys holds it.
pub proof fn law_keys<T>(m: &TextMap<T>)
    ensures
        forall|k: Seq<char>| m@.contains_key(k) <==> #[trigger] m.keys().contains(k),
{
}

} // verus!
