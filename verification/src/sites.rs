//! A table keyed by text: the label of a call site, or the path of a file. Entries are never
//! removed; they are listed in the order in which their keys were first seen.

use vstd::hash_map::StringHashMap;
use vstd::prelude::*;

verus! {

pub struct SiteTable<V> {
    index: StringHashMap<usize>,
    names: Vec<String>,
    values: Vec<V>,
}

impl<V> View for SiteTable<V> {
    type V = Map<Seq<char>, V>;

    closed spec fn view(&self) -> Map<Seq<char>, V> {
        Map::new(
            |site: Seq<char>| self.index@.contains_key(site),
            |site: Seq<char>| self.values@[self.index@[site] as int],
        )
    }
}

impl<V> SiteTable<V> {
    /// The labels, in the order in which they were first seen.
    pub closed spec fn labels(&self) -> Seq<Seq<char>> {
        self.names@.map_values(|s: String| s@)
    }

    /// The values, in the order of the labels.
    pub closed spec fn entries(&self) -> Seq<V> {
        self.values@
    }

    /// The index finds every label at its place, and nothing else.
    pub closed spec fn wf(&self) -> bool {
        &&& self.names.len() == self.values.len()
        &&& forall|i: int|
            0 <= i < self.names.len() ==> self.index@.contains_key((#[trigger] self.names[i])@)
                && self.index@[self.names[i]@] == i
        &&& forall|site: Seq<char>| #[trigger]
            self.index@.contains_key(site) ==> self.index@[site] < self.names.len()
                && self.names[self.index@[site] as int]@ == site
    }

    /// The list of labels and the list of values hold the table, each label once.
    pub proof fn lemma_listing(&self)
        requires
            self.wf(),
        ensures
            self.labels().len() == self.entries().len(),
            self.labels().no_duplicates(),
            forall|i: int|
                0 <= i < self.labels().len() ==> self@.contains_key(#[trigger] self.labels()[i])
                    && self@[self.labels()[i]] == self.entries()[i],
            forall|site: Seq<char>| #[trigger] self@.contains_key(site) ==> self.labels().contains(site),
            self@.dom() == self.labels().to_set(),
            self@.dom().finite(),
            self@.dom().len() == self.labels().len(),
    {
        assert forall|i: int, j: int|
            0 <= i < self.labels().len() && 0 <= j < self.labels().len() && i
                != j implies self.labels()[i] != self.labels()[j] by {
            assert(self.index@[self.names[i]@] == i);
            assert(self.index@[self.names[j]@] == j);
        }
        assert forall|i: int| 0 <= i < self.labels().len() implies self@.contains_key(
            #[trigger] self.labels()[i],
        ) && self@[self.labels()[i]] == self.entries()[i] by {
            assert(self.index@.contains_key(self.names[i]@));
        }
        assert forall|site: Seq<char>| #[trigger]
            self@.contains_key(site) implies self.labels().contains(site) by {
            assert(self.labels()[self.index@[site] as int] == site);
        }
        assert(self@.dom() =~= self.labels().to_set());
        vstd::seq_lib::seq_to_set_is_finite(self.labels());
        self.labels().unique_seq_to_set();
    }

    pub fn new() -> (table: Self)
        ensures
            table.wf(),
            table@ == Map::<Seq<char>, V>::empty(),
            table.labels() == Seq::<Seq<char>>::empty(),
    {
        let table = SiteTable {
            index: StringHashMap::new(),
            names: Vec::new(),
            values: Vec::new(),
        };
        assert(table@ =~= Map::<Seq<char>, V>::empty());
        assert(table.labels() =~= Seq::<Seq<char>>::empty());
        table
    }

    /// How many labels the table holds.
    pub fn len(&self) -> (n: usize)
        requires
            self.wf(),
        ensures
            n == self.labels().len(),
    {
        self.names.len()
    }

    /// Where `site` stands in the list, if it is there.
    pub fn position(&self, site: &str) -> (at: Option<usize>)
        requires
            self.wf(),
        ensures
            match at {
                Some(i) => i < self.labels().len() && self.labels()[i as int] == site@
                    && self@.contains_key(site@) && self@[site@] == self.entries()[i as int],
                None => !self@.contains_key(site@),
            },
    {
        match self.index.get(site) {
            Some(i) => Some(*i),
            None => None,
        }
    }

    /// The label at place `i`.
    pub fn label(&self, i: usize) -> (site: &String)
        requires
            self.wf(),
            i < self.labels().len(),
        ensures
            site@ == self.labels()[i as int],
    {
        &self.names[i]
    }

    /// The value at place `i`.
    pub fn value(&self, i: usize) -> (value: &V)
        requires
            self.wf(),
            i < self.labels().len(),
        ensures
            *value == self.entries()[i as int],
    {
        proof {
            self.lemma_listing();
        }
        &self.values[i]
    }

    /// Gives `site` the value `value`, whether or not it was there.
    pub fn put(&mut self, site: &str, value: V)
        requires
            old(self).wf(),
        ensures
            final(self).wf(),
            final(self)@ == old(self)@.insert(site@, value),
    {
        match self.position(site) {
            Some(i) => {
                self.values.set(i, value);
            },
            None => {
                let at: usize = self.names.len();
                self.index.insert(site.to_owned(), at);
                self.names.push(site.to_owned());
                self.values.push(value);
                assert forall|i: int| 0 <= i < self.names.len() implies self.index@.contains_key(
                    (#[trigger] self.names[i])@,
                ) && self.index@[self.names[i]@] == i by {
                    if i < at {
                        assert(self.names[i] == old(self).names[i]);
                    }
                }
                assert forall|s: Seq<char>| #[trigger]
                    self.index@.contains_key(s) implies self.index@[s] < self.names.len()
                    && self.names[self.index@[s] as int]@ == s by {
                    if s != site@ {
                        assert(old(self).index@.contains_key(s));
                    }
                }
            },
        }
        assert(self@ =~= old(self)@.insert(site@, value));
    }

    /// Gives the label at place `i` a new value.
    pub fn set(&mut self, i: usize, value: V)
        requires
            old(self).wf(),
            i < old(self).labels().len(),
        ensures
            final(self).wf(),
            final(self).labels() == old(self).labels(),
            final(self).entries() == old(self).entries().update(i as int, value),
            final(self)@ == old(self)@.insert(old(self).labels()[i as int], value),
    {
        let ghost site = self.names[i as int]@;
        self.values.set(i, value);
        assert(self.index@[site] == i);
        assert(self@ =~= old(self)@.insert(site, value));
    }

    /// The value at place `i`, to be changed in place.
    pub fn value_mut(&mut self, i: usize) -> (value: &mut V)
        requires
            old(self).wf(),
            i < old(self).labels().len(),
        ensures
            *value == old(self).entries()[i as int],
            final(self).wf(),
            final(self).labels() == old(self).labels(),
            final(self).entries() == old(self).entries().update(i as int, *final(value)),
            final(self)@ == old(self)@.insert(old(self).labels()[i as int], *final(value)),
    {
        &mut self.values[i]
    }
}

} // verus!
