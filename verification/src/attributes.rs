//! The attributes of a tag: a mapping from names to values that keeps the order in
//! which the names first occurred.

use vstd::prelude::*;
use vstd::std_specs::cmp::PartialEqSpecImpl;
use crate::model::{
    Entry, as_map, distinct_keys, has_key, key_index, lemma_key_index, lemma_key_index_is,
    lemma_put, put, put_all, value_of,
};
use crate::text::str_eq;

verus! {

/// The names of the entries, in order.
pub open spec fn keys(entries: Seq<Entry>) -> Seq<Seq<char>> {
    Seq::new(entries.len(), |i: int| entries[i].0)
}

/// An entry is called `key` exactly if `key` is among the names.
pub proof fn lemma_keys(entries: Seq<Entry>, key: Seq<char>)
    ensures
        has_key(entries, key) <==> keys(entries).to_set().contains(key),
        distinct_keys(entries) ==> keys(entries).no_duplicates(),
        keys(entries).to_set().finite(),
{
    lemma_key_index(entries, key);
    let names = keys(entries);
    if has_key(entries, key) {
        assert(names[key_index(entries, key)] == key);
    }
    if names.to_set().contains(key) {
        let i = choose|i: int| 0 <= i < names.len() && names[i] == key;
        assert(entries[i].0 == key);
    }
    if distinct_keys(entries) {
        assert forall|i: int, j: int| 0 <= i < names.len() && 0 <= j < names.len() && i != j implies names[i]
            != names[j] by {
            if i < j {
                assert(entries[i].0 != entries[j].0);
            } else {
                assert(entries[j].0 != entries[i].0);
            }
        }
    }
    vstd::seq_lib::seq_to_set_is_finite(names);
}

/// Two lists of entries with distinct names and of the same length, of which the
/// second gives every name of the first the same value, are the same mapping.
pub proof fn lemma_same_map(a: Seq<Entry>, b: Seq<Entry>)
    requires
        distinct_keys(a),
        distinct_keys(b),
        a.len() == b.len(),
        forall|i: int| 0 <= i < a.len() ==> value_of(b, (#[trigger] a[i]).0) == Some(a[i].1),
    ensures
        as_map(a) == as_map(b),
{
    let ka = keys(a).to_set();
    let kb = keys(b).to_set();
    assert forall|k: Seq<char>| ka.contains(k) implies kb.contains(k) by {
        lemma_keys(a, k);
        lemma_keys(b, k);
        lemma_key_index(a, k);
        assert(value_of(b, a[key_index(a, k)].0) is Some);
    }
    lemma_keys(a, Seq::empty());
    lemma_keys(b, Seq::empty());
    keys(a).unique_seq_to_set();
    keys(b).unique_seq_to_set();
    vstd::set_lib::lemma_subset_equality(ka, kb);
    assert forall|k: Seq<char>| has_key(a, k) == has_key(b, k) by {
        lemma_keys(a, k);
        lemma_keys(b, k);
    }
    assert forall|k: Seq<char>| has_key(a, k) implies #[trigger] a[key_index(a, k)].1 == b[key_index(
        b,
        k,
    )].1 by {
        lemma_key_index(a, k);
        assert(value_of(b, a[key_index(a, k)].0) == Some(a[key_index(a, k)].1));
    }
    assert(as_map(a) =~= as_map(b));
}

/// The attributes of a tag, with strings of their own.
///
/// No name occurs twice. Two values are equal if they map the same names to the
/// same values, in whatever order.
#[derive(Debug)]
pub struct Attributes {
    entries: Vec<(String, String)>,
}

impl View for Attributes {
    type V = Seq<Entry>;

    closed spec fn view(&self) -> Seq<Entry> {
        Seq::new(self.entries.len() as nat, |i: int| (self.entries[i].0@, self.entries[i].1@))
    }
}

impl Attributes {
    #[verifier::type_invariant]
    spec fn well_formed(&self) -> bool {
        distinct_keys(self@)
    }

    /// No attributes.
    pub fn new() -> (attributes: Attributes)
        ensures
            attributes@ == Seq::<Entry>::empty(),
    {
        let attributes = Attributes { entries: Vec::new() };
        assert(attributes@ =~= Seq::<Entry>::empty());
        attributes
    }

    /// The number of attributes.
    pub fn len(&self) -> (n: usize)
        ensures
            n == self@.len(),
    {
        self.entries.len()
    }

    /// Whether there is no attribute.
    pub fn is_empty(&self) -> (b: bool)
        ensures
            b == (self@.len() == 0),
    {
        self.entries.len() == 0
    }

    /// The name of the attribute at `index`.
    pub fn key(&self, index: usize) -> (key: &str)
        requires
            index < self@.len(),
        ensures
            key@ == self@[index as int].0,
    {
        self.entries[index].0.as_str()
    }

    /// The value of the attribute at `index`.
    pub fn value(&self, index: usize) -> (value: &str)
        requires
            index < self@.len(),
        ensures
            value@ == self@[index as int].1,
    {
        self.entries[index].1.as_str()
    }

    /// The index of the attribute called `key`, or the number of attributes.
    pub fn position(&self, key: &str) -> (index: usize)
        ensures
            index == key_index(self@, key@),
            index <= self@.len(),
    {
        let mut index: usize = 0;
        while index < self.entries.len()
            invariant
                index <= self.entries.len(),
                forall|j: int| 0 <= j < index ==> (#[trigger] self@[j]).0 != key@,
            decreases self.entries.len() - index,
        {
            if str_eq(self.entries[index].0.as_str(), key) {
                proof {
                    lemma_key_index_is(self@, key@, index as int);
                }
                return index;
            }
            index += 1;
        }
        proof {
            lemma_key_index_is(self@, key@, index as int);
        }
        index
    }

    /// Whether an attribute is called `key`.
    pub fn contains_key(&self, key: &str) -> (b: bool)
        ensures
            b == has_key(self@, key@),
    {
        self.position(key) < self.entries.len()
    }

    /// The value of the attribute called `key`.
    pub fn get(&self, key: &str) -> (value: Option<&str>)
        ensures
            match value {
                Some(v) => value_of(self@, key@) == Some(v@),
                None => value_of(self@, key@) is None,
            },
    {
        let index = self.position(key);
        if index < self.entries.len() {
            Some(self.entries[index].1.as_str())
        } else {
            None
        }
    }

    /// Gives `key` the `value`. An attribute of that name keeps its place and
    /// takes the new value; otherwise a new attribute is added at the end.
    pub fn insert(&mut self, key: String, value: String)
        ensures
            final(self)@ == put(old(self)@, key@, value@),
    {
        proof {
            use_type_invariant(&*self);
            lemma_put(self@, key@, value@);
        }
        let index = self.position(key.as_str());
        let mut entries: Vec<(String, String)> = Vec::new();
        core::mem::swap(&mut self.entries, &mut entries);
        if index < entries.len() {
            entries.set(index, (key, value));
        } else {
            entries.push((key, value));
        }
        proof {
            let after = Seq::new(entries.len() as nat, |i: int| (entries[i].0@, entries[i].1@));
            assert(after =~= put(old(self)@, key@, value@));
        }
        core::mem::swap(&mut self.entries, &mut entries);
    }

    /// The attributes that result from inserting each pair in turn.
    pub fn from_pairs(pairs: Vec<(String, String)>) -> (attributes: Attributes)
        ensures
            attributes@ == put_all(pairs_view(pairs)),
    {
        let mut attributes = Attributes::new();
        let mut i: usize = 0;
        while i < pairs.len()
            invariant
                i <= pairs.len(),
                attributes@ == put_all(pairs_view(pairs).take(i as int)),
            decreases pairs.len() - i,
        {
            attributes.insert(pairs[i].0.clone(), pairs[i].1.clone());
            i += 1;
            proof {
                let done = pairs_view(pairs).take(i as int);
                assert(done.drop_last() =~= pairs_view(pairs).take(i - 1));
            }
        }
        assert(pairs_view(pairs).take(i as int) =~= pairs_view(pairs));
        attributes
    }
}

/// The pairs of a vector, as entries.
pub open spec fn pairs_view(pairs: Vec<(String, String)>) -> Seq<Entry> {
    Seq::new(pairs.len() as nat, |i: int| (pairs[i].0@, pairs[i].1@))
}

impl Clone for Attributes {
    fn clone(&self) -> (copy: Attributes)
        ensures
            copy@ == self@,
    {
        proof {
            use_type_invariant(self);
        }
        let mut entries: Vec<(String, String)> = Vec::new();
        let mut i: usize = 0;
        while i < self.entries.len()
            invariant
                i <= self.entries.len(),
                entries.len() == i,
                forall|j: int|
                    0 <= j < i ==> (#[trigger] entries[j]).0@ == self.entries[j].0@ && entries[j].1@
                        == self.entries[j].1@,
            decreases self.entries.len() - i,
        {
            entries.push((self.entries[i].0.clone(), self.entries[i].1.clone()));
            i += 1;
        }
        let ghost view = Seq::new(entries.len() as nat, |i: int| (entries[i].0@, entries[i].1@));
        assert(view =~= self@);
        Attributes { entries }
    }
}

impl PartialEq for Attributes {
    fn eq(&self, other: &Attributes) -> (equal: bool) {
        proof {
            use_type_invariant(self);
            use_type_invariant(other);
        }
        if self.entries.len() != other.entries.len() {
            proof {
                if as_map(self@) == as_map(other@) {
                    lemma_same_size(self@, other@);
                }
            }
            return false;
        }
        let mut i: usize = 0;
        while i < self.entries.len()
            invariant
                i <= self.entries.len(),
                self@.len() == other@.len(),
                distinct_keys(self@),
                distinct_keys(other@),
                forall|j: int| 0 <= j < i ==> value_of(other@, (#[trigger] self@[j]).0) == Some(self@[j].1),
            decreases self.entries.len() - i,
        {
            let found = match other.get(self.entries[i].0.as_str()) {
                Some(value) => str_eq(value, self.entries[i].1.as_str()),
                None => false,
            };
            if !found {
                proof {
                    let key = self@[i as int].0;
                    assert forall|j: int| 0 <= j < i implies (#[trigger] self@[j]).0 != key by {
                        assert(self@[j].0 != self@[i as int].0);
                    }
                    lemma_key_index_is(self@, key, i as int);
                    assert(as_map(self@).dom().contains(key));
                    assert(as_map(self@)[key] == self@[i as int].1);
                    if as_map(self@) == as_map(other@) {
                        assert(as_map(other@).dom().contains(key));
                        assert(as_map(other@)[key] == self@[i as int].1);
                    }
                }
                return false;
            }
            i += 1;
        }
        proof {
            lemma_same_map(self@, other@);
        }
        true
    }
}

impl Eq for Attributes {

}

impl PartialEqSpecImpl for Attributes {
    open spec fn obeys_eq_spec() -> bool {
        true
    }

    open spec fn eq_spec(&self, other: &Attributes) -> bool {
        as_map(self@) == as_map(other@)
    }
}

/// The attributes of a tag, with strings borrowed from the input.
///
/// No name occurs twice. Two values are equal if they map the same names to the
/// same values, in whatever order.
#[derive(Debug)]
pub struct AttributesRef<'a> {
    entries: Vec<(&'a str, &'a str)>,
}

impl<'a> View for AttributesRef<'a> {
    type V = Seq<Entry>;

    closed spec fn view(&self) -> Seq<Entry> {
        Seq::new(self.entries.len() as nat, |i: int| (self.entries[i].0@, self.entries[i].1@))
    }
}

impl<'a> AttributesRef<'a> {
    #[verifier::type_invariant]
    spec fn well_formed(&self) -> bool {
        distinct_keys(self@)
    }

    /// No attributes.
    pub fn new() -> (attributes: AttributesRef<'a>)
        ensures
            attributes@ == Seq::<Entry>::empty(),
    {
        let attributes = AttributesRef { entries: Vec::new() };
        assert(attributes@ =~= Seq::<Entry>::empty());
        attributes
    }

    /// The number of attributes.
    pub fn len(&self) -> (n: usize)
        ensures
            n == self@.len(),
    {
        self.entries.len()
    }

    /// Whether there is no attribute.
    pub fn is_empty(&self) -> (b: bool)
        ensures
            b == (self@.len() == 0),
    {
        self.entries.len() == 0
    }

    /// The name of the attribute at `index`.
    pub fn key(&self, index: usize) -> (key: &'a str)
        requires
            index < self@.len(),
        ensures
            key@ == self@[index as int].0,
    {
        self.entries[index].0
    }

    /// The value of the attribute at `index`.
    pub fn value(&self, index: usize) -> (value: &'a str)
        requires
            index < self@.len(),
        ensures
            value@ == self@[index as int].1,
    {
        self.entries[index].1
    }

    /// The index of the attribute called `key`, or the number of attributes.
    pub fn position(&self, key: &str) -> (index: usize)
        ensures
            index == key_index(self@, key@),
            index <= self@.len(),
    {
        let mut index: usize = 0;
        while index < self.entries.len()
            invariant
                index <= self.entries.len(),
                forall|j: int| 0 <= j < index ==> (#[trigger] self@[j]).0 != key@,
            decreases self.entries.len() - index,
        {
            if str_eq(self.entries[index].0, key) {
                proof {
                    lemma_key_index_is(self@, key@, index as int);
                }
                return index;
            }
            index += 1;
        }
        proof {
            lemma_key_index_is(self@, key@, index as int);
        }
        index
    }

    /// Whether an attribute is called `key`.
    pub fn contains_key(&self, key: &str) -> (b: bool)
        ensures
            b == has_key(self@, key@),
    {
        self.position(key) < self.entries.len()
    }

    /// The value of the attribute called `key`.
    pub fn get(&self, key: &str) -> (value: Option<&'a str>)
        ensures
            match value {
                Some(v) => value_of(self@, key@) == Some(v@),
                None => value_of(self@, key@) is None,
            },
    {
        let index = self.position(key);
        if index < self.entries.len() {
            Some(self.entries[index].1)
        } else {
            None
        }
    }

    /// Gives `key` the `value`. An attribute of that name keeps its place and
    /// takes the new value; otherwise a new attribute is added at the end.
    pub fn insert(&mut self, key: &'a str, value: &'a str)
        ensures
            final(self)@ == put(old(self)@, key@, value@),
    {
        proof {
            use_type_invariant(&*self);
            lemma_put(self@, key@, value@);
        }
        let index = self.position(key);
        let mut entries: Vec<(&'a str, &'a str)> = Vec::new();
        core::mem::swap(&mut self.entries, &mut entries);
        if index < entries.len() {
            entries.set(index, (key, value));
        } else {
            entries.push((key, value));
        }
        proof {
            let after = Seq::new(entries.len() as nat, |i: int| (entries[i].0@, entries[i].1@));
            assert(after =~= put(old(self)@, key@, value@));
        }
        core::mem::swap(&mut self.entries, &mut entries);
    }

    /// The attributes that result from inserting each pair in turn.
    pub fn from_pairs(pairs: Vec<(&'a str, &'a str)>) -> (attributes: AttributesRef<'a>)
        ensures
            attributes@ == put_all(borrowed_pairs_view(pairs)),
    {
        let mut attributes = AttributesRef::new();
        let mut i: usize = 0;
        while i < pairs.len()
            invariant
                i <= pairs.len(),
                attributes@ == put_all(borrowed_pairs_view(pairs).take(i as int)),
            decreases pairs.len() - i,
        {
            attributes.insert(pairs[i].0, pairs[i].1);
            i += 1;
            proof {
                let done = borrowed_pairs_view(pairs).take(i as int);
                assert(done.drop_last() =~= borrowed_pairs_view(pairs).take(i - 1));
            }
        }
        assert(borrowed_pairs_view(pairs).take(i as int) =~= borrowed_pairs_view(pairs));
        attributes
    }
}

/// The borrowed pairs of a vector, as entries.
pub open spec fn borrowed_pairs_view(pairs: Vec<(&str, &str)>) -> Seq<Entry> {
    Seq::new(pairs.len() as nat, |i: int| (pairs[i].0@, pairs[i].1@))
}

impl<'a> Clone for AttributesRef<'a> {
    fn clone(&self) -> (copy: AttributesRef<'a>)
        ensures
            copy@ == self@,
    {
        proof {
            use_type_invariant(self);
        }
        let mut entries: Vec<(&'a str, &'a str)> = Vec::new();
        let mut i: usize = 0;
        while i < self.entries.len()
            invariant
                i <= self.entries.len(),
                entries.len() == i,
                forall|j: int|
                    0 <= j < i ==> (#[trigger] entries[j]).0@ == self.entries[j].0@ && entries[j].1@
                        == self.entries[j].1@,
            decreases self.entries.len() - i,
        {
            entries.push((self.entries[i].0, self.entries[i].1));
            i += 1;
        }
        let ghost view = Seq::new(entries.len() as nat, |i: int| (entries[i].0@, entries[i].1@));
        assert(view =~= self@);
        AttributesRef { entries }
    }
}

impl<'a> PartialEq for AttributesRef<'a> {
    fn eq(&self, other: &AttributesRef<'a>) -> (equal: bool) {
        proof {
            use_type_invariant(self);
            use_type_invariant(other);
        }
        if self.entries.len() != other.entries.len() {
            proof {
                if as_map(self@) == as_map(other@) {
                    lemma_same_size(self@, other@);
                }
            }
            return false;
        }
        let mut i: usize = 0;
        while i < self.entries.len()
            invariant
                i <= self.entries.len(),
                self@.len() == other@.len(),
                distinct_keys(self@),
                distinct_keys(other@),
                forall|j: int| 0 <= j < i ==> value_of(other@, (#[trigger] self@[j]).0) == Some(self@[j].1),
            decreases self.entries.len() - i,
        {
            let found = match other.get(self.entries[i].0) {
                Some(value) => str_eq(value, self.entries[i].1),
                None => false,
            };
            if !found {
                proof {
                    let key = self@[i as int].0;
                    assert forall|j: int| 0 <= j < i implies (#[trigger] self@[j]).0 != key by {
                        assert(self@[j].0 != self@[i as int].0);
                    }
                    lemma_key_index_is(self@, key, i as int);
                    assert(as_map(self@).dom().contains(key));
                    assert(as_map(self@)[key] == self@[i as int].1);
                    if as_map(self@) == as_map(other@) {
                        assert(as_map(other@).dom().contains(key));
                        assert(as_map(other@)[key] == self@[i as int].1);
                    }
                }
                return false;
            }
            i += 1;
        }
        proof {
            lemma_same_map(self@, other@);
        }
        true
    }
}

impl<'a> Eq for AttributesRef<'a> {

}

impl<'a> PartialEqSpecImpl for AttributesRef<'a> {
    open spec fn obeys_eq_spec() -> bool {
        true
    }

    open spec fn eq_spec(&self, other: &AttributesRef<'a>) -> bool {
        as_map(self@) == as_map(other@)
    }
}

/// Entries with distinct names that are the same mapping are equally many.
pub proof fn lemma_same_size(a: Seq<Entry>, b: Seq<Entry>)
    requires
        distinct_keys(a),
        distinct_keys(b),
        as_map(a) == as_map(b),
    ensures
        a.len() == b.len(),
{
    assert forall|k: Seq<char>| keys(a).to_set().contains(k) == keys(b).to_set().contains(k) by {
        lemma_keys(a, k);
        lemma_keys(b, k);
        assert(as_map(a).dom().contains(k) == has_key(a, k));
        assert(as_map(b).dom().contains(k) == has_key(b, k));
    }
    assert(keys(a).to_set() =~= keys(b).to_set());
    lemma_keys(a, Seq::empty());
    lemma_keys(b, Seq::empty());
    keys(a).unique_seq_to_set();
    keys(b).unique_seq_to_set();
}

} // verus!
