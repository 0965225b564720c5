//! The mathematical model of a document tree, which the contracts speak of.

use vstd::prelude::*;

verus! {

/// An attribute: its name and its value.
pub type Entry = (Seq<char>, Seq<char>);

/// A tag: its name and its attributes, in the order in which their names first
/// occurred. No name occurs twice, see [`distinct_keys`].
pub struct TagView {
    pub name: Seq<char>,
    pub attributes: Seq<Entry>,
}

/// A node of the tree.
pub enum XmlView {
    /// An element. A tag that closed itself has no child sequence; a pair of
    /// opening and closing tag has one, which may be empty.
    Element(TagView, Option<Seq<XmlView>>),
    /// Text content.
    Text(Seq<char>),
}

/// The index of the first entry called `key`, or the number of entries if there is none.
pub open spec fn key_index(entries: Seq<Entry>, key: Seq<char>) -> int
    decreases entries.len(),
{
    if entries.len() == 0 {
        0
    } else if entries[0].0 == key {
        0
    } else {
        1 + key_index(entries.drop_first(), key)
    }
}

/// Whether an entry is called `key`.
pub open spec fn has_key(entries: Seq<Entry>, key: Seq<char>) -> bool {
    key_index(entries, key) < entries.len()
}

/// The value of the entry called `key`.
pub open spec fn value_of(entries: Seq<Entry>, key: Seq<char>) -> Option<Seq<char>> {
    if has_key(entries, key) {
        Some(entries[key_index(entries, key)].1)
    } else {
        None
    }
}

/// The entries after `key` is given `value`: the entry of that name takes the new
/// value in place; without such an entry, a new one is added at the end.
pub open spec fn put(entries: Seq<Entry>, key: Seq<char>, value: Seq<char>) -> Seq<Entry> {
    if has_key(entries, key) {
        entries.update(key_index(entries, key), (key, value))
    } else {
        entries.push((key, value))
    }
}

/// The entries that result from putting each pair in turn, starting from none.
pub open spec fn put_all(pairs: Seq<Entry>) -> Seq<Entry>
    decreases pairs.len(),
{
    if pairs.len() == 0 {
        Seq::empty()
    } else {
        put(put_all(pairs.drop_last()), pairs.last().0, pairs.last().1)
    }
}

/// No two entries have the same name.
pub open spec fn distinct_keys(entries: Seq<Entry>) -> bool {
    forall|i: int, j: int|
        0 <= i < j < entries.len() ==> (#[trigger] entries[i]).0 != (#[trigger] entries[j]).0
}

/// The entries as a mapping from names to values, which forgets their order.
pub open spec fn as_map(entries: Seq<Entry>) -> Map<Seq<char>, Seq<char>> {
    Map::new(
        |key: Seq<char>| has_key(entries, key),
        |key: Seq<char>| entries[key_index(entries, key)].1,
    )
}

/// `key_index` is the least index of an entry called `key`.
pub proof fn lemma_key_index(entries: Seq<Entry>, key: Seq<char>)
    ensures
        0 <= key_index(entries, key) <= entries.len(),
        has_key(entries, key) ==> entries[key_index(entries, key)].0 == key,
        forall|j: int| 0 <= j < key_index(entries, key) ==> (#[trigger] entries[j]).0 != key,
    decreases entries.len(),
{
    if entries.len() > 0 && entries[0].0 != key {
        let rest = entries.drop_first();
        lemma_key_index(rest, key);
        assert forall|j: int| 0 <= j < key_index(entries, key) implies (#[trigger] entries[j]).0
            != key by {
            if j > 0 {
                assert(entries[j] == rest[j - 1]);
            }
        }
    }
}

/// An index before which no entry is called `key`, and which holds such an entry
/// or is the number of entries, is `key_index`.
pub proof fn lemma_key_index_is(entries: Seq<Entry>, key: Seq<char>, i: int)
    requires
        0 <= i <= entries.len(),
        forall|j: int| 0 <= j < i ==> (#[trigger] entries[j]).0 != key,
        i < entries.len() ==> entries[i].0 == key,
    ensures
        key_index(entries, key) == i,
{
    lemma_key_index(entries, key);
    let k = key_index(entries, key);
    if k < i {
        assert(entries[k].0 != key);
    }
}

/// Putting leaves the entries of every other name as they were.
pub proof fn lemma_put_other(entries: Seq<Entry>, key: Seq<char>, value: Seq<char>, other: Seq<char>)
    requires
        other != key,
    ensures
        value_of(put(entries, key, value), other) == value_of(entries, other),
        has_key(put(entries, key, value), other) == has_key(entries, other),
{
    let after = put(entries, key, value);
    let k = key_index(entries, key);
    let m = key_index(entries, other);
    lemma_key_index(entries, key);
    lemma_key_index(entries, other);
    assert forall|j: int| 0 <= j < m && j < after.len() implies (#[trigger] after[j]).0 != other by {
        if j != k {
            assert(after[j] == entries[j]);
        }
    }
    if m < entries.len() {
        assert(after[m] == entries[m]);
        lemma_key_index_is(after, other, m);
    } else if k < entries.len() {
        lemma_key_index_is(after, other, m);
    } else {
        assert(after[m].0 != other);
        lemma_key_index_is(after, other, m + 1);
    }
}

/// Putting keeps the names distinct, gives `key` the value, and leaves the value
/// of every other name as it was.
pub proof fn lemma_put(entries: Seq<Entry>, key: Seq<char>, value: Seq<char>)
    requires
        distinct_keys(entries),
    ensures
        distinct_keys(put(entries, key, value)),
        value_of(put(entries, key, value), key) == Some(value),
        forall|other: Seq<char>|
            other != key ==> #[trigger] value_of(put(entries, key, value), other) == value_of(
                entries,
                other,
            ),
        forall|other: Seq<char>|
            #[trigger] has_key(put(entries, key, value), other) <==> (other == key || has_key(
                entries,
                other,
            )),
{
    let after = put(entries, key, value);
    let k = key_index(entries, key);
    lemma_key_index(entries, key);
    assert(after.len() > k && after[k] == (key, value));
    assert forall|i: int, j: int| 0 <= i < j < after.len() implies (#[trigger] after[i]).0 != (
    #[trigger] after[j]).0 by {
        if i != k {
            assert(after[i] == entries[i]);
        }
        if j != k {
            assert(after[j] == entries[j]);
        }
    }
    lemma_key_index_is(after, key, k);
    assert forall|other: Seq<char>| other != key implies #[trigger] value_of(after, other)
        == value_of(entries, other) by {
        lemma_put_other(entries, key, value, other);
    }
    assert forall|other: Seq<char>| #[trigger]
        has_key(after, other) <==> (other == key || has_key(entries, other)) by {
        if other != key {
            lemma_put_other(entries, key, value, other);
        }
    }
}

} // verus!
