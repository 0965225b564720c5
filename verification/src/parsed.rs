//! What holds of every tree that the parser builds, and which of these trees the
//! serializer writes so that they are read back.

use vstd::prelude::*;
use crate::chars::{CharClass, is_key_char, is_text_char, is_trim_char};
use crate::grammar::{
    lemma_attribute_key_value_end, lemma_run_end, lemma_value_end, run_end, skip_spaces, slice,
    spec_attribute_key_value, spec_attribute_list_from, spec_children_from,
    spec_element, spec_opening_tag, spec_root, spec_text, spec_value, value_end,
};
use crate::laws::{lemma_opening_tag_end, lemma_put_all_distinct, lemma_trimmed};
use crate::model::{Entry, TagView, XmlView, distinct_keys, lemma_key_index, put, put_all};
use crate::printable::{fits, plain_name, plain_tag, plain_value, printable};

verus! {

/// A name as the parser reads it: not empty, of name characters.
pub open spec fn key_like(name: Seq<char>) -> bool {
    &&& name.len() > 0
    &&& forall|i: int| 0 <= i < name.len() ==> is_key_char(#[trigger] name[i])
}

/// An attribute as the parser reads it: a name and a value that is not empty.
pub open spec fn entry_like(entry: Entry) -> bool {
    key_like(entry.0) && entry.1.len() > 0
}

/// A tag as the parser reads it.
pub open spec fn grammatical_tag(tag: TagView) -> bool {
    &&& key_like(tag.name)
    &&& distinct_keys(tag.attributes)
    &&& forall|i: int| 0 <= i < tag.attributes.len() ==> entry_like(#[trigger] tag.attributes[i])
}

/// No text follows another text directly.
pub open spec fn texts_apart(children: Seq<XmlView>) -> bool {
    forall|i: int|
        0 <= i < children.len() - 1 ==> !((#[trigger] children[i]) is Text && children[i + 1] is Text)
}

/// A tree as the parser builds it: names of name characters, attributes with
/// distinct names and values that are not empty, text without `&`, `<`, `>` and
/// without white space at its ends, and no text directly after another.
pub open spec fn grammatical(x: XmlView) -> bool
    decreases x,
{
    match x {
        XmlView::Text(text) => {
            &&& forall|i: int| 0 <= i < text.len() ==> is_text_char(#[trigger] text[i])
            &&& text.len() > 0 ==> !is_trim_char(text[0]) && !is_trim_char(text.last())
        },
        XmlView::Element(tag, None) => grammatical_tag(tag),
        XmlView::Element(tag, Some(children)) => {
            &&& grammatical_tag(tag)
            &&& forall|i: int| 0 <= i < children.len() ==> grammatical(#[trigger] children[i])
            &&& texts_apart(children)
        },
    }
}

/// A name without white space.
pub open spec fn tidy_name(name: Seq<char>) -> bool {
    forall|i: int| 0 <= i < name.len() ==> !is_trim_char(#[trigger] name[i])
}

/// A tag whose names hold no white space, and whose values are on one line and
/// are ended by a double quote after them.
pub open spec fn tidy_tag(tag: TagView) -> bool {
    &&& tidy_name(tag.name)
    &&& forall|i: int|
        0 <= i < tag.attributes.len() ==> {
            &&& tidy_name((#[trigger] tag.attributes[i]).0)
            &&& forall|j: int|
                0 <= j < tag.attributes[i].1.len() ==> #[trigger] tag.attributes[i].1[j] != '\n'
            &&& value_end(tag.attributes[i].1.push('"'), 0) == tag.attributes[i].1.len()
        }
}

/// A tree whose tags are tidy and whose texts are not empty and on one line.
pub open spec fn tidy(x: XmlView) -> bool
    decreases x,
{
    match x {
        XmlView::Text(text) => {
            &&& text.len() > 0
            &&& forall|i: int| 0 <= i < text.len() ==> #[trigger] text[i] != '\n'
        },
        XmlView::Element(tag, None) => tidy_tag(tag),
        XmlView::Element(tag, Some(children)) => {
            &&& tidy_tag(tag)
            &&& forall|i: int| 0 <= i < children.len() ==> tidy(#[trigger] children[i])
        },
    }
}

/// A tree as the parser builds it, if it is tidy, is printable.
pub proof fn lemma_tidy_is_printable(x: XmlView)
    requires
        grammatical(x),
        tidy(x),
    ensures
        printable(x),
    decreases x,
{
    match x {
        XmlView::Text(text) => {},
        XmlView::Element(tag, None) => {
            lemma_tidy_tag(tag);
        },
        XmlView::Element(tag, Some(children)) => {
            lemma_tidy_tag(tag);
            assert forall|i: int| 0 <= i < children.len() implies printable(
                #[trigger] children[i],
            ) by {
                lemma_tidy_is_printable(children[i]);
            }
        },
    }
}

/// See [`lemma_tidy_is_printable`]: the tag.
pub proof fn lemma_tidy_tag(tag: TagView)
    requires
        grammatical_tag(tag),
        tidy_tag(tag),
    ensures
        plain_tag(tag),
{
    assert forall|i: int| 0 <= i < tag.attributes.len() implies plain_name(
        (#[trigger] tag.attributes[i]).0,
    ) && plain_value(tag.attributes[i].1) by {
        assert(entry_like(tag.attributes[i]));
    }
}

/// Every entry that results from putting pairs in turn is one of the pairs.
pub proof fn lemma_put_all_members(pairs: Seq<Entry>, i: int)
    requires
        0 <= i < put_all(pairs).len(),
    ensures
        exists|j: int| 0 <= j < pairs.len() && #[trigger] pairs[j] == put_all(pairs)[i],
    decreases pairs.len(),
{
    if pairs.len() > 0 {
        let front = pairs.drop_last();
        let last = pairs.last();
        let before = put_all(front);
        lemma_key_index(before, last.0);
        let after = put(before, last.0, last.1);
        if after[i] == last {
            assert(pairs[pairs.len() - 1] == after[i]);
        } else {
            assert(i < before.len() && after[i] == before[i]);
            lemma_put_all_members(front, i);
            let j = choose|j: int| 0 <= j < front.len() && #[trigger] front[j] == before[i];
            assert(pairs[j] == after[i]);
        }
    }
}

/// The attributes that are read are names with values that are not empty.
pub proof fn lemma_attribute_list_entries(s: Seq<char>, pos: int, first: bool, found: Seq<Entry>)
    requires
        0 <= pos <= s.len(),
        forall|i: int| 0 <= i < found.len() ==> entry_like(#[trigger] found[i]),
    ensures
        spec_attribute_list_from(s, pos, first, found) matches Ok((pairs, _)) ==> forall|i: int|
            0 <= i < pairs.len() ==> entry_like(#[trigger] pairs[i]),
    decreases s.len() - pos,
{
    if first || (pos < s.len() && crate::chars::is_space(s[pos])) {
        if let Ok(((key, value), end)) = spec_attribute_key_value(s, pos) {
            lemma_attribute_key_value_end(s, pos);
            lemma_run_end(s, pos, CharClass::Space);
            let start = skip_spaces(s, pos);
            lemma_run_end(s, start, CharClass::Key);
            let key_end = run_end(s, start, CharClass::Key);
            lemma_run_end(s, key_end, CharClass::Space);
            let eq = skip_spaces(s, key_end);
            lemma_run_end(s, eq + 1, CharClass::Space);
            let quote = skip_spaces(s, eq + 1);
            lemma_value_end(s, quote + 1);
            let entry = (slice(s, key), slice(s, value));
            assert(key == (start, key_end));
            assert(key_like(entry.0)) by {
                assert forall|i: int| 0 <= i < entry.0.len() implies is_key_char(
                    #[trigger] entry.0[i],
                ) by {
                    assert(entry.0[i] == s[start + i]);
                }
            }
            assert(entry.1.len() > 0);
            let grown = found.push(entry);
            assert forall|i: int| 0 <= i < grown.len() implies entry_like(#[trigger] grown[i]) by {
                if i < found.len() {
                    assert(grown[i] == found[i]);
                }
            }
            lemma_attribute_list_entries(s, end, false, grown);
        }
    }
}

/// The tag that is read is grammatical.
pub proof fn lemma_opening_tag_grammatical(s: Seq<char>, pos: int)
    requires
        0 <= pos <= s.len(),
    ensures
        spec_opening_tag(s, pos) matches Ok(((tag, _), end)) ==> grammatical_tag(tag) && pos < end
            <= s.len(),
{
    if let Ok(((tag, _), _)) = spec_opening_tag(s, pos) {
        lemma_opening_tag_end(s, pos);
        lemma_run_end(s, pos + 1, CharClass::Key);
        let name_end = run_end(s, pos + 1, CharClass::Key);
        assert(key_like(tag.name)) by {
            assert forall|i: int| 0 <= i < tag.name.len() implies is_key_char(
                #[trigger] tag.name[i],
            ) by {
                assert(tag.name[i] == s[pos + 1 + i]);
            }
        }
        lemma_run_end(s, name_end, CharClass::Space);
        let start = skip_spaces(s, name_end);
        lemma_attribute_list_entries(s, start, true, Seq::empty());
        let pairs = spec_attribute_list_from(s, start, true, Seq::empty())->Ok_0.0;
        lemma_put_all_distinct(pairs);
        assert forall|i: int| 0 <= i < tag.attributes.len() implies entry_like(
            #[trigger] tag.attributes[i],
        ) by {
            lemma_put_all_members(pairs, i);
            let j = choose|j: int| 0 <= j < pairs.len() && #[trigger] pairs[j] == put_all(pairs)[i];
            assert(entry_like(pairs[j]));
        }
    }
}

/// The child that is read is grammatical and within the nesting limit; where it
/// is a text, no further text stands after it.
pub proof fn lemma_value_grammatical(s: Seq<char>, pos: int, depth: nat)
    requires
        0 <= pos <= s.len(),
    ensures
        spec_value(s, pos, depth) matches Ok((x, end)) ==> {
            &&& grammatical(x)
            &&& fits(x, depth)
            &&& pos < end <= s.len()
            &&& x is Text ==> spec_text(s, skip_spaces(s, pos)) is Ok && spec_text(
                s,
                skip_spaces(s, end),
            ) is Err
        },
    decreases depth, s.len() - pos, 1nat,
{
    lemma_run_end(s, pos, CharClass::Space);
    let start = skip_spaces(s, pos);
    lemma_run_end(s, start, CharClass::Text);
    match spec_text(s, start) {
        Ok((span, end)) => {
            lemma_trimmed(s, start, end);
            let text = slice(s, span);
            assert forall|i: int| 0 <= i < text.len() implies is_text_char(#[trigger] text[i]) by {
                assert(text[i] == s[span.0 + i]);
            }
            if text.len() > 0 {
                assert(text[0] == s[span.0]);
                assert(text.last() == s[span.1 - 1]);
            }
            assert(skip_spaces(s, end) == end);
            assert(run_end(s, end, CharClass::Text) == end);
        },
        Err(_) => {
            lemma_element_grammatical(s, start, depth);
        },
    }
}

/// The element that is read is grammatical and within the nesting limit.
pub proof fn lemma_element_grammatical(s: Seq<char>, pos: int, depth: nat)
    requires
        0 <= pos <= s.len(),
    ensures
        spec_element(s, pos, depth) matches Ok((x, end)) ==> grammatical(x) && fits(x, depth) && x is Element
            && pos < end <= s.len(),
    decreases depth, s.len() - pos, 0nat,
{
    if let Ok((x, end)) = spec_element(s, pos, depth) {
        lemma_opening_tag_grammatical(s, pos);
        crate::laws::lemma_progress_element(s, pos, depth);
        let ((tag, closed), body) = spec_opening_tag(s, pos)->Ok_0;
        if !closed {
            lemma_children_grammatical(s, body, (depth - 1) as nat, Seq::empty());
        }
    }
}

/// The children that are read are grammatical and within the nesting limit, and
/// no text among them follows another directly.
pub proof fn lemma_children_grammatical(s: Seq<char>, pos: int, depth: nat, found: Seq<XmlView>)
    requires
        0 <= pos <= s.len(),
        forall|i: int| 0 <= i < found.len() ==> grammatical(#[trigger] found[i]) && fits(found[i], depth),
        texts_apart(found),
        found.len() > 0 && found.last() is Text ==> spec_text(s, skip_spaces(s, pos)) is Err,
    ensures
        spec_children_from(s, pos, depth, found) matches Ok((all, _)) ==> {
            &&& forall|i: int| 0 <= i < all.len() ==> grammatical(#[trigger] all[i]) && fits(all[i], depth)
            &&& texts_apart(all)
        },
    decreases depth, s.len() - pos, 2nat,
{
    lemma_value_grammatical(s, pos, depth);
    if let Ok((child, end)) = spec_value(s, pos, depth) {
        let grown = found.push(child);
        assert forall|i: int| 0 <= i < grown.len() implies grammatical(#[trigger] grown[i])
            && fits(grown[i], depth) by {
            if i < found.len() {
                assert(grown[i] == found[i]);
            }
        }
        assert(texts_apart(grown)) by {
            assert forall|i: int| 0 <= i < grown.len() - 1 implies !((#[trigger] grown[i]) is Text
                && grown[i + 1] is Text) by {
                if i < found.len() - 1 {
                    assert(grown[i] == found[i] && grown[i + 1] == found[i + 1]);
                } else {
                    assert(grown[i] == found.last());
                    assert(grown[i + 1] == child);
                }
            }
        }
        lemma_children_grammatical(s, end, depth, grown);
    }
}

/// The tree of a document is grammatical and within the nesting limit.
pub proof fn lemma_root_grammatical(s: Seq<char>, depth: nat)
    ensures
        spec_root(s, depth) matches Ok((x, _)) ==> grammatical(x) && fits(x, depth) && x is Element,
{
    let start = skip_spaces(s, crate::grammar::spec_preamble_end(s, 0));
    lemma_preamble_end(s, 0);
    lemma_run_end(s, crate::grammar::spec_preamble_end(s, 0), CharClass::Space);
    lemma_element_grammatical(s, start, depth);
}

/// The preamble ends within the input.
pub proof fn lemma_preamble_end(s: Seq<char>, pos: int)
    requires
        0 <= pos <= s.len(),
    ensures
        pos <= crate::grammar::spec_preamble_end(s, pos) <= s.len(),
    decreases s.len() - pos,
{
    let next = match crate::grammar::spec_xml_meta(s, pos) {
        Ok((_, end)) => end,
        Err(_) => match crate::grammar::spec_doc_type(s, pos) {
            Ok((_, end)) => end,
            Err(_) => pos,
        },
    };
    if pos < next <= s.len() {
        lemma_preamble_end(s, next);
    }
}

} // verus!
