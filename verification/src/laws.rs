//! What holds of the grammar and of the two parsers, whatever the input.

use vstd::prelude::*;
use crate::chars::{CharClass, is_trim_char};
use crate::error::{Failure, ParseError};
use crate::grammar::{
    lemma_attribute_key_value_end, lemma_run_end, skip_spaces, spec_attribute_key_value,
    spec_attribute_list_from, spec_attributes, spec_children_from, spec_closing_tag,
    spec_element, spec_key, spec_opening_tag, spec_root, spec_tag_end, spec_text, spec_value,
    trim_end, trim_start, trimmed,
};
use crate::model::{
    Entry, XmlView, distinct_keys, has_key, lemma_put, put_all, value_of,
};
use crate::parse::document_result;
use crate::parsed::{lemma_root_grammatical, lemma_tidy_is_printable, tidy};
use crate::printable::{fits, printable};
use crate::roundtrip::lemma_read_rendered;
use crate::serialize::render;
use crate::types::{Xml, XmlRef};

verus! {

/// The two parsers accept the same documents. Where they accept, they build the
/// same tree and leave the same rest unread; where they reject, they report the
/// same failure.
pub proof fn lemma_variants_agree(
    input: Seq<char>,
    depth: nat,
    owned: Result<(&str, Xml), ParseError>,
    borrowed: Result<(&str, XmlRef), ParseError>,
)
    requires
        document_result(input, owned, spec_root(input, depth)),
        document_result(input, borrowed, spec_root(input, depth)),
    ensures
        owned is Ok <==> borrowed is Ok,
        owned is Ok ==> owned->Ok_0.1@ == borrowed->Ok_0.1@ && owned->Ok_0.0@
            == borrowed->Ok_0.0@,
        owned is Err ==> owned->Err_0 == borrowed->Err_0,
{
}

/// Putting pairs in turn leaves no name twice.
pub proof fn lemma_put_all_distinct(pairs: Seq<Entry>)
    ensures
        distinct_keys(put_all(pairs)),
    decreases pairs.len(),
{
    if pairs.len() > 0 {
        lemma_put_all_distinct(pairs.drop_last());
        lemma_put(put_all(pairs.drop_last()), pairs.last().0, pairs.last().1);
    }
}

/// A name has a value exactly if some pair gives it one.
pub proof fn lemma_put_all_keys(pairs: Seq<Entry>, key: Seq<char>)
    ensures
        has_key(put_all(pairs), key) <==> exists|i: int|
            0 <= i < pairs.len() && (#[trigger] pairs[i]).0 == key,
    decreases pairs.len(),
{
    if pairs.len() > 0 {
        let front = pairs.drop_last();
        lemma_put_all_keys(front, key);
        lemma_put_all_distinct(front);
        lemma_put(put_all(front), pairs.last().0, pairs.last().1);
        if has_key(put_all(pairs), key) {
            if pairs.last().0 == key {
                assert(pairs[pairs.len() - 1].0 == key);
            } else {
                let i = choose|i: int| 0 <= i < front.len() && (#[trigger] front[i]).0 == key;
                assert(pairs[i].0 == key);
            }
        }
        if exists|i: int| 0 <= i < pairs.len() && (#[trigger] pairs[i]).0 == key {
            let i = choose|i: int| 0 <= i < pairs.len() && (#[trigger] pairs[i]).0 == key;
            if i < front.len() {
                assert(front[i].0 == key);
            }
        }
    }
}

/// Where a name is given more than once, the value of its last occurrence stands.
pub proof fn lemma_last_occurrence_wins(pairs: Seq<Entry>, i: int)
    requires
        0 <= i < pairs.len(),
        forall|j: int| i < j < pairs.len() ==> (#[trigger] pairs[j]).0 != pairs[i].0,
    ensures
        value_of(put_all(pairs), pairs[i].0) == Some(pairs[i].1),
    decreases pairs.len(),
{
    let front = pairs.drop_last();
    lemma_put_all_distinct(front);
    lemma_put(put_all(front), pairs.last().0, pairs.last().1);
    if i < pairs.len() - 1 {
        assert(pairs[pairs.len() - 1].0 != pairs[i].0);
        assert forall|j: int| i < j < front.len() implies (#[trigger] front[j]).0 != front[i].0 by {
            assert(pairs[j].0 != pairs[i].0);
        }
        lemma_last_occurrence_wins(front, i);
    }
}

/// The attributes of a parsed tag have distinct names.
pub proof fn lemma_attributes_distinct(s: Seq<char>, pos: int)
    ensures
        spec_attributes(s, pos) matches Ok((entries, _)) ==> distinct_keys(entries),
{
    if let Ok((pairs, _)) = spec_attribute_list_from(s, pos, true, Seq::empty()) {
        lemma_put_all_distinct(pairs);
    }
}

/// An element has no child sequence exactly if its opening tag closed itself;
/// a pair of opening and closing tag always has one, be it empty.
pub proof fn lemma_self_closing_has_no_children(s: Seq<char>, pos: int, depth: nat)
    ensures
        match spec_element(s, pos, depth) {
            Ok((XmlView::Element(tag, children), end)) => {
                &&& spec_opening_tag(s, pos) matches Ok(((opened, closed), tag_end))
                &&& opened == tag
                &&& children is None <==> closed
                &&& closed ==> end == tag_end
            },
            Ok((XmlView::Text(_), _)) => false,
            Err(_) => true,
        },
{
}

/// Once the opening tag of an element is read, the element is read or the
/// failure is fatal: a nesting beyond the limit, a fatal failure in a child, or
/// a closing tag that is missing or of another name.
pub proof fn lemma_element_committed(s: Seq<char>, pos: int, depth: nat)
    ensures
        spec_opening_tag(s, pos) is Ok ==> (spec_element(s, pos, depth) matches Err(f)
            ==> f.fatal),
        spec_opening_tag(s, pos) matches Err(f) ==> spec_element(s, pos, depth) == Err::<
            (XmlView, int),
            Failure,
        >(f),
{
    if let Ok(((_, closed), body)) = spec_opening_tag(s, pos) {
        if depth > 0 && !closed {
            lemma_children_failure_is_fatal(s, body, (depth - 1) as nat, Seq::empty());
        }
    }
}

/// A sequence of children fails only fatally.
pub proof fn lemma_children_failure_is_fatal(
    s: Seq<char>,
    pos: int,
    depth: nat,
    found: Seq<XmlView>,
)
    ensures
        spec_children_from(s, pos, depth, found) matches Err(f) ==> f.fatal,
    decreases s.len() - pos,
{
    if let Ok((child, end)) = spec_value(s, pos, depth) {
        if pos < end <= s.len() {
            lemma_children_failure_is_fatal(s, end, depth, found.push(child));
        }
    }
}

/// An attribute fails recoverably only where no name stands; once the name is
/// read, the `=` and the value are owed.
pub proof fn lemma_attribute_committed(s: Seq<char>, pos: int)
    ensures
        spec_attribute_key_value(s, pos) matches Err(f) ==> (f.fatal <==> spec_key(
            s,
            skip_spaces(s, pos),
        ) is Ok),
{
}

/// A document fails only fatally.
pub proof fn lemma_root_failure_is_fatal(s: Seq<char>, depth: nat)
    ensures
        spec_root(s, depth) matches Err(f) ==> f.fatal,
{
}

/// The name in the closing tag of a parsed element is the name in its opening
/// tag, character for character.
pub proof fn lemma_closing_name_matches(s: Seq<char>, pos: int, depth: nat)
    ensures
        spec_element(s, pos, depth) matches Ok((XmlView::Element(tag, Some(_)), end)) ==> {
            &&& end - 1 - tag.name.len() >= 2
            &&& s.subrange(end - 1 - tag.name.len(), end - 1) == tag.name
            &&& s[end - 1] == '>'
            &&& s[end - 3 - tag.name.len()] == '<'
            &&& s[end - 2 - tag.name.len()] == '/'
        },
{
    if let Ok((XmlView::Element(tag, Some(_)), end)) = spec_element(s, pos, depth) {
        let body = spec_opening_tag(s, pos)->Ok_0.1;
        let children_end = spec_children_from(s, body, (depth - 1) as nat, Seq::empty())->Ok_0.1;
        let at = skip_spaces(s, children_end);
        assert(spec_closing_tag(s, at, tag.name) == Ok::<int, Failure>(end));
        let mark = s.subrange(at, at + 2);
        assert(mark[0] == s[at] && mark[1] == s[at + 1]);
    }
}

/// Trimming removes white space only, and leaves none at either end.
pub proof fn lemma_trimmed(s: Seq<char>, lo: int, hi: int)
    requires
        0 <= lo <= hi <= s.len(),
    ensures
        ({
            let (a, b) = trimmed(s, lo, hi);
            &&& lo <= a <= b <= hi
            &&& forall|i: int| lo <= i < a ==> is_trim_char(#[trigger] s[i])
            &&& forall|i: int| b <= i < hi ==> is_trim_char(#[trigger] s[i])
            &&& a < b ==> !is_trim_char(s[a]) && !is_trim_char(s[b - 1])
        }),
{
    lemma_trim_start(s, lo, hi);
    lemma_trim_end(s, trim_start(s, lo, hi), hi);
}

/// See [`lemma_trimmed`]: the left end.
pub proof fn lemma_trim_start(s: Seq<char>, lo: int, hi: int)
    requires
        0 <= lo <= hi <= s.len(),
    ensures
        lo <= trim_start(s, lo, hi) <= hi,
        forall|i: int| lo <= i < trim_start(s, lo, hi) ==> is_trim_char(#[trigger] s[i]),
        trim_start(s, lo, hi) < hi ==> !is_trim_char(s[trim_start(s, lo, hi)]),
    decreases hi - lo,
{
    if lo < hi && is_trim_char(s[lo]) {
        lemma_trim_start(s, lo + 1, hi);
    }
}

/// See [`lemma_trimmed`]: the right end.
pub proof fn lemma_trim_end(s: Seq<char>, lo: int, hi: int)
    requires
        0 <= lo <= hi <= s.len(),
    ensures
        lo <= trim_end(s, lo, hi) <= hi,
        forall|i: int| trim_end(s, lo, hi) <= i < hi ==> is_trim_char(#[trigger] s[i]),
        lo < trim_end(s, lo, hi) ==> !is_trim_char(s[trim_end(s, lo, hi) - 1]),
    decreases hi - lo,
{
    if lo < hi && is_trim_char(s[hi - 1]) {
        lemma_trim_end(s, lo, hi - 1);
    }
}

/// A child consumes at least one character and ends within the input, and so
/// does an element.
pub proof fn lemma_progress(s: Seq<char>, pos: int, depth: nat)
    requires
        0 <= pos <= s.len(),
    ensures
        spec_element(s, pos, depth) matches Ok((_, end)) ==> pos < end <= s.len(),
        spec_value(s, pos, depth) matches Ok((_, end)) ==> pos < end <= s.len(),
    decreases depth, s.len() - pos,
{
    lemma_run_end(s, pos, CharClass::Space);
    let start = skip_spaces(s, pos);
    lemma_run_end(s, start, CharClass::Text);
    if spec_text(s, start) is Err {
        lemma_progress_element(s, start, depth);
    }
    lemma_progress_element(s, pos, depth);
}

/// See [`lemma_progress`]: the element.
pub proof fn lemma_progress_element(s: Seq<char>, pos: int, depth: nat)
    requires
        0 <= pos <= s.len(),
    ensures
        spec_element(s, pos, depth) matches Ok((_, end)) ==> pos < end <= s.len(),
    decreases depth, s.len() - pos,
{
    if let Ok(((tag, closed), body)) = spec_opening_tag(s, pos) {
        lemma_opening_tag_end(s, pos);
        if depth > 0 && !closed {
            lemma_children_end(s, body, (depth - 1) as nat, Seq::empty());
            if let Ok((_, children_end)) = spec_children_from(
                s,
                body,
                (depth - 1) as nat,
                Seq::empty(),
            ) {
                lemma_run_end(s, children_end, CharClass::Space);
            }
        }
    }
}

/// An opening tag consumes at least `<`, a name and `>`, and ends within the input.
pub proof fn lemma_opening_tag_end(s: Seq<char>, pos: int)
    requires
        0 <= pos <= s.len(),
    ensures
        spec_opening_tag(s, pos) matches Ok((_, end)) ==> pos + 2 < end <= s.len(),
{
    if let Ok((_, end)) = spec_opening_tag(s, pos) {
        lemma_run_end(s, pos + 1, CharClass::Key);
        let name_end = crate::grammar::run_end(s, pos + 1, CharClass::Key);
        lemma_run_end(s, name_end, CharClass::Space);
        let start = skip_spaces(s, name_end);
        lemma_attribute_list_end(s, start, true, Seq::empty());
        let attributes_end = spec_attribute_list_from(s, start, true, Seq::empty())->Ok_0.1;
        lemma_run_end(s, attributes_end, CharClass::Space);
        assert(spec_tag_end(s, skip_spaces(s, attributes_end)) is Ok);
    }
}

/// An attribute list ends at or after its start, within the input.
pub proof fn lemma_attribute_list_end(s: Seq<char>, pos: int, first: bool, found: Seq<Entry>)
    requires
        0 <= pos <= s.len(),
    ensures
        spec_attribute_list_from(s, pos, first, found) matches Ok((_, end)) ==> pos <= end
            <= s.len(),
    decreases s.len() - pos,
{
    if first || (pos < s.len() && crate::chars::is_space(s[pos])) {
        lemma_attribute_key_value_end(s, pos);
        if let Ok(((key, value), end)) = crate::grammar::spec_attribute_key_value(s, pos) {
            lemma_attribute_list_end(
                s,
                end,
                false,
                found.push((crate::grammar::slice(s, key), crate::grammar::slice(s, value))),
            );
        }
    }
}

/// A sequence of children ends at or after its start, within the input, and
/// holds what was found before followed by the children read.
pub proof fn lemma_children_end(s: Seq<char>, pos: int, depth: nat, found: Seq<XmlView>)
    requires
        0 <= pos <= s.len(),
    ensures
        spec_children_from(s, pos, depth, found) matches Ok((children, end)) ==> pos <= end
            <= s.len() && found.is_prefix_of(children),
    decreases depth, s.len() - pos,
{
    if let Ok((child, end)) = spec_value(s, pos, depth) {
        if pos < end <= s.len() {
            lemma_children_end(s, end, depth, found.push(child));
            if let Ok((children, _)) = spec_children_from(s, end, depth, found.push(child)) {
                assert(found =~= found.push(child).subrange(0, found.len() as int));
            }
        }
    }
}

/// Serializing a printable tree and parsing the text gives the tree back: the
/// same names, the same attributes in the same order, the same children in the
/// same order, and nothing left unread.
pub proof fn lemma_round_trip(x: XmlView, depth: nat)
    requires
        printable(x),
        x is Element,
        fits(x, depth),
    ensures
        spec_root(render(x), depth) == Ok::<(XmlView, int), Failure>((x, render(x).len() as int)),
{
    lemma_read_rendered(x, depth);
}

/// Parsing a document, serializing its tree and parsing the text again gives
/// the same tree, provided the tree is tidy: its texts are on one line and not
/// empty, its attribute values are on one line and do not end in a backslash
/// that would take the closing quote for its own, and its names hold no white
/// space.
pub proof fn lemma_document_round_trip(s: Seq<char>, depth: nat)
    requires
        spec_root(s, depth) is Ok,
        tidy(spec_root(s, depth)->Ok_0.0),
    ensures
        ({
            let x = spec_root(s, depth)->Ok_0.0;
            spec_root(render(x), depth) == Ok::<(XmlView, int), Failure>(
                (x, render(x).len() as int),
            )
        }),
{
    let x = spec_root(s, depth)->Ok_0.0;
    lemma_root_grammatical(s, depth);
    lemma_tidy_is_printable(x);
    lemma_read_rendered(x, depth);
}

} // verus!
