//! Reading back what the serializer wrote: the parser, applied to the text of a
//! printable tree, returns that tree.

use vstd::prelude::*;
use crate::chars::{CharClass, is_key_char, is_space};
use crate::error::{ErrorKind, Failure, recoverable};
use crate::grammar::{
    doc_type_keyword, run_end, skip_spaces, slice, spec_attribute_key_value,
    spec_attribute_list_from, spec_attributes, spec_children_from,
    spec_closing_tag, spec_doc_type, spec_element, spec_key, spec_opening_tag,
    spec_preamble_end, spec_root, spec_tag_end, spec_text, spec_value, spec_xml_meta,
    starts_with, trimmed, value_end,
};
use crate::layout::lemma_run_exact;
use crate::model::{
    Entry, TagView, XmlView, distinct_keys, lemma_key_index_is, put, put_all,
};
use crate::printable::{
    attributes_tail, closing_line, emit, emit_children, fits, lemma_emit_first,
    lemma_render_emit, lemma_trim_end_is, lemma_trim_start_is, pad, plain_name,
    plain_tag, plain_text, plain_value, printable, tag_close, tag_line,
};
use crate::serialize::{attribute_text, render};

verus! {

/// Whether `text` stands in `s` at `pos`, character by character.
pub open spec fn has(s: Seq<char>, pos: int, text: Seq<char>) -> bool {
    &&& 0 <= pos
    &&& pos + text.len() <= s.len()
    &&& forall|i: int| 0 <= i < text.len() ==> s[pos + i] == #[trigger] text[i]
}

/// A text stands at a position exactly if its two halves stand there one after the other.
pub proof fn lemma_has_split(s: Seq<char>, pos: int, a: Seq<char>, b: Seq<char>)
    ensures
        has(s, pos, a + b) <==> has(s, pos, a) && has(s, pos + a.len(), b),
{
    let whole = a + b;
    if has(s, pos, whole) {
        assert forall|i: int| 0 <= i < a.len() implies s[pos + i] == #[trigger] a[i] by {
            assert(whole[i] == a[i]);
        }
        assert forall|i: int| 0 <= i < b.len() implies s[pos + a.len() + i] == #[trigger] b[i] by {
            assert(whole[a.len() + i] == b[i]);
        }
    }
    if has(s, pos, a) && has(s, pos + a.len(), b) {
        assert forall|i: int| 0 <= i < whole.len() implies s[pos + i] == #[trigger] whole[i] by {
            if i < a.len() {
                assert(whole[i] == a[i]);
            } else {
                assert(whole[i] == b[i - a.len()]);
            }
        }
    }
}

/// A text that stands at a position is the part of the input there.
pub proof fn lemma_has_slice(s: Seq<char>, pos: int, text: Seq<char>)
    requires
        has(s, pos, text),
    ensures
        s.subrange(pos, pos + text.len()) == text,
        starts_with(s, pos, text),
{
    assert(s.subrange(pos, pos + text.len()) =~= text);
}

/// White space up to a character that is none is passed over.
pub proof fn lemma_skip_gap(s: Seq<char>, from: int, to: int)
    requires
        0 <= from <= to <= s.len(),
        forall|i: int| from <= i < to ==> is_space(#[trigger] s[i]),
        to < s.len() ==> !is_space(s[to]),
    ensures
        skip_spaces(s, from) == to,
{
    lemma_run_exact(s, from, to - from, CharClass::Space);
}

/// A plain name that is followed by a character that is not of a name is read whole.
pub proof fn lemma_read_name(s: Seq<char>, pos: int, name: Seq<char>)
    requires
        plain_name(name),
        has(s, pos, name),
        pos + name.len() < s.len() ==> !is_key_char(s[pos + name.len()]),
    ensures
        spec_key(s, pos) == Ok::<int, Failure>(pos + name.len()),
        s.subrange(pos, pos + name.len()) == name,
{
    assert forall|i: int| pos <= i < pos + name.len() implies CharClass::Key.holds(
        #[trigger] s[i],
    ) by {
        assert(s[pos + (i - pos)] == name[i - pos]);
    }
    lemma_run_exact(s, pos, name.len() as int, CharClass::Key);
    lemma_has_slice(s, pos, name);
}

/// The body of a plain value that is followed by a double quote ends at that quote.
pub proof fn lemma_read_value_body(s: Seq<char>, pos: int, value: Seq<char>, at: int)
    requires
        has(s, pos, value.push('"')),
        0 <= at <= value.len(),
        value_end(value.push('"'), at) == value.len(),
    ensures
        value_end(s, pos + at) == pos + value.len(),
    decreases value.len() - at,
{
    let quoted = value.push('"');
    assert(s[pos + at] == quoted[at]);
    if at < value.len() {
        assert(s[pos + (at + 1)] == quoted[at + 1]);
        if crate::chars::is_quote(quoted[at]) {
            assert(value_end(quoted, at) == at);
        } else if quoted[at] == '\\' && crate::chars::is_escapable(quoted[at + 1]) {
            assert(value_end(quoted, at) == value_end(quoted, at + 2));
            if at + 2 <= value.len() {
                lemma_read_value_body(s, pos, value, at + 2);
                assert(value_end(s, pos + at) == value_end(s, pos + at + 2));
            } else {
                assert(value_end(quoted, at + 2) == at + 2);
            }
        } else {
            assert(value_end(quoted, at) == value_end(quoted, at + 1));
            lemma_read_value_body(s, pos, value, at + 1);
            assert(value_end(s, pos + at) == value_end(s, pos + at + 1));
        }
    } else {
        assert(crate::chars::is_quote(s[pos + at]));
    }
}

/// A plain attribute is read as it was written, from its name or from white
/// space before its name.
pub proof fn lemma_read_attribute(s: Seq<char>, from: int, pos: int, entry: Entry)
    requires
        plain_name(entry.0),
        plain_value(entry.1),
        has(s, pos, attribute_text(entry)),
        0 <= from <= pos,
        forall|i: int| from <= i < pos ==> is_space(#[trigger] s[i]),
    ensures
        spec_attribute_key_value(s, from) matches Ok(((key, value), end)) && slice(s, key)
            == entry.0 && slice(s, value) == entry.1 && end == pos + attribute_text(entry).len(),
{
    let (name, value) = entry;
    let text = attribute_text(entry);
    let eq = pos + name.len();
    let body = eq + 2;
    assert(text =~= name + (seq!['=', '"'] + value.push('"')));
    lemma_has_split(s, pos, name, seq!['=', '"'] + value.push('"'));
    lemma_has_split(s, eq, seq!['=', '"'], value.push('"'));
    assert(s[eq + 0] == seq!['=', '"'][0]);
    assert(s[eq + 1] == seq!['=', '"'][1]);
    assert(s[pos + 0] == name[0]);
    lemma_skip_gap(s, from, pos);
    lemma_read_name(s, pos, name);
    lemma_skip_gap(s, eq, eq);
    lemma_skip_gap(s, eq + 1, eq + 1);
    lemma_read_value_body(s, body, value, 0);
    assert(s[body + value.len()] == value.push('"')[value.len() as int]);
    lemma_has_slice(s, body, value.push('"'));
    assert(s.subrange(body, body + value.len()) =~= value);
}

/// Putting entries with distinct names in turn gives those entries.
pub proof fn lemma_put_all_same(entries: Seq<Entry>)
    requires
        distinct_keys(entries),
    ensures
        put_all(entries) == entries,
    decreases entries.len(),
{
    if entries.len() > 0 {
        let front = entries.drop_last();
        let last = entries.last();
        assert(distinct_keys(front)) by {
            assert forall|i: int, j: int| 0 <= i < j < front.len() implies (#[trigger] front[i]).0
                != (#[trigger] front[j]).0 by {
                assert(entries[i].0 != entries[j].0);
            }
        }
        lemma_put_all_same(front);
        assert forall|j: int| 0 <= j < front.len() implies (#[trigger] front[j]).0 != last.0 by {
            assert(entries[j].0 != entries[entries.len() - 1].0);
        }
        lemma_key_index_is(front, last.0, front.len() as int);
        assert(put(front, last.0, last.1) =~= entries);
    } else {
        assert(put_all(entries) =~= entries);
    }
}

/// The attributes from `from` on, each after a space and the last followed by
/// the end of the tag, are read as they were written.
pub proof fn lemma_read_attributes(
    s: Seq<char>,
    pos: int,
    entries: Seq<Entry>,
    from: int,
    found: Seq<Entry>,
    closed: bool,
)
    requires
        forall|i: int|
            0 <= i < entries.len() ==> plain_name((#[trigger] entries[i]).0) && plain_value(
                entries[i].1,
            ),
        0 <= from <= entries.len(),
        has(s, pos, attributes_tail(entries, from) + tag_close(closed)),
    ensures
        spec_attribute_list_from(s, pos, false, found) == Ok::<(Seq<Entry>, int), Failure>(
            (
                found + entries.subrange(from, entries.len() as int),
                pos + attributes_tail(entries, from).len(),
            ),
        ),
    decreases entries.len() - from,
{
    let close = tag_close(closed);
    if from < entries.len() {
        let entry = entries[from];
        let text = attribute_text(entry);
        let later = attributes_tail(entries, from + 1) + close;
        assert(attributes_tail(entries, from) + close =~= seq![' '] + (text + later));
        lemma_has_split(s, pos, seq![' '], text + later);
        lemma_has_split(s, pos + 1, text, later);
        assert(s[pos + 0] == seq![' '][0]);
        lemma_read_attribute(s, pos, pos + 1, entry);
        let end = pos + 1 + text.len();
        lemma_read_attributes(s, end, entries, from + 1, found.push(entry), closed);
        assert(found.push(entry) + entries.subrange(from + 1, entries.len() as int) =~= found
            + entries.subrange(from, entries.len() as int));
    } else {
        assert(attributes_tail(entries, from) + close =~= close);
        assert(s[pos + 0] == close[0]);
        assert(found + entries.subrange(from, entries.len() as int) =~= found);
    }
}

/// The attributes of a plain tag are read as they were written.
pub proof fn lemma_read_attribute_list(s: Seq<char>, pos: int, entries: Seq<Entry>, closed: bool)
    requires
        forall|i: int|
            0 <= i < entries.len() ==> plain_name((#[trigger] entries[i]).0) && plain_value(
                entries[i].1,
            ),
        distinct_keys(entries),
        has(s, pos, attributes_tail(entries, 0) + tag_close(closed)),
    ensures
        spec_attributes(s, skip_spaces(s, pos)) == Ok::<(Seq<Entry>, int), Failure>(
            (entries, pos + attributes_tail(entries, 0).len()),
        ),
{
    let close = tag_close(closed);
    lemma_put_all_same(entries);
    if entries.len() == 0 {
        assert(attributes_tail(entries, 0) + close =~= close);
        assert(s[pos + 0] == close[0]);
        lemma_skip_gap(s, pos, pos);
        assert(run_end(s, pos, CharClass::Key) == pos);
        assert(spec_key(s, pos) is Err);
        assert(spec_attribute_key_value(s, pos) is Err);
        assert(put_all(Seq::<Entry>::empty()) =~= entries);
    } else {
        let entry = entries[0];
        let text = attribute_text(entry);
        let later = attributes_tail(entries, 1) + close;
        assert(attributes_tail(entries, 0) + close =~= seq![' '] + (text + later));
        lemma_has_split(s, pos, seq![' '], text + later);
        lemma_has_split(s, pos + 1, text, later);
        assert(s[pos + 0] == seq![' '][0]);
        assert(s[pos + 1 + 0] == text[0]);
        assert(text[0] == entry.0[0]);
        lemma_skip_gap(s, pos, pos + 1);
        lemma_read_attribute(s, pos + 1, pos + 1, entry);
        let end = pos + 1 + text.len();
        let first: Seq<Entry> = Seq::empty().push(entry);
        lemma_read_attributes(s, end, entries, 1, first, closed);
        assert(first + entries.subrange(1, entries.len() as int) =~= entries);
    }
}

/// A plain tag is read as it was written.
pub proof fn lemma_read_opening_tag(s: Seq<char>, pos: int, tag: TagView, closed: bool)
    requires
        plain_tag(tag),
        has(s, pos, tag_line(tag, closed)),
    ensures
        spec_opening_tag(s, pos) == Ok::<((TagView, bool), int), Failure>(
            ((tag, closed), pos + tag_line(tag, closed).len()),
        ),
{
    let name = tag.name;
    let entries = tag.attributes;
    let close = tag_close(closed);
    let tail = attributes_tail(entries, 0) + close;
    assert(tag_line(tag, closed) =~= seq!['<'] + (name + tail));
    lemma_has_split(s, pos, seq!['<'], name + tail);
    lemma_has_split(s, pos + 1, name, tail);
    assert(s[pos + 0] == seq!['<'][0]);
    let name_end = pos + 1 + name.len();
    assert(s[name_end + 0] == tail[0]);
    assert(!is_key_char(tail[0])) by {
        if entries.len() > 0 {
            assert(tail[0] == ' ');
        } else {
            assert(attributes_tail(entries, 0) =~= Seq::<char>::empty());
            assert(tail[0] == close[0]);
        }
    }
    lemma_read_name(s, pos + 1, name);
    lemma_read_attribute_list(s, name_end, entries, closed);
    let end = name_end + attributes_tail(entries, 0).len();
    lemma_has_split(s, name_end, attributes_tail(entries, 0), close);
    assert(s[end + 0] == close[0]);
    lemma_skip_gap(s, end, end);
    if closed {
        lemma_has_slice(s, end, close);
    } else {
        if starts_with(s, end, seq!['/', '>']) {
            assert(s.subrange(end, end + 2)[0] == '/');
        }
    }
    assert(spec_tag_end(s, end) == Ok::<(bool, int), Failure>((closed, end + close.len())));
    let read = TagView { name: s.subrange(pos + 1, name_end), attributes: entries };
    assert(read == tag);
}

/// A closing tag is read as it was written.
pub proof fn lemma_read_closing_tag(s: Seq<char>, pos: int, name: Seq<char>)
    requires
        has(s, pos, closing_line(name)),
    ensures
        spec_closing_tag(s, pos, name) == Ok::<int, Failure>(pos + name.len() + 3),
{
    assert(closing_line(name) =~= seq!['<', '/'] + (name + seq!['>']));
    lemma_has_split(s, pos, seq!['<', '/'], name + seq!['>']);
    lemma_has_split(s, pos + 2, name, seq!['>']);
    lemma_has_slice(s, pos, seq!['<', '/']);
    lemma_has_slice(s, pos + 2, name);
    assert(s[pos + 2 + name.len() + 0] == seq!['>'][0]);
}

/// The line feed and the indentation that stand before a line of the level `depth`.
pub open spec fn gap(depth: nat) -> Seq<char> {
    seq!['\n'] + pad(depth)
}

/// A gap is white space.
pub proof fn lemma_gap(s: Seq<char>, pos: int, depth: nat)
    requires
        has(s, pos, gap(depth)),
    ensures
        forall|i: int| pos <= i < pos + gap(depth).len() ==> is_space(#[trigger] s[i]),
        gap(depth).len() == 1 + pad(depth).len(),
{
    assert forall|i: int| pos <= i < pos + gap(depth).len() implies is_space(#[trigger] s[i]) by {
        assert(s[pos + (i - pos)] == gap(depth)[i - pos]);
    }
}

/// Where a closing tag stands after white space, no child is read, and the
/// failure to read one is recoverable.
pub proof fn lemma_no_child(s: Seq<char>, from: int, pos: int, depth: nat)
    requires
        0 <= from <= pos,
        forall|i: int| from <= i < pos ==> is_space(#[trigger] s[i]),
        has(s, pos, seq!['<', '/']),
    ensures
        spec_value(s, from, depth) matches Err(f) && !f.fatal,
        skip_spaces(s, from) == pos,
{
    assert(s[pos + 0] == seq!['<', '/'][0]);
    assert(s[pos + 1] == seq!['<', '/'][1]);
    lemma_skip_gap(s, from, pos);
    assert(run_end(s, pos, CharClass::Text) == pos);
    assert(run_end(s, pos + 1, CharClass::Key) == pos + 1);
    assert(spec_key(s, pos + 1) is Err);
    assert(spec_opening_tag(s, pos) == Err::<((TagView, bool), int), Failure>(
        recoverable(pos + 1, ErrorKind::Key),
    ));
}

/// A plain text that is followed by white space and `<` is read as a child.
pub proof fn lemma_read_text(
    s: Seq<char>,
    from: int,
    pos: int,
    text: Seq<char>,
    end: int,
    depth: nat,
)
    requires
        plain_text(text),
        0 <= from <= pos,
        forall|i: int| from <= i < pos ==> is_space(#[trigger] s[i]),
        has(s, pos, text),
        pos + text.len() <= end < s.len(),
        forall|i: int| pos + text.len() <= i < end ==> is_space(#[trigger] s[i]),
        s[end] == '<',
    ensures
        spec_value(s, from, depth) == Ok::<(XmlView, int), Failure>((XmlView::Text(text), end)),
{
    let stop = pos + text.len();
    assert(s[pos + 0] == text[0]);
    assert(s[pos + (text.len() - 1)] == text[text.len() - 1]);
    lemma_skip_gap(s, from, pos);
    assert forall|i: int| pos <= i < end implies CharClass::Text.holds(#[trigger] s[i]) by {
        if i < stop {
            assert(s[pos + (i - pos)] == text[i - pos]);
        }
    }
    lemma_run_exact(s, pos, end - pos, CharClass::Text);
    lemma_trim_start_is(s, pos, end, pos);
    lemma_trim_end_is(s, pos, end, stop);
    lemma_has_slice(s, pos, text);
    assert(trimmed(s, pos, end) == (pos, stop));
    assert(spec_text(s, pos) == Ok::<((int, int), int), Failure>(((pos, stop), end)));
}

/// An element that stands after white space is read as a child.
pub proof fn lemma_read_element_child(
    s: Seq<char>,
    from: int,
    pos: int,
    depth: nat,
)
    requires
        0 <= from <= pos < s.len(),
        forall|i: int| from <= i < pos ==> is_space(#[trigger] s[i]),
        s[pos] == '<',
    ensures
        spec_value(s, from, depth) == spec_element(s, pos, depth),
{
    lemma_skip_gap(s, from, pos);
    assert(run_end(s, pos, CharClass::Text) == pos);
}

/// The children from `from` on, written at the level `depth` and followed by the
/// closing tag of their parent, are read as they were written; the white space
/// after the last of them leads to the closing tag.
pub proof fn lemma_read_children(
    children: Seq<XmlView>,
    depth: nat,
    from: int,
    outer: nat,
    name: Seq<char>,
    s: Seq<char>,
    at: int,
    pos: int,
    fuel: nat,
    found: Seq<XmlView>,
)
    requires
        forall|i: int| 0 <= i < children.len() ==> printable(#[trigger] children[i]),
        forall|i: int|
            0 <= i < children.len() - 1 ==> !((#[trigger] children[i]) is Text && children[i
                + 1] is Text),
        forall|i: int| 0 <= i < children.len() ==> fits(#[trigger] children[i], fuel),
        0 <= from <= children.len(),
        has(s, pos, emit_children(children, depth, from) + (gap(outer) + closing_line(name))),
        0 <= at,
        at <= pos + 1 + pad(if from < children.len() { depth } else { outer }).len(),
        forall|i: int| at <= i < pos ==> is_space(#[trigger] s[i]),
    ensures
        spec_children_from(s, at, fuel, found) matches Ok((all, end)) && all == found
            + children.subrange(from, children.len() as int) && skip_spaces(s, end) == pos
            + emit_children(children, depth, from).len() + gap(outer).len(),
    decreases children, children.len() - from,
{
    let close = gap(outer) + closing_line(name);
    if from < children.len() {
        let child = children[from];
        let written = emit(child, depth);
        let later = emit_children(children, depth, from + 1) + close;
        assert(emit_children(children, depth, from) + close =~= gap(depth) + (written + later));
        lemma_has_split(s, pos, gap(depth), written + later);
        lemma_gap(s, pos, depth);
        let start = pos + gap(depth).len();
        lemma_has_split(s, start, written, later);
        lemma_emit_first(child, depth);
        let next = start + written.len();
        assert(s[start + 0] == written[0]);
        let next_depth = if from + 1 < children.len() {
            depth
        } else {
            outer
        };
        match child {
            XmlView::Text(text) => {
                assert(later =~= gap(next_depth) + later.subrange(
                    gap(next_depth).len() as int,
                    later.len() as int,
                )) by {
                    if from + 1 < children.len() {
                        assert(emit_children(children, depth, from + 1) =~= gap(depth) + (emit(
                            children[from + 1],
                            depth,
                        ) + emit_children(children, depth, from + 2)));
                    } else {
                        assert(emit_children(children, depth, from + 1) =~= Seq::<char>::empty());
                    }
                }
                let token = later.subrange(gap(next_depth).len() as int, later.len() as int);
                lemma_has_split(s, next, gap(next_depth), token);
                lemma_gap(s, next, next_depth);
                let end = next + gap(next_depth).len();
                assert(token.len() > 0 && token[0] == '<') by {
                    if from + 1 < children.len() {
                        lemma_emit_first(children[from + 1], depth);
                        assert(!(children[from] is Text && children[from + 1] is Text));
                        assert(token[0] == emit(children[from + 1], depth)[0]);
                    } else {
                        assert(token[0] == closing_line(name)[0]);
                    }
                }
                assert(s[end + 0] == token[0]);
                lemma_read_text(s, at, start, text, end, fuel);
                lemma_read_children(
                    children,
                    depth,
                    from + 1,
                    outer,
                    name,
                    s,
                    end,
                    next,
                    fuel,
                    found.push(child),
                );
            },
            XmlView::Element(_, _) => {
                lemma_read_element_child(s, at, start, fuel);
                lemma_read_element(child, depth, s, start, fuel);
                lemma_read_children(
                    children,
                    depth,
                    from + 1,
                    outer,
                    name,
                    s,
                    next,
                    next,
                    fuel,
                    found.push(child),
                );
            },
        }
        assert(found.push(child) + children.subrange(from + 1, children.len() as int) =~= found
            + children.subrange(from, children.len() as int));
    } else {
        assert(emit_children(children, depth, from) + close =~= gap(outer) + closing_line(name));
        lemma_has_split(s, pos, gap(outer), closing_line(name));
        lemma_gap(s, pos, outer);
        let start = pos + gap(outer).len();
        assert(closing_line(name) =~= seq!['<', '/'] + (name + seq!['>']));
        lemma_has_split(s, start, seq!['<', '/'], name + seq!['>']);
        lemma_no_child(s, at, start, fuel);
        assert(found + children.subrange(from, children.len() as int) =~= found);
    }
}

/// An element, as it is written at the level `depth`, is read as it was written.
pub proof fn lemma_read_element(x: XmlView, depth: nat, s: Seq<char>, pos: int, fuel: nat)
    requires
        printable(x),
        x is Element,
        fits(x, fuel),
        has(s, pos, emit(x, depth)),
    ensures
        spec_element(s, pos, fuel) == Ok::<(XmlView, int), Failure>(
            (x, pos + emit(x, depth).len()),
        ),
    decreases x, 0nat,
{
    match x {
        XmlView::Element(tag, None) => {
            lemma_read_opening_tag(s, pos, tag, true);
        },
        XmlView::Element(tag, Some(children)) => {
            let open = tag_line(tag, false);
            let close = gap(depth) + closing_line(tag.name);
            let body = pos + open.len();
            let inner = (fuel - 1) as nat;
            if children.len() == 0 {
                assert(emit(x, depth) =~= open + (gap(depth) + close));
                lemma_has_split(s, pos, open, gap(depth) + close);
                lemma_read_opening_tag(s, pos, tag, false);
                lemma_has_split(s, body, gap(depth), close);
                lemma_gap(s, body, depth);
                let start = body + gap(depth).len();
                assert(emit_children(children, depth + 1, 0) + close =~= close);
                lemma_read_children(
                    children,
                    depth + 1,
                    0,
                    depth,
                    tag.name,
                    s,
                    body,
                    start,
                    inner,
                    Seq::empty(),
                );
                let stop = start + gap(depth).len();
                lemma_has_split(s, start, gap(depth), closing_line(tag.name));
                lemma_read_closing_tag(s, stop, tag.name);
                assert(Seq::<XmlView>::empty() + children.subrange(0, children.len() as int)
                    =~= children);
            } else {
                let middle = emit_children(children, depth + 1, 0);
                assert(emit(x, depth) =~= open + (middle + close));
                lemma_has_split(s, pos, open, middle + close);
                lemma_read_opening_tag(s, pos, tag, false);
                lemma_read_children(
                    children,
                    depth + 1,
                    0,
                    depth,
                    tag.name,
                    s,
                    body,
                    body,
                    inner,
                    Seq::empty(),
                );
                lemma_has_split(s, body, middle, close);
                let start = body + middle.len();
                lemma_has_split(s, start, gap(depth), closing_line(tag.name));
                let stop = start + gap(depth).len();
                lemma_read_closing_tag(s, stop, tag.name);
                assert(Seq::<XmlView>::empty() + children.subrange(0, children.len() as int)
                    =~= children);
            }
        },
        XmlView::Text(_) => {},
    }
}

/// Before an element that stands at the start of the input there is no preamble.
pub proof fn lemma_no_preamble(s: Seq<char>, name: Seq<char>)
    requires
        plain_name(name),
        has(s, 0, seq!['<'] + name),
    ensures
        spec_preamble_end(s, 0) == 0,
        skip_spaces(s, 0) == 0,
{
    lemma_has_split(s, 0, seq!['<'], name);
    assert(s[0] == seq!['<'][0]);
    assert(s[1] == name[0]);
    lemma_skip_gap(s, 0, 0);
    if starts_with(s, 0, seq!['<', '?']) {
        assert(s.subrange(0, 2)[1] == '?');
    }
    assert(spec_xml_meta(s, 0) is Err);
    reveal_strlit("<!DOCTYPE");
    if starts_with(s, 0, doc_type_keyword()) {
        assert(s.subrange(0, 9)[1] == doc_type_keyword()[1]);
    }
    assert(spec_doc_type(s, 0) is Err);
}

/// What is written for an element starts with `<` and its name.
pub proof fn lemma_emit_name(x: XmlView, depth: nat)
    requires
        x is Element,
    ensures
        has(emit(x, depth), 0, seq!['<'] + x->Element_0.name),
{
    let tag = x->Element_0;
    let closed = x->Element_1 is None;
    let head = seq!['<'] + tag.name;
    let line = tag_line(tag, closed);
    let text = emit(x, depth);
    assert(line =~= head + (attributes_tail(tag.attributes, 0) + tag_close(closed)));
    assert(text.len() >= line.len());
    assert forall|i: int| 0 <= i < head.len() implies text[0 + i] == #[trigger] head[i] by {
        assert(line[i] == head[i]);
        assert(text[i] == line[i]);
    }
}

/// A document that is one element, from its first character to its last, is
/// read as that element.
pub proof fn lemma_root_of_element(s: Seq<char>, x: XmlView, depth: nat)
    requires
        spec_preamble_end(s, 0) == 0,
        skip_spaces(s, 0) == 0,
        spec_element(s, 0, depth) == Ok::<(XmlView, int), Failure>((x, s.len() as int)),
    ensures
        spec_root(s, depth) == Ok::<(XmlView, int), Failure>((x, s.len() as int)),
{
    assert(skip_spaces(s, s.len() as int) == s.len());
}

/// The text that the serializer writes for a printable element is read back as
/// that element, to its last character.
pub proof fn lemma_read_rendered(x: XmlView, depth: nat)
    requires
        printable(x),
        x is Element,
        fits(x, depth),
    ensures
        spec_root(render(x), depth) == Ok::<(XmlView, int), Failure>((x, render(x).len() as int)),
{
    let s = render(x);
    lemma_render_emit(x);
    assert(has(s, 0, s));
    lemma_read_element(x, 0, s, 0, depth);
    lemma_emit_name(x, 0);
    lemma_no_preamble(s, x->Element_0.name);
    lemma_root_of_element(s, x, depth);
}

} // verus!
