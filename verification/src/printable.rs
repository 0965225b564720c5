//! The trees that the serializer writes so that the parser reads them back, and
//! the text that it writes for them.

use vstd::prelude::*;
use crate::chars::{is_key_char, is_text_char, is_trim_char};
use crate::grammar::{trim, trim_end, trim_start, trimmed, value_end};
use crate::layout::{continues, indent_rest, lemma_indent_line, lemma_join_first};
use crate::model::{Entry, TagView, XmlView, distinct_keys};
use crate::serialize::{
    INDENTATION, attribute_text, attributes_text, blocks, indent, indentation, join, render,
    tag_text,
};

verus! {

/// A name that can be written and read back: not empty, of name characters, none
/// of which is white space.
pub open spec fn plain_name(name: Seq<char>) -> bool {
    &&& name.len() > 0
    &&& forall|i: int| 0 <= i < name.len() ==> is_key_char(#[trigger] name[i]) && !is_trim_char(name[i])
}

/// An attribute value that can be written between double quotes and read back:
/// not empty, on one line, and such that a double quote after it ends it.
pub open spec fn plain_value(value: Seq<char>) -> bool {
    &&& value.len() > 0
    &&& forall|i: int| 0 <= i < value.len() ==> #[trigger] value[i] != '\n'
    &&& value_end(value.push('"'), 0) == value.len()
}

/// Text content that can be written and read back: not empty, on one line,
/// without `&`, `<`, `>`, and without white space at its ends.
pub open spec fn plain_text(text: Seq<char>) -> bool {
    &&& text.len() > 0
    &&& forall|i: int| 0 <= i < text.len() ==> is_text_char(#[trigger] text[i]) && text[i] != '\n'
    &&& !is_trim_char(text[0])
    &&& !is_trim_char(text.last())
}

/// A tag that can be written and read back.
pub open spec fn plain_tag(tag: TagView) -> bool {
    &&& plain_name(tag.name)
    &&& distinct_keys(tag.attributes)
    &&& forall|i: int|
        0 <= i < tag.attributes.len() ==> plain_name((#[trigger] tag.attributes[i]).0)
            && plain_value(tag.attributes[i].1)
}

/// A tree that can be written and read back: its names, values and texts are
/// plain, and no text follows another text directly.
pub open spec fn printable(x: XmlView) -> bool
    decreases x,
{
    match x {
        XmlView::Text(text) => plain_text(text),
        XmlView::Element(tag, None) => plain_tag(tag),
        XmlView::Element(tag, Some(children)) => {
            &&& plain_tag(tag)
            &&& forall|i: int| 0 <= i < children.len() ==> printable(#[trigger] children[i])
            &&& forall|i: int|
                0 <= i < children.len() - 1 ==> !((#[trigger] children[i]) is Text && children[i
                    + 1] is Text)
        },
    }
}

/// Whether the elements of the tree nest at most `depth` levels deep.
pub open spec fn fits(x: XmlView, depth: nat) -> bool
    decreases x,
{
    match x {
        XmlView::Text(_) => true,
        XmlView::Element(_, None) => depth >= 1,
        XmlView::Element(_, Some(children)) => {
            &&& depth >= 1
            &&& forall|i: int|
                0 <= i < children.len() ==> fits(#[trigger] children[i], (depth - 1) as nat)
        },
    }
}

/// The attributes from the one at `from` on, each with a space before it.
pub open spec fn attributes_tail(entries: Seq<Entry>, from: int) -> Seq<char>
    decreases entries.len() - from,
{
    if 0 <= from < entries.len() {
        seq![' '] + attribute_text(entries[from]) + attributes_tail(entries, from + 1)
    } else {
        Seq::empty()
    }
}

/// The end of a tag: `/>` if it closes itself, `>` if not.
pub open spec fn tag_close(closed: bool) -> Seq<char> {
    if closed {
        seq!['/', '>']
    } else {
        seq!['>']
    }
}

/// A plain tag as it is written: `<`, the name, the attributes, the end.
pub open spec fn tag_line(tag: TagView, closed: bool) -> Seq<char> {
    seq!['<'] + tag.name + attributes_tail(tag.attributes, 0) + tag_close(closed)
}

/// A closing tag as it is written.
pub open spec fn closing_line(name: Seq<char>) -> Seq<char> {
    seq!['<', '/'] + name + seq!['>']
}

/// Whether the text is on one line and does not end with a carriage return.
pub open spec fn one_line(text: Seq<char>) -> bool {
    &&& forall|i: int| 0 <= i < text.len() ==> #[trigger] text[i] != '\n'
    &&& text.len() > 0 ==> text.last() != '\r'
}

/// The first untrimmed position, given what stands before it.
pub proof fn lemma_trim_start_is(s: Seq<char>, lo: int, hi: int, start: int)
    requires
        0 <= lo <= start <= hi <= s.len(),
        forall|i: int| lo <= i < start ==> is_trim_char(#[trigger] s[i]),
        start < hi ==> !is_trim_char(s[start]),
    ensures
        trim_start(s, lo, hi) == start,
    decreases start - lo,
{
    if lo < start {
        assert(is_trim_char(s[lo]));
        lemma_trim_start_is(s, lo + 1, hi, start);
    }
}

/// The end of what is not trimmed, given what stands after it.
pub proof fn lemma_trim_end_is(s: Seq<char>, lo: int, hi: int, end: int)
    requires
        0 <= lo <= end <= hi <= s.len(),
        forall|i: int| end <= i < hi ==> is_trim_char(#[trigger] s[i]),
        lo < end ==> !is_trim_char(s[end - 1]),
    ensures
        trim_end(s, lo, hi) == end,
    decreases hi - end,
{
    if end < hi {
        assert(is_trim_char(s[hi - 1]));
        lemma_trim_end_is(s, lo, hi - 1, end);
    }
}

/// The attributes joined by spaces, with a space in front, are the attributes
/// each with a space before it.
pub proof fn lemma_attributes_tail(entries: Seq<Entry>, from: int)
    requires
        0 <= from < entries.len(),
    ensures
        seq![' '] + join(
            Seq::new((entries.len() - from) as nat, |i: int| attribute_text(entries[from + i])),
            seq![' '],
        ) == attributes_tail(entries, from),
    decreases entries.len() - from,
{
    let parts = Seq::new((entries.len() - from) as nat, |i: int| attribute_text(entries[from + i]));
    if from == entries.len() - 1 {
        assert(join(parts, seq![' ']) == parts[0]);
        assert(attributes_tail(entries, from + 1) =~= Seq::<char>::empty());
        assert(seq![' '] + join(parts, seq![' ']) =~= attributes_tail(entries, from));
    } else {
        lemma_join_first(parts, seq![' ']);
        lemma_attributes_tail(entries, from + 1);
        let rest = Seq::new(
            (entries.len() - from - 1) as nat,
            |i: int| attribute_text(entries[from + 1 + i]),
        );
        assert(parts.drop_first() =~= rest);
        assert(seq![' '] + join(parts, seq![' ']) =~= attributes_tail(entries, from));
    }
}

/// The written attributes hold no line feed, and end with a double quote.
pub proof fn lemma_attributes_tail_one_line(entries: Seq<Entry>, from: int)
    requires
        0 <= from <= entries.len(),
        forall|i: int|
            0 <= i < entries.len() ==> plain_name((#[trigger] entries[i]).0) && plain_value(
                entries[i].1,
            ),
    ensures
        forall|i: int|
            0 <= i < attributes_tail(entries, from).len() ==> #[trigger] attributes_tail(
                entries,
                from,
            )[i] != '\n',
        from < entries.len() ==> attributes_tail(entries, from).len() > 0 && attributes_tail(
            entries,
            from,
        ).last() == '"',
    decreases entries.len() - from,
{
    if from < entries.len() {
        lemma_attributes_tail_one_line(entries, from + 1);
        let entry = entries[from];
        let head = seq![' '] + attribute_text(entry);
        let rest = attributes_tail(entries, from + 1);
        let all = attributes_tail(entries, from);
        assert(all == head + rest);
        assert(head.len() == entry.0.len() + entry.1.len() + 4);
        assert forall|i: int| 0 <= i < head.len() implies #[trigger] head[i] != '\n' by {
            if 1 <= i < 1 + entry.0.len() {
                assert(head[i] == entry.0[i - 1]);
            } else if 3 + entry.0.len() <= i < 3 + entry.0.len() + entry.1.len() {
                assert(head[i] == entry.1[i - 3 - entry.0.len()]);
            }
        }
        assert(head.last() == '"');
        assert forall|i: int| 0 <= i < all.len() implies #[trigger] all[i] != '\n' by {
            if i < head.len() {
                assert(all[i] == head[i]);
            } else {
                assert(all[i] == rest[i - head.len()]);
            }
        }
        if from + 1 < entries.len() {
            assert(all.last() == rest.last());
        } else {
            assert(rest.len() == 0);
            assert(all =~= head);
        }
    }
}

/// A plain tag is written as [`tag_line`] states, on one line.
pub proof fn lemma_tag_text(tag: TagView, closed: bool)
    requires
        plain_tag(tag),
    ensures
        tag_text(tag, closed) == tag_line(tag, closed),
        one_line(tag_line(tag, closed)),
        tag_line(tag, closed).len() >= 3,
{
    let name = tag.name;
    let entries = tag.attributes;
    let inner = name + seq![' '] + attributes_text(entries);
    let tail = attributes_tail(entries, 0);
    lemma_attributes_tail_one_line(entries, 0);
    assert(!is_trim_char(name[0]));
    assert(!is_trim_char(name.last()));
    if entries.len() == 0 {
        assert(attributes_text(entries) =~= Seq::<char>::empty());
        assert(inner =~= name + seq![' ']);
        assert(inner[0] == name[0]);
        assert(inner[name.len() - 1] == name.last());
        lemma_trim_start_is(inner, 0, inner.len() as int, 0);
        lemma_trim_end_is(inner, 0, inner.len() as int, name.len() as int);
        assert(trim(inner) =~= name);
        assert(tail =~= Seq::<char>::empty());
    } else {
        lemma_attributes_tail(entries, 0);
        assert(Seq::new((entries.len() - 0) as nat, |i: int| attribute_text(entries[0 + i]))
            =~= Seq::new(entries.len(), |i: int| attribute_text(entries[i])));
        assert(inner =~= name + tail);
        assert(inner[0] == name[0]);
        assert(inner.last() == tail.last());
        lemma_trim_start_is(inner, 0, inner.len() as int, 0);
        lemma_trim_end_is(inner, 0, inner.len() as int, inner.len() as int);
        assert(trim(inner) =~= inner);
    }
    assert(tag_text(tag, closed) =~= tag_line(tag, closed));
    let line = tag_line(tag, closed);
    assert(line.last() == '>');
    assert forall|i: int| 0 <= i < line.len() implies #[trigger] line[i] != '\n' by {
        if 1 <= i < 1 + name.len() {
            assert(line[i] == name[i - 1]);
        } else if 1 + name.len() <= i < 1 + name.len() + tail.len() {
            assert(line[i] == tail[i - 1 - name.len()]);
        }
    }
}

/// The indentation of the level `depth`.
pub open spec fn pad(depth: nat) -> Seq<char> {
    Seq::new(INDENTATION as nat * depth, |i: int| ' ')
}

/// A printable tree as it is written at the level `depth`, from its first
/// character on: each line after the first has the indentation of its level
/// before it.
pub open spec fn emit(x: XmlView, depth: nat) -> Seq<char>
    decreases x, 0nat,
{
    match x {
        XmlView::Text(text) => text,
        XmlView::Element(tag, None) => tag_line(tag, true),
        XmlView::Element(tag, Some(children)) => tag_line(tag, false) + (if children.len() == 0 {
            seq!['\n'] + pad(depth)
        } else {
            emit_children(children, depth + 1, 0)
        }) + seq!['\n'] + pad(depth) + closing_line(tag.name),
    }
}

/// The children from the one at `from` on, as they are written at the level
/// `depth`: each on lines of its own.
pub open spec fn emit_children(children: Seq<XmlView>, depth: nat, from: int) -> Seq<char>
    decreases children, children.len() - from,
{
    if 0 <= from < children.len() {
        seq!['\n'] + pad(depth) + emit(children[from], depth) + emit_children(
            children,
            depth,
            from + 1,
        )
    } else {
        Seq::empty()
    }
}

/// What is written for a printable tree is not empty, and starts with `<` for
/// an element, with a character of the text for a text.
pub proof fn lemma_emit_first(x: XmlView, depth: nat)
    requires
        printable(x),
    ensures
        emit(x, depth).len() > 0,
        x is Element ==> emit(x, depth)[0] == '<',
        x matches XmlView::Text(text) ==> emit(x, depth) == text,
{
}

/// The indentation of a level, with one unit before it, is that of the next level.
pub proof fn lemma_pad_next(depth: nat)
    ensures
        indentation() + pad(depth) == pad(depth + 1),
        pad(0) == Seq::<char>::empty(),
        one_line(pad(depth)),
{
    assert(INDENTATION as nat * (depth + 1) == INDENTATION as nat + INDENTATION as nat * depth)
        by (nonlinear_arith);
    assert(indentation() + pad(depth) =~= pad(depth + 1));
    assert(pad(0) =~= Seq::<char>::empty());
}

/// Two texts on one line, joined, are on one line.
pub proof fn lemma_one_line_joined(a: Seq<char>, b: Seq<char>)
    requires
        one_line(a),
        one_line(b),
        b.len() > 0,
    ensures
        one_line(a + b),
{
    let s = a + b;
    assert forall|i: int| 0 <= i < s.len() implies #[trigger] s[i] != '\n' by {
        if i < a.len() {
            assert(s[i] == a[i]);
        } else {
            assert(s[i] == b[i - a.len()]);
        }
    }
    assert(s.last() == b.last());
}

/// Indenting a line that stands at one level puts it at the next level; what
/// follows on later lines is indented by itself.
pub proof fn lemma_indent_padded_line(line: Seq<char>, depth: nat, rest: Seq<char>)
    requires
        one_line(line),
        line.len() > 0 || rest.len() > 0,
        continues(rest),
    ensures
        indent(pad(depth) + line + rest) == pad(depth + 1) + line + indent_rest(rest),
{
    lemma_pad_next(depth);
    let whole = pad(depth) + line;
    if line.len() > 0 {
        lemma_one_line_joined(pad(depth), line);
    } else {
        assert(whole =~= pad(depth));
    }
    lemma_indent_line(whole, rest);
    assert(indentation() + whole =~= pad(depth + 1) + line);
}

/// What follows a line, when it starts with a line of its own.
pub proof fn lemma_indent_rest_line(line: Seq<char>, depth: nat, rest: Seq<char>)
    requires
        one_line(line),
        line.len() > 0 || rest.len() > 0,
        continues(rest),
    ensures
        continues(seq!['\n'] + pad(depth) + line + rest),
        indent_rest(seq!['\n'] + pad(depth) + line + rest) == seq!['\n'] + pad(depth + 1) + line
            + indent_rest(rest),
{
    let all = seq!['\n'] + pad(depth) + line + rest;
    lemma_indent_padded_line(line, depth, rest);
    assert(all[0] == '\n');
    assert(all.drop_first() =~= pad(depth) + line + rest);
}

/// Indenting an element moves its opening tag, what stands between its tags and
/// its closing tag to the next level.
pub proof fn lemma_indent_frame(
    open: Seq<char>,
    middle: Seq<char>,
    moved: Seq<char>,
    close: Seq<char>,
    depth: nat,
    rest: Seq<char>,
)
    requires
        one_line(open),
        open.len() > 0,
        one_line(close),
        close.len() > 0,
        continues(rest),
        continues(middle + (seq!['\n'] + pad(depth) + close + rest)),
        indent_rest(middle + (seq!['\n'] + pad(depth) + close + rest)) == moved + indent_rest(
            seq!['\n'] + pad(depth) + close + rest,
        ),
    ensures
        indent(pad(depth) + (open + middle + seq!['\n'] + pad(depth) + close) + rest) == pad(
            depth + 1,
        ) + (open + moved + seq!['\n'] + pad(depth + 1) + close) + indent_rest(rest),
{
    let after = seq!['\n'] + pad(depth) + close + rest;
    lemma_indent_rest_line(close, depth, rest);
    lemma_indent_padded_line(open, depth, middle + after);
    assert(pad(depth) + (open + middle + seq!['\n'] + pad(depth) + close) + rest =~= pad(depth)
        + open + (middle + after));
    assert(pad(depth + 1) + (open + moved + seq!['\n'] + pad(depth + 1) + close) + indent_rest(rest)
        =~= pad(depth + 1) + open + (moved + (seq!['\n'] + pad(depth + 1) + close + indent_rest(
        rest,
    ))));
}

/// A closing tag is on one line.
pub proof fn lemma_closing_line(name: Seq<char>)
    requires
        plain_name(name),
    ensures
        one_line(closing_line(name)),
        closing_line(name).len() == name.len() + 3,
{
    let close = closing_line(name);
    assert forall|i: int| 0 <= i < close.len() implies #[trigger] close[i] != '\n' by {
        if 2 <= i < 2 + name.len() {
            assert(close[i] == name[i - 2]);
        }
    }
    assert(close.last() == '>');
}

/// Indenting what is written for a tree at one level gives what is written for
/// it at the next level; what follows on later lines is indented by itself.
pub proof fn lemma_indent_emit(x: XmlView, depth: nat, rest: Seq<char>)
    requires
        printable(x),
        continues(rest),
    ensures
        indent(pad(depth) + emit(x, depth) + rest) == pad(depth + 1) + emit(x, depth + 1)
            + indent_rest(rest),
    decreases x, 0nat,
{
    match x {
        XmlView::Text(text) => {
            assert(one_line(text));
            lemma_indent_padded_line(text, depth, rest);
        },
        XmlView::Element(tag, None) => {
            lemma_tag_text(tag, true);
            lemma_indent_padded_line(tag_line(tag, true), depth, rest);
        },
        XmlView::Element(tag, Some(children)) => {
            lemma_tag_text(tag, false);
            lemma_closing_line(tag.name);
            let open = tag_line(tag, false);
            let close = closing_line(tag.name);
            let after = seq!['\n'] + pad(depth) + close + rest;
            lemma_indent_rest_line(close, depth, rest);
            if children.len() == 0 {
                let middle = seq!['\n'] + pad(depth);
                let moved = seq!['\n'] + pad(depth + 1);
                lemma_pad_next(depth);
                lemma_indent_rest_line(Seq::empty(), depth, after);
                assert(middle + after =~= seq!['\n'] + pad(depth) + Seq::<char>::empty() + after);
                assert(moved + indent_rest(after) =~= seq!['\n'] + pad(depth + 1) + Seq::<
                    char,
                >::empty() + indent_rest(after));
                lemma_indent_frame(open, middle, moved, close, depth, rest);
            } else {
                lemma_indent_children(children, depth + 1, 0, after);
                lemma_indent_frame(
                    open,
                    emit_children(children, depth + 1, 0),
                    emit_children(children, depth + 2, 0),
                    close,
                    depth,
                    rest,
                );
            }
        },
    }
}

/// See [`lemma_indent_emit`]: the children from `from` on.
pub proof fn lemma_indent_children(children: Seq<XmlView>, depth: nat, from: int, rest: Seq<char>)
    requires
        forall|i: int| 0 <= i < children.len() ==> printable(#[trigger] children[i]),
        0 <= from <= children.len(),
        continues(rest),
    ensures
        continues(emit_children(children, depth, from) + rest),
        indent_rest(emit_children(children, depth, from) + rest) == emit_children(
            children,
            depth + 1,
            from,
        ) + indent_rest(rest),
    decreases children, children.len() - from,
{
    if from < children.len() {
        let child = children[from];
        lemma_emit_first(child, depth);
        lemma_indent_children(children, depth, from + 1, rest);
        let later = emit_children(children, depth, from + 1) + rest;
        lemma_indent_emit(child, depth, later);
        let all = emit_children(children, depth, from) + rest;
        assert(all =~= seq!['\n'] + (pad(depth) + emit(child, depth) + later));
        assert(all.drop_first() =~= pad(depth) + emit(child, depth) + later);
        assert(indent_rest(all) =~= emit_children(children, depth + 1, from) + indent_rest(rest));
    } else {
        assert(emit_children(children, depth, from) + rest =~= rest);
        assert(emit_children(children, depth + 1, from) + indent_rest(rest) =~= indent_rest(rest));
    }
}

/// The serializer writes a printable tree as [`emit`] states, at the level 0.
pub proof fn lemma_render_emit(x: XmlView)
    requires
        printable(x),
    ensures
        render(x) == emit(x, 0),
    decreases x, 0nat,
{
    lemma_pad_next(0);
    match x {
        XmlView::Text(text) => {},
        XmlView::Element(tag, None) => {
            lemma_tag_text(tag, true);
        },
        XmlView::Element(tag, Some(children)) => {
            lemma_tag_text(tag, false);
            if children.len() == 0 {
                assert(join(blocks(children), seq!['\n']) =~= Seq::<char>::empty());
                assert(render(x) =~= emit(x, 0));
            } else {
                lemma_render_children(children, 0);
                assert(blocks(children).subrange(0, children.len() as int) =~= blocks(children));
                assert(render(x) =~= emit(x, 0));
            }
        },
    }
}

/// See [`lemma_render_emit`]: the children from `from` on.
pub proof fn lemma_render_children(children: Seq<XmlView>, from: int)
    requires
        forall|i: int| 0 <= i < children.len() ==> printable(#[trigger] children[i]),
        0 <= from < children.len(),
    ensures
        seq!['\n'] + join(blocks(children).subrange(from, children.len() as int), seq!['\n'])
            == emit_children(children, 1, from),
    decreases children, children.len() - from,
{
    let child = children[from];
    let parts = blocks(children).subrange(from, children.len() as int);
    lemma_render_emit(child);
    lemma_pad_next(0);
    lemma_indent_emit(child, 0, Seq::empty());
    assert(pad(0) + emit(child, 0) + Seq::<char>::empty() =~= emit(child, 0));
    assert(parts[0] == indent(render(child)));
    assert(parts[0] =~= pad(1) + emit(child, 1));
    if from == children.len() - 1 {
        assert(join(parts, seq!['\n']) == parts[0]);
        assert(emit_children(children, 1, from + 1) =~= Seq::<char>::empty());
        assert(seq!['\n'] + join(parts, seq!['\n']) =~= emit_children(children, 1, from));
    } else {
        lemma_join_first(parts, seq!['\n']);
        lemma_render_children(children, from + 1);
        assert(parts.drop_first() =~= blocks(children).subrange(from + 1, children.len() as int));
        assert(seq!['\n'] + join(parts, seq!['\n']) =~= emit_children(children, 1, from));
    }
}

} // verus!
