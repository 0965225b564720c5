//! The parsers: attribute lists, tags, elements, and the document as a whole.

use vstd::prelude::*;
use crate::attributes::{Attributes, AttributesRef};
use crate::chars::CharClass;
use crate::error::{ErrorKind, Failure, ParseError};
use crate::grammar::{
    slice, spec_attribute_list_from, spec_attributes,
    spec_children_from, spec_closing_tag, spec_doc_type, spec_element, spec_opening_tag,
    spec_preamble_end, spec_root, spec_tag_end, spec_value, spec_xml_meta,
};
use crate::lexer::{
    at_char, at_pair, at_str, attribute_key_value, scan, whitespace, xml_key, xml_text,
};
use crate::model::{Entry, put_all};
use crate::input::Input;
use crate::text::{Span, lift, lift_end};
use crate::types::{
    Tag, TagRef, Xml, XmlRef, lemma_element_ref_view, lemma_element_view, ref_views, views,
};

verus! {

/// The nesting limit that [`root`] and [`root_ref`] apply.
pub const DEFAULT_MAX_DEPTH: usize = 1024;

/// The attribute list of a tag, with strings of their own.
pub fn attributes_hash(input: &Input, pos: usize) -> (r: Result<(Attributes, usize), ParseError>)
    requires
        pos <= input@.len(),
    ensures
        lift(r) == spec_attributes(input@, pos as int),
        r matches Ok((_, end)) ==> pos <= end <= input@.len(),
{
    let buf = input.chars();
    let mut attributes = Attributes::new();
    let mut at: usize = pos;
    let mut first = true;
    let ghost pairs: Seq<Entry> = Seq::empty();
    loop
        invariant
            buf@ == input@,
            pos <= at <= buf.len(),
            attributes@ == put_all(pairs),
            spec_attribute_list_from(buf@, at as int, first, pairs) == spec_attribute_list_from(
                buf@,
                pos as int,
                true,
                Seq::empty(),
            ),
        decreases buf.len() - at, if first { 1nat } else { 0nat },
    {
        if !first && !(at < buf.len() && CharClass::Space.admits(buf[at])) {
            return Ok((attributes, at));
        }
        match attribute_key_value(buf, at) {
            Err(e) => {
                if e.fatal {
                    return Err(e);
                } else {
                    return Ok((attributes, at));
                }
            },
            Ok(((key, value), end)) => {
                attributes.insert(
                    input.slice(key.lo, key.hi).to_owned(),
                    input.slice(value.lo, value.hi).to_owned(),
                );
                proof {
                    let before = pairs;
                    pairs = pairs.push((slice(buf@, key@), slice(buf@, value@)));
                    assert(pairs.drop_last() =~= before);
                }
                at = end;
                first = false;
            },
        }
    }
}

/// The attribute list of a tag, with strings borrowed from the input.
pub fn attributes_hash_ref<'a>(input: &Input<'a>, pos: usize) -> (r: Result<
    (AttributesRef<'a>, usize),
    ParseError,
>)
    requires
        pos <= input@.len(),
    ensures
        lift(r) == spec_attributes(input@, pos as int),
        r matches Ok((_, end)) ==> pos <= end <= input@.len(),
{
    let buf = input.chars();
    let mut attributes = AttributesRef::new();
    let mut at: usize = pos;
    let mut first = true;
    let ghost pairs: Seq<Entry> = Seq::empty();
    loop
        invariant
            buf@ == input@,
            pos <= at <= buf.len(),
            attributes@ == put_all(pairs),
            spec_attribute_list_from(buf@, at as int, first, pairs) == spec_attribute_list_from(
                buf@,
                pos as int,
                true,
                Seq::empty(),
            ),
        decreases buf.len() - at, if first { 1nat } else { 0nat },
    {
        if !first && !(at < buf.len() && CharClass::Space.admits(buf[at])) {
            return Ok((attributes, at));
        }
        match attribute_key_value(buf, at) {
            Err(e) => {
                if e.fatal {
                    return Err(e);
                } else {
                    return Ok((attributes, at));
                }
            },
            Ok(((key, value), end)) => {
                attributes.insert(
                    input.slice(key.lo, key.hi),
                    input.slice(value.lo, value.hi),
                );
                proof {
                    let before = pairs;
                    pairs = pairs.push((slice(buf@, key@), slice(buf@, value@)));
                    assert(pairs.drop_last() =~= before);
                }
                at = end;
                first = false;
            },
        }
    }
}

/// The end of an opening tag: `/>`, which closes the tag itself, or `>`.
pub fn tag_end(buf: &Vec<char>, pos: usize) -> (r: Result<(bool, usize), ParseError>)
    requires
        pos <= buf.len(),
    ensures
        lift(r) == spec_tag_end(buf@, pos as int),
        r matches Ok((_, end)) ==> pos < end <= buf.len(),
{
    if at_pair(buf, pos, '/', '>') {
        Ok((true, pos + 2))
    } else if at_char(buf, pos, '>') {
        Ok((false, pos + 1))
    } else {
        Err(ParseError::recoverable(pos, ErrorKind::TagEnd))
    }
}

/// An opening tag, with strings of their own, and whether it closed itself.
pub fn opening_tag(input: &Input, pos: usize) -> (r: Result<((Tag, bool), usize), ParseError>)
    requires
        pos <= input@.len(),
    ensures
        lift(r) == spec_opening_tag(input@, pos as int),
        r matches Ok((_, end)) ==> pos < end <= input@.len(),
{
    let buf = input.chars();
    if !at_char(buf, pos, '<') {
        return Err(ParseError::recoverable(pos, ErrorKind::TagOpen));
    }
    assert(pos < buf.len());
    let name_end = match xml_key(buf, pos + 1) {
        Err(e) => {
            return Err(e);
        },
        Ok(name_end) => name_end,
    };
    let (attributes, attributes_end) = match attributes_hash(input, whitespace(buf, name_end)) {
        Err(e) => {
            return Err(e);
        },
        Ok(found) => found,
    };
    match tag_end(buf, whitespace(buf, attributes_end)) {
        Err(e) => Err(e),
        Ok((closed, end)) => {
            let tag = Tag { value: input.slice(pos + 1, name_end).to_owned(), attributes };
            Ok(((tag, closed), end))
        },
    }
}

/// An opening tag, with strings borrowed from the input, and whether it closed itself.
pub fn opening_tag_ref<'a>(input: &Input<'a>, pos: usize) -> (r: Result<
    ((TagRef<'a>, bool), usize),
    ParseError,
>)
    requires
        pos <= input@.len(),
    ensures
        lift(r) == spec_opening_tag(input@, pos as int),
        r matches Ok((_, end)) ==> pos < end <= input@.len(),
{
    let buf = input.chars();
    if !at_char(buf, pos, '<') {
        return Err(ParseError::recoverable(pos, ErrorKind::TagOpen));
    }
    assert(pos < buf.len());
    let name_end = match xml_key(buf, pos + 1) {
        Err(e) => {
            return Err(e);
        },
        Ok(name_end) => name_end,
    };
    let (attributes, attributes_end) = match attributes_hash_ref(input,
        whitespace(buf, name_end),
    ) {
        Err(e) => {
            return Err(e);
        },
        Ok(found) => found,
    };
    match tag_end(buf, whitespace(buf, attributes_end)) {
        Err(e) => Err(e),
        Ok((closed, end)) => {
            let tag = TagRef { value: input.slice(pos + 1, name_end), attributes };
            Ok(((tag, closed), end))
        },
    }
}

/// The closing tag of the element called `name`. Every failure is fatal.
pub fn closing_tag(buf: &Vec<char>, pos: usize, name: &str) -> (r: Result<usize, ParseError>)
    requires
        pos <= buf.len(),
    ensures
        lift_end(r) == spec_closing_tag(buf@, pos as int, name@),
        r matches Ok(end) ==> pos < end <= buf.len(),
{
    if !at_pair(buf, pos, '<', '/') {
        return Err(ParseError::fatal(pos, ErrorKind::ClosingTag));
    }
    if !at_str(buf, pos + 2, name) {
        return Err(ParseError::fatal(pos + 2, ErrorKind::ClosingTag));
    }
    let name_len = name.unicode_len();
    let end = pos + 2 + name_len;
    if !at_char(buf, end, '>') {
        return Err(ParseError::fatal(end, ErrorKind::ClosingTag));
    }
    Ok(end + 1)
}

/// An element and, below it, at most `depth - 1` further levels of elements;
/// the tree owns its strings.
pub fn element(input: &Input, pos: usize, depth: usize) -> (r: Result<(Xml, usize), ParseError>)
    requires
        pos <= input@.len(),
    ensures
        lift(r) == spec_element(input@, pos as int, depth as nat),
        r matches Ok((_, end)) ==> pos < end <= input@.len(),
    decreases depth, input@.len() - pos, 0nat,
{
    let buf = input.chars();
    let ((tag, closed), body) = match opening_tag(input, pos) {
        Err(e) => {
            return Err(e);
        },
        Ok(found) => found,
    };
    if depth == 0 {
        return Err(ParseError::fatal(pos, ErrorKind::Nesting));
    }
    if closed {
        return Ok((Xml::Element(tag, None), body));
    }
    let mut children: Vec<Xml> = Vec::new();
    let mut at: usize = body;
    assert(views(children@) =~= Seq::empty());
    loop
        invariant
            buf@ == input@,
            depth > 0,
            body <= at <= buf.len(),
            spec_opening_tag(buf@, pos as int) == Ok::<_, Failure>(((tag@, false), body as int)),
            spec_children_from(buf@, at as int, (depth - 1) as nat, views(children@))
                == spec_children_from(buf@, body as int, (depth - 1) as nat, Seq::empty()),
        ensures
            spec_children_from(buf@, body as int, (depth - 1) as nat, Seq::empty()) == Ok::<
                _,
                Failure,
            >((views(children@), at as int)),
        decreases buf.len() - at,
    {
        match xml_value(input, at, depth - 1) {
            Err(e) => {
                if e.fatal {
                    return Err(e);
                } else {
                    break ;
                }
            },
            Ok((child, end)) => {
                assert(views(children@.push(child)) =~= views(children@).push(child@));
                children.push(child);
                at = end;
            },
        }
    }
    match closing_tag(buf, whitespace(buf, at), tag.value.as_str()) {
        Err(e) => Err(e),
        Ok(end) => {
            proof {
                lemma_element_view(tag, children);
            }
            Ok((Xml::Element(tag, Some(children)), end))
        },
    }
}

/// One child of an element: text or, where no text stands, an element.
pub fn xml_value(input: &Input, pos: usize, depth: usize) -> (r: Result<(Xml, usize), ParseError>)
    requires
        pos <= input@.len(),
    ensures
        lift(r) == spec_value(input@, pos as int, depth as nat),
        r matches Ok((_, end)) ==> pos < end <= input@.len(),
    decreases depth, input@.len() - pos, 1nat,
{
    let buf = input.chars();
    let start = whitespace(buf, pos);
    match xml_text(buf, start) {
        Ok((text, end)) => Ok((Xml::Text(input.slice(text.lo, text.hi).to_owned()), end)),
        Err(_) => element(input, start, depth),
    }
}

/// An element and, below it, at most `depth - 1` further levels of elements;
/// the tree borrows its strings from `src`.
pub fn element_ref<'a>(input: &Input<'a>, pos: usize, depth: usize) -> (r: Result<
    (XmlRef<'a>, usize),
    ParseError,
>)
    requires
        pos <= input@.len(),
    ensures
        lift(r) == spec_element(input@, pos as int, depth as nat),
        r matches Ok((_, end)) ==> pos < end <= input@.len(),
    decreases depth, input@.len() - pos, 0nat,
{
    let buf = input.chars();
    let ((tag, closed), body) = match opening_tag_ref(input, pos) {
        Err(e) => {
            return Err(e);
        },
        Ok(found) => found,
    };
    if depth == 0 {
        return Err(ParseError::fatal(pos, ErrorKind::Nesting));
    }
    if closed {
        return Ok((XmlRef::Element(tag, None), body));
    }
    let mut children: Vec<XmlRef<'a>> = Vec::new();
    let mut at: usize = body;
    assert(ref_views(children@) =~= Seq::empty());
    loop
        invariant
            buf@ == input@,
            depth > 0,
            body <= at <= buf.len(),
            spec_opening_tag(buf@, pos as int) == Ok::<_, Failure>(((tag@, false), body as int)),
            spec_children_from(buf@, at as int, (depth - 1) as nat, ref_views(children@))
                == spec_children_from(buf@, body as int, (depth - 1) as nat, Seq::empty()),
        ensures
            spec_children_from(buf@, body as int, (depth - 1) as nat, Seq::empty()) == Ok::<
                _,
                Failure,
            >((ref_views(children@), at as int)),
        decreases buf.len() - at,
    {
        match xml_value_ref(input, at, depth - 1) {
            Err(e) => {
                if e.fatal {
                    return Err(e);
                } else {
                    break ;
                }
            },
            Ok((child, end)) => {
                assert(ref_views(children@.push(child)) =~= ref_views(children@).push(child@));
                children.push(child);
                at = end;
            },
        }
    }
    match closing_tag(buf, whitespace(buf, at), tag.value) {
        Err(e) => Err(e),
        Ok(end) => {
            proof {
                lemma_element_ref_view(tag, children);
            }
            Ok((XmlRef::Element(tag, Some(children)), end))
        },
    }
}

/// One child of an element, with strings borrowed from the input.
pub fn xml_value_ref<'a>(input: &Input<'a>, pos: usize, depth: usize) -> (r: Result<
    (XmlRef<'a>, usize),
    ParseError,
>)
    requires
        pos <= input@.len(),
    ensures
        lift(r) == spec_value(input@, pos as int, depth as nat),
        r matches Ok((_, end)) ==> pos < end <= input@.len(),
    decreases depth, input@.len() - pos, 1nat,
{
    let buf = input.chars();
    let start = whitespace(buf, pos);
    match xml_text(buf, start) {
        Ok((text, end)) => Ok((XmlRef::Text(input.slice(text.lo, text.hi)), end)),
        Err(_) => element_ref(input, start, depth),
    }
}

/// A declaration `<? ... ?>` at `pos` of the buffer; the value is the span of its content.
pub fn xml_meta_at(buf: &Vec<char>, pos: usize) -> (r: Result<(Span, usize), ParseError>)
    requires
        pos <= buf.len(),
    ensures
        lift(r) == spec_xml_meta(buf@, pos as int),
        r matches Ok((span, end)) ==> pos < span.lo < span.hi < end <= buf.len(),
{
    let start = whitespace(buf, pos);
    if !at_pair(buf, start, '<', '?') {
        return Err(ParseError::recoverable(start, ErrorKind::Declaration));
    }
    let end = scan(buf, start + 2, CharClass::Meta);
    if end == start + 2 {
        Err(ParseError::recoverable(end, ErrorKind::Declaration))
    } else if !at_pair(buf, end, '?', '>') {
        Err(ParseError::recoverable(end, ErrorKind::Declaration))
    } else {
        Ok((Span { lo: start + 2, hi: end }, end + 2))
    }
}

/// A document type declaration at `pos` of the buffer; the value is the span of its content.
pub fn doc_type_at(buf: &Vec<char>, pos: usize) -> (r: Result<(Span, usize), ParseError>)
    requires
        pos <= buf.len(),
    ensures
        lift(r) == spec_doc_type(buf@, pos as int),
        r matches Ok((span, end)) ==> pos < span.lo < span.hi < end <= buf.len(),
{
    let start = whitespace(buf, pos);
    proof {
        reveal_strlit("<!DOCTYPE");
    }
    if !at_str(buf, start, "<!DOCTYPE") {
        return Err(ParseError::recoverable(start, ErrorKind::DocType));
    }
    let content = start + 9;
    let end = scan(buf, content, CharClass::Meta);
    if end == content {
        Err(ParseError::recoverable(end, ErrorKind::DocType))
    } else if !at_char(buf, end, '>') {
        Err(ParseError::recoverable(end, ErrorKind::DocType))
    } else {
        Ok((Span { lo: content, hi: end }, end + 1))
    }
}

/// Passes over the declarations that precede the root element.
pub fn preamble(buf: &Vec<char>) -> (end: usize)
    ensures
        end == spec_preamble_end(buf@, 0),
        end <= buf.len(),
{
    let mut at: usize = 0;
    loop
        invariant
            at <= buf.len(),
            spec_preamble_end(buf@, at as int) == spec_preamble_end(buf@, 0),
        decreases buf.len() - at,
    {
        let next = match xml_meta_at(buf, at) {
            Ok((_, end)) => end,
            Err(_) => match doc_type_at(buf, at) {
                Ok((_, end)) => end,
                Err(_) => at,
            },
        };
        if next > at {
            at = next;
        } else {
            return at;
        }
    }
}

/// What a parse of a whole string returns: the value and the unread rest of
/// the input, or the failure.
pub open spec fn document_result<T: View>(
    input: Seq<char>,
    r: Result<(&str, T), ParseError>,
    expected: Result<(T::V, int), Failure>,
) -> bool {
    match expected {
        Ok((value, end)) => r matches Ok((rest, found)) && found@ == value && rest@
            == input.subrange(end, input.len() as int),
        Err(failure) => r matches Err(e) && e@ == failure,
    }
}

/// A declaration `<? ... ?>` at the start of `i`, after optional white space.
/// Returns the rest of the input and the content of the declaration.
pub fn xml_meta(i: &str) -> (r: Result<(&str, &str), ParseError>)
    ensures
        match spec_xml_meta(i@, 0) {
            Ok((span, end)) => r matches Ok((rest, content)) && content@ == slice(i@, span)
                && rest@ == i@.subrange(end, i@.len() as int),
            Err(failure) => r matches Err(e) && e@ == failure,
        },
{
    let input = Input::new(i);
    match xml_meta_at(input.chars(), 0) {
        Err(e) => Err(e),
        Ok((span, end)) => Ok((input.slice(end, input.len()), input.slice(span.lo, span.hi))),
    }
}

/// A document type declaration at the start of `i`, after optional white space.
/// Returns the rest of the input and the content of the declaration.
pub fn doc_type(i: &str) -> (r: Result<(&str, &str), ParseError>)
    ensures
        match spec_doc_type(i@, 0) {
            Ok((span, end)) => r matches Ok((rest, content)) && content@ == slice(i@, span)
                && rest@ == i@.subrange(end, i@.len() as int),
            Err(failure) => r matches Err(e) && e@ == failure,
        },
{
    let input = Input::new(i);
    match doc_type_at(input.chars(), 0) {
        Err(e) => Err(e),
        Ok((span, end)) => Ok((input.slice(end, input.len()), input.slice(span.lo, span.hi))),
    }
}

/// The document in `i`, as a tree that owns its strings, with the unread rest of
/// the input. Elements may nest [`DEFAULT_MAX_DEPTH`] levels deep.
pub fn root(i: &str) -> (r: Result<(&str, Xml), ParseError>)
    ensures
        document_result(i@, r, spec_root(i@, DEFAULT_MAX_DEPTH as nat)),
{
    root_with_depth(i, DEFAULT_MAX_DEPTH)
}

/// The document in `i`, as a tree that owns its strings, with the unread rest of
/// the input. Elements may nest `max_depth` levels deep, the root element being
/// the first level; a deeper element is a fatal failure of kind `Nesting`.
pub fn root_with_depth(i: &str, max_depth: usize) -> (r: Result<(&str, Xml), ParseError>)
    ensures
        document_result(i@, r, spec_root(i@, max_depth as nat)),
{
    let input = Input::new(i);
    let buf = input.chars();
    let start = whitespace(buf, preamble(buf));
    match element(&input, start, max_depth) {
        Err(e) => Err(e.commit()),
        Ok((tree, end)) => {
            let rest = whitespace(buf, end);
            Ok((input.slice(rest, input.len()), tree))
        },
    }
}

/// The document in `i`, as a tree that borrows its strings from `i`, with the
/// unread rest of the input. Elements may nest [`DEFAULT_MAX_DEPTH`] levels deep.
pub fn root_ref<'a>(i: &'a str) -> (r: Result<(&'a str, XmlRef<'a>), ParseError>)
    ensures
        document_result(i@, r, spec_root(i@, DEFAULT_MAX_DEPTH as nat)),
{
    root_ref_with_depth(i, DEFAULT_MAX_DEPTH)
}

/// The document in `i`, as a tree that borrows its strings from `i`, with the
/// unread rest of the input. Elements may nest `max_depth` levels deep, the root
/// element being the first level; a deeper element is a fatal failure of kind `Nesting`.
pub fn root_ref_with_depth<'a>(i: &'a str, max_depth: usize) -> (r: Result<
    (&'a str, XmlRef<'a>),
    ParseError,
>)
    ensures
        document_result(i@, r, spec_root(i@, max_depth as nat)),
{
    let input = Input::new(i);
    let buf = input.chars();
    let start = whitespace(buf, preamble(buf));
    match element_ref(&input, start, max_depth) {
        Err(e) => Err(e.commit()),
        Ok((tree, end)) => {
            let rest = whitespace(buf, end);
            Ok((input.slice(rest, input.len()), tree))
        },
    }
}

} // verus!
