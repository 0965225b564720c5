//! The grammar, as specification functions over the characters of the input.
//!
//! A position is an index into the sequence of characters. A rule applied at a
//! position either succeeds with a value and the position after what it consumed,
//! or fails with a [`Failure`]. Names, attribute values and text are given as
//! spans `(lo, hi)`: the characters from `lo` up to, not including, `hi`.

use vstd::prelude::*;
use crate::chars::{CharClass, is_escapable, is_quote, is_space, is_trim_char};
use crate::error::{ErrorKind, Failure, committed, fatal, recoverable};
use crate::model::{Entry, TagView, XmlView, put_all};

verus! {

/// A half-open range of positions.
pub type Range = (int, int);

/// The characters of `s` that a span covers.
pub open spec fn slice(s: Seq<char>, r: Range) -> Seq<char> {
    s.subrange(r.0, r.1)
}

/// Whether `pattern` stands in `s` at `pos`.
pub open spec fn starts_with(s: Seq<char>, pos: int, pattern: Seq<char>) -> bool {
    0 <= pos && pos + pattern.len() <= s.len() && s.subrange(pos, pos + pattern.len()) == pattern
}

/// Whether the character `c` stands in `s` at `pos`.
pub open spec fn char_at(s: Seq<char>, pos: int, c: char) -> bool {
    0 <= pos < s.len() && s[pos] == c
}

/// The end of the longest run of characters of `class` that starts at `pos`.
pub open spec fn run_end(s: Seq<char>, pos: int, class: CharClass) -> int
    decreases s.len() - pos,
{
    if 0 <= pos < s.len() && class.holds(s[pos]) {
        run_end(s, pos + 1, class)
    } else {
        pos
    }
}

/// A run ends at or after its start, within the input, on a character that is not
/// of the class; every character of the run is of the class.
pub proof fn lemma_run_end(s: Seq<char>, pos: int, class: CharClass)
    ensures
        pos <= run_end(s, pos, class),
        run_end(s, pos, class) == pos || run_end(s, pos, class) <= s.len(),
        0 <= pos ==> forall|i: int| pos <= i < run_end(s, pos, class) ==> class.holds(#[trigger] s[i]),
        0 <= run_end(s, pos, class) < s.len() ==> !class.holds(s[run_end(s, pos, class)]),
    decreases s.len() - pos,
{
    if 0 <= pos < s.len() && class.holds(s[pos]) {
        lemma_run_end(s, pos + 1, class);
    }
}

/// The position after the white space that starts at `pos`. Never fails.
pub open spec fn skip_spaces(s: Seq<char>, pos: int) -> int {
    run_end(s, pos, CharClass::Space)
}

/// A name: one or more name characters. The value is the position after it.
pub open spec fn spec_key(s: Seq<char>, pos: int) -> Result<int, Failure> {
    let end = run_end(s, pos, CharClass::Key);
    if end == pos {
        Err(recoverable(pos, ErrorKind::Key))
    } else {
        Ok(end)
    }
}

/// The first position in `lo..hi` that holds no trimmed character, or `hi`.
pub open spec fn trim_start(s: Seq<char>, lo: int, hi: int) -> int
    decreases hi - lo,
{
    if lo < hi && 0 <= lo < s.len() && is_trim_char(s[lo]) {
        trim_start(s, lo + 1, hi)
    } else {
        lo
    }
}

/// The position after the last character in `lo..hi` that is not trimmed, or `lo`.
pub open spec fn trim_end(s: Seq<char>, lo: int, hi: int) -> int
    decreases hi - lo,
{
    if lo < hi && 0 < hi <= s.len() && is_trim_char(s[hi - 1]) {
        trim_end(s, lo, hi - 1)
    } else {
        hi
    }
}

/// The span `lo..hi` without the white space at its two ends.
pub open spec fn trimmed(s: Seq<char>, lo: int, hi: int) -> Range {
    let start = trim_start(s, lo, hi);
    (start, trim_end(s, start, hi))
}

/// A string without the white space at its two ends.
pub open spec fn trim(s: Seq<char>) -> Seq<char> {
    slice(s, trimmed(s, 0, s.len() as int))
}

/// Text content: the longest run, of at least one character, without `&`, `<`, `>`.
/// The value is the span of the run after trimming.
pub open spec fn spec_text(s: Seq<char>, pos: int) -> Result<(Range, int), Failure> {
    let end = run_end(s, pos, CharClass::Text);
    if end == pos {
        Err(recoverable(pos, ErrorKind::Text))
    } else {
        Ok((trimmed(s, pos, end), end))
    }
}

/// The end of the body of an attribute value that starts at `pos`: the first quote
/// that is not part of an escaped unit, or the end of the input. A backslash
/// followed by an escapable character is an escaped unit and is passed over whole.
pub open spec fn value_end(s: Seq<char>, pos: int) -> int
    decreases s.len() - pos,
{
    if !(0 <= pos < s.len()) {
        pos
    } else if is_quote(s[pos]) {
        pos
    } else if s[pos] == '\\' && pos + 1 < s.len() && is_escapable(s[pos + 1]) {
        value_end(s, pos + 2)
    } else {
        value_end(s, pos + 1)
    }
}

/// The body of a value ends at or after its start, within the input, and on a
/// quote unless the input ends first.
pub proof fn lemma_value_end(s: Seq<char>, pos: int)
    ensures
        pos <= value_end(s, pos),
        value_end(s, pos) == pos || value_end(s, pos) <= s.len(),
        0 <= value_end(s, pos) < s.len() ==> is_quote(s[value_end(s, pos)]),
    decreases s.len() - pos,
{
    if 0 <= pos < s.len() && !is_quote(s[pos]) {
        if s[pos] == '\\' && pos + 1 < s.len() && is_escapable(s[pos + 1]) {
            lemma_value_end(s, pos + 2);
        } else {
            lemma_value_end(s, pos + 1);
        }
    }
}

/// An attribute value: a quote, a body of at least one character, a quote. The two
/// quotes need not be the same character. Every failure is fatal. The value is the
/// span of the body, escaped units kept as written.
pub open spec fn spec_attribute_value(s: Seq<char>, pos: int) -> Result<(Range, int), Failure> {
    if !(0 <= pos < s.len() && is_quote(s[pos])) {
        Err(fatal(pos, ErrorKind::Quote))
    } else {
        let end = value_end(s, pos + 1);
        if end == pos + 1 {
            Err(fatal(pos + 1, ErrorKind::AttributeValue))
        } else if !(end < s.len()) {
            Err(fatal(end, ErrorKind::Quote))
        } else {
            Ok(((pos + 1, end), end + 1))
        }
    }
}

/// An attribute: a name, `=`, a value, with optional white space before each.
/// Without a name the failure is recoverable; once the name is read, the `=` and
/// the value are owed, and their absence is fatal. The value is the span of the
/// name and the span of the value.
pub open spec fn spec_attribute_key_value(s: Seq<char>, pos: int) -> Result<
    ((Range, Range), int),
    Failure,
> {
    let start = skip_spaces(s, pos);
    match spec_key(s, start) {
        Err(f) => Err(f),
        Ok(key_end) => {
            let eq = skip_spaces(s, key_end);
            if !char_at(s, eq, '=') {
                Err(fatal(eq, ErrorKind::Equals))
            } else {
                match spec_attribute_value(s, skip_spaces(s, eq + 1)) {
                    Err(f) => Err(f),
                    Ok((value, end)) => Ok((((start, key_end), value), end)),
                }
            }
        },
    }
}

/// An attribute consumes at least its name, `=` and a quoted value, and ends within the input.
pub proof fn lemma_attribute_key_value_end(s: Seq<char>, pos: int)
    ensures
        spec_attribute_key_value(s, pos) matches Ok((_, end)) ==> pos < end <= s.len(),
{
    lemma_run_end(s, pos, CharClass::Space);
    let start = skip_spaces(s, pos);
    lemma_run_end(s, start, CharClass::Key);
    if let Ok(key_end) = spec_key(s, start) {
        lemma_run_end(s, key_end, CharClass::Space);
        let eq = skip_spaces(s, key_end);
        lemma_run_end(s, eq + 1, CharClass::Space);
        lemma_value_end(s, skip_spaces(s, eq + 1) + 1);
    }
}

/// The attributes that follow those already read, which are in `found`: zero or
/// more attributes, each after the first separated from the one before by white
/// space. The list ends, without failure, where no separator or no further name
/// stands; white space after the last attribute is not consumed. The value is the
/// names and values in the order in which they were written.
pub open spec fn spec_attribute_list_from(
    s: Seq<char>,
    pos: int,
    first: bool,
    found: Seq<Entry>,
) -> Result<(Seq<Entry>, int), Failure>
    decreases s.len() - pos,
{
    if !first && !(0 <= pos < s.len() && is_space(s[pos])) {
        Ok((found, pos))
    } else {
        match spec_attribute_key_value(s, pos) {
            Err(f) => if f.fatal {
                Err(f)
            } else {
                Ok((found, pos))
            },
            Ok(((key, value), end)) => {
                proof {
                    lemma_attribute_key_value_end(s, pos);
                }
                spec_attribute_list_from(s, end, false, found.push((slice(s, key), slice(s, value))))
            },
        }
    }
}

/// The attributes of a tag: the list that is written at `pos`, made a mapping.
/// Where a name is written more than once, its last value stands.
pub open spec fn spec_attributes(s: Seq<char>, pos: int) -> Result<(Seq<Entry>, int), Failure> {
    match spec_attribute_list_from(s, pos, true, Seq::empty()) {
        Err(f) => Err(f),
        Ok((pairs, end)) => Ok((put_all(pairs), end)),
    }
}

/// The end of an opening tag: `/>`, which closes the tag itself, or `>`.
pub open spec fn spec_tag_end(s: Seq<char>, pos: int) -> Result<(bool, int), Failure> {
    if starts_with(s, pos, seq!['/', '>']) {
        Ok((true, pos + 2))
    } else if char_at(s, pos, '>') {
        Ok((false, pos + 1))
    } else {
        Err(recoverable(pos, ErrorKind::TagEnd))
    }
}

/// An opening tag: `<`, a name, white space, the attribute list, white space, and
/// `/>` or `>`. The value is the tag and whether it closed itself.
pub open spec fn spec_opening_tag(s: Seq<char>, pos: int) -> Result<((TagView, bool), int), Failure> {
    if !char_at(s, pos, '<') {
        Err(recoverable(pos, ErrorKind::TagOpen))
    } else {
        match spec_key(s, pos + 1) {
            Err(f) => Err(f),
            Ok(name_end) => match spec_attributes(s, skip_spaces(s, name_end)) {
                Err(f) => Err(f),
                Ok((attributes, attributes_end)) => {
                    let tag = TagView { name: s.subrange(pos + 1, name_end), attributes };
                    match spec_tag_end(s, skip_spaces(s, attributes_end)) {
                        Err(f) => Err(f),
                        Ok((closed, end)) => Ok(((tag, closed), end)),
                    }
                },
            },
        }
    }
}

/// The closing tag of the element called `name`: `</`, the name, `>`. The name
/// must match character for character. Every failure is fatal, at the position of
/// the part that did not match.
pub open spec fn spec_closing_tag(s: Seq<char>, pos: int, name: Seq<char>) -> Result<int, Failure> {
    if !starts_with(s, pos, seq!['<', '/']) {
        Err(fatal(pos, ErrorKind::ClosingTag))
    } else if !starts_with(s, pos + 2, name) {
        Err(fatal(pos + 2, ErrorKind::ClosingTag))
    } else if !char_at(s, pos + 2 + name.len(), '>') {
        Err(fatal(pos + 2 + name.len(), ErrorKind::ClosingTag))
    } else {
        Ok(pos + 2 + name.len() + 1)
    }
}

/// An element, with at most `depth` levels of elements from it downwards.
///
/// A tag that closes itself makes an element without a child sequence. Any other
/// opening tag is followed by the children and, after optional white space, by the
/// closing tag of the same name; such an element has a child sequence, which may
/// be empty. Once the opening tag is read, every failure is fatal.
pub open spec fn spec_element(s: Seq<char>, pos: int, depth: nat) -> Result<(XmlView, int), Failure>
    decreases depth, s.len() - pos, 0nat,
{
    match spec_opening_tag(s, pos) {
        Err(f) => Err(f),
        Ok(((tag, closed), body)) => {
            if depth == 0 {
                Err(fatal(pos, ErrorKind::Nesting))
            } else if closed {
                Ok((XmlView::Element(tag, None), body))
            } else {
                match spec_children_from(s, body, (depth - 1) as nat, Seq::empty()) {
                    Err(f) => Err(f),
                    Ok((children, children_end)) => match spec_closing_tag(
                        s,
                        skip_spaces(s, children_end),
                        tag.name,
                    ) {
                        Err(f) => Err(f),
                        Ok(end) => Ok((XmlView::Element(tag, Some(children)), end)),
                    },
                }
            }
        },
    }
}

/// One child: optional white space, then text or, where no text stands, an element.
pub open spec fn spec_value(s: Seq<char>, pos: int, depth: nat) -> Result<(XmlView, int), Failure>
    decreases depth, s.len() - pos, 1nat,
{
    let start = skip_spaces(s, pos);
    match spec_text(s, start) {
        Ok((text, end)) => Ok((XmlView::Text(slice(s, text)), end)),
        Err(_) => {
            proof {
                lemma_run_end(s, pos, CharClass::Space);
            }
            spec_element(s, start, depth)
        },
    }
}

/// The children that follow those already gathered in `found`, in document order.
/// The sequence ends, without failure, where neither text nor an element stands.
/// A child takes at least one character, so the sequence is finite; the test on
/// the end of a child states as much for the definition and never fails.
pub open spec fn spec_children_from(
    s: Seq<char>,
    pos: int,
    depth: nat,
    found: Seq<XmlView>,
) -> Result<(Seq<XmlView>, int), Failure>
    decreases depth, s.len() - pos, 2nat,
{
    match spec_value(s, pos, depth) {
        Err(f) => if f.fatal {
            Err(f)
        } else {
            Ok((found, pos))
        },
        Ok((child, end)) => {
            if pos < end <= s.len() {
                spec_children_from(s, end, depth, found.push(child))
            } else {
                Ok((found, pos))
            }
        },
    }
}

/// A declaration: optional white space, `<?`, one or more characters other than
/// `?` and `>`, and `?>`. The value is the span of the content.
pub open spec fn spec_xml_meta(s: Seq<char>, pos: int) -> Result<(Range, int), Failure> {
    let start = skip_spaces(s, pos);
    if !starts_with(s, start, seq!['<', '?']) {
        Err(recoverable(start, ErrorKind::Declaration))
    } else {
        let end = run_end(s, start + 2, CharClass::Meta);
        if end == start + 2 {
            Err(recoverable(end, ErrorKind::Declaration))
        } else if !starts_with(s, end, seq!['?', '>']) {
            Err(recoverable(end, ErrorKind::Declaration))
        } else {
            Ok(((start + 2, end), end + 2))
        }
    }
}

/// The keyword that opens a document type declaration.
pub open spec fn doc_type_keyword() -> Seq<char> {
    "<!DOCTYPE"@
}

/// A document type declaration: optional white space, `<!DOCTYPE`, one or more
/// characters other than `?` and `>`, and `>`. The value is the span of the content.
pub open spec fn spec_doc_type(s: Seq<char>, pos: int) -> Result<(Range, int), Failure> {
    let start = skip_spaces(s, pos);
    if !starts_with(s, start, doc_type_keyword()) {
        Err(recoverable(start, ErrorKind::DocType))
    } else {
        let content = start + doc_type_keyword().len();
        let end = run_end(s, content, CharClass::Meta);
        if end == content {
            Err(recoverable(end, ErrorKind::DocType))
        } else if !char_at(s, end, '>') {
            Err(recoverable(end, ErrorKind::DocType))
        } else {
            Ok(((content, end), end + 1))
        }
    }
}

/// The position after the declarations that precede the root element: zero or
/// more declarations and document type declarations, in any order. Each of them
/// takes at least two characters; the test on its end never fails.
pub open spec fn spec_preamble_end(s: Seq<char>, pos: int) -> int
    decreases s.len() - pos,
{
    let next = match spec_xml_meta(s, pos) {
        Ok((_, end)) => end,
        Err(_) => match spec_doc_type(s, pos) {
            Ok((_, end)) => end,
            Err(_) => pos,
        },
    };
    if pos < next <= s.len() {
        spec_preamble_end(s, next)
    } else {
        pos
    }
}

/// A document: the preamble, optional white space, the root element, optional
/// white space. What follows is left unread; the value holds the position where it
/// starts. Every failure is fatal.
pub open spec fn spec_root(s: Seq<char>, depth: nat) -> Result<(XmlView, int), Failure> {
    let start = skip_spaces(s, spec_preamble_end(s, 0));
    match spec_element(s, start, depth) {
        Err(f) => Err(committed(f)),
        Ok((tree, end)) => Ok((tree, skip_spaces(s, end))),
    }
}

} // verus!
