//! The lexical rules: runs of characters, names, text, attribute values.

use vstd::prelude::*;
use crate::chars::{CharClass, quote_char, trim_char};
use crate::error::{ErrorKind, ParseError};
use crate::grammar::{
    lemma_value_end, run_end, skip_spaces, spec_attribute_key_value,
    spec_attribute_value, spec_key, spec_text, starts_with, trim_end, trim_start, trimmed,
    value_end,
};
use crate::text::{Span, lift, lift_end};

verus! {

/// Passes over the longest run of characters of `class` that starts at `pos`.
pub fn scan(buf: &Vec<char>, pos: usize, class: CharClass) -> (end: usize)
    requires
        pos <= buf.len(),
    ensures
        end == run_end(buf@, pos as int, class),
        pos <= end <= buf.len(),
{
    let mut end: usize = pos;
    while end < buf.len() && class.admits(buf[end])
        invariant
            pos <= end <= buf.len(),
            run_end(buf@, pos as int, class) == run_end(buf@, end as int, class),
        decreases buf.len() - end,
    {
        end += 1;
    }
    end
}

/// Passes over white space. Never fails.
pub fn whitespace(buf: &Vec<char>, pos: usize) -> (end: usize)
    requires
        pos <= buf.len(),
    ensures
        end == skip_spaces(buf@, pos as int),
        pos <= end <= buf.len(),
{
    scan(buf, pos, CharClass::Space)
}

/// Whether the character `c` stands at `pos`.
pub fn at_char(buf: &Vec<char>, pos: usize, c: char) -> (b: bool)
    ensures
        b == crate::grammar::char_at(buf@, pos as int, c),
{
    pos < buf.len() && buf[pos] == c
}

/// Whether the two characters `a`, `b` stand at `pos`.
pub fn at_pair(buf: &Vec<char>, pos: usize, a: char, b: char) -> (r: bool)
    ensures
        r == starts_with(buf@, pos as int, seq![a, b]),
{
    if pos < buf.len() && buf.len() - pos >= 2 {
        let r = buf[pos] == a && buf[pos + 1] == b;
        proof {
            let part = buf@.subrange(pos as int, pos + 2);
            assert(part[0] == buf@[pos as int] && part[1] == buf@[pos + 1]);
            if r {
                assert(part =~= seq![a, b]);
            } else {
                assert(seq![a, b][0] == a && seq![a, b][1] == b);
            }
        }
        r
    } else {
        false
    }
}

/// Whether `pattern` stands in the buffer at `pos`.
pub fn at_str(buf: &Vec<char>, pos: usize, pattern: &str) -> (r: bool)
    requires
        pos <= buf.len(),
    ensures
        r == starts_with(buf@, pos as int, pattern@),
{
    let mut at: usize = pos;
    let mut matching = true;
    for c in it: pattern.chars()
        invariant
            it.seq() == pattern@,
            pos <= at <= buf.len(),
            matching ==> at == pos + it.index() && buf@.subrange(pos as int, at as int)
                == pattern@.take(it.index() as int),
            !matching ==> !starts_with(buf@, pos as int, pattern@),
    {
        if matching {
            if at < buf.len() && buf[at] == c {
                at += 1;
                assert(buf@.subrange(pos as int, at as int) =~= pattern@.take(it.index() + 1));
            } else {
                matching = false;
                proof {
                    let k = it.index() as int;
                    if pos + pattern@.len() <= buf.len() {
                        let part = buf@.subrange(pos as int, pos + pattern@.len());
                        assert(part[k] != pattern@[k]);
                    }
                }
            }
        }
    }
    proof {
        if matching {
            assert(pattern@.take(pattern@.len() as int) =~= pattern@);
        }
    }
    matching
}

/// A name: one or more name characters.
pub fn xml_key(buf: &Vec<char>, pos: usize) -> (r: Result<usize, ParseError>)
    requires
        pos <= buf.len(),
    ensures
        lift_end(r) == spec_key(buf@, pos as int),
        r matches Ok(end) ==> pos < end <= buf.len(),
{
    let end = scan(buf, pos, CharClass::Key);
    if end == pos {
        Err(ParseError::recoverable(pos, ErrorKind::Key))
    } else {
        Ok(end)
    }
}

/// The span `lo..hi` without the white space at its two ends.
pub fn trim_span(buf: &Vec<char>, lo: usize, hi: usize) -> (span: Span)
    requires
        lo <= hi <= buf.len(),
    ensures
        span@ == trimmed(buf@, lo as int, hi as int),
        lo <= span.lo <= span.hi <= hi,
{
    let mut start: usize = lo;
    while start < hi && trim_char(buf[start])
        invariant
            lo <= start <= hi <= buf.len(),
            trim_start(buf@, lo as int, hi as int) == trim_start(buf@, start as int, hi as int),
        decreases hi - start,
    {
        start += 1;
    }
    let mut end: usize = hi;
    while start < end && trim_char(buf[end - 1])
        invariant
            start <= end <= hi <= buf.len(),
            trim_end(buf@, start as int, hi as int) == trim_end(buf@, start as int, end as int),
        decreases end - start,
    {
        end -= 1;
    }
    Span { lo: start, hi: end }
}

/// Text content: the longest run without `&`, `<`, `>`, trimmed.
pub fn xml_text(buf: &Vec<char>, pos: usize) -> (r: Result<(Span, usize), ParseError>)
    requires
        pos <= buf.len(),
    ensures
        lift(r) == spec_text(buf@, pos as int),
        r matches Ok((span, end)) ==> pos <= span.lo <= span.hi <= end <= buf.len() && pos < end,
{
    let end = scan(buf, pos, CharClass::Text);
    if end == pos {
        Err(ParseError::recoverable(pos, ErrorKind::Text))
    } else {
        Ok((trim_span(buf, pos, end), end))
    }
}

/// Whether a quote delimiter stands at `pos`.
pub fn quote_delim(buf: &Vec<char>, pos: usize) -> (b: bool)
    ensures
        b == (0 <= pos < buf.len() && crate::chars::is_quote(buf@[pos as int])),
{
    pos < buf.len() && quote_char(buf[pos])
}

/// Passes over the body of an attribute value, up to the quote that ends it.
pub fn value_body(buf: &Vec<char>, pos: usize) -> (end: usize)
    requires
        pos <= buf.len(),
    ensures
        end == value_end(buf@, pos as int),
        pos <= end <= buf.len(),
{
    let mut end: usize = pos;
    while end < buf.len() && !quote_char(buf[end])
        invariant
            pos <= end <= buf.len(),
            value_end(buf@, pos as int) == value_end(buf@, end as int),
        decreases buf.len() - end,
    {
        let c = buf[end];
        if c == '\\' && buf.len() - end > 1 && escapable(buf[end + 1]) {
            end += 2;
        } else {
            end += 1;
        }
    }
    end
}

/// Decides whether a character forms an escaped unit with a backslash before it.
pub fn escapable(c: char) -> (b: bool)
    ensures
        b == crate::chars::is_escapable(c),
{
    c == '"' || c == 'n' || c == '\\'
}

/// An attribute value between two quotes. Every failure is fatal.
pub fn attribute_value(buf: &Vec<char>, pos: usize) -> (r: Result<(Span, usize), ParseError>)
    requires
        pos <= buf.len(),
    ensures
        lift(r) == spec_attribute_value(buf@, pos as int),
        r matches Ok((span, end)) ==> pos < span.lo < span.hi < end <= buf.len(),
{
    if !quote_delim(buf, pos) {
        return Err(ParseError::fatal(pos, ErrorKind::Quote));
    }
    let end = value_body(buf, pos + 1);
    if end == pos + 1 {
        Err(ParseError::fatal(pos + 1, ErrorKind::AttributeValue))
    } else if !quote_delim(buf, end) {
        proof {
            lemma_value_end(buf@, pos + 1);
        }
        Err(ParseError::fatal(end, ErrorKind::Quote))
    } else {
        Ok((Span { lo: pos + 1, hi: end }, end + 1))
    }
}

/// An attribute: a name, `=` and a value. Recoverable without a name, fatal after it.
pub fn attribute_key_value(buf: &Vec<char>, pos: usize) -> (r: Result<
    ((Span, Span), usize),
    ParseError,
>)
    requires
        pos <= buf.len(),
    ensures
        lift(r) == spec_attribute_key_value(buf@, pos as int),
        r matches Ok(((key, value), end)) ==> pos <= key.lo < key.hi < value.lo < value.hi < end
            <= buf.len(),
{
    let start = whitespace(buf, pos);
    let key_end = match xml_key(buf, start) {
        Err(e) => {
            return Err(e);
        },
        Ok(key_end) => key_end,
    };
    let eq = whitespace(buf, key_end);
    if !at_char(buf, eq, '=') {
        return Err(ParseError::fatal(eq, ErrorKind::Equals));
    }
    let value_start = whitespace(buf, eq + 1);
    match attribute_value(buf, value_start) {
        Err(e) => Err(e),
        Ok((value, end)) => Ok(((Span { lo: start, hi: key_end }, value), end)),
    }
}

} // verus!
