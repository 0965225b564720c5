//! Character classes of the grammar.
//!
//! Every delimiter of the grammar is an ASCII character, and on ASCII each class is
//! decided here by plain comparisons. Only for characters beyond ASCII does a class
//! rest on the Unicode tables of the standard library, which enter the specification
//! as two uninterpreted predicates.

use vstd::prelude::*;

verus! {

/// What `char::is_alphanumeric` returns for the character: whether it is
/// alphabetic or numeric in the sense of Unicode. The grammar asks this of
/// characters beyond ASCII only.
pub uninterp spec fn unicode_alphanumeric(c: char) -> bool;

/// What `char::is_whitespace` returns for the character: whether it has the
/// Unicode property `White_Space`. The grammar asks this of characters beyond
/// ASCII only.
pub uninterp spec fn unicode_whitespace(c: char) -> bool;

/// `char::is_alphanumeric` is a function of the character alone; its result is
/// the value that [`unicode_alphanumeric`] names. Nothing more is claimed of it.
pub assume_specification[ char::is_alphanumeric ](c: char) -> (b: bool)
    ensures
        b == unicode_alphanumeric(c),
;

/// `char::is_whitespace` is a function of the character alone; its result is
/// the value that [`unicode_whitespace`] names. Nothing more is claimed of it.
pub assume_specification[ char::is_whitespace ](c: char) -> (b: bool)
    ensures
        b == unicode_whitespace(c),
;

/// The four characters that separate tokens: space, tab, carriage return, line feed.
pub open spec fn is_space(c: char) -> bool {
    c == ' ' || c == '\t' || c == '\r' || c == '\n'
}

/// An ASCII letter or digit.
pub open spec fn is_ascii_alphanumeric(c: char) -> bool {
    ('a' <= c && c <= 'z') || ('A' <= c && c <= 'Z') || ('0' <= c && c <= '9')
}

/// A character of a tag name or an attribute name: alphanumeric, `_` or `-`.
pub open spec fn is_key_char(c: char) -> bool {
    if c <= '\x7f' {
        is_ascii_alphanumeric(c) || c == '_' || c == '-'
    } else {
        unicode_alphanumeric(c)
    }
}

/// A character of text content: anything but `&`, `<` and `>`.
pub open spec fn is_text_char(c: char) -> bool {
    c != '&' && c != '<' && c != '>'
}

/// A character inside a declaration: anything but `?` and `>`.
pub open spec fn is_meta_char(c: char) -> bool {
    c != '?' && c != '>'
}

/// A quote delimiter, single or double.
pub open spec fn is_quote(c: char) -> bool {
    c == '\'' || c == '"'
}

/// What may follow a backslash inside an attribute value to form an escaped unit.
pub open spec fn is_escapable(c: char) -> bool {
    c == '"' || c == 'n' || c == '\\'
}

/// A character that trimming removes from either end of a text: on ASCII the
/// characters U+0009 to U+000D and the space, beyond it Unicode white space.
pub open spec fn is_trim_char(c: char) -> bool {
    if c <= '\x7f' {
        ('\t' <= c && c <= '\r') || c == ' '
    } else {
        unicode_whitespace(c)
    }
}

/// The classes of characters that the scanner takes runs of.
#[derive(Clone, Copy, Debug, PartialEq, Eq, Structural)]
pub enum CharClass {
    /// Token separators, see [`is_space`].
    Space,
    /// Name characters, see [`is_key_char`].
    Key,
    /// Text content, see [`is_text_char`].
    Text,
    /// Declaration content, see [`is_meta_char`].
    Meta,
    /// The characters of a line: anything but the line feed.
    Line,
}

impl CharClass {
    /// Whether `c` belongs to the class.
    pub open spec fn holds(self, c: char) -> bool {
        match self {
            CharClass::Space => is_space(c),
            CharClass::Key => is_key_char(c),
            CharClass::Text => is_text_char(c),
            CharClass::Meta => is_meta_char(c),
            CharClass::Line => c != '\n',
        }
    }

    /// Decides whether `c` belongs to the class.
    pub fn admits(self, c: char) -> (b: bool)
        ensures
            b == self.holds(c),
    {
        match self {
            CharClass::Space => c == ' ' || c == '\t' || c == '\r' || c == '\n',
            CharClass::Key => key_char(c),
            CharClass::Text => c != '&' && c != '<' && c != '>',
            CharClass::Meta => c != '?' && c != '>',
            CharClass::Line => c != '\n',
        }
    }
}

/// Decides [`is_key_char`].
pub fn key_char(c: char) -> (b: bool)
    ensures
        b == is_key_char(c),
{
    if c <= '\x7f' {
        ('a' <= c && c <= 'z') || ('A' <= c && c <= 'Z') || ('0' <= c && c <= '9') || c == '_'
            || c == '-'
    } else {
        c.is_alphanumeric()
    }
}

/// Decides [`is_trim_char`].
pub fn trim_char(c: char) -> (b: bool)
    ensures
        b == is_trim_char(c),
{
    if c <= '\x7f' {
        ('\t' <= c && c <= '\r') || c == ' '
    } else {
        c.is_whitespace()
    }
}

/// Decides [`is_quote`].
pub fn quote_char(c: char) -> (b: bool)
    ensures
        b == is_quote(c),
{
    c == '\'' || c == '"'
}

} // verus!
