//! Parse failures: where, in which rule, and whether an alternative may still be tried.

use vstd::prelude::*;

verus! {

/// The grammar rule that did not match.
#[derive(Clone, Copy, Debug, PartialEq, Eq, Structural)]
pub enum ErrorKind {
    /// A tag name or attribute name was expected.
    Key,
    /// Text content was expected.
    Text,
    /// A quote delimiter of an attribute value was expected.
    Quote,
    /// The body of an attribute value was expected.
    AttributeValue,
    /// The `=` between an attribute's name and its value was expected.
    Equals,
    /// The `<` that opens a tag was expected.
    TagOpen,
    /// The `/>` or `>` that ends an opening tag was expected.
    TagEnd,
    /// The closing tag that matches the open element was expected.
    ClosingTag,
    /// A `<? ... ?>` declaration was expected.
    Declaration,
    /// A `<!DOCTYPE ... >` declaration was expected.
    DocType,
    /// The element lies deeper than the nesting limit allows.
    Nesting,
}

/// A failure as the grammar states it: a position in the input, counted in
/// characters, the rule that failed there, and the severity.
pub struct Failure {
    pub position: int,
    pub kind: ErrorKind,
    /// A fatal failure aborts the parse; a recoverable one lets the caller try an alternative.
    pub fatal: bool,
}

/// A recoverable failure of `kind` at `position`.
pub open spec fn recoverable(position: int, kind: ErrorKind) -> Failure {
    Failure { position, kind, fatal: false }
}

/// A fatal failure of `kind` at `position`.
pub open spec fn fatal(position: int, kind: ErrorKind) -> Failure {
    Failure { position, kind, fatal: true }
}

/// The same failure, made fatal.
pub open spec fn committed(f: Failure) -> Failure {
    Failure { position: f.position, kind: f.kind, fatal: true }
}

/// The error value that a parse returns.
#[derive(Clone, Copy, Debug, PartialEq, Eq, Structural)]
pub struct ParseError {
    /// Number of characters of the input that precede the point of failure.
    pub position: usize,
    /// The grammar rule that failed there.
    pub kind: ErrorKind,
    /// `true` for a committed parse point, `false` where an alternative may be tried.
    pub fatal: bool,
}

impl View for ParseError {
    type V = Failure;

    open spec fn view(&self) -> Failure {
        Failure { position: self.position as int, kind: self.kind, fatal: self.fatal }
    }
}

impl ParseError {
    /// A recoverable error of `kind` at `position`.
    pub fn recoverable(position: usize, kind: ErrorKind) -> (e: ParseError)
        ensures
            e@ == recoverable(position as int, kind),
    {
        ParseError { position, kind, fatal: false }
    }

    /// A fatal error of `kind` at `position`.
    pub fn fatal(position: usize, kind: ErrorKind) -> (e: ParseError)
        ensures
            e@ == fatal(position as int, kind),
    {
        ParseError { position, kind, fatal: true }
    }

    /// The same error, made fatal.
    pub fn commit(self) -> (e: ParseError)
        ensures
            e@ == committed(self@),
    {
        ParseError { position: self.position, kind: self.kind, fatal: true }
    }
}

impl ErrorKind {
    /// The name of the rule, as a context tag for messages.
    pub fn name(self) -> (s: &'static str)
        ensures
            s@ == self.spec_name(),
    {
        match self {
            ErrorKind::Key => "key",
            ErrorKind::Text => "text",
            ErrorKind::Quote => "quote",
            ErrorKind::AttributeValue => "attribute_value",
            ErrorKind::Equals => "equals",
            ErrorKind::TagOpen => "tag_open",
            ErrorKind::TagEnd => "tag_end",
            ErrorKind::ClosingTag => "closing_tag",
            ErrorKind::Declaration => "declaration",
            ErrorKind::DocType => "doc_type",
            ErrorKind::Nesting => "nesting",
        }
    }

    /// The context tag of each rule.
    pub open spec fn spec_name(self) -> Seq<char> {
        match self {
            ErrorKind::Key => "key"@,
            ErrorKind::Text => "text"@,
            ErrorKind::Quote => "quote"@,
            ErrorKind::AttributeValue => "attribute_value"@,
            ErrorKind::Equals => "equals"@,
            ErrorKind::TagOpen => "tag_open"@,
            ErrorKind::TagEnd => "tag_end"@,
            ErrorKind::ClosingTag => "closing_tag"@,
            ErrorKind::Declaration => "declaration"@,
            ErrorKind::DocType => "doc_type"@,
            ErrorKind::Nesting => "nesting"@,
        }
    }
}

} // verus!
