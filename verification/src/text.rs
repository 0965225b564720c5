//! Spans of the input, results in the terms of the grammar, and the comparison of strings.

use vstd::prelude::*;
use vstd::string::StringSliceAdditionalSpecFns;
use crate::error::{Failure, ParseError};
use crate::grammar::Range;

verus! {

/// A half-open range of positions in a character buffer.
#[derive(Clone, Copy, Debug, PartialEq, Eq, Structural)]
pub struct Span {
    pub lo: usize,
    pub hi: usize,
}

impl View for Span {
    type V = Range;

    open spec fn view(&self) -> Range {
        (self.lo as int, self.hi as int)
    }
}

/// What a rule returned, in the terms of the grammar.
pub open spec fn lift<T: View>(r: Result<(T, usize), ParseError>) -> Result<(T::V, int), Failure> {
    match r {
        Ok((value, end)) => Ok((value@, end as int)),
        Err(e) => Err(e@),
    }
}

/// What a rule without a value returned, in the terms of the grammar.
pub open spec fn lift_end(r: Result<usize, ParseError>) -> Result<int, Failure> {
    match r {
        Ok(end) => Ok(end as int),
        Err(e) => Err(e@),
    }
}

/// Whether two strings hold the same characters.
pub fn str_eq(a: &str, b: &str) -> (r: bool)
    ensures
        r == (a@ == b@),
{
    let x = a.as_bytes();
    let y = b.as_bytes();
    if x.len() != y.len() {
        return false;
    }
    let mut i: usize = 0;
    while i < x.len()
        invariant
            i <= x.len(),
            x.len() == y.len(),
            x@ == a.spec_bytes(),
            y@ == b.spec_bytes(),
            forall|j: int| 0 <= j < i ==> x@[j] == y@[j],
        decreases x.len() - i,
    {
        if x[i] != y[i] {
            return false;
        }
        i += 1;
    }
    proof {
        assert(x@ =~= y@);
        vstd::utf8::encode_utf8_decode_utf8(a@);
        vstd::utf8::encode_utf8_decode_utf8(b@);
    }
    true
}

} // verus!
