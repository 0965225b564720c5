//! The input of a parse: the text, its characters for reading in constant time,
//! and where each character starts in the text, for borrowing parts of it.

use vstd::prelude::*;
use vstd::string::StringSliceAdditionalSpecFns;
use vstd::utf8::{
    encode_scalar, encode_utf8, encode_utf8_decode_utf8, encode_utf8_first_scalar,
    encode_utf8_valid_utf8, is_char_boundary, length_of_first_scalar, pop_first_scalar,
};

verus! {

/// The number of bytes that a character takes in the text.
pub fn utf8_width(c: char) -> (width: usize)
    ensures
        width == encode_scalar(c as u32).len(),
        1 <= width <= 4,
{
    let v = c as u32;
    if v <= 0x7F {
        1
    } else if v <= 0x7FF {
        2
    } else if v <= 0xFFFF {
        3
    } else {
        4
    }
}

/// Two sequences of characters, joined, take the bytes of the first and then
/// those of the second.
pub proof fn lemma_encode_joined(a: Seq<char>, b: Seq<char>)
    ensures
        encode_utf8(a + b) == encode_utf8(a) + encode_utf8(b),
    decreases a.len(),
{
    if a.len() == 0 {
        assert(a + b =~= b);
        assert(encode_utf8(a) + encode_utf8(b) =~= encode_utf8(b));
    } else {
        lemma_encode_joined(a.drop_first(), b);
        assert((a + b).drop_first() =~= a.drop_first() + b);
        assert((a + b)[0] == a[0]);
        assert(encode_utf8(a + b) =~= encode_utf8(a) + encode_utf8(b));
    }
}

/// Where the bytes of a first sequence of characters end, a character of the
/// second starts, or the text ends.
pub proof fn lemma_boundary(a: Seq<char>, b: Seq<char>)
    ensures
        is_char_boundary(encode_utf8(a + b), encode_utf8(a).len() as int),
    decreases a.len(),
{
    let bytes = encode_utf8(a + b);
    encode_utf8_valid_utf8(a + b);
    lemma_encode_joined(a, b);
    if a.len() > 0 {
        let whole = a + b;
        encode_utf8_first_scalar(whole);
        encode_utf8_first_scalar(a);
        assert(whole[0] == a[0]);
        assert(whole.drop_first() =~= a.drop_first() + b);
        assert(pop_first_scalar(bytes) =~= encode_utf8(whole.drop_first()));
        lemma_boundary(a.drop_first(), b);
        assert(encode_utf8(a).len() == encode_scalar(a[0] as u32).len() + encode_utf8(
            a.drop_first(),
        ).len());
        assert(length_of_first_scalar(bytes) == encode_scalar(a[0] as u32).len());
        assert(encode_scalar(a[0] as u32).len() > 0);
    }
}

/// Texts of the same bytes are texts of the same characters.
pub proof fn lemma_same_bytes(a: Seq<char>, b: Seq<char>)
    requires
        encode_utf8(a) == encode_utf8(b),
    ensures
        a == b,
{
    encode_utf8_decode_utf8(a);
    encode_utf8_decode_utf8(b);
}

/// A text that is being parsed.
pub struct Input<'a> {
    source: &'a str,
    chars: Vec<char>,
    starts: Vec<usize>,
}

impl<'a> View for Input<'a> {
    type V = Seq<char>;

    closed spec fn view(&self) -> Seq<char> {
        self.source@
    }
}

impl<'a> Input<'a> {
    #[verifier::type_invariant]
    spec fn well_formed(&self) -> bool {
        &&& self.chars@ == self.source@
        &&& self.starts@.len() == self.chars@.len() + 1
        &&& forall|k: int|
            0 <= k <= self.chars@.len() ==> #[trigger] self.starts@[k] == encode_utf8(
                self.source@.take(k),
            ).len()
    }

    /// Prepares `source` for parsing.
    pub fn new(source: &'a str) -> (input: Input<'a>)
        ensures
            input@ == source@,
    {
        let total = source.as_bytes().len();
        let mut chars: Vec<char> = Vec::new();
        let mut starts: Vec<usize> = Vec::new();
        let mut start: usize = 0;
        starts.push(0);
        assert(encode_utf8(source@.take(0)) =~= Seq::<u8>::empty()) by {
            assert(source@.take(0) =~= Seq::<char>::empty());
        }
        for c in it: source.chars()
            invariant
                it.seq() == source@,
                total == encode_utf8(source@).len(),
                chars@ == source@.take(it.index() as int),
                starts@.len() == it.index() + 1,
                start == starts@[it.index() as int],
                forall|k: int|
                    0 <= k <= it.index() ==> #[trigger] starts@[k] == encode_utf8(
                        source@.take(k),
                    ).len(),
        {
            let ghost k = it.index() as int;
            proof {
                let done = source@.take(k);
                let next = source@.take(k + 1);
                assert(next =~= done + seq![c]);
                lemma_encode_joined(done, seq![c]);
                assert(encode_utf8(seq![c]) =~= encode_scalar(c as u32)) by {
                    assert(seq![c].drop_first() =~= Seq::<char>::empty());
                    assert(encode_utf8(seq![c]) == encode_scalar(seq![c][0] as u32) + encode_utf8(
                        seq![c].drop_first(),
                    ));
                }
                let left = source@.skip(k + 1);
                assert(source@ =~= next + left);
                lemma_encode_joined(next, left);
            }
            let width = utf8_width(c);
            start = start + width;
            chars.push(c);
            starts.push(start);
        }
        proof {
            assert(source@.take(source@.len() as int) =~= source@);
        }
        Input { source, chars, starts }
    }

    /// The characters of the text.
    pub fn chars(&self) -> (chars: &Vec<char>)
        ensures
            chars@ == self@,
    {
        proof {
            use_type_invariant(self);
        }
        &self.chars
    }

    /// The text.
    pub fn source(&self) -> (source: &'a str)
        ensures
            source@ == self@,
    {
        self.source
    }

    /// The number of characters of the text.
    pub fn len(&self) -> (n: usize)
        ensures
            n == self@.len(),
    {
        proof {
            use_type_invariant(self);
        }
        self.chars.len()
    }

    /// The part of the text that holds its characters `lo..hi`, borrowed from it.
    pub fn slice(&self, lo: usize, hi: usize) -> (part: &'a str)
        requires
            lo <= hi <= self@.len(),
        ensures
            part@ == self@.subrange(lo as int, hi as int),
    {
        proof {
            use_type_invariant(self);
        }
        let ghost text = self.source@;
        let ghost before = text.take(lo as int);
        let ghost wanted = text.subrange(lo as int, hi as int);
        let ghost upto = text.take(hi as int);
        let ghost after = text.skip(hi as int);
        proof {
            assert(text =~= upto + after);
            assert(upto =~= before + wanted);
            lemma_boundary(upto, after);
            lemma_boundary(before, wanted);
            lemma_encode_joined(upto, after);
            lemma_encode_joined(before, wanted);
        }
        let (head, _) = self.source.split_at(self.starts[hi]);
        proof {
            assert(head.spec_bytes() =~= encode_utf8(upto));
        }
        let (_, part) = head.split_at(self.starts[lo]);
        proof {
            assert(part.spec_bytes() =~= encode_utf8(wanted));
            lemma_same_bytes(part@, wanted);
        }
        part
    }
}

} // verus!
