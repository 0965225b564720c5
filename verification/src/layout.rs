//! How indentation acts on text that is laid out line by line.

use vstd::prelude::*;
use crate::chars::CharClass;
use crate::grammar::run_end;
use crate::serialize::{indent, indentation, join, lines, lines_from, strip_carriage_return};

verus! {

/// A run over characters that are all of the class, up to one that is not or to
/// the end of the input, ends there.
pub proof fn lemma_run_exact(s: Seq<char>, pos: int, n: int, class: CharClass)
    requires
        0 <= pos,
        0 <= n,
        pos + n <= s.len(),
        forall|i: int| pos <= i < pos + n ==> class.holds(#[trigger] s[i]),
        pos + n == s.len() || !class.holds(s[pos + n]),
    ensures
        run_end(s, pos, class) == pos + n,
    decreases n,
{
    if n > 0 {
        assert(class.holds(s[pos]));
        lemma_run_exact(s, pos + 1, n - 1, class);
    }
}

/// A run in the second of two joined texts is the run in that text alone.
pub proof fn lemma_run_shift(a: Seq<char>, b: Seq<char>, pos: int, class: CharClass)
    requires
        0 <= pos <= b.len(),
    ensures
        run_end(a + b, a.len() + pos, class) == a.len() + run_end(b, pos, class),
    decreases b.len() - pos,
{
    if pos < b.len() {
        assert((a + b)[a.len() + pos] == b[pos]);
        if class.holds(b[pos]) {
            lemma_run_shift(a, b, pos + 1, class);
        }
    }
}

/// The lines of the second of two joined texts, the first of which ends a line.
pub proof fn lemma_lines_shift(a: Seq<char>, b: Seq<char>, pos: int)
    requires
        0 <= pos <= b.len(),
    ensures
        lines_from(a + b, a.len() + pos) == lines_from(b, pos),
    decreases b.len() - pos,
{
    let s = a + b;
    if pos < b.len() {
        lemma_run_shift(a, b, pos, CharClass::Line);
        crate::grammar::lemma_run_end(b, pos, CharClass::Line);
        let end = run_end(b, pos, CharClass::Line);
        if end < b.len() {
            lemma_lines_shift(a, b, end + 1);
            assert(s.subrange(a.len() + pos, a.len() + end) =~= b.subrange(pos, end));
        } else {
            assert(s.subrange(a.len() + pos, s.len() as int) =~= b.subrange(pos, b.len() as int));
        }
    }
}

/// The parts with the first taken off: the first, the separator, and the rest joined.
pub proof fn lemma_join_first(parts: Seq<Seq<char>>, separator: Seq<char>)
    requires
        parts.len() >= 2,
    ensures
        join(parts, separator) == parts[0] + separator + join(parts.drop_first(), separator),
    decreases parts.len(),
{
    let rest = parts.drop_first();
    if parts.len() == 2 {
        assert(parts.drop_last().len() == 1);
        assert(join(parts.drop_last(), separator) == parts[0]);
        assert(join(rest, separator) == parts[1]);
    } else {
        lemma_join_first(parts.drop_last(), separator);
        assert(parts.drop_last().drop_first() =~= rest.drop_last());
        assert(rest.last() == parts.last());
        assert(join(parts, separator) =~= parts[0] + separator + join(rest, separator));
    }
}

/// Every line indented, see [`indent`].
pub open spec fn indented_lines(parts: Seq<Seq<char>>) -> Seq<Seq<char>> {
    Seq::new(parts.len(), |i: int| indentation() + parts[i])
}

/// What may follow a line: nothing, or a line feed and further text.
pub open spec fn continues(rest: Seq<char>) -> bool {
    rest.len() == 0 || (rest[0] == '\n' && rest.len() >= 2)
}

/// What follows a line, after indentation.
pub open spec fn indent_rest(rest: Seq<char>) -> Seq<char> {
    if rest.len() == 0 {
        Seq::empty()
    } else {
        seq!['\n'] + indent(rest.drop_first())
    }
}

/// A text that is not empty has a line.
pub proof fn lemma_lines_some(s: Seq<char>)
    requires
        s.len() > 0,
    ensures
        lines(s).len() > 0,
{
}

/// Indentation acts on a first line and on what follows it separately: the line
/// gets one unit in front, and what follows is indented by itself.
pub proof fn lemma_indent_line(line: Seq<char>, rest: Seq<char>)
    requires
        forall|i: int| 0 <= i < line.len() ==> #[trigger] line[i] != '\n',
        line.len() > 0 ==> line.last() != '\r',
        line.len() > 0 || rest.len() > 0,
        continues(rest),
    ensures
        indent(line + rest) == indentation() + line + indent_rest(rest),
{
    let s = line + rest;
    if rest.len() == 0 {
        assert(s =~= line);
        lemma_run_exact(s, 0, s.len() as int, CharClass::Line);
        assert(lines(s) =~= seq![s]) by {
            assert(s.subrange(0, s.len() as int) =~= s);
        }
        assert(indented_lines(lines(s)) =~= seq![indentation() + line]);
        assert(indent(s) == join(indented_lines(lines(s)), seq!['\n']));
        assert(indent(s) =~= indentation() + line + indent_rest(rest));
    } else {
        let tail = rest.drop_first();
        assert forall|i: int| 0 <= i < line.len() implies CharClass::Line.holds(#[trigger] s[i]) by {
            assert(s[i] == line[i]);
        }
        assert(s[line.len() as int] == '\n');
        lemma_run_exact(s, 0, line.len() as int, CharClass::Line);
        assert(s.subrange(0, line.len() as int) =~= line);
        assert(strip_carriage_return(line) == line);
        let head = line + seq!['\n'];
        assert(s =~= head + tail);
        lemma_lines_shift(head, tail, 0);
        assert(lines(s) == seq![line] + lines(tail));
        lemma_lines_some(tail);
        let all = indented_lines(lines(s));
        assert(all.drop_first() =~= indented_lines(lines(tail)));
        assert(all[0] == indentation() + line);
        lemma_join_first(all, seq!['\n']);
        assert(indent(s) =~= indentation() + line + indent_rest(rest));
    }
}

} // verus!
