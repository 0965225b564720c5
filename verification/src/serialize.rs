//! The serializer: a tree that owns its strings, rendered as indented text.

use vstd::prelude::*;
use vstd::string::StringExecFns;
use crate::chars::CharClass;
use crate::grammar::{run_end, trim};
use crate::input::Input;
use crate::lexer::{scan, trim_span};
use crate::model::{Entry, TagView, XmlView};
use crate::types::{Tag, Xml, lemma_element_view, views};

verus! {

/// The number of spaces by which each level of nesting is indented.
pub const INDENTATION: usize = 4;

/// One unit of indentation.
pub open spec fn indentation() -> Seq<char> {
    Seq::new(INDENTATION as nat, |i: int| ' ')
}

/// The parts, with `separator` between each two neighbours.
pub open spec fn join(parts: Seq<Seq<char>>, separator: Seq<char>) -> Seq<char>
    decreases parts.len(),
{
    if parts.len() == 0 {
        Seq::empty()
    } else if parts.len() == 1 {
        parts[0]
    } else {
        join(parts.drop_last(), separator) + separator + parts.last()
    }
}

/// A line without the carriage return at its end, if it has one.
pub open spec fn strip_carriage_return(line: Seq<char>) -> Seq<char> {
    if line.len() > 0 && line.last() == '\r' {
        line.drop_last()
    } else {
        line
    }
}

/// The lines of `s` from `pos` on. A line ends with a line feed, or with a
/// carriage return and a line feed; neither belongs to the line. The last line
/// needs no line ending, and a carriage return at its end stays.
pub open spec fn lines_from(s: Seq<char>, pos: int) -> Seq<Seq<char>>
    decreases s.len() - pos,
{
    if !(0 <= pos < s.len()) {
        Seq::empty()
    } else {
        let end = run_end(s, pos, CharClass::Line);
        if pos <= end < s.len() {
            seq![strip_carriage_return(s.subrange(pos, end))] + lines_from(s, end + 1)
        } else {
            seq![s.subrange(pos, s.len() as int)]
        }
    }
}

/// The lines of `s`.
pub open spec fn lines(s: Seq<char>) -> Seq<Seq<char>> {
    lines_from(s, 0)
}

/// The text with every line indented by one unit, and line feeds between the lines.
pub open spec fn indent(s: Seq<char>) -> Seq<char> {
    join(Seq::new(lines(s).len(), |i: int| indentation() + lines(s)[i]), seq!['\n'])
}

/// An attribute as it is written in a tag: `name="value"`.
pub open spec fn attribute_text(entry: Entry) -> Seq<char> {
    entry.0 + seq!['=', '"'] + entry.1 + seq!['"']
}

/// The attributes as they are written in a tag, in their order, with a space
/// between each two.
pub open spec fn attributes_text(entries: Seq<Entry>) -> Seq<char> {
    join(Seq::new(entries.len(), |i: int| attribute_text(entries[i])), seq![' '])
}

/// A tag as text: `<`, the name and the attributes with the white space at both
/// ends removed, and `/>` if it closes itself, `>` if not.
pub open spec fn tag_text(tag: TagView, closed: bool) -> Seq<char> {
    seq!['<'] + trim(tag.name + seq![' '] + attributes_text(tag.attributes)) + if closed {
        seq!['/', '>']
    } else {
        seq!['>']
    }
}

/// The rendering of each of the nodes, indented.
pub open spec fn blocks(nodes: Seq<XmlView>) -> Seq<Seq<char>>
    decreases nodes, 0nat,
{
    Seq::new(
        nodes.len(),
        |i: int|
            if 0 <= i < nodes.len() {
                indent(render(nodes[i]))
            } else {
                Seq::empty()
            },
    )
}

/// A tree as text. Text stands as it is. An element without a child sequence is
/// its tag, closing itself. An element with children is its opening tag on a line
/// of its own, the renderings of the children, each indented and on lines of its
/// own, and the closing tag on a line of its own.
pub open spec fn render(x: XmlView) -> Seq<char>
    decreases x, 1nat,
{
    match x {
        XmlView::Text(text) => text,
        XmlView::Element(tag, None) => tag_text(tag, true),
        XmlView::Element(tag, Some(children)) => tag_text(tag, false) + seq!['\n'] + join(
            blocks(children),
            seq!['\n'],
        ) + seq!['\n', '<', '/'] + tag.name + seq!['>'],
    }
}

/// Appends `text` with every line indented by one unit.
pub fn push_indented(out: &mut String, text: &str)
    ensures
        final(out)@ == old(out)@ + indent(text@),
{
    let input = Input::new(text);
    let buf = input.chars();
    let ghost before = out@;
    let ghost all = lines(text@);
    let ghost done: Seq<Seq<char>> = Seq::empty();
    let mut pos: usize = 0;
    proof {
        reveal_strlit("\n");
        reveal_strlit("    ");
        assert("\n"@ =~= seq!['\n']);
        assert("    "@ =~= indentation());
    }
    while pos < buf.len()
        invariant
            buf@ == text@,
            input@ == text@,
            pos <= buf.len(),
            all == lines(text@),
            all == done + lines_from(text@, pos as int),
            (pos == 0) == (done.len() == 0),
            "\n"@ == seq!['\n'],
            "    "@ == indentation(),
            out@ == before + join(Seq::new(done.len(), |i: int| indentation() + done[i]), seq!['\n']),
        decreases buf.len() - pos,
    {
        let end = scan(buf, pos, CharClass::Line);
        let stop = if end < buf.len() && end > pos && buf[end - 1] == '\r' {
            end - 1
        } else {
            end
        };
        let ghost line = text@.subrange(pos as int, stop as int);
        proof {
            if end < buf.len() {
                let raw = text@.subrange(pos as int, end as int);
                assert(strip_carriage_return(raw) =~= line);
                assert(lines_from(text@, pos as int) == seq![line] + lines_from(text@, end + 1));
            } else {
                assert(lines_from(text@, pos as int) == seq![line]);
                assert(lines_from(text@, end + 1) == Seq::<Seq<char>>::empty());
            }
            assert(all =~= done.push(line) + lines_from(text@, end + 1));
        }
        if pos > 0 {
            out.append("\n");
        }
        out.append("    ");
        out.append(input.slice(pos, stop));
        proof {
            let old_parts = Seq::new(done.len(), |i: int| indentation() + done[i]);
            let grown = done.push(line);
            let new_parts = Seq::new(grown.len(), |i: int| indentation() + grown[i]);
            assert(new_parts.drop_last() =~= old_parts);
            assert(new_parts.last() == indentation() + line);
            if done.len() == 0 {
                assert(join(old_parts, seq!['\n']) =~= Seq::<char>::empty());
                assert(out@ =~= before + join(new_parts, seq!['\n']));
            } else {
                assert(pos > 0);
                assert(out@ =~= before + join(new_parts, seq!['\n']));
            }
            done = grown;
        }
        pos = if end < buf.len() {
            end + 1
        } else {
            end
        };
    }
    proof {
        assert(lines_from(text@, pos as int) =~= Seq::<Seq<char>>::empty());
        assert(all =~= done);
    }
}

/// Appends the tag as text, see [`tag_text`].
pub fn tag_to_string(out: &mut String, tag: &Tag, is_self_closed: bool)
    ensures
        final(out)@ == old(out)@ + tag_text(tag@, is_self_closed),
{
    let ghost name = tag@.name;
    let ghost entries = tag@.attributes;
    proof {
        reveal_strlit(" ");
        reveal_strlit("=\"");
        reveal_strlit("\"");
        reveal_strlit("<");
        reveal_strlit("/>");
        reveal_strlit(">");
        assert(" "@ =~= seq![' ']);
        assert("=\""@ =~= seq!['=', '"']);
        assert("\""@ =~= seq!['"']);
        assert("<"@ =~= seq!['<']);
        assert("/>"@ =~= seq!['/', '>']);
        assert(">"@ =~= seq!['>']);
    }
    let mut inner = String::new();
    inner.append(tag.value.as_str());
    inner.append(" ");
    let count = tag.attributes.len();
    let mut i: usize = 0;
    assert(inner@ =~= name + seq![' '] + join(
        Seq::new(0, |j: int| attribute_text(entries[j])),
        seq![' '],
    ));
    while i < count
        invariant
            i <= count,
            count == entries.len(),
            entries == tag.attributes@,
            " "@ == seq![' '],
            "=\""@ == seq!['=', '"'],
            "\""@ == seq!['"'],
            inner@ == name + seq![' '] + join(
                Seq::new(i as nat, |j: int| attribute_text(entries[j])),
                seq![' '],
            ),
        decreases count - i,
    {
        let ghost before = inner@;
        if i > 0 {
            inner.append(" ");
        }
        inner.append(tag.attributes.key(i));
        inner.append("=\"");
        inner.append(tag.attributes.value(i));
        inner.append("\"");
        proof {
            let old_parts = Seq::new(i as nat, |j: int| attribute_text(entries[j]));
            let new_parts = Seq::new((i + 1) as nat, |j: int| attribute_text(entries[j]));
            assert(new_parts.drop_last() =~= old_parts);
            assert(new_parts.last() == attribute_text(entries[i as int]));
            if i == 0 {
                assert(join(old_parts, seq![' ']) =~= Seq::<char>::empty());
                assert(inner@ =~= before + attribute_text(entries[i as int]));
            } else {
                assert(inner@ =~= before + seq![' '] + attribute_text(entries[i as int]));
            }
            assert(inner@ =~= name + seq![' '] + join(new_parts, seq![' ']));
        }
        i += 1;
    }
    let input = Input::new(inner.as_str());
    let span = trim_span(input.chars(), 0, input.len());
    let ghost before = out@;
    out.append("<");
    out.append(input.slice(span.lo, span.hi));
    if is_self_closed {
        out.append("/>");
    } else {
        out.append(">");
    }
    proof {
        assert(Seq::new(count as nat, |j: int| attribute_text(entries[j])) =~= Seq::new(
            entries.len(),
            |j: int| attribute_text(entries[j]),
        ));
        assert(inner@ == name + seq![' '] + attributes_text(entries));
        assert(out@ =~= before + tag_text(tag@, is_self_closed));
    }
}

/// The tree as text, see [`render`].
pub fn render_node(x: &Xml) -> (out: String)
    ensures
        out@ == render(x@),
    decreases x,
{
    match x {
        Xml::Text(text) => text.clone(),
        Xml::Element(tag, None) => {
            let mut out = String::new();
            tag_to_string(&mut out, tag, true);
            assert(out@ =~= tag_text(tag@, true));
            out
        },
        Xml::Element(tag, Some(children)) => {
            let ghost kids = views(children@);
            proof {
                reveal_strlit("\n");
                reveal_strlit("\n</");
                reveal_strlit(">");
                assert("\n"@ =~= seq!['\n']);
                assert("\n</"@ =~= seq!['\n', '<', '/']);
                assert(">"@ =~= seq!['>']);
            }
            let mut out = String::new();
            tag_to_string(&mut out, tag, false);
            out.append("\n");
            let mut i: usize = 0;
            assert(join(blocks(kids).take(0), seq!['\n']) =~= Seq::<char>::empty());
            assert(out@ =~= tag_text(tag@, false) + seq!['\n'] + join(
                blocks(kids).take(0),
                seq!['\n'],
            ));
            while i < children.len()
                invariant
                    i <= children.len(),
                    decreases_to!(*x => *children),
                    kids == views(children@),
                    "\n"@ == seq!['\n'],
                    out@ == tag_text(tag@, false) + seq!['\n'] + join(
                        blocks(kids).take(i as int),
                        seq!['\n'],
                    ),
                decreases children.len() - i,
            {
                let ghost before = out@;
                if i > 0 {
                    out.append("\n");
                }
                let child = render_node(&children[i]);
                push_indented(&mut out, child.as_str());
                proof {
                    let old_parts = blocks(kids).take(i as int);
                    let new_parts = blocks(kids).take(i + 1);
                    assert(new_parts.drop_last() =~= old_parts);
                    assert(new_parts.last() == indent(render(kids[i as int])));
                    if i == 0 {
                        assert(join(old_parts, seq!['\n']) =~= Seq::<char>::empty());
                        assert(out@ =~= before + indent(child@));
                    } else {
                        assert(out@ =~= before + seq!['\n'] + indent(child@));
                    }
                    assert(out@ =~= tag_text(tag@, false) + seq!['\n'] + join(
                        new_parts,
                        seq!['\n'],
                    ));
                }
                i += 1;
            }
            let ghost before = out@;
            out.append("\n</");
            out.append(tag.value.as_str());
            out.append(">");
            proof {
                lemma_element_view(*tag, *children);
                assert(blocks(kids).take(i as int) =~= blocks(kids));
                assert(out@ =~= before + seq!['\n', '<', '/'] + tag@.name + seq!['>']);
            }
            out
        },
    }
}

/// The tree as text: each level of nesting indented by four spaces, the
/// attributes in their order, text content as it is.
pub fn to_string(x: Xml) -> (s: String)
    ensures
        s@ == render(x@),
{
    render_node(&x)
}

} // verus!
