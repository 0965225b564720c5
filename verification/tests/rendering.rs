use tiled_parse::attributes::Attributes;
use tiled_parse::serialize::{push_indented, render_node, tag_to_string, to_string, INDENTATION};
use tiled_parse::types::{Tag, Xml};

fn tag(name: &str, pairs: &[(&str, &str)]) -> Tag {
    let mut attributes = Attributes::new();
    for (k, v) in pairs {
        attributes.insert(k.to_string(), v.to_string());
    }
    Tag {
        value: name.to_string(),
        attributes,
    }
}

fn text(s: &str) -> Xml {
    Xml::Text(s.to_string())
}

fn indented(s: &str) -> String {
    let mut out = String::from("[");
    push_indented(&mut out, s);
    out
}

#[test]
fn self_closing_element_is_one_line() {
    assert_eq!(
        to_string(Xml::Element(tag("price", &[("val", "19.95"), ("cur", "EUR")]), None)),
        "<price val=\"19.95\" cur=\"EUR\"/>"
    );
    assert_eq!(to_string(Xml::Element(tag("br", &[]), None)), "<br/>");
}

#[test]
fn text_is_rendered_as_it_is() {
    assert_eq!(to_string(text("a < b & c")), "a < b & c");
    assert_eq!(to_string(text("")), "");
}

#[test]
fn children_are_indented_by_four_spaces_a_level() {
    assert_eq!(INDENTATION, 4);
    let tree = Xml::Element(
        tag("a", &[("k", "v")]),
        Some(vec![
            text("one"),
            Xml::Element(tag("b", &[]), Some(vec![Xml::Element(tag("c", &[]), None)])),
        ]),
    );
    assert_eq!(
        to_string(tree),
        "<a k=\"v\">\n    one\n    <b>\n        <c/>\n    </b>\n</a>"
    );
}

#[test]
fn element_without_children_keeps_an_empty_line() {
    assert_eq!(
        to_string(Xml::Element(tag("a", &[]), Some(vec![]))),
        "<a>\n\n</a>"
    );
    assert_eq!(
        to_string(Xml::Element(
            tag("r", &[]),
            Some(vec![Xml::Element(tag("a", &[]), Some(vec![]))])
        )),
        "<r>\n    <a>\n    \n    </a>\n</r>"
    );
}

#[test]
fn every_line_of_a_child_is_indented() {
    assert_eq!(
        to_string(Xml::Element(tag("a", &[]), Some(vec![text("x\ny\r\nz")]))),
        "<a>\n    x\n    y\n    z\n</a>"
    );
}

#[test]
fn empty_child_adds_nothing_but_its_separator() {
    assert_eq!(
        to_string(Xml::Element(
            tag("a", &[]),
            Some(vec![text("x"), text(""), text("y")])
        )),
        "<a>\n    x\n\n    y\n</a>"
    );
}

#[test]
fn lines_are_split_as_the_standard_library_splits_them() {
    for sample in [
        "",
        "a",
        "a\n",
        "a\nb",
        "\n",
        "\n\n",
        "a\r\nb\r",
        "\r\n",
        "a\r",
        "\r",
        "a\n\nb\n",
        "a\r\r\nb",
    ] {
        let expected = sample
            .lines()
            .map(|l| " ".repeat(4) + l)
            .collect::<Vec<_>>()
            .join("\n");
        assert_eq!(indented(sample), format!("[{}", expected), "{:?}", sample);
    }
}

#[test]
fn tag_text_is_trimmed_inside() {
    let mut out = String::new();
    tag_to_string(&mut out, &tag(" a", &[("k", "v")]), false);
    assert_eq!(out, "<a k=\"v\">");
    let mut out = String::from("x");
    tag_to_string(&mut out, &tag("a", &[]), true);
    assert_eq!(out, "x<a/>");
}

#[test]
fn render_node_and_to_string_agree() {
    let tree = Xml::Element(tag("a", &[]), Some(vec![text("t")]));
    let by_reference = render_node(&tree);
    assert_eq!(by_reference, to_string(tree));
}

#[test]
fn parsing_the_rendering_gives_the_tree_back() {
    let source = "<map version=\"1.0\" orientation='orthogonal'>
        <tileset firstgid=\"1\" name=\"t\"><image source=\"a.png\"/></tileset>
        <layer name=\"ground\"><data encoding=\"csv\">1,2,3</data></layer>
        <empty></empty>
        note
    </map>";
    let tree = Xml::from_input_str(source).unwrap();
    let again = Xml::from_input_str(&to_string(tree.clone())).unwrap();
    assert_eq!(tree, again);
}

#[test]
fn text_on_several_lines_takes_up_the_indentation() {
    let tree = Xml::from_input_str("<a><b>x\ny</b></a>").unwrap();
    let written = to_string(tree.clone());
    assert_eq!(written, "<a>\n    <b>\n        x\n        y\n    </b>\n</a>");
    let again = Xml::from_input_str(&written).unwrap();
    assert_ne!(again, tree);
    assert_eq!(
        again,
        Xml::Element(
            tag("a", &[]),
            Some(vec![Xml::Element(
                tag("b", &[]),
                Some(vec![text("x\n        y")])
            )])
        )
    );
}

#[test]
fn backslash_at_the_end_of_a_value_takes_the_closing_quote() {
    let tree = Xml::from_input_str("<a b='x\\'/>").unwrap();
    assert_eq!(tree, Xml::Element(tag("a", &[("b", "x\\")]), None));
    let written = to_string(tree);
    assert_eq!(written, "<a b=\"x\\\"/>");
    assert_eq!(
        Xml::from_input_str(&written),
        Err(tiled_parse::error::ParseError {
            position: 11,
            kind: tiled_parse::error::ErrorKind::Quote,
            fatal: true
        })
    );
}
