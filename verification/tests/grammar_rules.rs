use tiled_parse::attributes::{Attributes, AttributesRef};
use tiled_parse::error::{ErrorKind, ParseError};
use tiled_parse::parse::{
    doc_type, root, root_ref, root_ref_with_depth, root_with_depth, xml_meta, DEFAULT_MAX_DEPTH,
};
use tiled_parse::types::{Tag, TagRef, Xml, XmlRef};

fn tag(name: &str, pairs: &[(&str, &str)]) -> Tag {
    let mut attributes = Attributes::new();
    for (k, v) in pairs {
        attributes.insert(k.to_string(), v.to_string());
    }
    Tag {
        value: name.to_string(),
        attributes,
    }
}

fn tag_ref<'a>(name: &'a str, pairs: &[(&'a str, &'a str)]) -> TagRef<'a> {
    let mut attributes = AttributesRef::new();
    for (k, v) in pairs {
        attributes.insert(k, v);
    }
    TagRef {
        value: name,
        attributes,
    }
}

fn fatal(position: usize, kind: ErrorKind) -> ParseError {
    ParseError {
        position,
        kind,
        fatal: true,
    }
}

#[test]
fn self_closing_tag_has_no_child_sequence() {
    let parsed = Xml::from_input_str("<price val=\"19.95\"/>").unwrap();
    assert_eq!(parsed, Xml::Element(tag("price", &[("val", "19.95")]), None));
    assert_ne!(
        parsed,
        Xml::Element(tag("price", &[("val", "19.95")]), Some(vec![]))
    );
}

#[test]
fn paired_tags_without_content_have_an_empty_child_sequence() {
    assert_eq!(
        Xml::from_input_str("<a></a>").unwrap(),
        Xml::Element(tag("a", &[]), Some(vec![]))
    );
    assert_eq!(
        Xml::from_input_str("<a>  \n </a>").unwrap(),
        Xml::Element(tag("a", &[]), Some(vec![]))
    );
}

#[test]
fn siblings_of_one_name_stay_in_document_order() {
    let parsed = Xml::from_input_str(
        "<prices><price v=\"1\"/><price v=\"2\"/><price v=\"3\"/><price v=\"4\"/></prices>",
    )
    .unwrap();
    match parsed {
        Xml::Element(_, Some(children)) => {
            assert_eq!(children.len(), 4);
            assert_eq!(children[0], Xml::Element(tag("price", &[("v", "1")]), None));
            assert_eq!(children[1], Xml::Element(tag("price", &[("v", "2")]), None));
            assert_eq!(children[2], Xml::Element(tag("price", &[("v", "3")]), None));
            assert_eq!(children[3], Xml::Element(tag("price", &[("v", "4")]), None));
        }
        _ => panic!("an element with children was expected"),
    }
}

#[test]
fn closing_tag_of_another_name_is_fatal() {
    assert_eq!(
        Xml::from_input_str("<a></b>"),
        Err(fatal(5, ErrorKind::ClosingTag))
    );
    assert_eq!(
        XmlRef::from_input_str("<a></b>"),
        Err(fatal(5, ErrorKind::ClosingTag))
    );
}

#[test]
fn closing_tag_is_compared_without_case_folding() {
    assert_eq!(
        Xml::from_input_str("<a></A>"),
        Err(fatal(5, ErrorKind::ClosingTag))
    );
}

#[test]
fn closing_tag_failure_of_a_nested_element_is_reported_where_it_stands() {
    assert_eq!(
        Xml::from_input_str("<a><b></c></a>"),
        Err(fatal(8, ErrorKind::ClosingTag))
    );
}

#[test]
fn missing_closing_tag_is_fatal() {
    assert_eq!(
        Xml::from_input_str("<a>text"),
        Err(fatal(7, ErrorKind::ClosingTag))
    );
    assert_eq!(
        Xml::from_input_str("<a></a"),
        Err(fatal(6, ErrorKind::ClosingTag))
    );
}

#[test]
fn last_occurrence_of_an_attribute_wins() {
    let parsed = Xml::from_input_str("<t a=\"1\" a=\"2\"/>").unwrap();
    match &parsed {
        Xml::Element(t, None) => {
            assert_eq!(t.attributes.len(), 1);
            assert_eq!(t.attributes.get("a"), Some("2"));
        }
        _ => panic!("a self-closing element was expected"),
    }
    assert_eq!(parsed, Xml::Element(tag("t", &[("a", "2")]), None));
}

#[test]
fn repeated_attribute_keeps_its_first_place() {
    let parsed = Xml::from_input_str("<t a=\"1\" b=\"x\" a=\"2\"/>").unwrap();
    match parsed {
        Xml::Element(t, None) => {
            assert_eq!(t.attributes.len(), 2);
            assert_eq!(t.attributes.key(0), "a");
            assert_eq!(t.attributes.value(0), "2");
            assert_eq!(t.attributes.key(1), "b");
            assert_eq!(t.attributes.value(1), "x");
        }
        _ => panic!("a self-closing element was expected"),
    }
}

#[test]
fn declarations_before_the_root_leave_no_trace() {
    let parsed =
        Xml::from_input_str("<?xml version=\"1.0\"?>\n<!DOCTYPE map SYSTEM \"m.dtd\">\n<map/>")
            .unwrap();
    assert_eq!(parsed, Xml::Element(tag("map", &[]), None));
    let parsed = Xml::from_input_str("<!DOCTYPE map><?xml version=\"1.0\"?><map/>").unwrap();
    assert_eq!(parsed, Xml::Element(tag("map", &[]), None));
    let parsed = Xml::from_input_str("<map/>").unwrap();
    assert_eq!(parsed, Xml::Element(tag("map", &[]), None));
}

#[test]
fn text_is_trimmed() {
    assert_eq!(
        Xml::from_input_str("<a>   Nice sweater   </a>").unwrap(),
        Xml::Element(
            tag("a", &[]),
            Some(vec![Xml::Text("Nice sweater".to_string())])
        )
    );
}

#[test]
fn text_keeps_inner_white_space_and_loses_unicode_white_space_at_its_ends() {
    assert_eq!(
        Xml::from_input_str("<a>x\u{a0}y \n z\u{2003}</a>").unwrap(),
        Xml::Element(
            tag("a", &[]),
            Some(vec![Xml::Text("x\u{a0}y \n z".to_string())])
        )
    );
}

#[test]
fn text_of_other_white_space_alone_is_empty_text() {
    assert_eq!(
        Xml::from_input_str("<a>\u{b}</a>").unwrap(),
        Xml::Element(tag("a", &[]), Some(vec![Xml::Text(String::new())]))
    );
}

#[test]
fn text_and_elements_interleave_in_order() {
    assert_eq!(
        Xml::from_input_str("<a>one<b/>two<c></c> three </a>").unwrap(),
        Xml::Element(
            tag("a", &[]),
            Some(vec![
                Xml::Text("one".to_string()),
                Xml::Element(tag("b", &[]), None),
                Xml::Text("two".to_string()),
                Xml::Element(tag("c", &[]), Some(vec![])),
                Xml::Text("three".to_string()),
            ])
        )
    );
}

#[test]
fn ampersand_and_greater_than_end_text_and_fail_the_element() {
    assert_eq!(
        Xml::from_input_str("<a>x&amp;</a>"),
        Err(fatal(4, ErrorKind::ClosingTag))
    );
    assert_eq!(
        Xml::from_input_str("<a>x></a>"),
        Err(fatal(4, ErrorKind::ClosingTag))
    );
}

#[test]
fn borrowed_and_owned_parsers_agree() {
    let accepted = [
        "<a/>",
        " <?xml v=\"1\"?> <a b='c' d = \"e\" ><f>g</f> h <i/></a> tail",
        "<a x=\"1\\\"2\"/>",
        "<\u{e9}t\u{e9} k-1=\"v\">\u{4e2d}\u{6587}</\u{e9}t\u{e9}>",
    ];
    for input in accepted {
        let (rest_owned, owned) = root(input).unwrap();
        let (rest_borrowed, borrowed) = root_ref(input).unwrap();
        assert_eq!(rest_owned, rest_borrowed);
        assert!(same_tree(&owned, &borrowed));
    }
    let rejected = ["", "<a>", "<a></b>", "<a b=c/>", "<a b/>", "text", "<a b=\"\"/>", "< a/>"];
    for input in rejected {
        let owned = root(input).unwrap_err();
        let borrowed = root_ref(input).unwrap_err();
        assert_eq!(owned, borrowed);
        assert!(owned.fatal);
    }
}

fn same_tree(owned: &Xml, borrowed: &XmlRef) -> bool {
    match (owned, borrowed) {
        (Xml::Text(a), XmlRef::Text(b)) => a == b,
        (Xml::Element(t, c), XmlRef::Element(u, d)) => {
            t.value == u.value
                && t.attributes.len() == u.attributes.len()
                && (0..t.attributes.len()).all(|i| {
                    t.attributes.key(i) == u.attributes.key(i)
                        && t.attributes.value(i) == u.attributes.value(i)
                })
                && match (c, d) {
                    (None, None) => true,
                    (Some(x), Some(y)) => {
                        x.len() == y.len() && x.iter().zip(y.iter()).all(|(p, q)| same_tree(p, q))
                    }
                    _ => false,
                }
        }
        _ => false,
    }
}

#[test]
fn borrowed_tree_of_a_document() {
    let input = "<a b=\"c\"> d <e/></a>";
    assert_eq!(
        XmlRef::from_input_str(input).unwrap(),
        XmlRef::Element(
            tag_ref("a", &[("b", "c")]),
            Some(vec![
                XmlRef::Text("d"),
                XmlRef::Element(tag_ref("e", &[]), None)
            ])
        )
    );
}

#[test]
fn root_returns_what_follows_the_root_element() {
    let (rest, tree) = root("  <a/>  \n<b/> more").unwrap();
    assert_eq!(tree, Xml::Element(tag("a", &[]), None));
    assert_eq!(rest, "<b/> more");
    let (rest, _) = root("<a/>").unwrap();
    assert_eq!(rest, "");
    let (rest, _) = root_ref("<a></a>\u{e9}\u{e9}").unwrap();
    assert_eq!(rest, "\u{e9}\u{e9}");
}

#[test]
fn quotes_need_not_agree() {
    assert_eq!(
        Xml::from_input_str("<a b='c\" d=\"e'/>").unwrap(),
        Xml::Element(tag("a", &[("b", "c"), ("d", "e")]), None)
    );
}

#[test]
fn escaped_units_stay_as_written() {
    assert_eq!(
        Xml::from_input_str("<a b=\"x\\\"y\" c=\"p\\nq\" d=\"r\\\\\"/>").unwrap(),
        Xml::Element(
            tag("a", &[("b", "x\\\"y"), ("c", "p\\nq"), ("d", "r\\\\")]),
            None
        )
    );
}

#[test]
fn backslash_before_another_character_is_an_ordinary_character() {
    assert_eq!(
        Xml::from_input_str("<a b=\"C:\\dir\" c='x\\'/>").unwrap(),
        Xml::Element(tag("a", &[("b", "C:\\dir"), ("c", "x\\")]), None)
    );
}

#[test]
fn empty_attribute_value_is_fatal() {
    assert_eq!(
        Xml::from_input_str("<a b=\"\"/>"),
        Err(fatal(6, ErrorKind::AttributeValue))
    );
}

#[test]
fn attribute_without_value_is_fatal() {
    assert_eq!(
        Xml::from_input_str("<a b/>"),
        Err(fatal(4, ErrorKind::Equals))
    );
    assert_eq!(
        Xml::from_input_str("<a b=c/>"),
        Err(fatal(5, ErrorKind::Quote))
    );
    assert_eq!(
        Xml::from_input_str("<a b=\"c/>"),
        Err(fatal(9, ErrorKind::Quote))
    );
}

#[test]
fn attribute_failure_inside_a_child_aborts_the_parse() {
    assert_eq!(
        Xml::from_input_str("<a><b c=></b></a>"),
        Err(fatal(8, ErrorKind::Quote))
    );
}

#[test]
fn each_rule_reports_its_kind() {
    assert_eq!(Xml::from_input_str(""), Err(fatal(0, ErrorKind::TagOpen)));
    assert_eq!(
        Xml::from_input_str("  text"),
        Err(fatal(2, ErrorKind::TagOpen))
    );
    assert_eq!(Xml::from_input_str("< a/>"), Err(fatal(1, ErrorKind::Key)));
    assert_eq!(
        Xml::from_input_str("<a !>"),
        Err(fatal(3, ErrorKind::TagEnd))
    );
    assert_eq!(
        Xml::from_input_str("<?xml?"),
        Err(fatal(1, ErrorKind::Key))
    );
}

#[test]
fn names_may_hold_letters_digits_underscore_and_hyphen() {
    assert_eq!(
        Xml::from_input_str("<a_b-9 x-y_1=\"z\"/>").unwrap(),
        Xml::Element(tag("a_b-9", &[("x-y_1", "z")]), None)
    );
    assert_eq!(
        Xml::from_input_str("<a.b/>"),
        Err(fatal(2, ErrorKind::TagEnd))
    );
}

#[test]
fn names_may_hold_letters_beyond_ascii() {
    assert_eq!(
        Xml::from_input_str("<\u{e9}\u{3b1}\u{663}/>").unwrap(),
        Xml::Element(tag("\u{e9}\u{3b1}\u{663}", &[]), None)
    );
    assert_eq!(
        Xml::from_input_str("<a\u{2014}b/>"),
        Err(fatal(2, ErrorKind::TagEnd))
    );
}

#[test]
fn nesting_limit_is_enforced() {
    let doc = "<a><b><c/></b></a>";
    assert!(root_with_depth(doc, 3).is_ok());
    assert_eq!(
        root_with_depth(doc, 2).map(|(_, x)| x),
        Err(fatal(6, ErrorKind::Nesting))
    );
    assert_eq!(
        root_ref_with_depth(doc, 2).map(|(_, x)| x),
        Err(fatal(6, ErrorKind::Nesting))
    );
    assert_eq!(
        root_with_depth("<a/>", 0).map(|(_, x)| x),
        Err(fatal(0, ErrorKind::Nesting))
    );
    assert!(root_with_depth("<a></a>", 1).is_ok());
}

#[test]
fn default_nesting_limit() {
    assert_eq!(DEFAULT_MAX_DEPTH, 1024);
    let deep = "<a>".repeat(1024) + &"</a>".repeat(1024);
    assert!(root(&deep).is_ok());
    let deeper = "<a>".repeat(1025) + &"</a>".repeat(1025);
    assert_eq!(
        root(&deeper).map(|(_, x)| x),
        Err(fatal(3 * 1024, ErrorKind::Nesting))
    );
}

#[test]
fn declaration_content_and_rest() {
    assert_eq!(
        xml_meta("  <?xml version=\"1.0\"?><a/>"),
        Ok(("<a/>", "xml version=\"1.0\""))
    );
    assert_eq!(
        xml_meta("<a/>"),
        Err(ParseError {
            position: 0,
            kind: ErrorKind::Declaration,
            fatal: false
        })
    );
    assert_eq!(
        xml_meta("<??>"),
        Err(ParseError {
            position: 2,
            kind: ErrorKind::Declaration,
            fatal: false
        })
    );
    assert_eq!(
        xml_meta("<?xml>"),
        Err(ParseError {
            position: 5,
            kind: ErrorKind::Declaration,
            fatal: false
        })
    );
}

#[test]
fn doc_type_content_and_rest() {
    assert_eq!(
        doc_type("\n<!DOCTYPE map SYSTEM \"map.dtd\"> <map/>"),
        Ok((" <map/>", " map SYSTEM \"map.dtd\""))
    );
    assert_eq!(
        doc_type("<!doctype map>"),
        Err(ParseError {
            position: 0,
            kind: ErrorKind::DocType,
            fatal: false
        })
    );
    assert_eq!(
        doc_type("<!DOCTYPE>"),
        Err(ParseError {
            position: 9,
            kind: ErrorKind::DocType,
            fatal: false
        })
    );
    assert_eq!(
        doc_type("<!DOCTYPE a?>"),
        Err(ParseError {
            position: 11,
            kind: ErrorKind::DocType,
            fatal: false
        })
    );
}

#[test]
fn positions_count_characters() {
    assert_eq!(
        Xml::from_input_str("<\u{e9}></b>"),
        Err(fatal(5, ErrorKind::ClosingTag))
    );
}

#[test]
fn node_queries() {
    let element = Xml::from_tag(tag("map", &[]));
    assert_eq!(element, Xml::Element(tag("map", &[]), None));
    assert!(element.is_element());
    assert!(element.tag_has_name("map"));
    assert!(!element.tag_has_name("Map"));
    assert!(!element.tag_has_name("ma"));
    let text = Xml::Text("map".to_string());
    assert!(!text.is_element());
    assert!(!text.tag_has_name("map"));

    let element = XmlRef::from_tag(tag_ref("map", &[]));
    assert_eq!(element, XmlRef::Element(tag_ref("map", &[]), None));
    assert!(element.is_element());
    assert!(element.tag_has_name("map"));
    assert!(!element.tag_has_name("maps"));
    let text = XmlRef::Text("map");
    assert!(!text.is_element());
    assert!(!text.tag_has_name("map"));
}

#[test]
fn clones_are_equal() {
    let tree = Xml::from_input_str("<a b=\"c\"><d/>e</a>").unwrap();
    assert_eq!(tree.clone(), tree);
    let tree = XmlRef::from_input_str("<a b=\"c\"><d/>e</a>").unwrap();
    assert_eq!(tree.clone(), tree);
}

#[test]
fn error_kinds_have_names() {
    assert_eq!(ErrorKind::AttributeValue.name(), "attribute_value");
    assert_eq!(ErrorKind::ClosingTag.name(), "closing_tag");
    assert_eq!(ErrorKind::Nesting.name(), "nesting");
    let e = ParseError::recoverable(3, ErrorKind::Key);
    assert!(!e.fatal);
    assert_eq!(e.commit(), ParseError::fatal(3, ErrorKind::Key));
}

#[test]
fn large_document_is_read_by_both_parsers() {
    let mut doc = String::from("<?xml version=\"1.0\"?>\n<map width=\"100\" height=\"100\">\n");
    for i in 0..5000 {
        doc.push_str(&format!(
            "  <tile id=\"{}\" name=\"t\u{e9}{}\"><p k=\"v\"/>text {}</tile>\n",
            i, i, i
        ));
    }
    doc.push_str("</map>\n");
    let (rest, owned) = root(&doc).unwrap();
    assert_eq!(rest, "");
    let (_, borrowed) = root_ref(&doc).unwrap();
    assert!(same_tree(&owned, &borrowed));
    match owned {
        Xml::Element(t, Some(children)) => {
            assert_eq!(t.attributes.get("height"), Some("100"));
            assert_eq!(children.len(), 5000);
            assert_eq!(
                children[4999],
                Xml::Element(
                    tag("tile", &[("id", "4999"), ("name", "t\u{e9}4999")]),
                    Some(vec![
                        Xml::Element(tag("p", &[("k", "v")]), None),
                        Xml::Text("text 4999".to_string())
                    ])
                )
            );
        }
        _ => panic!("an element with children was expected"),
    }
}
