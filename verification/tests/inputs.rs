use tiled_parse::input::{utf8_width, Input};
use tiled_parse::lexer::{
    at_char, at_pair, at_str, attribute_key_value, attribute_value, scan, trim_span, value_body,
    whitespace, xml_key, xml_text,
};
use tiled_parse::chars::CharClass;
use tiled_parse::error::{ErrorKind, ParseError};
use tiled_parse::text::{str_eq, Span};

fn chars(s: &str) -> Vec<char> {
    s.chars().collect()
}

#[test]
fn width_of_characters_in_bytes() {
    for c in ['a', '\u{7f}', '\u{80}', '\u{7ff}', '\u{800}', '\u{ffff}', '\u{10000}', '\u{10ffff}'] {
        assert_eq!(utf8_width(c), c.len_utf8());
    }
}

#[test]
fn slices_by_character_positions() {
    let text = "a\u{e9}\u{4e2d}\u{1f600}z";
    let input = Input::new(text);
    assert_eq!(input.len(), 5);
    assert_eq!(input.source(), text);
    assert_eq!(input.chars(), &chars(text));
    assert_eq!(input.slice(0, 5), text);
    assert_eq!(input.slice(1, 2), "\u{e9}");
    assert_eq!(input.slice(2, 4), "\u{4e2d}\u{1f600}");
    assert_eq!(input.slice(4, 5), "z");
    assert_eq!(input.slice(3, 3), "");
    assert_eq!(input.slice(5, 5), "");
    let empty = Input::new("");
    assert_eq!(empty.len(), 0);
    assert_eq!(empty.slice(0, 0), "");
}

#[test]
fn strings_compare_by_their_characters() {
    assert!(str_eq("", ""));
    assert!(str_eq("ab\u{e9}", "ab\u{e9}"));
    assert!(!str_eq("ab", "abc"));
    assert!(!str_eq("abc", "abd"));
    assert!(!str_eq("\u{e9}", "e"));
}

#[test]
fn runs_of_each_class() {
    let buf = chars(" \t\r\nab_-9<x&y>?z\n");
    assert_eq!(whitespace(&buf, 0), 4);
    assert_eq!(whitespace(&buf, 4), 4);
    assert_eq!(scan(&buf, 4, CharClass::Key), 9);
    assert_eq!(scan(&buf, 4, CharClass::Text), 9);
    assert_eq!(scan(&buf, 10, CharClass::Text), 11);
    assert_eq!(scan(&buf, 4, CharClass::Meta), 13);
    assert_eq!(scan(&buf, 4, CharClass::Line), 16);
    assert_eq!(scan(&buf, 17, CharClass::Space), 17);
    assert!(CharClass::Line.admits('\r'));
    assert!(!CharClass::Line.admits('\n'));
}

#[test]
fn looking_at_the_input() {
    let buf = chars("</ab>");
    assert!(at_char(&buf, 0, '<'));
    assert!(!at_char(&buf, 1, '<'));
    assert!(!at_char(&buf, 5, '>'));
    assert!(at_pair(&buf, 0, '<', '/'));
    assert!(!at_pair(&buf, 1, '<', '/'));
    assert!(!at_pair(&buf, 4, '>', '>'));
    assert!(at_str(&buf, 2, "ab"));
    assert!(at_str(&buf, 2, "ab>"));
    assert!(!at_str(&buf, 2, "ab>>"));
    assert!(!at_str(&buf, 2, "ac"));
    assert!(at_str(&buf, 5, ""));
}

#[test]
fn lexical_rules() {
    let buf = chars("key  =  'v a l' <");
    assert_eq!(xml_key(&buf, 0), Ok(3));
    assert_eq!(
        xml_key(&buf, 3),
        Err(ParseError::recoverable(3, ErrorKind::Key))
    );
    assert_eq!(
        attribute_key_value(&buf, 0),
        Ok(((Span { lo: 0, hi: 3 }, Span { lo: 9, hi: 14 }), 15))
    );
    assert_eq!(attribute_value(&buf, 8), Ok((Span { lo: 9, hi: 14 }, 15)));
    assert_eq!(
        attribute_value(&buf, 7),
        Err(ParseError::fatal(7, ErrorKind::Quote))
    );
    assert_eq!(value_body(&buf, 9), 14);
    assert_eq!(xml_text(&buf, 3), Ok((Span { lo: 5, hi: 15 }, 16)));
    assert_eq!(
        xml_text(&buf, 16),
        Err(ParseError::recoverable(16, ErrorKind::Text))
    );
    assert_eq!(trim_span(&buf, 3, 16), Span { lo: 5, hi: 15 });
    assert_eq!(trim_span(&buf, 3, 5), Span { lo: 5, hi: 5 });
}

#[test]
fn value_body_passes_over_escaped_units() {
    let buf = chars("a\\\"b\\\\\"c");
    assert_eq!(value_body(&buf, 0), 6);
    let buf = chars("a\\'b");
    assert_eq!(value_body(&buf, 0), 2);
    let buf = chars("a\\");
    assert_eq!(value_body(&buf, 0), 2);
    let buf = chars("a\\nb\"");
    assert_eq!(value_body(&buf, 0), 4);
}
