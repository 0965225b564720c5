use tiled_parse::attributes::{Attributes, AttributesRef};

fn pairs(list: &[(&str, &str)]) -> Vec<(String, String)> {
    list.iter()
        .map(|(k, v)| (k.to_string(), v.to_string()))
        .collect()
}

#[test]
fn insert_overwrites_in_place() {
    let mut a = Attributes::new();
    assert!(a.is_empty());
    a.insert("x".to_string(), "1".to_string());
    a.insert("y".to_string(), "2".to_string());
    a.insert("x".to_string(), "3".to_string());
    assert_eq!(a.len(), 2);
    assert_eq!(a.key(0), "x");
    assert_eq!(a.value(0), "3");
    assert_eq!(a.key(1), "y");
    assert_eq!(a.value(1), "2");
    assert_eq!(a.position("y"), 1);
    assert_eq!(a.position("z"), 2);
    assert!(a.contains_key("x"));
    assert!(!a.contains_key("X"));
    assert_eq!(a.get("y"), Some("2"));
    assert_eq!(a.get("z"), None);
}

#[test]
fn equality_ignores_order() {
    let a = Attributes::from_pairs(pairs(&[("x", "1"), ("y", "2")]));
    let b = Attributes::from_pairs(pairs(&[("y", "2"), ("x", "1")]));
    assert_eq!(a, b);
    assert_eq!(a.clone(), a);
    let c = Attributes::from_pairs(pairs(&[("x", "1"), ("y", "3")]));
    assert_ne!(a, c);
    let d = Attributes::from_pairs(pairs(&[("x", "1")]));
    assert_ne!(a, d);
    assert_ne!(d, a);
    let e = Attributes::from_pairs(pairs(&[("x", "1"), ("z", "2")]));
    assert_ne!(a, e);
    assert_eq!(Attributes::new(), Attributes::from_pairs(vec![]));
}

#[test]
fn from_pairs_lets_the_last_value_stand() {
    let a = Attributes::from_pairs(pairs(&[("k", "1"), ("m", "2"), ("k", "3")]));
    assert_eq!(a, Attributes::from_pairs(pairs(&[("k", "3"), ("m", "2")])));
    assert_eq!(a.len(), 2);
    assert_eq!(a.key(0), "k");
}

#[test]
fn borrowed_attributes() {
    let mut a = AttributesRef::new();
    assert!(a.is_empty());
    a.insert("x", "1");
    a.insert("y", "2");
    a.insert("x", "3");
    assert_eq!(a.len(), 2);
    assert_eq!(a.key(0), "x");
    assert_eq!(a.value(0), "3");
    assert_eq!(a.position("y"), 1);
    assert!(a.contains_key("y"));
    assert_eq!(a.get("x"), Some("3"));
    assert_eq!(a.get("q"), None);
    let b = AttributesRef::from_pairs(vec![("y", "2"), ("x", "0"), ("x", "3")]);
    assert_eq!(a, b);
    assert_eq!(a.clone(), b);
    assert_ne!(a, AttributesRef::from_pairs(vec![("y", "2")]));
}

#[test]
fn keys_beyond_ascii_compare_by_their_characters() {
    let mut a = Attributes::new();
    a.insert("\u{e9}".to_string(), "1".to_string());
    a.insert("e\u{301}".to_string(), "2".to_string());
    a.insert("\u{e9}".to_string(), "3".to_string());
    assert_eq!(a.len(), 2);
    assert_eq!(a.get("\u{e9}"), Some("3"));
}
