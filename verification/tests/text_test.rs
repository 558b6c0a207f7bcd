use hyboard_bridge::strmap::StrMap;
use hyboard_bridge::text::{chars_of, decimal_chars, parse_u32_str, string_of, to_lowercase, trim_chars};

#[test]
fn decimal_and_parse() {
    assert_eq!(string_of(&decimal_chars(0)), "0");
    assert_eq!(string_of(&decimal_chars(4294967295)), "4294967295");
    assert_eq!(parse_u32_str("4294967295"), Some(u32::MAX));
    assert_eq!(parse_u32_str("4294967296"), None);
    assert_eq!(parse_u32_str("+7"), Some(7));
    assert_eq!(parse_u32_str("+"), None);
    assert_eq!(parse_u32_str(""), None);
    assert_eq!(parse_u32_str("-1"), None);
    assert_eq!(parse_u32_str(" 1"), None);
    assert_eq!(parse_u32_str("007"), Some(7));
}

#[test]
fn trim_matches_std() {
    for s in ["", "  ", " a b ", "\u{3000}x\u{85}", "\tq\n", "x"] {
        assert_eq!(string_of(&trim_chars(&chars_of(s))), s.trim());
    }
}

#[test]
fn lowercase_is_std_lowercase() {
    assert_eq!(to_lowercase("ÀBC-Def"), "àbc-def");
}

#[test]
fn strmap_keeps_insertion_order_and_replaces_values() {
    let mut m: StrMap<u32> = StrMap::new();
    assert!(m.is_empty());
    m.insert("b".to_string(), 1);
    m.insert("a".to_string(), 2);
    m.insert("b".to_string(), 3);
    assert_eq!(m.len(), 2);
    assert_eq!(m.get("b"), Some(&3));
    assert_eq!(m.get("c"), None);
    assert!(m.contains_key("a"));
    let (k, v) = m.entry_at(0);
    assert_eq!((k.as_str(), *v), ("b", 3));
    assert_eq!(m.position("a"), Some(1));
}
