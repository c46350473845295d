//! Text and maps keyed by text.

use cloudscraper_rs::text;
use cloudscraper_rs::text_map::TextMap;

#[test]
fn trimming_is_that_of_std() {
    for s in ["", " ", "a", " a b ", "\u{2003}x\u{3000}", "\u{200b}x", "\t\n x\r\u{85}", "a\u{a0}"] {
        assert_eq!(text::trimmed(s), s.trim());
    }
}

#[test]
fn searching_is_that_of_std() {
    for (hay, needle) in [
        ("", ""), ("abc", ""), ("abc", "abc"), ("abc", "bc"), ("abc", "abcd"), ("aab", "ab"),
        ("\u{e9}t\u{e9}", "t\u{e9}"), ("", "a"),
    ] {
        assert_eq!(text::contains(hay, needle), hay.contains(needle));
    }
}

#[test]
fn splitting_and_joining_are_those_of_std() {
    for s in ["", ",", "a", "a,b", ",a,,b,", "\u{e9},x"] {
        let pieces: Vec<String> = s.split(',').map(str::to_string).collect();
        assert_eq!(text::pieces(s, ','), pieces);
        assert_eq!(text::joined(&pieces, ", "), pieces.join(", "));
    }
    assert_eq!(text::joined(&vec![], ", "), "");
}

#[test]
fn case_is_that_of_ascii() {
    for s in ["", "abc", "ABC", "MiXed 123", "\u{c9}T\u{c9}", "[@Z`"] {
        assert_eq!(text::to_lower(s), s.to_ascii_lowercase());
    }
    assert!(text::same_ignoring_case("AbC", "aBc"));
    assert!(!text::same_ignoring_case("\u{c9}", "\u{e9}"));
    assert!(text::same("a", "a"));
    assert!(!text::same("a", "A"));
}

#[test]
fn leading_characters_are_stripped() {
    for s in ["", ".", "..a.", "a.", ".a"] {
        assert_eq!(text::without_leading(s, '.'), s.trim_start_matches('.'));
    }
}

#[test]
fn decimals_are_those_of_std() {
    for n in [0usize, 7, 9, 10, 42, 100, 12345, usize::MAX] {
        assert_eq!(text::decimal_of(n), n.to_string());
    }
}

#[test]
fn maps_hold_one_value_per_key() {
    let mut map: TextMap<u32> = TextMap::new();
    assert!(map.is_empty());
    map.insert("a".to_string(), 1);
    map.insert("b".to_string(), 2);
    map.insert("a".to_string(), 3);
    assert_eq!(map.len(), 2);
    assert_eq!(map.get("a"), Some(&3));
    assert_eq!(map.get("b"), Some(&2));
    assert_eq!(map.get("c"), None);
    assert!(map.contains_key("a"));
    assert_eq!(map.remove("a"), Some(3));
    assert_eq!(map.remove("a"), None);
    assert!(!map.contains_key("a"));
    assert_eq!(map.len(), 1);
}
