use fastry::string_map::StringMap;
use fastry::text::{
    contains_char, is_space, same_text, split_on, split_on_text, split_once_on, starts_with_char, trimmed,
};

#[test]
fn split_at_a_character() {
    assert_eq!(split_on("/a//b/", '/'), vec!["", "a", "", "b", ""]);
    assert_eq!(split_on("", '/'), vec![""]);
    assert_eq!(split_on("abc", '/'), vec!["abc"]);
    assert_eq!(split_on("é/ü", '/'), vec!["é", "ü"]);
}

#[test]
fn split_once_at_a_character() {
    assert_eq!(split_once_on("a=b=c", '='), Some(("a".to_string(), "b=c".to_string())));
    assert_eq!(split_once_on("=", '='), Some((String::new(), String::new())));
    assert_eq!(split_once_on("abc", '='), None);
    assert_eq!(split_once_on("", '='), None);
}

#[test]
fn split_at_a_text() {
    assert_eq!(split_on_text("a\r\nb\r\n\r\nc", "\r\n"), vec!["a", "b", "", "c"]);
    assert_eq!(split_on_text("aaa", "aa"), vec!["", "a"]);
    assert_eq!(split_on_text("", "ab"), vec![""]);
    assert_eq!(split_on_text("a\rb", "\r\n"), vec!["a\rb"]);
}

#[test]
fn characters_of_a_text() {
    assert!(contains_char("a<b", '<'));
    assert!(!contains_char("ab", '<'));
    assert!(!contains_char("", '<'));
    assert!(starts_with_char("<id>", '<'));
    assert!(!starts_with_char("a<", '<'));
    assert!(!starts_with_char("", '<'));
    assert!(same_text("abc", "abc"));
    assert!(!same_text("abc", "abd"));
}

#[test]
fn white_space_is_that_of_the_standard_library() {
    for code in 0..0x3100u32 {
        if let Some(c) = char::from_u32(code) {
            assert_eq!(is_space(c), c.is_whitespace(), "character {:x}", code);
        }
    }
    for s in ["", " ", "  a b \t\r\n", "\u{a0}x\u{3000}", "abc", " \u{85} "] {
        assert_eq!(trimmed(s), s.trim());
    }
}

#[test]
fn string_map_keeps_one_value_per_key() {
    let mut m = StringMap::new();
    assert!(m.is_empty());
    assert_eq!(m.len(), 0);
    m.insert("a".to_string(), "1".to_string());
    m.insert("b".to_string(), "2".to_string());
    m.insert("a".to_string(), "3".to_string());
    assert!(!m.is_empty());
    assert_eq!(m.len(), 2);
    assert_eq!(m.get("a").map(|s| s.as_str()), Some("3"));
    assert_eq!(m.get("b").map(|s| s.as_str()), Some("2"));
    assert_eq!(m.get("c"), None);
    assert!(m.contains_key("b"));
    assert!(!m.contains_key(""));
    let mut pairs = m.to_pairs();
    pairs.sort();
    assert_eq!(pairs, vec![("a".to_string(), "3".to_string()), ("b".to_string(), "2".to_string())]);
}
