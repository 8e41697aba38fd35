use starkeeper::text::{chars_of, contains_str, push_decimal, str_eq, string_of, trim_range};

#[test]
fn decimal_rendering() {
    for n in [0u64, 9, 10, 7357, u64::MAX] {
        let mut s = String::from("x");
        push_decimal(&mut s, n);
        assert_eq!(s, format!("x{n}"));
    }
}

#[test]
fn trimming_matches_str_trim() {
    for text in ["", "  a b  ", "\u{3000}x\u{85}", "\t\r\n", "y"] {
        let v = chars_of(text);
        let (a, b) = trim_range(&v, 0, v.len());
        assert_eq!(string_of(&v, a, b), text.trim());
    }
}

#[test]
fn substring_search() {
    assert!(contains_str("abc is_valid:true", "is_valid:true"));
    assert!(contains_str("x", ""));
    assert!(!contains_str("", "x"));
    assert!(!contains_str("is_valid:tru", "is_valid:true"));
}

#[test]
fn string_equality() {
    assert!(str_eq("é", "é"));
    assert!(!str_eq("a", "ab"));
    assert!(!str_eq("ab", "ac"));
}
