use rust_query::text::{
    append_decimal, contains_char, find_on_sep, is_whitespace_char, join_strs, split_whitespace,
    str_eq,
};

#[test]
fn text_split_whitespace() {
    assert_eq!(split_whitespace("  a b\t\tc \n"), vec!["a", "b", "c"]);
    assert_eq!(split_whitespace(""), Vec::<&str>::new());
    assert_eq!(split_whitespace("a\u{3000}b"), vec!["a", "b"]);
}

#[test]
fn text_join() {
    assert_eq!(join_strs(&vec!["a", "b", "c"], ", "), "a, b, c");
    assert_eq!(join_strs(&vec![], ", "), "");
    assert_eq!(join_strs(&vec!["x"], " "), "x");
}

#[test]
fn text_find_separator() {
    assert_eq!(find_on_sep("a ON b ON c", 0), Some(1));
    assert_eq!(find_on_sep("a ON b ON c", 2), Some(6));
    assert_eq!(find_on_sep("aONb", 0), None);
}

#[test]
fn text_decimal() {
    let mut s = String::from("n=");
    append_decimal(&mut s, 0);
    assert_eq!(s, "n=0");
    let mut s = String::new();
    append_decimal(&mut s, 1234567890);
    assert_eq!(s, "1234567890");
    let mut s = String::new();
    append_decimal(&mut s, usize::MAX);
    assert_eq!(s, usize::MAX.to_string());
}

#[test]
fn text_chars() {
    assert!(str_eq("abc", "abc"));
    assert!(!str_eq("abc", "abd"));
    assert!(!str_eq("ab", "abc"));
    assert!(contains_char("a.b", '.'));
    assert!(!contains_char("ab", '.'));
    for c in ['\t', '\n', ' ', '\u{85}', '\u{a0}', '\u{2028}', '\u{3000}'] {
        assert_eq!(is_whitespace_char(c), c.is_whitespace());
    }
    for c in ['a', '.', '_', '\u{200b}'] {
        assert_eq!(is_whitespace_char(c), c.is_whitespace());
    }
}
