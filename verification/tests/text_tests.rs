use fakecord::text::{
    chars_of, decimal_text, find_char, signal_line, split_once_at, strip_line_end, text_contains,
    text_equals,
};

#[test]
fn contains_finds_inner_text() {
    assert!(text_contains("5f1a9c", "1a9"));
    assert!(text_contains("abc", "abc"));
    assert!(!text_contains("abc", "abd"));
    assert!(!text_contains("ab", "abc"));
}

#[test]
fn contains_empty_needle() {
    assert!(text_contains("", ""));
    assert!(text_contains("xyz", ""));
    assert!(!text_contains("", "x"));
}

#[test]
fn contains_non_ascii() {
    assert!(text_contains("päivää", "ivä"));
    assert!(!text_contains("päivää", "iva"));
}

#[test]
fn equals_compares_characters() {
    assert!(text_equals("CONNECT", "CONNECT"));
    assert!(!text_equals("CONNECT", "CONNEC"));
    assert!(!text_equals("connect", "CONNECT"));
    assert!(text_equals("", ""));
}

#[test]
fn chars_of_lists_characters() {
    assert_eq!(chars_of("aä b"), vec!['a', 'ä', ' ', 'b']);
    assert_eq!(chars_of(""), Vec::<char>::new());
}

#[test]
fn find_char_first_occurrence() {
    let v = vec!['a', '.', 'b', '.'];
    assert_eq!(find_char(&v, '.'), Some(1));
    assert_eq!(find_char(&v, 'z'), None);
}

#[test]
fn split_once_at_first_separator() {
    assert_eq!(
        split_once_at("a b c", ' '),
        Some(("a".to_string(), "b c".to_string()))
    );
    assert_eq!(split_once_at(" x", ' '), Some(("".to_string(), "x".to_string())));
    assert_eq!(split_once_at("abc", ' '), None);
    assert_eq!(split_once_at("ä ö", ' '), Some(("ä".to_string(), "ö".to_string())));
}

#[test]
fn strip_line_end_drops_last_char() {
    assert_eq!(strip_line_end("CONNECT\n"), "CONNECT");
    assert_eq!(strip_line_end("x"), "");
    assert_eq!(strip_line_end(""), "");
    assert_eq!(strip_line_end("ab"), "a");
}

#[test]
fn signal_line_appends_newline() {
    assert_eq!(signal_line("UPDATEUSERS"), "UPDATEUSERS\n");
    assert_eq!(signal_line(""), "\n");
}

#[test]
fn signal_round_trip() {
    for s in ["UPDATECHAT", "UPDATEUSERS", "", "a b"] {
        assert_eq!(strip_line_end(&signal_line(s)), s);
    }
}

#[test]
fn decimal_text_matches_to_string() {
    for n in [0u64, 1, 9, 10, 11, 99, 100, 12345, u64::MAX] {
        assert_eq!(decimal_text(n), n.to_string());
    }
}
