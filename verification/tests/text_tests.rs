use memo_vault::text::{blank, chars_of, contains, find_bytes, is_whitespace_char, same_text, trim};

#[test]
fn whitespace_matches_std_for_every_char() {
    for code in 0u32..=0x10FFFF {
        if let Some(c) = char::from_u32(code) {
            assert_eq!(is_whitespace_char(c), c.is_whitespace(), "char {:#x}", code);
        }
    }
}

#[test]
fn trim_matches_std_trim() {
    let samples = ["", "   ", "  a b  ", "\u{3000}메모\u{a0}", "x", "\t\nline\r\n", "\u{2003}z\u{205f}"];
    for s in samples {
        assert_eq!(trim(s), s.trim());
    }
}

#[test]
fn blank_means_trims_to_nothing() {
    assert!(blank(""));
    assert!(blank(" \t\n\u{3000}"));
    assert!(!blank("  a "));
}

#[test]
fn chars_of_lists_characters() {
    assert_eq!(chars_of("가a😀"), vec!['가', 'a', '😀']);
}

#[test]
fn contains_finds_substrings() {
    assert!(contains("hello world", "lo w"));
    assert!(contains("넷플릭스 구독료", "구독"));
    assert!(contains("abc", ""));
    assert!(!contains("abc", "abcd"));
    assert!(!contains("abc", "ca"));
}

#[test]
fn find_bytes_reports_first_occurrence_from_start() {
    assert_eq!(find_bytes(b"abcabc", b"bc", 0), Some(1));
    assert_eq!(find_bytes(b"abcabc", b"bc", 2), Some(4));
    assert_eq!(find_bytes(b"abcabc", b"bc", 5), None);
    assert_eq!(find_bytes(b"ab", b"abc", 0), None);
    assert_eq!(find_bytes(b"ab", b"", 2), Some(2));
}

#[test]
fn same_text_compares_strings() {
    assert!(same_text("기타", "기타"));
    assert!(!same_text("기타", "미분류"));
    assert!(!same_text("a", "ab"));
}
