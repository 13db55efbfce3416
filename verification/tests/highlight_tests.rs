use memo_vault::highlight::highlight_parts_lowered;
use memo_vault::highlight::{highlight_parts, highlight_parts_checked};

fn parts(v: &[(&str, bool)]) -> Vec<(String, bool)> {
    v.iter().map(|(s, b)| (s.to_string(), *b)).collect()
}

#[test]
fn blank_query_gives_whole_text() {
    assert_eq!(highlight_parts("Hello", "  "), parts(&[("Hello", false)]));
    assert_eq!(highlight_parts("", ""), parts(&[("", false)]));
}

#[test]
fn matches_are_case_insensitive_and_cut_from_typed_text() {
    assert_eq!(
        highlight_parts("Netflix and NETFLIX", "netflix"),
        parts(&[("Netflix", true), (" and ", false), ("NETFLIX", true)])
    );
}

#[test]
fn text_between_and_after_matches_is_kept() {
    assert_eq!(
        highlight_parts("a cat sat on a cat mat", "cat"),
        parts(&[("a ", false), ("cat", true), (" sat on a ", false), ("cat", true), (" mat", false)])
    );
}

#[test]
fn korean_text_matches() {
    assert_eq!(
        highlight_parts("넷플릭스 구독료 17000원", "구독료"),
        parts(&[("넷플릭스 ", false), ("구독료", true), (" 17000원", false)])
    );
}

#[test]
fn no_match_gives_one_plain_piece() {
    assert_eq!(highlight_parts("abc", "z"), parts(&[("abc", false)]));
}

#[test]
fn text_whose_lowercase_changes_length_is_not_split() {
    // 'İ' (2 bytes) lower-cases to "i̇" (3 bytes)
    assert_eq!(highlight_parts("İstanbul", "stan"), parts(&[("İstanbul", false)]));
}

#[test]
fn pieces_join_back_to_the_text() {
    let text = "Rust rust RUST rUsT!";
    let joined: String = highlight_parts(text, "rust").into_iter().map(|(s, _)| s).collect();
    assert_eq!(joined, text);
}

#[test]
fn checked_variant_agrees_and_reports_unsafe_cuts() {
    assert_eq!(highlight_parts_checked("Hello hello", "HELLO"), Some(highlight_parts("Hello hello", "HELLO")));
    // The query "K" (Kelvin sign, 3 bytes) lower-cases to "k" (1 byte): the match is
    // cut with three bytes from "kb", past the end of the text.
    assert_eq!(highlight_parts_checked("kb", "\u{212a}"), None);
}

#[test]
fn lowered_highlight_cuts_at_matches_of_given_lowered_text() {
    assert_eq!(
        highlight_parts_lowered("Ab aB", "ab ab", "ab", 2),
        Some(parts(&[("Ab", true), (" ", false), ("aB", true)]))
    );
    // a lowered form of another byte length gives the whole text
    assert_eq!(highlight_parts_lowered("Ab", "abc", "ab", 2), Some(parts(&[("Ab", false)])));
    // a cut past the end cannot be made
    assert_eq!(highlight_parts_lowered("ab", "ab", "b", 3), None);
}
