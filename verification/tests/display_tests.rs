use memo_vault::display::mentions_mobile_device;
use memo_vault::display::{is_mobile_user_agent, memo_html};

#[test]
fn mobile_user_agents() {
    assert!(is_mobile_user_agent("Mozilla/5.0 (iPhone; CPU iPhone OS 17_0 like Mac OS X)"));
    assert!(is_mobile_user_agent("Mozilla/5.0 (Linux; ANDROID 14)"));
    assert!(is_mobile_user_agent("Mozilla/5.0 (iPad; CPU OS 16_0)"));
    assert!(is_mobile_user_agent("Something Mobile Safari"));
    assert!(!is_mobile_user_agent("Mozilla/5.0 (Windows NT 10.0; Win64; x64) Chrome/120"));
}

#[test]
fn memo_markdown_renders_with_tables_and_strikethrough() {
    assert_eq!(memo_html("**bold**"), "<p><strong>bold</strong></p>\n");
    assert_eq!(memo_html("~~gone~~"), "<p><del>gone</del></p>\n");
    let table = memo_html("| a | b |\n|---|---|\n| 1 | 2 |\n");
    assert!(table.contains("<table>"));
}

#[test]
fn lowered_agent_keywords() {
    assert!(mentions_mobile_device("mozilla (ipad)"));
    assert!(mentions_mobile_device("android"));
    assert!(!mentions_mobile_device("mozilla (iphone)".to_uppercase().as_str()));
    assert!(!mentions_mobile_device("windows nt"));
}
