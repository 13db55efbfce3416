use memo_vault::format::{amount_label, format_num, format_memo_date, export_file_name, status_text};
use memo_vault::models::AppStatus;

#[test]
fn format_num_groups_thousands() {
    assert_eq!(format_num(0), "0");
    assert_eq!(format_num(999), "999");
    assert_eq!(format_num(1000), "1,000");
    assert_eq!(format_num(1234567), "1,234,567");
    assert_eq!(format_num(-1234), "-1,234");
}

#[test]
fn format_num_keeps_sign_quirk_of_three_digit_negatives() {
    assert_eq!(format_num(-123), "-,123");
    assert_eq!(format_num(i32::MIN), "-2,147,483,648");
    assert_eq!(format_num(i32::MAX), "2,147,483,647");
}

#[test]
fn memo_date_label_is_zero_padded() {
    assert_eq!(format_memo_date(2024, 0, 5, 9, 7), "2024-01-05 09:07");
    assert_eq!(format_memo_date(987, 11, 31, 23, 59), "0987-12-31 23:59");
}

#[test]
fn backup_file_name_uses_date() {
    assert_eq!(export_file_name(2025, 2, 9), "ai_memos_backup_20250309.json");
}

#[test]
fn status_lines() {
    assert_eq!(status_text(&AppStatus::NotLoaded), "엔진 대기중");
    assert_eq!(status_text(&AppStatus::Loading), "🚀 AI 엔진 적재 중...");
    assert_eq!(status_text(&AppStatus::Ready), "🟢 AI 엔진 활성화");
    assert_eq!(status_text(&AppStatus::Error("boom".to_string())), "🔴 boom");
}

#[test]
fn separators_removed_give_plain_number() {
    for n in [0, 7, -7, 1234, -123456, 999_999_999, i32::MIN, i32::MAX] {
        assert_eq!(format_num(n).replace(',', ""), n.to_string());
    }
}

fn spent(id: usize, amount: Option<i32>) -> memo_vault::models::MemoCard {
    memo_vault::models::MemoCard {
        id,
        data: memo_vault::models::MemoData { category: "기타".to_string(), content: String::new(), amount },
        timestamp: 0,
        date_str: String::new(),
    }
}

#[test]
fn spending_line_only_for_positive_totals() {
    assert_eq!(amount_label(&vec![spent(1, Some(12000)), spent(2, None), spent(3, Some(500))]), Some("총 지출: ₩ 12,500".to_string()));
    assert_eq!(amount_label(&vec![spent(1, None)]), None);
    assert_eq!(amount_label(&vec![spent(1, Some(-3)), spent(2, Some(3))]), None);
    assert_eq!(amount_label(&vec![]), None);
}
