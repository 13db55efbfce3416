use memo_vault::memos::{filter_by_lowered, lowered_contents, shown_memos};
use memo_vault::memos::{contains_string, filter_by_query, find_memo_index, next_memo_id, select_by_ids,
    sort_newest_first, total_amount};
use memo_vault::models::{MemoCard, MemoData};

fn card(id: usize, category: &str, content: &str, amount: Option<i32>, timestamp: i64) -> MemoCard {
    MemoCard {
        id,
        data: MemoData { category: category.to_string(), content: content.to_string(), amount },
        timestamp,
        date_str: format!("d{}", id),
    }
}

fn ids(v: &[MemoCard]) -> Vec<usize> {
    v.iter().map(|m| m.id).collect()
}

#[test]
fn find_memo_index_finds_first() {
    let list = vec![card(3, "a", "x", None, 1), card(5, "a", "y", None, 2), card(5, "b", "z", None, 3)];
    assert_eq!(find_memo_index(&list, 5), Some(1));
    assert_eq!(find_memo_index(&list, 4), None);
}

#[test]
fn next_id_is_one_past_largest() {
    assert_eq!(next_memo_id(&vec![]), Some(1));
    assert_eq!(next_memo_id(&vec![card(7, "a", "x", None, 0), card(2, "a", "y", None, 0)]), Some(8));
    assert_eq!(next_memo_id(&vec![card(usize::MAX, "a", "x", None, 0)]), None);
}

#[test]
fn total_amount_sums_present_amounts() {
    let list = vec![card(1, "a", "x", Some(15000), 0), card(2, "a", "y", None, 0), card(3, "a", "z", Some(-500), 0)];
    assert_eq!(total_amount(&list), Some(14500));
    assert_eq!(total_amount(&vec![]), Some(0));
}

#[test]
fn total_amount_overflow_is_reported() {
    let list = vec![card(1, "a", "x", Some(i32::MAX), 0), card(2, "a", "y", Some(1), 0)];
    assert_eq!(total_amount(&list), None);
    let back = vec![card(1, "a", "x", Some(i32::MAX), 0), card(2, "a", "y", Some(1), 0), card(3, "a", "z", Some(-1), 0)];
    assert_eq!(total_amount(&back), None);
}

#[test]
fn sort_is_newest_first_and_stable() {
    let list = vec![
        card(1, "a", "x", None, 10),
        card(2, "a", "x", None, 30),
        card(3, "a", "x", None, 10),
        card(4, "a", "x", None, 20),
        card(5, "a", "x", None, 30),
    ];
    assert_eq!(ids(&sort_newest_first(&list)), vec![2, 5, 4, 1, 3]);
}

#[test]
fn sort_agrees_with_std_stable_sort() {
    let list: Vec<MemoCard> = (0..40).map(|i| card(i, "a", "x", None, ((i * 7919) % 11) as i64 - 5)).collect();
    let mut expected = list.clone();
    expected.sort_by(|a, b| b.timestamp.cmp(&a.timestamp));
    assert_eq!(ids(&sort_newest_first(&list)), ids(&expected));
}

#[test]
fn filter_by_query_lowercases_content() {
    let list = vec![card(1, "a", "Netflix 구독료", None, 0), card(2, "a", "점심", None, 0), card(3, "a", "NETFLIX", None, 0)];
    assert_eq!(ids(&filter_by_query(&list, "netflix")), vec![1, 3]);
}

#[test]
fn select_by_ids_follows_search_order() {
    let list = vec![card(1, "a", "x", None, 0), card(2, "a", "y", None, 0), card(3, "a", "z", None, 0)];
    assert_eq!(ids(&select_by_ids(&list, &vec![3, 9, 1, 3])), vec![3, 1, 3]);
}

#[test]
fn contains_string_checks_membership() {
    let cats = vec!["아이디어".to_string(), "기타".to_string()];
    assert!(contains_string(&cats, "기타"));
    assert!(!contains_string(&cats, "미분류"));
}

#[test]
fn lowered_contents_and_filter() {
    let list = vec![card(1, "a", "Netflix", None, 0), card(2, "a", "Lunch", None, 0)];
    let lowered = lowered_contents(&list);
    assert_eq!(lowered, vec!["netflix".to_string(), "lunch".to_string()]);
    assert_eq!(ids(&filter_by_lowered(&list, &lowered, "lun")), vec![2]);
    // the given lowered contents decide, not the memos' own text
    let other = vec!["zzz".to_string(), "netflix".to_string()];
    assert_eq!(ids(&filter_by_lowered(&list, &other, "netflix")), vec![2]);
}

#[test]
fn shown_memos_decides_between_search_filter_and_all() {
    let list = vec![card(1, "a", "Tea", None, 10), card(2, "a", "Coffee", None, 30), card(3, "a", "tea time", None, 20)];
    let lowered = lowered_contents(&list);
    assert_eq!(ids(&shown_memos(&list, &lowered, "tea", &None)), vec![3, 1]);
    assert_eq!(ids(&shown_memos(&list, &lowered, "  ", &None)), vec![2, 3, 1]);
    assert_eq!(ids(&shown_memos(&list, &lowered, "tea", &Some(vec![2, 1]))), vec![2, 1]);
}
