use memo_vault::groups::{cards_in_category, group_by_category};
use memo_vault::models::{MemoCard, MemoData};

fn card(id: usize, category: &str) -> MemoCard {
    MemoCard {
        id,
        data: MemoData { category: category.to_string(), content: format!("memo {}", id), amount: None },
        timestamp: id as i64,
        date_str: String::new(),
    }
}

fn shape(g: &[(String, Vec<MemoCard>)]) -> Vec<(String, Vec<usize>)> {
    g.iter().map(|(c, items)| (c.clone(), items.iter().map(|m| m.id).collect())).collect()
}

fn cats(v: &[&str]) -> Vec<String> {
    v.iter().map(|s| s.to_string()).collect()
}

#[test]
fn groups_follow_category_order_then_other_then_unclassified() {
    let list = vec![card(1, "아이디어"), card(2, "미분류"), card(3, "에러/버그"), card(4, "여행"), card(5, "기타"), card(6, "아이디어")];
    let categories = cats(&["에러/버그", "코드 스니펫", "아이디어", "기타", "미분류"]);
    let g = group_by_category(&list, &categories);
    assert_eq!(
        shape(&g),
        vec![
            ("에러/버그".to_string(), vec![3]),
            ("아이디어".to_string(), vec![1, 6]),
            ("기타".to_string(), vec![4, 5]),
            ("미분류".to_string(), vec![2]),
        ]
    );
    let total: usize = g.iter().map(|(_, items)| items.len()).sum();
    assert_eq!(total, list.len());
}

#[test]
fn no_groups_without_memos() {
    assert!(group_by_category(&vec![], &cats(&["아이디어", "기타"])).is_empty());
}

#[test]
fn cards_in_category_keeps_order() {
    let list = vec![card(1, "x"), card(2, "y"), card(3, "x")];
    let got: Vec<usize> = cards_in_category(&list, "x").iter().map(|m| m.id).collect();
    assert_eq!(got, vec![1, 3]);
}
