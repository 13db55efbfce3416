use memo_vault::categories::{add_category, delete_category, editable_categories, rename_category,
    update_memo_content};
use memo_vault::models::{MemoCard, MemoData};

fn cats(v: &[&str]) -> Vec<String> {
    v.iter().map(|s| s.to_string()).collect()
}

fn card(id: usize, category: &str, content: &str) -> MemoCard {
    MemoCard {
        id,
        data: MemoData { category: category.to_string(), content: content.to_string(), amount: None },
        timestamp: 0,
        date_str: String::new(),
    }
}

#[test]
fn add_category_inserts_before_last_two() {
    let mut c = cats(&["a", "기타", "미분류"]);
    assert!(add_category(&mut c, "  여행 "));
    assert_eq!(c, cats(&["a", "여행", "기타", "미분류"]));
}

#[test]
fn add_category_refuses_blank_and_duplicates() {
    let mut c = cats(&["a", "기타", "미분류"]);
    assert!(!add_category(&mut c, "   "));
    assert!(!add_category(&mut c, " a "));
    assert_eq!(c, cats(&["a", "기타", "미분류"]));
}

#[test]
fn add_category_to_short_list_goes_first() {
    let mut c = cats(&["x"]);
    assert!(add_category(&mut c, "y"));
    assert_eq!(c, cats(&["y", "x"]));
}

#[test]
fn rename_category_moves_memos() {
    let mut c = cats(&["a", "b", "기타"]);
    let mut m = vec![card(1, "a", "x"), card(2, "b", "y"), card(3, "a", "z")];
    assert!(rename_category(&mut c, &mut m, "a", " c "));
    assert_eq!(c, cats(&["c", "b", "기타"]));
    let got: Vec<&str> = m.iter().map(|x| x.data.category.as_str()).collect();
    assert_eq!(got, vec!["c", "b", "c"]);
}

#[test]
fn rename_category_refuses_same_blank_or_taken_name() {
    let mut c = cats(&["a", "b"]);
    let mut m = vec![card(1, "a", "x")];
    assert!(!rename_category(&mut c, &mut m, "a", "a"));
    assert!(!rename_category(&mut c, &mut m, "a", "  "));
    assert!(!rename_category(&mut c, &mut m, "a", "b"));
    assert_eq!(c, cats(&["a", "b"]));
    assert_eq!(m[0].data.category, "a");
}

#[test]
fn delete_category_moves_memos_to_other() {
    let mut c = cats(&["a", "b", "a", "기타"]);
    let mut m = vec![card(1, "a", "x"), card(2, "b", "y")];
    delete_category(&mut c, &mut m, "a");
    assert_eq!(c, cats(&["b", "기타"]));
    assert_eq!(m[0].data.category, "기타");
    assert_eq!(m[1].data.category, "b");
}

#[test]
fn update_memo_content_changes_first_match_only() {
    let mut m = vec![card(1, "a", "x"), card(2, "a", "y"), card(2, "a", "z")];
    update_memo_content(&mut m, 2, "new".to_string());
    let got: Vec<&str> = m.iter().map(|x| x.data.content.as_str()).collect();
    assert_eq!(got, vec!["x", "new", "z"]);
    update_memo_content(&mut m, 9, "none".to_string());
    assert_eq!(m[0].data.content, "x");
}

#[test]
fn editable_categories_hide_reserved_ones() {
    assert_eq!(editable_categories(&cats(&["a", "기타", "b", "미분류"])), cats(&["a", "b"]));
}
