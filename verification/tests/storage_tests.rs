use memo_vault::storage::{categories_json, categories_or_default, default_categories, load_categories,
    parse_search_ids};

fn defaults() -> Vec<String> {
    ["에러/버그", "코드 스니펫", "아이디어", "일상/회고", "기타", "미분류"].iter().map(|s| s.to_string()).collect()
}

#[test]
fn default_categories_list() {
    assert_eq!(default_categories(), defaults());
}

#[test]
fn load_categories_uses_stored_list() {
    assert_eq!(load_categories(Some("[\"a\",\"b\"]")), vec!["a".to_string(), "b".to_string()]);
}

#[test]
fn load_categories_falls_back_to_defaults() {
    assert_eq!(load_categories(None), defaults());
    assert_eq!(load_categories(Some("[]")), defaults());
    assert_eq!(load_categories(Some("not json")), defaults());
    assert_eq!(load_categories(Some("[1,2]")), defaults());
}

#[test]
fn categories_or_default_cases() {
    assert_eq!(categories_or_default(Some(vec!["x".to_string()])), vec!["x".to_string()]);
    assert_eq!(categories_or_default(Some(vec![])), defaults());
    assert_eq!(categories_or_default(None), defaults());
}

#[test]
fn categories_json_round_trips() {
    let list = vec!["아이디어".to_string(), "q\"uote".to_string()];
    let text = categories_json(&list).unwrap();
    assert_eq!(text, "[\"아이디어\",\"q\\\"uote\"]");
    assert_eq!(load_categories(Some(&text)), list);
}

#[test]
fn search_ids_parse() {
    assert_eq!(parse_search_ids("[3, 1, 2]"), vec![3, 1, 2]);
    assert_eq!(parse_search_ids("oops"), Vec::<usize>::new());
    assert_eq!(parse_search_ids("[-1]"), Vec::<usize>::new());
}

#[test]
fn stored_categories_load_back() {
    let list = vec!["a\nb".to_string(), "\u{1}".to_string(), "\\".to_string(), "여행".to_string()];
    let text = categories_json(&list).unwrap();
    assert_eq!(load_categories(Some(&text)), list);
}
