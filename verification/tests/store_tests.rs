use memo_vault::models::{AppStatus, MemoCard, MemoData};
use memo_vault::store::{AppStore, WorkerEvent};

fn card(id: usize, category: &str, content: &str, timestamp: i64) -> MemoCard {
    MemoCard {
        id,
        data: MemoData { category: category.to_string(), content: content.to_string(), amount: None },
        timestamp,
        date_str: String::new(),
    }
}

fn cats() -> Vec<String> {
    ["아이디어", "기타", "미분류"].iter().map(|s| s.to_string()).collect()
}

fn store() -> AppStore {
    AppStore::new(vec![card(1, "아이디어", "first idea", 100), card(2, "기타", "lunch 9000", 200)], cats())
}

#[test]
fn new_store_starts_idle() {
    let s = store();
    assert_eq!(s.app_status, AppStatus::NotLoaded);
    assert!(s.input_text.is_empty() && s.search_query.is_empty());
    assert!(!s.is_generating && !s.is_ai_searching);
    assert!(s.ai_search_results.is_none() && s.target_memo_id.is_none());
    assert_eq!(s.memo_list.len(), 2);
}

#[test]
fn load_model_sends_load() {
    let mut s = store();
    let msg = s.load_model();
    assert_eq!(s.app_status, AppStatus::Loading);
    assert_eq!(msg.msg_type, "LOAD");
    assert!(msg.text.is_none() && msg.categories.is_none());
}

#[test]
fn analyze_memo_sends_text_and_categories() {
    let mut s = store();
    assert!(s.analyze_memo().is_none());
    s.input_text = "  buy milk ".to_string();
    let msg = s.analyze_memo().unwrap();
    assert!(s.is_generating);
    assert_eq!(msg.msg_type, "PROMPT_CLASSIFY");
    assert_eq!(msg.text.as_deref(), Some("  buy milk "));
    assert_eq!(msg.categories, Some(cats()));
}

#[test]
fn vector_search_needs_a_query() {
    let mut s = store();
    s.ai_search_results = Some(vec![1]);
    assert!(s.trigger_vector_search().is_none());
    assert!(s.ai_search_results.is_none());
    s.search_query = "lunch".to_string();
    let req = s.trigger_vector_search().unwrap();
    assert!(s.is_ai_searching);
    assert_eq!(s.ai_search_status, "벡터 변환 준비 중...");
    assert_eq!(req.query, "lunch");
    assert_eq!(req.memos, vec![(1, "first idea".to_string()), (2, "lunch 9000".to_string())]);
}

#[test]
fn clearing_and_typing_a_search() {
    let mut s = store();
    s.search_query = "x".to_string();
    s.ai_search_results = Some(vec![2]);
    s.ai_search_status = "working".to_string();
    s.clear_search();
    assert!(s.search_query.is_empty() && s.ai_search_results.is_none() && s.ai_search_status.is_empty());
    s.ai_search_results = Some(vec![2]);
    s.set_search_query("abc".to_string());
    assert_eq!(s.search_query, "abc");
    assert!(s.ai_search_results.is_none());
}

#[test]
fn export_names_the_file_and_copies_data() {
    let s = store();
    let b = s.export_data(2024, 11, 24);
    assert_eq!(b.file_name, "ai_memos_backup_20241224.json");
    assert_eq!(b.memos.len(), 2);
    assert_eq!(b.categories, cats());
}

#[test]
fn export_then_import_round_trip() {
    let mut s = store();
    let b = s.export_data(2024, 0, 1);
    s.import_backup(Some(b.memos), Some(b.categories));
    assert_eq!(s.memo_list.iter().map(|m| m.id).collect::<Vec<_>>(), vec![1, 2]);
    assert_eq!(s.category_list, cats());
    s.import_backup(None, Some(vec!["x".to_string()]));
    assert_eq!(s.memo_list.len(), 2);
    assert_eq!(s.category_list, vec!["x".to_string()]);
}

#[test]
fn clearing_and_deleting_need_confirmation() {
    let mut s = store();
    s.clear_memos(false);
    assert_eq!(s.memo_list.len(), 2);
    s.delete_memo(1, false);
    assert_eq!(s.memo_list.len(), 2);
    s.delete_memo(1, true);
    assert_eq!(s.memo_list.iter().map(|m| m.id).collect::<Vec<_>>(), vec![2]);
    s.clear_memos(true);
    assert!(s.memo_list.is_empty());
}

#[test]
fn grouped_memos_newest_first_without_query() {
    let mut s = store();
    s.memo_list.push(card(3, "아이디어", "second idea", 300));
    let g = s.grouped_memos();
    let shape: Vec<(String, Vec<usize>)> =
        g.iter().map(|(c, items)| (c.clone(), items.iter().map(|m| m.id).collect())).collect();
    assert_eq!(shape, vec![("아이디어".to_string(), vec![3, 1]), ("기타".to_string(), vec![2])]);
}

#[test]
fn grouped_memos_with_query_and_with_ai_results() {
    let mut s = store();
    s.search_query = "IDEA".to_string();
    let g = s.grouped_memos();
    assert_eq!(g.len(), 1);
    assert_eq!(g[0].1.iter().map(|m| m.id).collect::<Vec<_>>(), vec![1]);
    s.ai_search_results = Some(vec![2, 1]);
    let g = s.grouped_memos();
    assert_eq!(g.len(), 2);
    assert_eq!(g[0].0, "아이디어");
    assert_eq!(g[1].0, "기타");
}

#[test]
fn worker_status_ready_and_errors() {
    let mut s = store();
    assert!(!s.handle_worker_event(WorkerEvent::Status("50%".to_string())));
    assert_eq!(s.worker_status_msg, "50%");
    s.handle_worker_event(WorkerEvent::Ready);
    assert_eq!(s.app_status, AppStatus::Ready);
    s.handle_worker_event(WorkerEvent::TokenSearch("tok".to_string()));
    assert_eq!(s.ai_search_status, "tok");
    s.is_generating = true;
    s.is_ai_searching = true;
    s.handle_worker_event(WorkerEvent::Failed("bad".to_string()));
    assert_eq!(s.app_status, AppStatus::Error("bad".to_string()));
    assert!(!s.is_generating && !s.is_ai_searching && s.ai_search_status.is_empty());
}

#[test]
fn classification_appends_memo_with_next_id() {
    let mut s = store();
    s.input_text = "typed text".to_string();
    s.is_generating = true;
    let parsed = MemoData { category: "아이디어".to_string(), content: "a clean memo".to_string(), amount: Some(3000) };
    let clear = s.handle_worker_event(WorkerEvent::Classified {
        parsed: Some(parsed),
        timestamp: 500,
        date_str: "2024-01-01 10:00".to_string(),
    });
    assert!(clear);
    assert!(!s.is_generating);
    assert!(s.input_text.is_empty());
    let last = s.memo_list.last().unwrap();
    assert_eq!(last.id, 3);
    assert_eq!(last.data.content, "a clean memo");
    assert_eq!(last.data.amount, Some(3000));
    assert_eq!(last.timestamp, 500);
}

#[test]
fn classification_with_short_content_keeps_typed_text() {
    let mut s = store();
    s.input_text = "my long typed memo".to_string();
    let parsed = MemoData { category: "기타".to_string(), content: "abc".to_string(), amount: None };
    s.handle_worker_event(WorkerEvent::Classified { parsed: Some(parsed), timestamp: 1, date_str: String::new() });
    assert_eq!(s.memo_list.last().unwrap().data.content, "my long typed memo");
}

#[test]
fn unparsed_classification_is_unclassified() {
    let mut s = store();
    s.input_text = "raw".to_string();
    s.handle_worker_event(WorkerEvent::Classified { parsed: None, timestamp: 7, date_str: String::new() });
    let last = s.memo_list.last().unwrap();
    assert_eq!(last.id, 3);
    assert_eq!(last.data.category, "미분류");
    assert_eq!(last.data.content, "raw");
    assert_eq!(last.data.amount, None);
}

#[test]
fn classification_of_edited_memo_updates_it() {
    let mut s = store();
    s.target_memo_id = Some(1);
    s.input_text = "edit".to_string();
    let parsed = MemoData { category: "기타".to_string(), content: "updated content".to_string(), amount: None };
    let clear = s.handle_worker_event(WorkerEvent::Classified { parsed: Some(parsed), timestamp: 9, date_str: "d".to_string() });
    assert!(!clear);
    assert_eq!(s.input_text, "edit");
    assert!(s.target_memo_id.is_none());
    assert_eq!(s.memo_list.len(), 2);
    assert_eq!(s.memo_list[0].data.category, "기타");
    assert_eq!(s.memo_list[0].timestamp, 9);
}

#[test]
fn search_done_sets_results() {
    let mut s = store();
    s.is_ai_searching = true;
    s.handle_worker_event(WorkerEvent::SearchDone(vec![2]));
    assert_eq!(s.ai_search_results, Some(vec![2]));
    assert!(!s.is_ai_searching);
}

#[test]
fn store_category_actions() {
    let mut s = store();
    s.new_category_name = " 여행 ".to_string();
    assert!(s.add_category());
    assert!(s.new_category_name.is_empty());
    assert_eq!(s.category_list[1], "여행");
    assert!(s.rename_category("아이디어", "생각"));
    assert_eq!(s.memo_list[0].data.category, "생각");
    s.delete_category("생각");
    assert_eq!(s.memo_list[0].data.category, "기타");
    assert!(!s.category_list.contains(&"생각".to_string()));
    s.update_memo_content(2, "dinner".to_string());
    assert_eq!(s.memo_list[1].data.content, "dinner");
}

#[test]
fn backup_restores_lists_after_later_changes() {
    let mut s = store();
    let (memos, categories) = s.backup_contents();
    s.delete_memo(1, true);
    s.new_category_name = "새것".to_string();
    s.add_category();
    s.search_query = "kept".to_string();
    s.import_backup(Some(memos), Some(categories));
    assert_eq!(s.memo_list.iter().map(|m| (m.id, m.data.content.clone())).collect::<Vec<_>>(),
        vec![(1, "first idea".to_string()), (2, "lunch 9000".to_string())]);
    assert_eq!(s.category_list, cats());
    assert_eq!(s.search_query, "kept");
}
