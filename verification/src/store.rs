//! The vault's state and how it moves: the user's actions and the replies
//! of the classifier worker each take the state to the next one, and tell
//! the page what to send or reset.

use vstd::prelude::*;
use vstd::string::*;
use vstd::utf8::encode_utf8;
use crate::models::{AppStatus, AppStatusView, MemoCard, MemoCardView, MemoData, MemoDataView,
    WorkerInput, WorkerInputView, cards_view};
use crate::memos::{lemma_max_id_bounds, lemma_position_of_id, position_of_id, find_memo_index, lemma_position_in_range, max_id,
    next_memo_id, strings_view, visible_memos, lowered_contents, shown_memos};
use crate::groups::{category_groups, groups_view, group_by_category, unclassified_category};
use crate::text::{blank, is_blank, to_lowercase};
use crate::format::{backup_file_name, export_file_name};
use crate::categories::{add_category, rename_category, delete_category, update_memo_content,
    can_add, can_rename, insertion_point, position_of_name, recategorized, without_name, with_content};
use crate::groups::etc_category;
use crate::text::trimmed;

verus! {

/// The state behind the page.
pub struct AppStore {
    pub app_status: AppStatus,
    pub input_text: String,
    pub is_generating: bool,
    pub search_query: String,
    pub is_ai_searching: bool,
    pub ai_search_results: Option<Vec<usize>>,
    pub ai_search_status: String,
    pub target_memo_id: Option<usize>,
    pub show_category_manager: bool,
    pub new_category_name: String,
    pub memo_list: Vec<MemoCard>,
    pub category_list: Vec<String>,
    pub worker_status_msg: String,
}

/// The mathematical value of an [`AppStore`].
pub struct AppStoreView {
    pub app_status: AppStatusView,
    pub input_text: Seq<char>,
    pub is_generating: bool,
    pub search_query: Seq<char>,
    pub is_ai_searching: bool,
    pub ai_search_results: Option<Seq<usize>>,
    pub ai_search_status: Seq<char>,
    pub target_memo_id: Option<usize>,
    pub show_category_manager: bool,
    pub new_category_name: Seq<char>,
    pub memo_list: Seq<MemoCardView>,
    pub category_list: Seq<Seq<char>>,
    pub worker_status_msg: Seq<char>,
}

impl View for AppStore {
    type V = AppStoreView;

    open spec fn view(&self) -> AppStoreView {
        AppStoreView {
            app_status: self.app_status@,
            input_text: self.input_text@,
            is_generating: self.is_generating,
            search_query: self.search_query@,
            is_ai_searching: self.is_ai_searching,
            ai_search_results: match &self.ai_search_results {
                Some(ids) => Some(ids@),
                None => None,
            },
            ai_search_status: self.ai_search_status@,
            target_memo_id: self.target_memo_id,
            show_category_manager: self.show_category_manager,
            new_category_name: self.new_category_name@,
            memo_list: cards_view(self.memo_list@),
            category_list: strings_view(self.category_list@),
            worker_status_msg: self.worker_status_msg@,
        }
    }
}

/// What a semantic search sends to the worker: the query and each memo's
/// id with its content.
pub struct SearchRequest {
    pub query: String,
    pub memos: Vec<(usize, String)>,
}

/// The (id, content) pairs of the memos.
pub open spec fn search_corpus(s: Seq<MemoCardView>) -> Seq<(usize, Seq<char>)> {
    s.map_values(|m: MemoCardView| (m.id, m.data.content))
}

/// The view of a list of (id, text) pairs.
pub open spec fn pairs_view(p: Seq<(usize, String)>) -> Seq<(usize, Seq<char>)> {
    p.map_values(|x: (usize, String)| (x.0, x.1@))
}

/// What a backup holds, with the name of its file.
pub struct ExportBundle {
    pub file_name: String,
    pub memos: Vec<MemoCard>,
    pub categories: Vec<String>,
}

/// A reply of the classifier worker, with what the page read from it.
pub enum WorkerEvent {
    /// Progress while the model loads.
    Status(String),
    /// The model is loaded.
    Ready,
    /// A token of a classification in progress.
    Token,
    /// A progress line of a semantic search.
    TokenSearch(String),
    /// A finished classification: the memo data parsed from the reply
    /// (`None` where it did not parse), and the moment it arrived.
    Classified { parsed: Option<MemoData>, timestamp: i64, date_str: String },
    /// A finished semantic search with the ids it found, best first.
    SearchDone(Vec<usize>),
    /// The worker failed with this message.
    Failed(String),
    /// A reply of a kind the page does not act on.
    Ignored,
}

/// The empty text.
pub open spec fn empty_text() -> Seq<char> {
    Seq::empty()
}

impl AppStore {
    /// The state a page starts in, with the stored memos and categories.
    pub fn new(memo_list: Vec<MemoCard>, category_list: Vec<String>) -> (s: Self)
        ensures
            s@ == (AppStoreView {
                app_status: AppStatusView::NotLoaded,
                input_text: empty_text(),
                is_generating: false,
                search_query: empty_text(),
                is_ai_searching: false,
                ai_search_results: None,
                ai_search_status: empty_text(),
                target_memo_id: None,
                show_category_manager: false,
                new_category_name: empty_text(),
                memo_list: cards_view(memo_list@),
                category_list: strings_view(category_list@),
                worker_status_msg: empty_text(),
            }),
    {
        AppStore {
            app_status: AppStatus::NotLoaded,
            input_text: String::new(),
            is_generating: false,
            search_query: String::new(),
            is_ai_searching: false,
            ai_search_results: None,
            ai_search_status: String::new(),
            target_memo_id: None,
            show_category_manager: false,
            new_category_name: String::new(),
            memo_list,
            category_list,
            worker_status_msg: String::new(),
        }
    }

    /// Starts loading the model: the engine is loading, and the worker is
    /// sent a `LOAD` message.
    pub fn load_model(&mut self) -> (msg: WorkerInput)
        ensures
            final(self)@ == (AppStoreView { app_status: AppStatusView::Loading, ..old(self)@ }),
            msg@ == (WorkerInputView { msg_type: "LOAD"@, text: None, categories: None }),
    {
        self.app_status = AppStatus::Loading;
        WorkerInput { msg_type: String::from_str("LOAD"), text: None, categories: None }
    }

    /// Sends the typed memo for classification, unless it is blank: the
    /// state is generating a new memo, and the worker is sent the text with
    /// the category list.
    pub fn analyze_memo(&mut self) -> (msg: Option<WorkerInput>)
        ensures
            is_blank(old(self)@.input_text) ==> msg is None && final(self)@ == old(self)@,
            !is_blank(old(self)@.input_text) ==> final(self)@ == (AppStoreView {
                is_generating: true,
                target_memo_id: None,
                ..old(self)@
            }) && msg is Some && msg->0@ == (WorkerInputView {
                msg_type: "PROMPT_CLASSIFY"@,
                text: Some(old(self)@.input_text),
                categories: Some(old(self)@.category_list),
            }),
    {
        if blank(self.input_text.as_str()) {
            return None;
        }
        self.is_generating = true;
        self.target_memo_id = None;
        let cats = clone_strings(&self.category_list);
        Some(
            WorkerInput {
                msg_type: String::from_str("PROMPT_CLASSIFY"),
                text: Some(self.input_text.clone()),
                categories: Some(cats),
            },
        )
    }
}

impl AppStore {
    /// Starts a semantic search for the query, unless it is blank (then the
    /// previous search results are dropped and nothing is sent): the state
    /// is searching, and the worker is sent the query with every memo's id
    /// and content.
    pub fn trigger_vector_search(&mut self) -> (req: Option<SearchRequest>)
        ensures
            is_blank(old(self)@.search_query) ==> req is None && final(self)@ == (AppStoreView {
                ai_search_results: None,
                ..old(self)@
            }),
            !is_blank(old(self)@.search_query) ==> final(self)@ == (AppStoreView {
                is_ai_searching: true,
                ai_search_status: "벡터 변환 준비 중..."@,
                ..old(self)@
            }) && req is Some && req->0.query@ == old(self)@.search_query && pairs_view(
                req->0.memos@,
            ) == search_corpus(old(self)@.memo_list),
    {
        if blank(self.search_query.as_str()) {
            self.ai_search_results = None;
            return None;
        }
        self.is_ai_searching = true;
        self.ai_search_status = String::from_str("벡터 변환 준비 중...");
        let mut pairs: Vec<(usize, String)> = Vec::new();
        let mut i: usize = 0;
        while i < self.memo_list.len()
            invariant
                i <= self.memo_list@.len(),
                pairs_view(pairs@) == search_corpus(cards_view(self.memo_list@)).take(i as int),
            decreases self.memo_list@.len() - i,
        {
            let ghost before = pairs_view(pairs@);
            let m = &self.memo_list[i];
            let x = (m.id, m.data.content.clone());
            pairs.push(x);
            assert(pairs_view(pairs@) =~= before.push((x.0, x.1@)));
            assert(search_corpus(cards_view(self.memo_list@)).take(i + 1) =~= search_corpus(
                cards_view(self.memo_list@),
            ).take(i as int).push(search_corpus(cards_view(self.memo_list@))[i as int]));
            i = i + 1;
        }
        assert(search_corpus(cards_view(self.memo_list@)).take(self.memo_list@.len() as int)
            =~= search_corpus(cards_view(self.memo_list@)));
        Some(SearchRequest { query: self.search_query.clone(), memos: pairs })
    }

    /// Clears the search: no query, no semantic results, no progress line.
    pub fn clear_search(&mut self)
        ensures
            final(self)@ == (AppStoreView {
                search_query: empty_text(),
                ai_search_results: None,
                ai_search_status: empty_text(),
                ..old(self)@
            }),
    {
        self.search_query = String::new();
        self.ai_search_results = None;
        self.ai_search_status = String::new();
    }

    /// A new search query; typing drops the results of a semantic search.
    pub fn set_search_query(&mut self, query: String)
        ensures
            final(self)@ == (AppStoreView {
                search_query: query@,
                ai_search_results: None,
                ..old(self)@
            }),
    {
        self.search_query = query;
        if self.ai_search_results.is_some() {
            self.ai_search_results = None;
        }
    }

    /// The backup of the memos and categories, named for the given date
    /// (month counting from zero).
    pub fn export_data(&self, year: u32, month0: u32, day: u32) -> (b: ExportBundle)
        requires
            month0 < u32::MAX,
        ensures
            b.file_name@ == backup_file_name(year, month0, day),
            cards_view(b.memos@) == self@.memo_list,
            strings_view(b.categories@) == self@.category_list,
    {
        let (memos, categories) = self.backup_contents();
        ExportBundle { file_name: export_file_name(year, month0, day), memos, categories }
    }

    /// What a backup holds: copies of the memos and of the categories.
    pub fn backup_contents(&self) -> (r: (Vec<MemoCard>, Vec<String>))
        ensures
            cards_view(r.0@) == self@.memo_list,
            strings_view(r.1@) == self@.category_list,
    {
        (clone_cards(&self.memo_list), clone_strings(&self.category_list))
    }

    /// Deletes every memo once the user confirmed; otherwise nothing
    /// changes.
    pub fn clear_memos(&mut self, confirmed: bool)
        ensures
            final(self)@ == if confirmed {
                AppStoreView { memo_list: Seq::empty(), ..old(self)@ }
            } else {
                old(self)@
            },
    {
        if confirmed {
            self.memo_list = Vec::new();
            assert(cards_view(self.memo_list@) =~= Seq::<MemoCardView>::empty());
        }
    }

    /// Deletes every memo with id `target_id` once the user confirmed;
    /// otherwise nothing changes.
    pub fn delete_memo(&mut self, target_id: usize, confirmed: bool)
        ensures
            final(self)@ == if confirmed {
                AppStoreView { memo_list: without_id(old(self)@.memo_list, target_id), ..old(self)@ }
            } else {
                old(self)@
            },
    {
        if !confirmed {
            return;
        }
        let ghost s = cards_view(self.memo_list@);
        let mut kept: Vec<MemoCard> = Vec::new();
        let mut i: usize = 0;
        assert(s.take(0) =~= Seq::<MemoCardView>::empty());
        assert(cards_view(kept@) =~= Seq::<MemoCardView>::empty());
        while i < self.memo_list.len()
            invariant
                s == cards_view(self.memo_list@),
                i <= self.memo_list@.len(),
                cards_view(kept@) == without_id(s.take(i as int), target_id),
            decreases self.memo_list@.len() - i,
        {
            assert(s.take(i + 1).drop_last() =~= s.take(i as int));
            if self.memo_list[i].id != target_id {
                let ghost before = cards_view(kept@);
                let x = self.memo_list[i].cloned();
                kept.push(x);
                assert(cards_view(kept@) =~= before.push(s[i as int]));
            }
            i = i + 1;
        }
        assert(s.take(self.memo_list@.len() as int) =~= s);
        self.memo_list = kept;
    }

    /// The memos shown, grouped by category (see [`visible_memos`] and
    /// [`category_groups`]).
    pub fn grouped_memos(&self) -> (r: Vec<(String, Vec<MemoCard>)>)
        ensures
            groups_view(r@) == category_groups(
                visible_memos(self@.memo_list, self@.search_query, self@.ai_search_results),
                self@.category_list,
            ),
    {
        let lowered = lowered_contents(&self.memo_list);
        let query = to_lowercase(self.search_query.as_str());
        let shown = shown_memos(&self.memo_list, &lowered, query.as_str(), &self.ai_search_results);
        group_by_category(&shown, &self.category_list)
    }
}

/// The classified data, with the typed text as content where the
/// classifier left the content blank or shorter than five bytes.
pub open spec fn settled_data(d: MemoDataView, typed: Seq<char>) -> MemoDataView {
    if is_blank(d.content) || encode_utf8(d.content).len() < 5 {
        MemoDataView { content: typed, ..d }
    } else {
        d
    }
}

/// The memo list after a finished classification: the memo being edited
/// gets the new data and moment, or a new memo is appended with the next
/// id; a reply that did not parse appends the typed text as an
/// unclassified memo.
pub open spec fn classified_list(
    list: Seq<MemoCardView>,
    target: Option<usize>,
    parsed: Option<MemoDataView>,
    typed: Seq<char>,
    timestamp: i64,
    date_str: Seq<char>,
) -> Seq<MemoCardView> {
    let new_id = (max_id(list) + 1) as usize;
    match parsed {
        Some(d) => {
            let data = settled_data(d, typed);
            match target {
                Some(t) => match position_of_id(list, t) {
                    Some(k) => list.update(
                        k,
                        MemoCardView { data: data, timestamp: timestamp, date_str: date_str, ..list[k] },
                    ),
                    None => list,
                },
                None => list.push(
                    MemoCardView { id: new_id, data: data, timestamp: timestamp, date_str: date_str },
                ),
            }
        },
        None => list.push(
            MemoCardView {
                id: new_id,
                data: MemoDataView {
                    category: unclassified_category(),
                    content: typed,
                    amount: None,
                },
                timestamp: timestamp,
                date_str: date_str,
            },
        ),
    }
}

/// The view of parsed memo data.
pub open spec fn parsed_view(parsed: Option<MemoData>) -> Option<MemoDataView> {
    match parsed {
        Some(d) => Some(d@),
        None => None,
    }
}

/// Whether an event can be applied: a classification that appends a memo
/// needs an id left after the largest one in use.
pub open spec fn event_applicable(s: AppStoreView, ev: WorkerEvent) -> bool {
    match ev {
        WorkerEvent::Classified { parsed, .. } => (parsed is None || s.target_memo_id is None)
            ==> max_id(s.memo_list) < usize::MAX,
        _ => true,
    }
}

/// The state after a reply of the worker.
pub open spec fn after_event(s: AppStoreView, ev: WorkerEvent) -> AppStoreView {
    match ev {
        WorkerEvent::Status(text) => AppStoreView { worker_status_msg: text@, ..s },
        WorkerEvent::Ready => AppStoreView { app_status: AppStatusView::Ready, ..s },
        WorkerEvent::Token => s,
        WorkerEvent::TokenSearch(text) => AppStoreView { ai_search_status: text@, ..s },
        WorkerEvent::Classified { parsed, timestamp, date_str } => AppStoreView {
            memo_list: classified_list(
                s.memo_list,
                s.target_memo_id,
                parsed_view(parsed),
                s.input_text,
                timestamp,
                date_str@,
            ),
            is_generating: false,
            input_text: if s.target_memo_id is None {
                empty_text()
            } else {
                s.input_text
            },
            target_memo_id: None,
            ..s
        },
        WorkerEvent::SearchDone(ids) => AppStoreView {
            ai_search_results: Some(ids@),
            is_ai_searching: false,
            ai_search_status: empty_text(),
            ..s
        },
        WorkerEvent::Failed(text) => AppStoreView {
            app_status: AppStatusView::Error(text@),
            is_generating: false,
            is_ai_searching: false,
            ai_search_status: empty_text(),
            ..s
        },
        WorkerEvent::Ignored => s,
    }
}

impl AppStore {
    /// Applies a reply of the worker (see [`after_event`]); tells whether
    /// the memo input box is to be emptied (a classification of a new memo
    /// finished).
    pub fn handle_worker_event(&mut self, ev: WorkerEvent) -> (clear_input: bool)
        requires
            event_applicable(old(self)@, ev),
        ensures
            final(self)@ == after_event(old(self)@, ev),
            clear_input == (ev is Classified && old(self)@.target_memo_id is None),
    {
        match ev {
            WorkerEvent::Status(text) => {
                self.worker_status_msg = text;
                false
            },
            WorkerEvent::Ready => {
                self.app_status = AppStatus::Ready;
                false
            },
            WorkerEvent::Token => false,
            WorkerEvent::TokenSearch(text) => {
                self.ai_search_status = text;
                false
            },
            WorkerEvent::Classified { parsed, timestamp, date_str } => {
                self.apply_classification(parsed, timestamp, date_str);
                self.is_generating = false;
                let clear = self.target_memo_id.is_none();
                if clear {
                    self.input_text = String::new();
                }
                self.target_memo_id = None;
                clear
            },
            WorkerEvent::SearchDone(ids) => {
                self.ai_search_results = Some(ids);
                self.is_ai_searching = false;
                self.ai_search_status = String::new();
                false
            },
            WorkerEvent::Failed(text) => {
                self.app_status = AppStatus::Error(text);
                self.is_generating = false;
                self.is_ai_searching = false;
                self.ai_search_status = String::new();
                false
            },
            WorkerEvent::Ignored => false,
        }
    }

    /// Puts a finished classification into the memo list (see
    /// [`classified_list`]).
    fn apply_classification(&mut self, parsed: Option<MemoData>, timestamp: i64, date_str: String)
        requires
            (parsed is None || old(self)@.target_memo_id is None) ==> max_id(old(self)@.memo_list)
                < usize::MAX,
        ensures
            final(self)@ == (AppStoreView {
                memo_list: classified_list(
                    old(self)@.memo_list,
                    old(self)@.target_memo_id,
                    parsed_view(parsed),
                    old(self)@.input_text,
                    timestamp,
                    date_str@,
                ),
                ..old(self)@
            }),
    {
        let ghost list = cards_view(self.memo_list@);
        let ghost new_id = (max_id(list) + 1) as usize;
        match parsed {
            Some(data) => {
                let mut data = data;
                let ghost d0 = data@;
                if blank(data.content.as_str()) || data.content.as_str().as_bytes().len() < 5 {
                    data.content = self.input_text.clone();
                }
                assert(data@ == settled_data(d0, self.input_text@));
                match self.target_memo_id {
                    Some(t) => {
                        proof {
                            lemma_position_in_range(list, t);
                        }
                        match find_memo_index(&self.memo_list, t) {
                            Some(k) => {
                                let mut m = self.memo_list[k].cloned();
                                m.data = data;
                                m.timestamp = timestamp;
                                m.date_str = date_str;
                                let ghost mv = m@;
                                self.memo_list.set(k, m);
                                assert(cards_view(self.memo_list@) =~= list.update(k as int, mv));
                            },
                            None => {},
                        }
                    },
                    None => {
                        let id = match next_memo_id(&self.memo_list) {
                            Some(id) => id,
                            None => 0,
                        };
                        let card = MemoCard { id, data, timestamp, date_str };
                        let ghost cv = card@;
                        self.memo_list.push(card);
                        assert(cards_view(self.memo_list@) =~= list.push(cv));
                    },
                }
            },
            None => {
                let id = match next_memo_id(&self.memo_list) {
                    Some(id) => id,
                    None => 0,
                };
                let card = MemoCard {
                    id,
                    data: MemoData {
                        category: String::from_str("미분류"),
                        content: self.input_text.clone(),
                        amount: None,
                    },
                    timestamp,
                    date_str,
                };
                let ghost cv = card@;
                self.memo_list.push(card);
                assert(cards_view(self.memo_list@) =~= list.push(cv));
            },
        }
    }
}

impl AppStore {
    /// Adds the typed new category (see [`add_category`]); when it was
    /// added, the name field is emptied. Tells whether it was added.
    pub fn add_category(&mut self) -> (added: bool)
        ensures
            added == can_add(old(self)@.category_list, trimmed(old(self)@.new_category_name)),
            final(self)@ == if added {
                AppStoreView {
                    category_list: old(self)@.category_list.insert(
                        insertion_point(old(self)@.category_list.len()),
                        trimmed(old(self)@.new_category_name),
                    ),
                    new_category_name: empty_text(),
                    ..old(self)@
                }
            } else {
                old(self)@
            },
    {
        let added = add_category(&mut self.category_list, self.new_category_name.as_str());
        if added {
            self.new_category_name = String::new();
        }
        added
    }

    /// Renames a category (see [`rename_category`]).
    pub fn rename_category(&mut self, current: &str, raw_name: &str) -> (renamed: bool)
        ensures
            renamed == can_rename(old(self)@.category_list, current@, trimmed(raw_name@)),
            final(self)@ == if renamed {
                AppStoreView {
                    category_list: match position_of_name(old(self)@.category_list, current@) {
                        Some(k) => old(self)@.category_list.update(k, trimmed(raw_name@)),
                        None => old(self)@.category_list,
                    },
                    memo_list: recategorized(old(self)@.memo_list, current@, trimmed(raw_name@)),
                    ..old(self)@
                }
            } else {
                old(self)@
            },
    {
        rename_category(&mut self.category_list, &mut self.memo_list, current, raw_name)
    }

    /// Deletes a category; its memos move to the catch-all category.
    pub fn delete_category(&mut self, name: &str)
        ensures
            final(self)@ == (AppStoreView {
                category_list: without_name(old(self)@.category_list, name@),
                memo_list: recategorized(old(self)@.memo_list, name@, etc_category()),
                ..old(self)@
            }),
    {
        delete_category(&mut self.category_list, &mut self.memo_list, name)
    }

    /// Saves an edit of a memo's content.
    pub fn update_memo_content(&mut self, id: usize, content: String)
        ensures
            final(self)@ == (AppStoreView {
                memo_list: match position_of_id(old(self)@.memo_list, id) {
                    Some(k) => old(self)@.memo_list.update(
                        k,
                        with_content(old(self)@.memo_list[k], content@),
                    ),
                    None => old(self)@.memo_list,
                },
                ..old(self)@
            }),
    {
        update_memo_content(&mut self.memo_list, id, content)
    }

    /// Restores a backup: the memos and the categories it held replace the
    /// current ones; a part the backup lacked is kept as it is.
    pub fn import_backup(&mut self, memos: Option<Vec<MemoCard>>, categories: Option<Vec<String>>)
        ensures
            final(self)@ == after_import(
                old(self)@,
                match memos {
                    Some(m) => Some(cards_view(m@)),
                    None => None,
                },
                match categories {
                    Some(c) => Some(strings_view(c@)),
                    None => None,
                },
            ),
    {
        match memos {
            Some(m) => {
                self.memo_list = m;
            },
            None => {},
        }
        match categories {
            Some(c) => {
                self.category_list = c;
            },
            None => {},
        }
    }
}

/// The state after restoring a backup that held the given memos and
/// categories (`None`: the backup lacked that part).
pub open spec fn after_import(
    s: AppStoreView,
    memos: Option<Seq<MemoCardView>>,
    categories: Option<Seq<Seq<char>>>,
) -> AppStoreView {
    AppStoreView {
        memo_list: match memos {
            Some(m) => m,
            None => s.memo_list,
        },
        category_list: match categories {
            Some(c) => c,
            None => s.category_list,
        },
        ..s
    }
}

/// Restoring a backup gives back the memos and categories it was taken
/// from, whatever happened in between: a backup holds both lists exactly
/// (see `backup_contents` and `export_data`), and an import puts exactly
/// those back and leaves the rest of the state as it is.
pub proof fn lemma_backup_round_trip(taken: AppStoreView, later: AppStoreView)
    ensures
        after_import(later, Some(taken.memo_list), Some(taken.category_list)) == (AppStoreView {
            memo_list: taken.memo_list,
            category_list: taken.category_list,
            ..later
        }),
        after_import(taken, Some(taken.memo_list), Some(taken.category_list)) == taken,
{
}

/// The memos whose id is not `id`, in order.
pub open spec fn without_id(s: Seq<MemoCardView>, id: usize) -> Seq<MemoCardView>
    decreases s.len(),
{
    if s.len() == 0 {
        s
    } else if s.last().id == id {
        without_id(s.drop_last(), id)
    } else {
        without_id(s.drop_last(), id).push(s.last())
    }
}

/// A copy of a list of strings.
pub fn clone_strings(v: &Vec<String>) -> (r: Vec<String>)
    ensures
        strings_view(r@) == strings_view(v@),
{
    let mut r: Vec<String> = Vec::new();
    let mut i: usize = 0;
    while i < v.len()
        invariant
            i <= v@.len(),
            strings_view(r@) == strings_view(v@).take(i as int),
        decreases v@.len() - i,
    {
        let x = v[i].clone();
        assert(x@ == strings_view(v@)[i as int]);
        let ghost before = strings_view(r@);
        r.push(x);
        assert(strings_view(r@) =~= before.push(x@));
        assert(strings_view(v@).take(i + 1) =~= strings_view(v@).take(i as int).push(
            strings_view(v@)[i as int],
        ));
        i = i + 1;
    }
    assert(strings_view(v@).take(v@.len() as int) =~= strings_view(v@));
    r
}

/// A copy of a list of memos.
pub fn clone_cards(v: &Vec<MemoCard>) -> (r: Vec<MemoCard>)
    ensures
        cards_view(r@) == cards_view(v@),
{
    let mut r: Vec<MemoCard> = Vec::new();
    let mut i: usize = 0;
    while i < v.len()
        invariant
            i <= v@.len(),
            cards_view(r@) == cards_view(v@).take(i as int),
        decreases v@.len() - i,
    {
        let x = v[i].cloned();
        assert(x@ == cards_view(v@)[i as int]);
        let ghost before = cards_view(r@);
        r.push(x);
        assert(cards_view(r@) =~= before.push(x@));
        assert(cards_view(v@).take(i + 1) =~= cards_view(v@).take(i as int).push(
            cards_view(v@)[i as int],
        ));
        i = i + 1;
    }
    assert(cards_view(v@).take(v@.len() as int) =~= cards_view(v@));
    r
}


/// No two memos share an id.
pub open spec fn ids_unique(s: Seq<MemoCardView>) -> bool {
    forall|i: int, j: int| 0 <= i < j < s.len() ==> s[i].id != s[j].id
}

/// A finished classification keeps memo ids unique: an edited memo keeps
/// its id, and a new memo gets an id above every id in use.
pub proof fn lemma_classification_keeps_ids_unique(
    list: Seq<MemoCardView>,
    target: Option<usize>,
    parsed: Option<MemoDataView>,
    typed: Seq<char>,
    timestamp: i64,
    date_str: Seq<char>,
)
    requires
        ids_unique(list),
        (parsed is None || target is None) ==> max_id(list) < usize::MAX,
    ensures
        ids_unique(classified_list(list, target, parsed, typed, timestamp, date_str)),
{
    lemma_max_id_bounds(list);
    let r = classified_list(list, target, parsed, typed, timestamp, date_str);
    match (parsed, target) {
        (Some(d), Some(t)) => {
            lemma_position_in_range(list, t);
            assert forall|i: int, j: int| 0 <= i < j < r.len() implies r[i].id != r[j].id by {
                assert(r[i].id == list[i].id && r[j].id == list[j].id);
            }
        },
        _ => {
            assert forall|i: int, j: int| 0 <= i < j < r.len() implies r[i].id != r[j].id by {
                if j == list.len() {
                    assert(r[i].id == list[i].id);
                    assert(list[i].id <= max_id(list));
                } else {
                    assert(r[i] == list[i] && r[j] == list[j]);
                }
            }
        },
    }
}

/// Every reply of the worker keeps memo ids unique.
pub proof fn lemma_event_keeps_ids_unique(s: AppStoreView, ev: WorkerEvent)
    requires
        ids_unique(s.memo_list),
        event_applicable(s, ev),
    ensures
        ids_unique(after_event(s, ev).memo_list),
{
    match ev {
        WorkerEvent::Classified { parsed, timestamp, date_str } => {
            lemma_classification_keeps_ids_unique(
                s.memo_list,
                s.target_memo_id,
                parsed_view(parsed),
                s.input_text,
                timestamp,
                date_str@,
            );
        },
        _ => {},
    }
}

/// The memos kept by a deletion are a part of the memos, in order, so
/// deleting keeps ids unique, and no memo with the deleted id is left.
pub proof fn lemma_delete_keeps_ids_unique(s: Seq<MemoCardView>, id: usize)
    requires
        ids_unique(s),
    ensures
        ids_unique(without_id(s, id)),
        forall|k: int| 0 <= k < without_id(s, id).len() ==> #[trigger] without_id(s, id)[k].id != id,
    decreases s.len(),
{
    if s.len() > 0 {
        let rest = s.drop_last();
        assert(ids_unique(rest));
        lemma_delete_keeps_ids_unique(rest, id);
        lemma_without_id_from(rest, id);
        let w = without_id(s, id);
        let wr = without_id(rest, id);
        if s.last().id != id {
            assert forall|i: int, j: int| 0 <= i < j < w.len() implies w[i].id != w[j].id by {
                if j == w.len() - 1 {
                    let k = choose|k: int| 0 <= k < rest.len() && rest[k] == wr[i];
                    assert(s[k] == rest[k]);
                    assert(s[s.len() - 1].id != s[k].id);
                } else {
                    assert(w[i] == wr[i] && w[j] == wr[j]);
                }
            }
        }
    }
}

/// Each memo kept by a deletion is one of the memos.
proof fn lemma_without_id_from(s: Seq<MemoCardView>, id: usize)
    ensures
        forall|i: int|
            0 <= i < without_id(s, id).len() ==> exists|k: int|
                0 <= k < s.len() && s[k] == #[trigger] without_id(s, id)[i],
    decreases s.len(),
{
    if s.len() > 0 {
        let rest = s.drop_last();
        lemma_without_id_from(rest, id);
        let w = without_id(s, id);
        let wr = without_id(rest, id);
        assert forall|i: int| 0 <= i < w.len() implies exists|k: int|
            0 <= k < s.len() && s[k] == #[trigger] w[i] by {
            if i < wr.len() {
                assert(w[i] == wr[i]);
                let k = choose|k: int| 0 <= k < rest.len() && rest[k] == wr[i];
                assert(s[k] == rest[k]);
            } else {
                assert(s[s.len() - 1] == w[i]);
            }
        }
    }
}


/// Deleting the memos with id `id` keeps exactly the memos whose id is
/// another one, in their order.
pub proof fn lemma_delete_keeps_other_memos(s: Seq<MemoCardView>, id: usize)
    ensures
        without_id(s, id) == s.filter(|m: MemoCardView| m.id != id),
        forall|i: int| 0 <= i < s.len() && s[i].id != id ==> #[trigger] without_id(s, id).contains(s[i]),
    decreases s.len(),
{
    reveal(Seq::filter);
    let pred = |m: MemoCardView| m.id != id;
    if s.len() > 0 {
        lemma_delete_keeps_other_memos(s.drop_last(), id);
    }
    assert(without_id(s, id) =~= s.filter(pred));
    assert forall|i: int| 0 <= i < s.len() && s[i].id != id implies #[trigger] without_id(s, id).contains(
        s[i],
    ) by {
        s.lemma_filter_contains(pred, i);
    }
}


/// A finished classification of a new memo appends one memo, after all the
/// others, with an id above every id in use, the moment it arrived, and the
/// parsed category and amount; its content is the parsed one unless that is
/// blank or shorter than five bytes, where it is the typed text. A reply that
/// did not parse appends the typed text as an unclassified memo without an
/// amount. An edited memo (the first with the target id) takes the parsed
/// data and the moment, keeping its id; nothing else changes.
pub proof fn lemma_classification_result(
    list: Seq<MemoCardView>,
    target: Option<usize>,
    parsed: Option<MemoDataView>,
    typed: Seq<char>,
    timestamp: i64,
    date_str: Seq<char>,
)
    requires
        (parsed is None || target is None) ==> max_id(list) < usize::MAX,
    ensures
        ({
            let r = classified_list(list, target, parsed, typed, timestamp, date_str);
            (parsed is None || target is None) ==> {
                &&& r.len() == list.len() + 1
                &&& r.take(list.len() as int) == list
                &&& forall|j: int| 0 <= j < list.len() ==> list[j].id < r.last().id
                &&& r.last().timestamp == timestamp
                &&& r.last().date_str == date_str
                &&& match parsed {
                    Some(d) => {
                        &&& r.last().data.category == d.category
                        &&& r.last().data.amount == d.amount
                        &&& r.last().data.content == if is_blank(d.content) || encode_utf8(
                            d.content,
                        ).len() < 5 {
                            typed
                        } else {
                            d.content
                        }
                    },
                    None => {
                        &&& r.last().data.category == unclassified_category()
                        &&& r.last().data.content == typed
                        &&& r.last().data.amount is None
                    },
                }
            }
        }),
        ({
            let r = classified_list(list, target, parsed, typed, timestamp, date_str);
            forall|t: usize, d: MemoDataView, k: int|
                target == Some(t) && parsed == Some(d) && 0 <= k < list.len() && list[k].id == t
                    && (forall|j: int| 0 <= j < k ==> list[j].id != t) ==> {
                    &&& r.len() == list.len()
                    &&& r[k].id == t
                    &&& r[k].data.category == d.category
                    &&& r[k].data.amount == d.amount
                    &&& r[k].timestamp == timestamp
                    &&& r[k].date_str == date_str
                    &&& forall|j: int| 0 <= j < list.len() && j != k ==> r[j] == list[j]
                }
        }),
{
    lemma_max_id_bounds(list);
    let r = classified_list(list, target, parsed, typed, timestamp, date_str);
    if parsed is None || target is None {
        assert(r.take(list.len() as int) =~= list);
    }
    assert forall|t: usize, d: MemoDataView, k: int|
        target == Some(t) && parsed == Some(d) && 0 <= k < list.len() && list[k].id == t && (forall|
            j: int,
        |
            0 <= j < k ==> list[j].id != t) implies {
        &&& r.len() == list.len()
        &&& r[k].id == t
        &&& r[k].data.category == d.category
        &&& r[k].data.amount == d.amount
        &&& r[k].timestamp == timestamp
        &&& r[k].date_str == date_str
        &&& forall|j: int| 0 <= j < list.len() && j != k ==> r[j] == list[j]
    } by {
        lemma_position_of_id(list, t, k);
    }
}

} // verus!
