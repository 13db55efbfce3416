//! The vault's data: memos, the messages sent to the classifier worker and
//! the engine status.

use vstd::prelude::*;

verus! {

/// Storage key under which the memo list is kept.
pub const STORAGE_KEY_MEMOS: &'static str = "ai_memo_vault_memos";

/// Storage key under which the category list is kept.
pub const STORAGE_KEY_CATEGORIES: &'static str = "ai_memo_vault_categories";

/// What the classifier extracted from a memo.
#[derive(Debug, Clone)]
pub struct MemoData {
    pub category: String,
    pub content: String,
    /// An amount of money the classifier found in the memo, if any.
    pub amount: Option<i32>,
}

/// The mathematical value of a [`MemoData`].
pub struct MemoDataView {
    pub category: Seq<char>,
    pub content: Seq<char>,
    pub amount: Option<i32>,
}

impl View for MemoData {
    type V = MemoDataView;

    open spec fn view(&self) -> MemoDataView {
        MemoDataView { category: self.category@, content: self.content@, amount: self.amount }
    }
}

impl MemoData {
    /// A copy with the same view.
    pub fn cloned(&self) -> (r: Self)
        ensures
            r@ == self@,
    {
        MemoData {
            category: self.category.clone(),
            content: self.content.clone(),
            amount: self.amount,
        }
    }
}

/// A stored memo. The timestamp is in milliseconds since the epoch; memos
/// are ordered by it, newest first.
#[derive(Debug, Clone)]
pub struct MemoCard {
    pub id: usize,
    pub data: MemoData,
    pub timestamp: i64,
    pub date_str: String,
}

/// The mathematical value of a [`MemoCard`].
pub struct MemoCardView {
    pub id: usize,
    pub data: MemoDataView,
    pub timestamp: i64,
    pub date_str: Seq<char>,
}

impl View for MemoCard {
    type V = MemoCardView;

    open spec fn view(&self) -> MemoCardView {
        MemoCardView {
            id: self.id,
            data: self.data@,
            timestamp: self.timestamp,
            date_str: self.date_str@,
        }
    }
}

impl MemoCard {
    /// A copy with the same view.
    pub fn cloned(&self) -> (r: Self)
        ensures
            r@ == self@,
    {
        MemoCard {
            id: self.id,
            data: self.data.cloned(),
            timestamp: self.timestamp,
            date_str: self.date_str.clone(),
        }
    }
}

/// The views of a sequence of memos.
pub open spec fn cards_view(cards: Seq<MemoCard>) -> Seq<MemoCardView> {
    cards.map_values(|c: MemoCard| c@)
}

/// A message to the classifier worker.
#[derive(Debug, Clone)]
pub struct WorkerInput {
    pub msg_type: String,
    pub text: Option<String>,
    pub categories: Option<Vec<String>>,
}

/// The mathematical value of a [`WorkerInput`].
pub struct WorkerInputView {
    pub msg_type: Seq<char>,
    pub text: Option<Seq<char>>,
    pub categories: Option<Seq<Seq<char>>>,
}

impl View for WorkerInput {
    type V = WorkerInputView;

    open spec fn view(&self) -> WorkerInputView {
        WorkerInputView {
            msg_type: self.msg_type@,
            text: match &self.text {
                Some(t) => Some(t@),
                None => None,
            },
            categories: match &self.categories {
                Some(c) => Some(c@.map_values(|x: String| x@)),
                None => None,
            },
        }
    }
}

/// The state of the classifier engine.
#[derive(Debug, Clone)]
pub enum AppStatus {
    NotLoaded,
    Loading,
    Ready,
    Error(String),
}

/// The mathematical value of an [`AppStatus`].
pub enum AppStatusView {
    NotLoaded,
    Loading,
    Ready,
    Error(Seq<char>),
}

impl View for AppStatus {
    type V = AppStatusView;

    open spec fn view(&self) -> AppStatusView {
        match self {
            AppStatus::NotLoaded => AppStatusView::NotLoaded,
            AppStatus::Loading => AppStatusView::Loading,
            AppStatus::Ready => AppStatusView::Ready,
            AppStatus::Error(e) => AppStatusView::Error(e@),
        }
    }
}

impl PartialEq for AppStatus {
    fn eq(&self, other: &Self) -> (r: bool) {
        match (self, other) {
            (AppStatus::NotLoaded, AppStatus::NotLoaded) => true,
            (AppStatus::Loading, AppStatus::Loading) => true,
            (AppStatus::Ready, AppStatus::Ready) => true,
            (AppStatus::Error(a), AppStatus::Error(b)) => a.eq(b),
            _ => false,
        }
    }
}

impl vstd::std_specs::cmp::PartialEqSpecImpl for AppStatus {
    open spec fn obeys_eq_spec() -> bool {
        true
    }

    open spec fn eq_spec(&self, other: &Self) -> bool {
        self@ == other@
    }
}

} // verus!
