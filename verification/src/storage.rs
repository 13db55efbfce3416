//! What the vault keeps between sessions: the category list with its
//! defaults, and the JSON texts it is stored as.

use vstd::prelude::*;
use vstd::string::*;
use crate::memos::strings_view;

verus! {

#[verifier::external_type_specification]
#[verifier::external_body]
pub struct ExJsonError(serde_json::Error);

/// What `serde_json::from_str::<Vec<usize>>` gives for a text: the list of
/// numbers it holds, or `None` where the text is no JSON array of numbers
/// that fit a `usize`.
pub uninterp spec fn json_usize_list(text: Seq<char>) -> Option<Seq<usize>>;

/// What `serde_json::from_str::<Vec<String>>` gives for a text: the list of
/// strings it holds, or `None` where the text is no JSON array of strings.
pub uninterp spec fn json_string_list(text: Seq<char>) -> Option<Seq<Seq<char>>>;

/// What `serde_json::to_string` gives for a list of strings: its JSON
/// text, or `None` where serialisation fails.
pub uninterp spec fn string_list_json(list: Seq<Seq<char>>) -> Option<Seq<char>>;

/// Calls `serde_json::from_str::<Vec<usize>>`; the outcome is named by
/// [`json_usize_list`] and not spelled out.
#[verifier::external_body]
fn parse_usize_list(text: &str) -> (r: Result<Vec<usize>, serde_json::Error>)
    ensures
        match r {
            Ok(v) => json_usize_list(text@) == Some(v@),
            Err(_) => json_usize_list(text@) is None,
        },
{
    serde_json::from_str::<Vec<usize>>(text)
}

/// Calls `serde_json::from_str::<Vec<String>>`; the outcome is named by
/// [`json_string_list`] and not spelled out.
#[verifier::external_body]
fn parse_string_list(text: &str) -> (r: Result<Vec<String>, serde_json::Error>)
    ensures
        match r {
            Ok(v) => json_string_list(text@) == Some(strings_view(v@)),
            Err(_) => json_string_list(text@) is None,
        },
{
    serde_json::from_str::<Vec<String>>(text)
}

/// Calls `serde_json::to_string` on a list of strings. The text is named by
/// [`string_list_json`] and not spelled out. It never fails: each string is
/// written with `"`, `\` and the control characters escaped into a
/// `Vec<u8>`, which takes every write. Reading the text back with
/// `serde_json::from_str::<Vec<String>>` gives the same list.
#[verifier::external_body]
fn write_string_list(list: &Vec<String>) -> (r: Result<String, serde_json::Error>)
    ensures
        r is Ok,
        match r {
            Ok(s) => string_list_json(strings_view(list@)) == Some(s@) && json_string_list(s@)
                == Some(strings_view(list@)),
            Err(_) => string_list_json(strings_view(list@)) is None,
        },
{
    serde_json::to_string(list)
}

/// The ids of a finished semantic search: those of the JSON array in the
/// worker's reply, or none where the reply holds no such array.
pub fn parse_search_ids(payload: &str) -> (r: Vec<usize>)
    ensures
        r@ == match json_usize_list(payload@) {
            Some(ids) => ids,
            None => Seq::<usize>::empty(),
        },
{
    match parse_usize_list(payload) {
        Ok(ids) => ids,
        Err(_) => Vec::new(),
    }
}

/// The categories a new vault starts with.
pub open spec fn default_category_names() -> Seq<Seq<char>> {
    seq!["에러/버그"@, "코드 스니펫"@, "아이디어"@, "일상/회고"@, "기타"@, "미분류"@]
}

/// The categories a new vault starts with.
pub fn default_categories() -> (r: Vec<String>)
    ensures
        strings_view(r@) == default_category_names(),
{
    let mut r: Vec<String> = Vec::new();
    r.push(String::from_str("에러/버그"));
    r.push(String::from_str("코드 스니펫"));
    r.push(String::from_str("아이디어"));
    r.push(String::from_str("일상/회고"));
    r.push(String::from_str("기타"));
    r.push(String::from_str("미분류"));
    assert(strings_view(r@) =~= default_category_names());
    r
}

/// The stored categories when there are some, the defaults otherwise.
pub fn categories_or_default(parsed: Option<Vec<String>>) -> (r: Vec<String>)
    ensures
        strings_view(r@) == match parsed {
            Some(list) => if list@.len() > 0 {
                strings_view(list@)
            } else {
                default_category_names()
            },
            None => default_category_names(),
        },
{
    match parsed {
        Some(list) => {
            if list.len() > 0 {
                list
            } else {
                default_categories()
            }
        },
        None => default_categories(),
    }
}

/// The category list loaded from what is stored (`None`: nothing stored).
pub open spec fn loaded_categories(stored: Option<Seq<char>>) -> Seq<Seq<char>> {
    match stored {
        Some(text) => match json_string_list(text) {
            Some(list) => if list.len() > 0 {
                list
            } else {
                default_category_names()
            },
            None => default_category_names(),
        },
        None => default_category_names(),
    }
}

/// The category list from its stored JSON text (`None` where nothing is
/// stored): the stored list when it parses and is not empty, the defaults
/// otherwise.
pub fn load_categories(stored: Option<&str>) -> (r: Vec<String>)
    ensures
        strings_view(r@) == loaded_categories(
            match stored {
                Some(text) => Some(text@),
                None => None,
            },
        ),
{
    match stored {
        Some(text) => match parse_string_list(text) {
            Ok(list) => categories_or_default(Some(list)),
            Err(_) => categories_or_default(None),
        },
        None => categories_or_default(None),
    }
}

/// The JSON text the category list is stored as.
pub fn categories_json(list: &Vec<String>) -> (r: Option<String>)
    ensures
        r is Some,
        string_list_json(strings_view(list@)) == Some(r->0@),
        json_string_list(r->0@) == Some(strings_view(list@)),
{
    match write_string_list(list) {
        Ok(s) => Some(s),
        Err(_) => None,
    }
}


/// Loading never leaves the vault without categories.
pub proof fn lemma_loaded_categories_not_empty(stored: Option<Seq<char>>)
    ensures
        loaded_categories(stored).len() > 0,
{
}


/// Storing a non-empty category list and loading it back gives the same
/// list: the stored text is what `categories_json` writes, and it reads
/// back as the list.
pub proof fn lemma_categories_storage_round_trip(list: Seq<Seq<char>>, stored: Seq<char>)
    requires
        json_string_list(stored) == Some(list),
        list.len() > 0,
    ensures
        loaded_categories(Some(stored)) == list,
{
}

} // verus!
