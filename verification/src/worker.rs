//! Reading the replies of the classifier worker: their kind, the JSON object
//! inside a classification, and the ids of a finished search.

use vstd::prelude::*;
use vstd::string::*;
use crate::text::{chars_of, same_text};
use crate::storage::{json_usize_list, parse_search_ids};
use crate::store::WorkerEvent;

verus! {

/// The kinds of reply the worker sends.
#[derive(Debug, Clone, Copy, PartialEq, Eq, Structural)]
pub enum MessageKind {
    Status,
    Ready,
    Token,
    TokenSearch,
    DoneClassify,
    DoneSearch,
    Error,
    Other,
}

/// The kind named by a reply's `type` field.
pub open spec fn kind_of(msg_type: Seq<char>) -> MessageKind {
    if msg_type == "STATUS"@ {
        MessageKind::Status
    } else if msg_type == "READY"@ {
        MessageKind::Ready
    } else if msg_type == "TOKEN"@ {
        MessageKind::Token
    } else if msg_type == "TOKEN_SEARCH"@ {
        MessageKind::TokenSearch
    } else if msg_type == "DONE_CLASSIFY"@ {
        MessageKind::DoneClassify
    } else if msg_type == "DONE_SEARCH"@ {
        MessageKind::DoneSearch
    } else if msg_type == "ERROR"@ {
        MessageKind::Error
    } else {
        MessageKind::Other
    }
}

/// The kind of a reply from its `type` field.
pub fn message_kind(msg_type: &str) -> (k: MessageKind)
    ensures
        k == kind_of(msg_type@),
{
    if same_text(msg_type, "STATUS") {
        MessageKind::Status
    } else if same_text(msg_type, "READY") {
        MessageKind::Ready
    } else if same_text(msg_type, "TOKEN") {
        MessageKind::Token
    } else if same_text(msg_type, "TOKEN_SEARCH") {
        MessageKind::TokenSearch
    } else if same_text(msg_type, "DONE_CLASSIFY") {
        MessageKind::DoneClassify
    } else if same_text(msg_type, "DONE_SEARCH") {
        MessageKind::DoneSearch
    } else if same_text(msg_type, "ERROR") {
        MessageKind::Error
    } else {
        MessageKind::Other
    }
}

/// The position of the first `c` in `s`.
pub open spec fn first_index_of(s: Seq<char>, c: char) -> Option<int>
    decreases s.len(),
{
    if s.len() == 0 {
        None
    } else if s[0] == c {
        Some(0)
    } else {
        match first_index_of(s.drop_first(), c) {
            Some(k) => Some(k + 1),
            None => None,
        }
    }
}

/// The position of the last `c` in `s`.
pub open spec fn last_index_of(s: Seq<char>, c: char) -> Option<int>
    decreases s.len(),
{
    if s.len() == 0 {
        None
    } else if s.last() == c {
        Some(s.len() - 1)
    } else {
        last_index_of(s.drop_last(), c)
    }
}

/// The part of a classification reply from its first `{` through its last
/// `}`, or the whole reply where it lacks either; `None` where the last `}`
/// comes before the character just ahead of the first `{` (there slicing
/// the reply would panic).
pub open spec fn json_object_span(raw: Seq<char>) -> Option<Seq<char>> {
    match (first_index_of(raw, '{'), last_index_of(raw, '}')) {
        (Some(a), Some(b)) => if b + 1 < a {
            None
        } else {
            Some(raw.subrange(a, b + 1))
        },
        _ => Some(raw),
    }
}

proof fn lemma_first_index(s: Seq<char>, c: char, i: int)
    requires
        0 <= i <= s.len(),
        forall|j: int| 0 <= j < i ==> s[j] != c,
    ensures
        i < s.len() && s[i] == c ==> first_index_of(s, c) == Some(i),
        i == s.len() ==> first_index_of(s, c) is None,
    decreases i,
{
    if i > 0 {
        lemma_first_index(s.drop_first(), c, i - 1);
    }
}

proof fn lemma_last_index(s: Seq<char>, c: char, i: int)
    requires
        -1 <= i < s.len(),
        forall|j: int| i < j < s.len() ==> s[j] != c,
    ensures
        i >= 0 && s[i] == c ==> last_index_of(s, c) == Some(i),
        i == -1 ==> last_index_of(s, c) is None,
    decreases s.len(),
{
    if i < s.len() - 1 {
        lemma_last_index(s.drop_last(), c, i);
    }
}

/// The JSON object inside a classification reply (see
/// [`json_object_span`]); `None` where cutting it out would panic.
pub fn extract_json_object(raw: &str) -> (r: Option<String>)
    ensures
        match r {
            Some(s) => json_object_span(raw@) == Some(s@),
            None => json_object_span(raw@) is None,
        },
{
    let cs = chars_of(raw);
    let n = cs.len();
    let mut a: usize = 0;
    while a < n && cs[a] != '{'
        invariant
            cs@ == raw@,
            n == cs@.len(),
            a <= n,
            forall|j: int| 0 <= j < a ==> raw@[j] != '{',
        decreases n - a,
    {
        a = a + 1;
    }
    proof {
        lemma_first_index(raw@, '{', a as int);
    }
    let mut b: usize = n;
    while b > 0 && cs[b - 1] != '}'
        invariant
            cs@ == raw@,
            n == cs@.len(),
            b <= n,
            forall|j: int| b <= j < n ==> raw@[j] != '}',
        decreases b,
    {
        b = b - 1;
    }
    proof {
        lemma_last_index(raw@, '}', b - 1);
    }
    if a < n && b > 0 {
        if b < a {
            return None;
        }
        Some(raw.substring_char(a, b).to_owned())
    } else {
        Some(raw.to_owned())
    }
}

/// The event of a finished semantic search, from the worker's reply.
pub fn search_done_event(payload: &str) -> (ev: WorkerEvent)
    ensures
        match ev {
            WorkerEvent::SearchDone(ids) => ids@ == match json_usize_list(payload@) {
                Some(found) => found,
                None => Seq::<usize>::empty(),
            },
            _ => false,
        },
{
    WorkerEvent::SearchDone(parse_search_ids(payload))
}


proof fn lemma_first_index_found(s: Seq<char>, c: char)
    ensures
        first_index_of(s, c) matches Some(a) ==> 0 <= a < s.len() && s[a] == c,
    decreases s.len(),
{
    if s.len() > 0 {
        lemma_first_index_found(s.drop_first(), c);
    }
}

proof fn lemma_last_index_found(s: Seq<char>, c: char)
    ensures
        last_index_of(s, c) matches Some(b) ==> 0 <= b < s.len() && s[b] == c,
    decreases s.len(),
{
    if s.len() > 0 {
        lemma_last_index_found(s.drop_last(), c);
    }
}

/// Where the reply has a `{` with a `}` after it, the cut-out part runs
/// from that first `{` to that last `}`.
pub proof fn lemma_json_span_braces(raw: Seq<char>)
    requires
        first_index_of(raw, '{') is Some,
        last_index_of(raw, '}') is Some,
        first_index_of(raw, '{')->0 <= last_index_of(raw, '}')->0,
    ensures
        json_object_span(raw) is Some,
        json_object_span(raw)->0.len() >= 2,
        json_object_span(raw)->0[0] == '{',
        json_object_span(raw)->0.last() == '}',
{
    lemma_first_index_found(raw, '{');
    lemma_last_index_found(raw, '}');
    let a = first_index_of(raw, '{')->0;
    let b = last_index_of(raw, '}')->0;
    let span = raw.subrange(a, b + 1);
    assert(json_object_span(raw) == Some(span));
    assert(span[0] == raw[a]);
    assert(span[span.len() - 1] == raw[b]);
}

} // verus!
