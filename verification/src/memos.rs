//! Operations on the memo list: lookup by id, the next free id, amount
//! totals, newest-first ordering, search filtering and grouping by category.

use vstd::prelude::*;
use crate::models::{MemoCard, MemoCardView, cards_view};
use crate::text::{contains, contains_text, lowercase, to_lowercase, is_blank, blank, same_text};

verus! {

/// The position of the first memo with the given id.
pub open spec fn position_of_id(s: Seq<MemoCardView>, id: usize) -> Option<int>
    decreases s.len(),
{
    if s.len() == 0 {
        None
    } else if s[0].id == id {
        Some(0)
    } else {
        match position_of_id(s.drop_first(), id) {
            Some(k) => Some(k + 1),
            None => None,
        }
    }
}

/// The first memo with an id is found at the first index that holds it.
pub proof fn lemma_position_of_id(s: Seq<MemoCardView>, id: usize, i: int)
    requires
        0 <= i <= s.len(),
        forall|j: int| 0 <= j < i ==> s[j].id != id,
    ensures
        i < s.len() && s[i].id == id ==> position_of_id(s, id) == Some(i),
        i == s.len() ==> position_of_id(s, id) is None,
    decreases i,
{
    if i > 0 {
        lemma_position_of_id(s.drop_first(), id, i - 1);
    }
}

/// The index of the first memo with id `id`, as `iter().position` finds it.
pub fn find_memo_index(list: &Vec<MemoCard>, id: usize) -> (r: Option<usize>)
    ensures
        match r {
            Some(i) => position_of_id(cards_view(list@), id) == Some(i as int),
            None => position_of_id(cards_view(list@), id) is None,
        },
{
    let mut i: usize = 0;
    while i < list.len()
        invariant
            i <= list@.len(),
            forall|j: int| 0 <= j < i ==> cards_view(list@)[j].id != id,
        decreases list@.len() - i,
    {
        if list[i].id == id {
            proof {
                lemma_position_of_id(cards_view(list@), id, i as int);
            }
            return Some(i);
        }
        i = i + 1;
    }
    proof {
        lemma_position_of_id(cards_view(list@), id, i as int);
    }
    None
}

/// The largest id in the list, or zero for an empty list.
pub open spec fn max_id(s: Seq<MemoCardView>) -> int
    decreases s.len(),
{
    if s.len() == 0 {
        0
    } else {
        let m = max_id(s.drop_last());
        if s.last().id > m {
            s.last().id as int
        } else {
            m
        }
    }
}

/// The largest id bounds every id in the list.
pub proof fn lemma_max_id_bounds(s: Seq<MemoCardView>)
    ensures
        0 <= max_id(s) <= usize::MAX,
        forall|j: int| 0 <= j < s.len() ==> s[j].id <= max_id(s),
    decreases s.len(),
{
    if s.len() > 0 {
        lemma_max_id_bounds(s.drop_last());
        assert forall|j: int| 0 <= j < s.len() implies s[j].id <= max_id(s) by {
            if j < s.len() - 1 {
                assert(s.drop_last()[j] == s[j]);
            }
        }
    }
}

/// The id a new memo gets: one more than the largest id in use (one for an
/// empty list); `None` where that would overflow.
pub fn next_memo_id(list: &Vec<MemoCard>) -> (r: Option<usize>)
    ensures
        r == (if max_id(cards_view(list@)) < usize::MAX {
            Some((max_id(cards_view(list@)) + 1) as usize)
        } else {
            None::<usize>
        }),
{
    let mut m: usize = 0;
    let mut i: usize = 0;
    while i < list.len()
        invariant
            i <= list@.len(),
            m == max_id(cards_view(list@).take(i as int)),
        decreases list@.len() - i,
    {
        assert(cards_view(list@).take(i + 1).drop_last() =~= cards_view(list@).take(i as int));
        if list[i].id > m {
            m = list[i].id;
        }
        i = i + 1;
    }
    assert(cards_view(list@).take(list@.len() as int) =~= cards_view(list@));
    if m < usize::MAX {
        Some(m + 1)
    } else {
        None
    }
}

/// The sum of the amounts of the memos that have one.
pub open spec fn amount_total(s: Seq<MemoCardView>) -> int
    decreases s.len(),
{
    if s.len() == 0 {
        0
    } else {
        amount_total(s.drop_last()) + match s.last().data.amount {
            Some(a) => a as int,
            None => 0,
        }
    }
}

/// Every running total of the amounts fits in an `i32`.
pub open spec fn totals_fit(s: Seq<MemoCardView>) -> bool {
    forall|k: int|
        0 <= k <= s.len() ==> i32::MIN <= #[trigger] amount_total(s.take(k)) <= i32::MAX
}

/// The total of the amounts in a group; `None` where a running sum leaves
/// the `i32` range (the addition that would overflow).
pub fn total_amount(items: &Vec<MemoCard>) -> (r: Option<i32>)
    ensures
        r == (if totals_fit(cards_view(items@)) {
            Some(amount_total(cards_view(items@)) as i32)
        } else {
            None::<i32>
        }),
{
    let ghost s = cards_view(items@);
    let mut acc: i32 = 0;
    let mut i: usize = 0;
    assert(s.take(0) =~= Seq::<MemoCardView>::empty());
    while i < items.len()
        invariant
            s == cards_view(items@),
            i <= items@.len(),
            acc == amount_total(s.take(i as int)),
            forall|k: int| 0 <= k <= i ==> i32::MIN <= #[trigger] amount_total(s.take(k)) <= i32::MAX,
        decreases items@.len() - i,
    {
        assert(s.take(i + 1).drop_last() =~= s.take(i as int));
        match items[i].data.amount {
            Some(a) => {
                match acc.checked_add(a) {
                    Some(v) => {
                        acc = v;
                    },
                    None => {
                        assert(!(i32::MIN <= amount_total(s.take(i + 1)) <= i32::MAX));
                        return None;
                    },
                }
            },
            None => {},
        }
        i = i + 1;
    }
    assert(s.take(items@.len() as int) =~= s);
    Some(acc)
}


/// `x` inserted into `r` before the first memo that is older than it, so
/// that it comes after every memo at least as new.
pub open spec fn insert_newest_first(r: Seq<MemoCardView>, x: MemoCardView) -> Seq<MemoCardView>
    decreases r.len(),
{
    if r.len() == 0 {
        seq![x]
    } else if r[0].timestamp >= x.timestamp {
        seq![r[0]] + insert_newest_first(r.drop_first(), x)
    } else {
        seq![x] + r
    }
}

/// The memos ordered newest first; memos with equal timestamps keep their
/// order (a stable sort by descending timestamp).
pub open spec fn newest_first(s: Seq<MemoCardView>) -> Seq<MemoCardView>
    decreases s.len(),
{
    if s.len() == 0 {
        s
    } else {
        insert_newest_first(newest_first(s.drop_last()), s.last())
    }
}

proof fn lemma_insert_at(r: Seq<MemoCardView>, x: MemoCardView, p: int)
    requires
        0 <= p <= r.len(),
        forall|j: int| 0 <= j < p ==> r[j].timestamp >= x.timestamp,
        p < r.len() ==> r[p].timestamp < x.timestamp,
    ensures
        insert_newest_first(r, x) == r.take(p) + seq![x] + r.skip(p),
    decreases p,
{
    if p == 0 {
        if r.len() == 0 {
            assert(r.take(p) + seq![x] + r.skip(p) =~= seq![x]);
        } else {
            assert(r.take(p) + seq![x] + r.skip(p) =~= seq![x] + r);
        }
    } else {
        lemma_insert_at(r.drop_first(), x, p - 1);
        assert(seq![r[0]] + (r.drop_first().take(p - 1) + seq![x] + r.drop_first().skip(p - 1))
            =~= r.take(p) + seq![x] + r.skip(p));
    }
}

/// The memos ordered newest first, as a stable sort by descending
/// timestamp orders them.
pub fn sort_newest_first(list: &Vec<MemoCard>) -> (r: Vec<MemoCard>)
    ensures
        cards_view(r@) == newest_first(cards_view(list@)),
{
    let ghost s = cards_view(list@);
    let mut r: Vec<MemoCard> = Vec::new();
    let mut i: usize = 0;
    assert(s.take(0) =~= Seq::<MemoCardView>::empty());
    assert(cards_view(r@) =~= Seq::<MemoCardView>::empty());
    while i < list.len()
        invariant
            s == cards_view(list@),
            i <= list@.len(),
            cards_view(r@) == newest_first(s.take(i as int)),
        decreases list@.len() - i,
    {
        let x = list[i].cloned();
        let ts = x.timestamp;
        let mut p: usize = 0;
        while p < r.len() && r[p].timestamp >= ts
            invariant
                p <= r@.len(),
                forall|j: int| 0 <= j < p ==> cards_view(r@)[j].timestamp >= ts,
            decreases r@.len() - p,
        {
            p = p + 1;
        }
        let ghost before = cards_view(r@);
        proof {
            lemma_insert_at(before, x@, p as int);
            assert(s.take(i + 1).drop_last() =~= s.take(i as int));
            assert(s.take(i + 1).last() == x@);
        }
        r.insert(p, x);
        assert(cards_view(r@) =~= before.take(p as int) + seq![x@] + before.skip(p as int));
        i = i + 1;
    }
    assert(s.take(list@.len() as int) =~= s);
    r
}


/// The memos ordered from newest to oldest.
pub open spec fn is_newest_first(s: Seq<MemoCardView>) -> bool {
    forall|i: int, j: int| 0 <= i < j < s.len() ==> s[i].timestamp >= s[j].timestamp
}

/// The memos stamped at `t`, in their order.
pub open spec fn stamped_at(s: Seq<MemoCardView>, t: i64) -> Seq<MemoCardView>
    decreases s.len(),
{
    if s.len() == 0 {
        s
    } else if s.last().timestamp == t {
        stamped_at(s.drop_last(), t).push(s.last())
    } else {
        stamped_at(s.drop_last(), t)
    }
}

proof fn lemma_stamped_at_add(a: Seq<MemoCardView>, b: Seq<MemoCardView>, t: i64)
    ensures
        stamped_at(a + b, t) == stamped_at(a, t) + stamped_at(b, t),
    decreases b.len(),
{
    if b.len() == 0 {
        assert(a + b =~= a);
        assert(stamped_at(a, t) + stamped_at(b, t) =~= stamped_at(a, t));
    } else {
        assert((a + b).drop_last() =~= a + b.drop_last());
        lemma_stamped_at_add(a, b.drop_last(), t);
        assert(stamped_at(a + b, t) =~= stamped_at(a, t) + stamped_at(b, t));
    }
}

proof fn lemma_stamped_at_none(s: Seq<MemoCardView>, t: i64)
    requires
        forall|j: int| 0 <= j < s.len() ==> s[j].timestamp < t,
    ensures
        stamped_at(s, t) == Seq::<MemoCardView>::empty(),
    decreases s.len(),
{
    if s.len() > 0 {
        lemma_stamped_at_none(s.drop_last(), t);
    }
}

proof fn lemma_stamped_at_single(x: MemoCardView, t: i64)
    ensures
        stamped_at(seq![x], t) == (if x.timestamp == t {
            seq![x]
        } else {
            Seq::<MemoCardView>::empty()
        }),
{
    assert(seq![x].drop_last() =~= Seq::<MemoCardView>::empty());
    assert(stamped_at(Seq::<MemoCardView>::empty(), t) == Seq::<MemoCardView>::empty());
    if x.timestamp == t {
        assert(Seq::<MemoCardView>::empty().push(x) =~= seq![x]);
    }
}

/// The position before the first memo older than `ts` (or the end).
proof fn lemma_split_point(r: Seq<MemoCardView>, ts: i64) -> (p: int)
    ensures
        0 <= p <= r.len(),
        forall|j: int| 0 <= j < p ==> r[j].timestamp >= ts,
        p < r.len() ==> r[p].timestamp < ts,
    decreases r.len(),
{
    if r.len() == 0 {
        0
    } else if r[0].timestamp < ts {
        0
    } else {
        let q = lemma_split_point(r.drop_first(), ts);
        assert forall|j: int| 0 <= j < q + 1 implies r[j].timestamp >= ts by {
            if j > 0 {
                assert(r[j] == r.drop_first()[j - 1]);
            }
        }
        q + 1
    }
}

proof fn lemma_insert_sorted(r: Seq<MemoCardView>, x: MemoCardView)
    requires
        is_newest_first(r),
    ensures
        is_newest_first(insert_newest_first(r, x)),
{
    let p = lemma_split_point(r, x.timestamp);
    lemma_insert_at(r, x, p);
    let ins = insert_newest_first(r, x);
    assert(ins =~= r.take(p) + seq![x] + r.skip(p));
    assert forall|i: int, j: int| 0 <= i < j < ins.len() implies ins[i].timestamp
        >= ins[j].timestamp by {
        if j < p {
            assert(ins[i] == r[i] && ins[j] == r[j]);
        } else if j == p {
            assert(ins[i] == r[i]);
        } else if i < p {
            assert(ins[i] == r[i] && ins[j] == r[j - 1]);
        } else if i == p {
            assert(ins[j] == r[j - 1]);
            assert(r[p].timestamp >= r[j - 1].timestamp);
        } else {
            assert(ins[i] == r[i - 1]);
            assert(ins[j] == r[j - 1]);
        }
    }
}

proof fn lemma_insert_stamped(r: Seq<MemoCardView>, x: MemoCardView, t: i64)
    requires
        is_newest_first(r),
    ensures
        stamped_at(insert_newest_first(r, x), t) == if x.timestamp == t {
            stamped_at(r, t).push(x)
        } else {
            stamped_at(r, t)
        },
{
    let p = lemma_split_point(r, x.timestamp);
    lemma_insert_at(r, x, p);
    let a = r.take(p);
    let b = r.skip(p);
    let ins = insert_newest_first(r, x);
    assert(ins == a + seq![x] + b);
    assert(r =~= a + b);
    lemma_stamped_at_add(a + seq![x], b, t);
    lemma_stamped_at_add(a, seq![x], t);
    lemma_stamped_at_add(a, b, t);
    lemma_stamped_at_single(x, t);
    if x.timestamp == t {
        assert forall|j: int| 0 <= j < b.len() implies b[j].timestamp < t by {
            assert(b[j] == r[p + j]);
            if j > 0 {
                assert(r[p].timestamp >= r[p + j].timestamp);
            }
        }
        lemma_stamped_at_none(b, t);
        assert(stamped_at(ins, t) =~= stamped_at(r, t).push(x));
    } else {
        assert(stamped_at(ins, t) =~= stamped_at(r, t));
    }
}

/// Ordering newest first is a stable sort: the result runs from newest to
/// oldest, and the memos of each timestamp are exactly those of the input,
/// in the input's order (so nothing is lost, added or reordered among
/// equals).
pub proof fn lemma_newest_first_is_stable_sort(s: Seq<MemoCardView>)
    ensures
        is_newest_first(newest_first(s)),
        forall|t: i64| #[trigger] stamped_at(newest_first(s), t) == stamped_at(s, t),
    decreases s.len(),
{
    if s.len() > 0 {
        lemma_newest_first_is_stable_sort(s.drop_last());
        lemma_insert_sorted(newest_first(s.drop_last()), s.last());
        assert forall|t: i64| #[trigger] stamped_at(newest_first(s), t) == stamped_at(s, t) by {
            lemma_insert_stamped(newest_first(s.drop_last()), s.last(), t);
        }
    }
}


/// The views of a sequence of strings.
pub open spec fn strings_view(v: Seq<String>) -> Seq<Seq<char>> {
    v.map_values(|x: String| x@)
}

/// Whether `list` holds the string `s` (`list.contains(&s)`).
pub fn contains_string(list: &Vec<String>, s: &str) -> (r: bool)
    ensures
        r == strings_view(list@).contains(s@),
{
    let mut i: usize = 0;
    while i < list.len()
        invariant
            i <= list@.len(),
            forall|j: int| 0 <= j < i ==> strings_view(list@)[j] != s@,
        decreases list@.len() - i,
    {
        if same_text(list[i].as_str(), s) {
            assert(strings_view(list@)[i as int] == s@);
            return true;
        }
        i = i + 1;
    }
    false
}

/// The lower-cased contents of the memos.
pub open spec fn contents_lowered(s: Seq<MemoCardView>) -> Seq<Seq<char>> {
    s.map_values(|m: MemoCardView| lowercase(m.data.content))
}

/// The memos whose entry in `lowered` (the memos' lower-cased contents,
/// position by position) contains `q`, in order.
pub open spec fn matching_lowered(s: Seq<MemoCardView>, lowered: Seq<Seq<char>>, q: Seq<char>) -> Seq<
    MemoCardView,
>
    decreases s.len(),
{
    if s.len() == 0 {
        s
    } else if contains_text(lowered[s.len() - 1], q) {
        matching_lowered(s.drop_last(), lowered.drop_last(), q).push(s.last())
    } else {
        matching_lowered(s.drop_last(), lowered.drop_last(), q)
    }
}

/// The memos whose lower-cased content contains `q`, in order.
pub open spec fn matching_query(s: Seq<MemoCardView>, q: Seq<char>) -> Seq<MemoCardView> {
    matching_lowered(s, contents_lowered(s), q)
}

/// The lower-cased content of each memo.
pub fn lowered_contents(list: &Vec<MemoCard>) -> (r: Vec<String>)
    ensures
        strings_view(r@) == contents_lowered(cards_view(list@)),
{
    let ghost s = cards_view(list@);
    let mut r: Vec<String> = Vec::new();
    let mut i: usize = 0;
    while i < list.len()
        invariant
            s == cards_view(list@),
            i <= list@.len(),
            strings_view(r@) == contents_lowered(s).take(i as int),
        decreases list@.len() - i,
    {
        let lower = to_lowercase(list[i].data.content.as_str());
        let ghost before = strings_view(r@);
        let ghost lv = lower@;
        r.push(lower);
        assert(strings_view(r@) =~= before.push(lv));
        assert(contents_lowered(s).take(i + 1) =~= contents_lowered(s).take(i as int).push(
            contents_lowered(s)[i as int],
        ));
        i = i + 1;
    }
    assert(contents_lowered(s).take(list@.len() as int) =~= contents_lowered(s));
    r
}

/// The memos whose lower-cased content, given position by position in
/// `lowered`, contains `q` (a lower-cased query).
pub fn filter_by_lowered(list: &Vec<MemoCard>, lowered: &Vec<String>, q: &str) -> (r: Vec<MemoCard>)
    requires
        lowered@.len() == list@.len(),
    ensures
        cards_view(r@) == matching_lowered(cards_view(list@), strings_view(lowered@), q@),
{
    let ghost s = cards_view(list@);
    let ghost lv = strings_view(lowered@);
    let mut r: Vec<MemoCard> = Vec::new();
    let mut i: usize = 0;
    assert(s.take(0) =~= Seq::<MemoCardView>::empty());
    assert(cards_view(r@) =~= Seq::<MemoCardView>::empty());
    while i < list.len()
        invariant
            s == cards_view(list@),
            lv == strings_view(lowered@),
            lowered@.len() == list@.len(),
            i <= list@.len(),
            cards_view(r@) == matching_lowered(s.take(i as int), lv.take(i as int), q@),
        decreases list@.len() - i,
    {
        assert(s.take(i + 1).drop_last() =~= s.take(i as int));
        assert(lv.take(i + 1).drop_last() =~= lv.take(i as int));
        assert(lv.take(i + 1)[i as int] == lv[i as int]);
        if contains(lowered[i].as_str(), q) {
            let ghost before = cards_view(r@);
            r.push(list[i].cloned());
            assert(cards_view(r@) =~= before.push(s[i as int]));
        }
        i = i + 1;
    }
    assert(s.take(list@.len() as int) =~= s);
    assert(lv.take(list@.len() as int) =~= lv);
    r
}

/// The memos whose lower-cased content contains `q` (a lower-cased query).
pub fn filter_by_query(list: &Vec<MemoCard>, q: &str) -> (r: Vec<MemoCard>)
    ensures
        cards_view(r@) == matching_query(cards_view(list@), q@),
{
    let lowered = lowered_contents(list);
    filter_by_lowered(list, &lowered, q)
}

/// For each id in turn, the first memo with that id (ids with no memo are
/// skipped, repeated ids repeat their memo).
pub open spec fn pick_by_ids(s: Seq<MemoCardView>, ids: Seq<usize>) -> Seq<MemoCardView>
    decreases ids.len(),
{
    if ids.len() == 0 {
        Seq::empty()
    } else {
        pick_by_ids(s, ids.drop_last()) + match position_of_id(s, ids.last()) {
            Some(k) => seq![s[k]],
            None => Seq::empty(),
        }
    }
}

/// The first position of an id, when there is one, holds that id.
pub proof fn lemma_position_in_range(s: Seq<MemoCardView>, id: usize)
    ensures
        position_of_id(s, id) matches Some(k) ==> 0 <= k < s.len() && s[k].id == id,
    decreases s.len(),
{
    if s.len() > 0 {
        lemma_position_in_range(s.drop_first(), id);
    }
}

/// The memos the semantic search returned, in its order.
pub fn select_by_ids(list: &Vec<MemoCard>, ids: &Vec<usize>) -> (r: Vec<MemoCard>)
    ensures
        cards_view(r@) == pick_by_ids(cards_view(list@), ids@),
{
    let ghost s = cards_view(list@);
    let mut r: Vec<MemoCard> = Vec::new();
    let mut i: usize = 0;
    assert(ids@.take(0) =~= Seq::<usize>::empty());
    assert(cards_view(r@) =~= Seq::<MemoCardView>::empty());
    while i < ids.len()
        invariant
            s == cards_view(list@),
            i <= ids@.len(),
            cards_view(r@) == pick_by_ids(s, ids@.take(i as int)),
        decreases ids@.len() - i,
    {
        assert(ids@.take(i + 1).drop_last() =~= ids@.take(i as int));
        proof {
            lemma_position_in_range(s, ids@[i as int]);
        }
        let ghost before = cards_view(r@);
        match find_memo_index(list, ids[i]) {
            Some(k) => {
                r.push(list[k].cloned());
                assert(cards_view(r@) =~= before + seq![s[k as int]]);
            },
            None => {
                assert(before + Seq::<MemoCardView>::empty() =~= before);
            },
        }
        i = i + 1;
    }
    assert(ids@.take(ids@.len() as int) =~= ids@);
    r
}

/// The memos shown, from the memos' lower-cased contents (position by
/// position in `lowered`) and the lower-cased query: those the semantic
/// search returned, when it has run; otherwise those whose lower-cased
/// content contains a non-blank query, newest first; otherwise all of them,
/// newest first.
pub open spec fn visible_memos_lowered(
    s: Seq<MemoCardView>,
    lowered: Seq<Seq<char>>,
    lower_query: Seq<char>,
    ai_ids: Option<Seq<usize>>,
) -> Seq<MemoCardView> {
    match ai_ids {
        Some(ids) => pick_by_ids(s, ids),
        None => {
            if !is_blank(lower_query) {
                newest_first(matching_lowered(s, lowered, lower_query))
            } else {
                newest_first(s)
            }
        },
    }
}

/// The memos shown for a search `query` (see [`visible_memos_lowered`]),
/// lower-casing the contents and the query.
pub open spec fn visible_memos(s: Seq<MemoCardView>, query: Seq<char>, ai_ids: Option<Seq<usize>>) -> Seq<
    MemoCardView,
> {
    visible_memos_lowered(s, contents_lowered(s), lowercase(query), ai_ids)
}

/// The memos shown, decided from the lower-cased contents and query (see
/// [`visible_memos_lowered`]).
pub fn shown_memos(
    list: &Vec<MemoCard>,
    lowered: &Vec<String>,
    lower_query: &str,
    ai_ids: &Option<Vec<usize>>,
) -> (r: Vec<MemoCard>)
    requires
        lowered@.len() == list@.len(),
    ensures
        cards_view(r@) == visible_memos_lowered(
            cards_view(list@),
            strings_view(lowered@),
            lower_query@,
            match ai_ids {
                Some(ids) => Some(ids@),
                None => None,
            },
        ),
{
    match ai_ids {
        Some(ids) => select_by_ids(list, ids),
        None => {
            if !blank(lower_query) {
                let found = filter_by_lowered(list, lowered, lower_query);
                sort_newest_first(&found)
            } else {
                sort_newest_first(list)
            }
        },
    }
}


/// Filtering by the given lower-cased contents, when they are the memos'
/// own contents lower-cased, is filtering by each memo's lower-cased
/// content.
proof fn lemma_matching_is_filter(s: Seq<MemoCardView>, q: Seq<char>)
    ensures
        matching_lowered(s, contents_lowered(s), q) == s.filter(
            |m: MemoCardView| contains_text(lowercase(m.data.content), q),
        ),
    decreases s.len(),
{
    reveal(Seq::filter);
    if s.len() > 0 {
        assert(contents_lowered(s).drop_last() =~= contents_lowered(s.drop_last()));
        assert(contents_lowered(s)[s.len() - 1] == lowercase(s.last().data.content));
        lemma_matching_is_filter(s.drop_last(), q);
    }
}

proof fn lemma_stamped_contains(s: Seq<MemoCardView>, x: MemoCardView)
    ensures
        s.contains(x) <==> stamped_at(s, x.timestamp).contains(x),
    decreases s.len(),
{
    if s.len() > 0 {
        let rest = s.drop_last();
        lemma_stamped_contains(rest, x);
        let st = stamped_at(s, x.timestamp);
        let sr = stamped_at(rest, x.timestamp);
        if s.contains(x) {
            let k = choose|k: int| 0 <= k < s.len() && s[k] == x;
            if k < s.len() - 1 {
                assert(rest[k] == x);
                let j = choose|j: int| 0 <= j < sr.len() && sr[j] == x;
                assert(st[j] == x);
            } else {
                assert(st[st.len() - 1] == x);
            }
        }
        if st.contains(x) {
            let j = choose|j: int| 0 <= j < st.len() && st[j] == x;
            if s.last().timestamp == x.timestamp && j == st.len() - 1 {
                assert(s[s.len() - 1] == x);
            } else {
                assert(sr[j] == x);
                let k = choose|k: int| 0 <= k < rest.len() && rest[k] == x;
                assert(s[k] == x);
            }
        }
    }
}

/// Ordering newest first neither adds nor loses memos.
pub proof fn lemma_newest_first_same_memos(s: Seq<MemoCardView>, x: MemoCardView)
    ensures
        newest_first(s).contains(x) <==> s.contains(x),
{
    lemma_newest_first_is_stable_sort(s);
    lemma_stamped_contains(s, x);
    lemma_stamped_contains(newest_first(s), x);
}

/// A keyword search without semantic results shows exactly the memos whose
/// lower-cased content contains the lower-cased query, newest first, in a
/// stable order.
pub proof fn lemma_search_shows_matching_memos(s: Seq<MemoCardView>, query: Seq<char>)
    requires
        !is_blank(lowercase(query)),
    ensures
        visible_memos(s, query, None) == newest_first(
            s.filter(|m: MemoCardView| contains_text(lowercase(m.data.content), lowercase(query))),
        ),
        is_newest_first(visible_memos(s, query, None)),
        forall|x: MemoCardView|
            #[trigger] visible_memos(s, query, None).contains(x) <==> s.contains(x) && contains_text(
                lowercase(x.data.content),
                lowercase(query),
            ),
{
    let lq = lowercase(query);
    let pred = |m: MemoCardView| contains_text(lowercase(m.data.content), lq);
    lemma_matching_is_filter(s, lq);
    let f = s.filter(pred);
    lemma_newest_first_is_stable_sort(f);
    assert forall|x: MemoCardView|
        #[trigger] visible_memos(s, query, None).contains(x) <==> s.contains(x) && contains_text(
            lowercase(x.data.content),
            lq,
        ) by {
        lemma_newest_first_same_memos(f, x);
        if f.contains(x) {
            s.lemma_filter_contains_rev(pred, x);
            let j = choose|j: int| 0 <= j < f.len() && f[j] == x;
            s.lemma_filter_pred(pred, j);
        }
        if s.contains(x) && pred(x) {
            let k = choose|k: int| 0 <= k < s.len() && s[k] == x;
            s.lemma_filter_contains(pred, k);
        }
    }
}

} // verus!
