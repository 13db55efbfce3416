//! Grouping the shown memos by category: one group per listed category, in
//! the order of the category list, then "other" (기타) and "unclassified"
//! (미분류) at the end.

use vstd::prelude::*;
use vstd::string::*;
use crate::models::{MemoCard, MemoCardView, cards_view};
use crate::memos::{strings_view, contains_string, is_newest_first, newest_first, matching_lowered,
    contents_lowered,
    visible_memos, lemma_newest_first_is_stable_sort};
use crate::text::{is_blank, lowercase};
use crate::text::same_text;

verus! {

/// The name of the catch-all category.
pub open spec fn etc_category() -> Seq<char> {
    "기타"@
}

/// The name of the category of memos the classifier could not place.
pub open spec fn unclassified_category() -> Seq<char> {
    "미분류"@
}

/// The memos of category `c`, in order.
pub open spec fn in_category(s: Seq<MemoCardView>, c: Seq<char>) -> Seq<MemoCardView>
    decreases s.len(),
{
    if s.len() == 0 {
        s
    } else if s.last().data.category == c {
        in_category(s.drop_last(), c).push(s.last())
    } else {
        in_category(s.drop_last(), c)
    }
}

/// A memo that falls into the "other" group: its category is the catch-all
/// one, or one that is not listed and is not the unclassified one.
pub open spec fn is_other(m: MemoCardView, cats: Seq<Seq<char>>) -> bool {
    m.data.category == etc_category() || (!cats.contains(m.data.category) && m.data.category
        != unclassified_category())
}

/// The memos of the "other" group, in order.
pub open spec fn other_memos(s: Seq<MemoCardView>, cats: Seq<Seq<char>>) -> Seq<MemoCardView>
    decreases s.len(),
{
    if s.len() == 0 {
        s
    } else if is_other(s.last(), cats) {
        other_memos(s.drop_last(), cats).push(s.last())
    } else {
        other_memos(s.drop_last(), cats)
    }
}

/// One group per listed category that has memos and is neither the
/// catch-all nor the unclassified one, in the order of the list.
pub open spec fn named_groups(s: Seq<MemoCardView>, cats: Seq<Seq<char>>) -> Seq<
    (Seq<char>, Seq<MemoCardView>),
>
    decreases cats.len(),
{
    if cats.len() == 0 {
        Seq::empty()
    } else {
        let c = cats.last();
        let items = in_category(s, c);
        named_groups(s, cats.drop_last()) + if items.len() > 0 && c != etc_category() && c
            != unclassified_category() {
            seq![(c, items)]
        } else {
            Seq::empty()
        }
    }
}

/// The groups shown: the named ones, then "other" and "unclassified" when
/// they have memos.
pub open spec fn category_groups(s: Seq<MemoCardView>, cats: Seq<Seq<char>>) -> Seq<
    (Seq<char>, Seq<MemoCardView>),
> {
    let others = other_memos(s, cats);
    let unclassified = in_category(s, unclassified_category());
    named_groups(s, cats) + (if others.len() > 0 {
        seq![(etc_category(), others)]
    } else {
        Seq::empty()
    }) + (if unclassified.len() > 0 {
        seq![(unclassified_category(), unclassified)]
    } else {
        Seq::empty()
    })
}

/// The view of a list of groups.
pub open spec fn groups_view(g: Seq<(String, Vec<MemoCard>)>) -> Seq<(Seq<char>, Seq<MemoCardView>)> {
    g.map_values(|p: (String, Vec<MemoCard>)| (p.0@, cards_view(p.1@)))
}

/// The memos of category `c`.
pub fn cards_in_category(list: &Vec<MemoCard>, c: &str) -> (r: Vec<MemoCard>)
    ensures
        cards_view(r@) == in_category(cards_view(list@), c@),
{
    let ghost s = cards_view(list@);
    let mut r: Vec<MemoCard> = Vec::new();
    let mut i: usize = 0;
    assert(s.take(0) =~= Seq::<MemoCardView>::empty());
    assert(cards_view(r@) =~= Seq::<MemoCardView>::empty());
    while i < list.len()
        invariant
            s == cards_view(list@),
            i <= list@.len(),
            cards_view(r@) == in_category(s.take(i as int), c@),
        decreases list@.len() - i,
    {
        assert(s.take(i + 1).drop_last() =~= s.take(i as int));
        if same_text(list[i].data.category.as_str(), c) {
            let ghost before = cards_view(r@);
            r.push(list[i].cloned());
            assert(cards_view(r@) =~= before.push(s[i as int]));
        }
        i = i + 1;
    }
    assert(s.take(list@.len() as int) =~= s);
    r
}

/// The memos of the "other" group.
fn cards_of_other(list: &Vec<MemoCard>, cats: &Vec<String>) -> (r: Vec<MemoCard>)
    ensures
        cards_view(r@) == other_memos(cards_view(list@), strings_view(cats@)),
{
    let ghost s = cards_view(list@);
    let ghost cv = strings_view(cats@);
    let mut r: Vec<MemoCard> = Vec::new();
    let mut i: usize = 0;
    assert(s.take(0) =~= Seq::<MemoCardView>::empty());
    assert(cards_view(r@) =~= Seq::<MemoCardView>::empty());
    while i < list.len()
        invariant
            s == cards_view(list@),
            cv == strings_view(cats@),
            i <= list@.len(),
            cards_view(r@) == other_memos(s.take(i as int), cv),
        decreases list@.len() - i,
    {
        assert(s.take(i + 1).drop_last() =~= s.take(i as int));
        let cat = list[i].data.category.as_str();
        if same_text(cat, "기타") || (!contains_string(cats, cat) && !same_text(cat, "미분류")) {
            let ghost before = cards_view(r@);
            r.push(list[i].cloned());
            assert(cards_view(r@) =~= before.push(s[i as int]));
        }
        i = i + 1;
    }
    assert(s.take(list@.len() as int) =~= s);
    r
}

/// Groups the memos by category: one group per listed category that has
/// memos, in the order of the list (the catch-all and unclassified
/// categories excepted), then the catch-all group (its own memos and those
/// of unlisted categories), then the unclassified group; empty groups are
/// left out.
pub fn group_by_category(list: &Vec<MemoCard>, cats: &Vec<String>) -> (r: Vec<
    (String, Vec<MemoCard>),
>)
    ensures
        groups_view(r@) == category_groups(cards_view(list@), strings_view(cats@)),
{
    let ghost s = cards_view(list@);
    let ghost cv = strings_view(cats@);
    let mut out: Vec<(String, Vec<MemoCard>)> = Vec::new();
    let mut i: usize = 0;
    assert(cv.take(0) =~= Seq::<Seq<char>>::empty());
    assert(groups_view(out@) =~= Seq::<(Seq<char>, Seq<MemoCardView>)>::empty());
    while i < cats.len()
        invariant
            s == cards_view(list@),
            cv == strings_view(cats@),
            i <= cats@.len(),
            groups_view(out@) == named_groups(s, cv.take(i as int)),
        decreases cats@.len() - i,
    {
        assert(cv.take(i + 1).drop_last() =~= cv.take(i as int));
        let cat = cats[i].as_str();
        let items = cards_in_category(list, cat);
        let ghost before = groups_view(out@);
        if items.len() > 0 && !same_text(cat, "기타") && !same_text(cat, "미분류") {
            let ghost iv = cards_view(items@);
            out.push((cats[i].clone(), items));
            assert(groups_view(out@) =~= before + seq![(cv[i as int], iv)]);
        } else {
            assert(before + Seq::<(Seq<char>, Seq<MemoCardView>)>::empty() =~= before);
        }
        i = i + 1;
    }
    assert(cv.take(cats@.len() as int) =~= cv);
    let others = cards_of_other(list, cats);
    if others.len() > 0 {
        let ghost before = groups_view(out@);
        let ghost ov = cards_view(others@);
        out.push((String::from_str("기타"), others));
        assert(groups_view(out@) =~= before + seq![(etc_category(), ov)]);
    }
    let ghost mid = groups_view(out@);
    let unclassified = cards_in_category(list, "미분류");
    if unclassified.len() > 0 {
        let ghost uv = cards_view(unclassified@);
        out.push((String::from_str("미분류"), unclassified));
        assert(groups_view(out@) =~= mid + seq![(unclassified_category(), uv)]);
    }
    assert(groups_view(out@) =~= category_groups(s, cv));
    out
}


/// The number of memos in a list of groups.
pub open spec fn group_total(g: Seq<(Seq<char>, Seq<MemoCardView>)>) -> int
    decreases g.len(),
{
    if g.len() == 0 {
        0
    } else {
        group_total(g.drop_last()) + g.last().1.len()
    }
}

/// No name occurs twice.
pub open spec fn distinct_names(cats: Seq<Seq<char>>) -> bool {
    forall|i: int, j: int| 0 <= i < j < cats.len() ==> cats[i] != cats[j]
}

/// The catch-all or the unclassified category.
pub open spec fn is_reserved(c: Seq<char>) -> bool {
    c == etc_category() || c == unclassified_category()
}

/// The number of memos in the named groups, counted per listed category.
pub open spec fn named_count(s: Seq<MemoCardView>, cats: Seq<Seq<char>>) -> int
    decreases cats.len(),
{
    if cats.len() == 0 {
        0
    } else {
        named_count(s, cats.drop_last()) + if is_reserved(cats.last()) {
            0
        } else {
            in_category(s, cats.last()).len() as int
        }
    }
}

proof fn lemma_group_total_add(a: Seq<(Seq<char>, Seq<MemoCardView>)>, b: Seq<(Seq<char>, Seq<MemoCardView>)>)
    ensures
        group_total(a + b) == group_total(a) + group_total(b),
    decreases b.len(),
{
    if b.len() == 0 {
        assert(a + b =~= a);
    } else {
        assert((a + b).drop_last() =~= a + b.drop_last());
        lemma_group_total_add(a, b.drop_last());
    }
}

proof fn lemma_group_total_single(x: (Seq<char>, Seq<MemoCardView>))
    ensures
        group_total(seq![x]) == x.1.len(),
{
    assert(seq![x].drop_last() =~= Seq::<(Seq<char>, Seq<MemoCardView>)>::empty());
    assert(group_total(Seq::<(Seq<char>, Seq<MemoCardView>)>::empty()) == 0);
}

proof fn lemma_named_total(s: Seq<MemoCardView>, cats: Seq<Seq<char>>)
    ensures
        group_total(named_groups(s, cats)) == named_count(s, cats),
    decreases cats.len(),
{
    if cats.len() > 0 {
        let c = cats.last();
        let items = in_category(s, c);
        lemma_named_total(s, cats.drop_last());
        let extra: Seq<(Seq<char>, Seq<MemoCardView>)> = if items.len() > 0 && c != etc_category()
            && c != unclassified_category() {
            seq![(c, items)]
        } else {
            Seq::empty()
        };
        lemma_group_total_add(named_groups(s, cats.drop_last()), extra);
        if items.len() > 0 && c != etc_category() && c != unclassified_category() {
            lemma_group_total_single((c, items));
        }
    }
}

/// Adding one memo adds one to the named count exactly when its category
/// is listed and not reserved.
proof fn lemma_named_count_step(s: Seq<MemoCardView>, cats: Seq<Seq<char>>)
    requires
        s.len() > 0,
        distinct_names(cats),
    ensures
        named_count(s, cats) == named_count(s.drop_last(), cats) + if !is_reserved(
            s.last().data.category,
        ) && cats.contains(s.last().data.category) {
            1int
        } else {
            0int
        },
    decreases cats.len(),
{
    if cats.len() > 0 {
        let rest = cats.drop_last();
        assert(distinct_names(rest));
        lemma_named_count_step(s, rest);
        let c = cats.last();
        let m = s.last().data.category;
        if m == c {
            assert(!rest.contains(m)) by {
                if rest.contains(m) {
                    let k = choose|k: int| 0 <= k < rest.len() && rest[k] == m;
                    assert(cats[k] == cats[cats.len() - 1]);
                }
            }
            assert(cats.contains(m)) by {
                assert(cats[cats.len() - 1] == m);
            }
        } else {
            assert(cats.contains(m) == rest.contains(m)) by {
                if cats.contains(m) {
                    let k = choose|k: int| 0 <= k < cats.len() && cats[k] == m;
                    assert(k < cats.len() - 1);
                    assert(rest[k] == m);
                }
                if rest.contains(m) {
                    let k = choose|k: int| 0 <= k < rest.len() && rest[k] == m;
                    assert(cats[k] == m);
                }
            }
        }
    } else {
        assert(!cats.contains(s.last().data.category));
    }
}

/// With a category list that names no category twice, the groups hold
/// every shown memo exactly once in number: their sizes add up to the
/// number of memos.
pub proof fn lemma_groups_partition(s: Seq<MemoCardView>, cats: Seq<Seq<char>>)
    requires
        distinct_names(cats),
    ensures
        group_total(category_groups(s, cats)) == s.len(),
    decreases s.len(),
{
    let others = other_memos(s, cats);
    let unclassified = in_category(s, unclassified_category());
    let og: Seq<(Seq<char>, Seq<MemoCardView>)> = if others.len() > 0 {
        seq![(etc_category(), others)]
    } else {
        Seq::empty()
    };
    let ug: Seq<(Seq<char>, Seq<MemoCardView>)> = if unclassified.len() > 0 {
        seq![(unclassified_category(), unclassified)]
    } else {
        Seq::empty()
    };
    lemma_group_total_add(named_groups(s, cats) + og, ug);
    lemma_group_total_add(named_groups(s, cats), og);
    lemma_named_total(s, cats);
    if others.len() > 0 {
        lemma_group_total_single((etc_category(), others));
    }
    if unclassified.len() > 0 {
        lemma_group_total_single((unclassified_category(), unclassified));
    }
    assert(group_total(category_groups(s, cats)) == named_count(s, cats) + others.len()
        + unclassified.len());
    lemma_counts_add_up(s, cats);
}

proof fn lemma_counts_add_up(s: Seq<MemoCardView>, cats: Seq<Seq<char>>)
    requires
        distinct_names(cats),
    ensures
        named_count(s, cats) + other_memos(s, cats).len() + in_category(s, unclassified_category()).len()
            == s.len(),
    decreases s.len(),
{
    if s.len() == 0 {
        lemma_named_count_empty(s, cats);
    } else {
        lemma_counts_add_up(s.drop_last(), cats);
        lemma_named_count_step(s, cats);
        let m = s.last();
        let o = other_memos(s, cats).len() - other_memos(s.drop_last(), cats).len();
        let u = in_category(s, unclassified_category()).len() - in_category(
            s.drop_last(),
            unclassified_category(),
        ).len();
        assert(o == if is_other(m, cats) { 1int } else { 0int });
        assert(u == if m.data.category == unclassified_category() { 1int } else { 0int });
        let c = m.data.category;
        let n = if !is_reserved(c) && cats.contains(c) { 1int } else { 0int };
        if c == unclassified_category() {
            assert(etc_category() != unclassified_category()) by {
                reveal_strlit("기타");
                reveal_strlit("미분류");
                assert(etc_category()[0] != unclassified_category()[0]);
            }
            assert(n + o + u == 1);
        } else if c == etc_category() {
            assert(n + o + u == 1);
        } else {
            assert(n + o + u == 1);
        }
    }
}

proof fn lemma_named_count_empty(s: Seq<MemoCardView>, cats: Seq<Seq<char>>)
    requires
        s.len() == 0,
    ensures
        named_count(s, cats) == 0,
    decreases cats.len(),
{
    if cats.len() > 0 {
        lemma_named_count_empty(s, cats.drop_last());
    }
}

/// No group is empty.
pub proof fn lemma_groups_not_empty(s: Seq<MemoCardView>, cats: Seq<Seq<char>>)
    ensures
        forall|k: int|
            0 <= k < category_groups(s, cats).len() ==> #[trigger] category_groups(s, cats)[k].1.len()
                > 0,
{
    lemma_named_not_empty(s, cats);
}

proof fn lemma_named_not_empty(s: Seq<MemoCardView>, cats: Seq<Seq<char>>)
    ensures
        forall|k: int|
            0 <= k < named_groups(s, cats).len() ==> #[trigger] named_groups(s, cats)[k].1.len() > 0,
    decreases cats.len(),
{
    if cats.len() > 0 {
        lemma_named_not_empty(s, cats.drop_last());
        let pre = named_groups(s, cats.drop_last());
        let g = named_groups(s, cats);
        assert forall|k: int| 0 <= k < g.len() implies #[trigger] g[k].1.len() > 0 by {
            if k < pre.len() {
                assert(g[k] == pre[k]);
            }
        }
    }
}


proof fn lemma_in_category_bounded(s: Seq<MemoCardView>, c: Seq<char>, t: i64)
    requires
        forall|j: int| 0 <= j < s.len() ==> s[j].timestamp >= t,
    ensures
        forall|j: int| 0 <= j < in_category(s, c).len() ==> #[trigger] in_category(s, c)[j].timestamp >= t,
    decreases s.len(),
{
    if s.len() > 0 {
        lemma_in_category_bounded(s.drop_last(), c, t);
    }
}

proof fn lemma_in_category_sorted(s: Seq<MemoCardView>, c: Seq<char>)
    requires
        is_newest_first(s),
    ensures
        is_newest_first(in_category(s, c)),
    decreases s.len(),
{
    if s.len() > 0 {
        let rest = s.drop_last();
        assert(is_newest_first(rest));
        lemma_in_category_sorted(rest, c);
        lemma_in_category_bounded(rest, c, s.last().timestamp);
        let r = in_category(s, c);
        let rr = in_category(rest, c);
        if s.last().data.category == c {
            assert forall|i: int, j: int| 0 <= i < j < r.len() implies r[i].timestamp
                >= r[j].timestamp by {
                assert(r[i] == rr[i]);
                if j < rr.len() {
                    assert(r[j] == rr[j]);
                }
            }
        }
    }
}

proof fn lemma_other_bounded(s: Seq<MemoCardView>, cats: Seq<Seq<char>>, t: i64)
    requires
        forall|j: int| 0 <= j < s.len() ==> s[j].timestamp >= t,
    ensures
        forall|j: int|
            0 <= j < other_memos(s, cats).len() ==> #[trigger] other_memos(s, cats)[j].timestamp >= t,
    decreases s.len(),
{
    if s.len() > 0 {
        lemma_other_bounded(s.drop_last(), cats, t);
    }
}

proof fn lemma_other_sorted(s: Seq<MemoCardView>, cats: Seq<Seq<char>>)
    requires
        is_newest_first(s),
    ensures
        is_newest_first(other_memos(s, cats)),
    decreases s.len(),
{
    if s.len() > 0 {
        let rest = s.drop_last();
        assert(is_newest_first(rest));
        lemma_other_sorted(rest, cats);
        lemma_other_bounded(rest, cats, s.last().timestamp);
        let r = other_memos(s, cats);
        let rr = other_memos(rest, cats);
        if is_other(s.last(), cats) {
            assert forall|i: int, j: int| 0 <= i < j < r.len() implies r[i].timestamp
                >= r[j].timestamp by {
                assert(r[i] == rr[i]);
                if j < rr.len() {
                    assert(r[j] == rr[j]);
                }
            }
        }
    }
}

proof fn lemma_named_sorted(s: Seq<MemoCardView>, cats: Seq<Seq<char>>)
    requires
        is_newest_first(s),
    ensures
        forall|k: int|
            0 <= k < named_groups(s, cats).len() ==> is_newest_first(
                #[trigger] named_groups(s, cats)[k].1,
            ),
    decreases cats.len(),
{
    if cats.len() > 0 {
        lemma_named_sorted(s, cats.drop_last());
        lemma_in_category_sorted(s, cats.last());
        let pre = named_groups(s, cats.drop_last());
        let g = named_groups(s, cats);
        assert forall|k: int| 0 <= k < g.len() implies is_newest_first(#[trigger] g[k].1) by {
            if k < pre.len() {
                assert(g[k] == pre[k]);
            }
        }
    }
}

/// Grouping a newest-first list keeps each group newest first.
pub proof fn lemma_groups_newest_first(s: Seq<MemoCardView>, cats: Seq<Seq<char>>)
    requires
        is_newest_first(s),
    ensures
        forall|k: int|
            0 <= k < category_groups(s, cats).len() ==> is_newest_first(
                #[trigger] category_groups(s, cats)[k].1,
            ),
{
    lemma_named_sorted(s, cats);
    lemma_other_sorted(s, cats);
    lemma_in_category_sorted(s, unclassified_category());
    let named = named_groups(s, cats);
    let g = category_groups(s, cats);
    assert forall|k: int| 0 <= k < g.len() implies is_newest_first(#[trigger] g[k].1) by {
        if k < named.len() {
            assert(g[k] == named[k]);
        }
    }
}

/// Without semantic search results, every group shows its memos newest
/// first.
pub proof fn lemma_shown_groups_newest_first(s: Seq<MemoCardView>, query: Seq<char>, cats: Seq<Seq<char>>)
    ensures
        forall|k: int|
            0 <= k < category_groups(visible_memos(s, query, None), cats).len() ==> is_newest_first(
                #[trigger] category_groups(visible_memos(s, query, None), cats)[k].1,
            ),
{
    let lq = lowercase(query);
    if !is_blank(lq) {
        lemma_newest_first_is_stable_sort(matching_lowered(s, contents_lowered(s), lq));
    } else {
        lemma_newest_first_is_stable_sort(s);
    }
    lemma_groups_newest_first(visible_memos(s, query, None), cats);
}

} // verus!
