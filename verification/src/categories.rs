//! Managing the category list and editing memos: adding, renaming and
//! deleting categories (memos follow their category), and replacing a memo's
//! content.

use vstd::prelude::*;
use vstd::string::*;
use crate::models::{MemoCard, MemoCardView, MemoDataView, cards_view};
use crate::memos::{strings_view, contains_string, position_of_id, find_memo_index,
    lemma_position_in_range};
use crate::groups::{etc_category, distinct_names, is_reserved};
use crate::text::{trim, trimmed, same_text};

verus! {

/// The listed categories other than the catch-all and unclassified ones,
/// in order: those the category manager lets the user edit.
pub open spec fn editable_names(cats: Seq<Seq<char>>) -> Seq<Seq<char>>
    decreases cats.len(),
{
    if cats.len() == 0 {
        cats
    } else if is_reserved(cats.last()) {
        editable_names(cats.drop_last())
    } else {
        editable_names(cats.drop_last()).push(cats.last())
    }
}

/// The categories the user can rename or delete.
pub fn editable_categories(cats: &Vec<String>) -> (r: Vec<String>)
    ensures
        strings_view(r@) == editable_names(strings_view(cats@)),
{
    let ghost cv = strings_view(cats@);
    let mut r: Vec<String> = Vec::new();
    let mut i: usize = 0;
    assert(cv.take(0) =~= Seq::<Seq<char>>::empty());
    assert(strings_view(r@) =~= Seq::<Seq<char>>::empty());
    while i < cats.len()
        invariant
            cv == strings_view(cats@),
            i <= cats@.len(),
            strings_view(r@) == editable_names(cv.take(i as int)),
        decreases cats@.len() - i,
    {
        assert(cv.take(i + 1).drop_last() =~= cv.take(i as int));
        let c = cats[i].as_str();
        if !same_text(c, "기타") && !same_text(c, "미분류") {
            let ghost before = strings_view(r@);
            let x = cats[i].clone();
            r.push(x);
            assert(strings_view(r@) =~= before.push(cv[i as int]));
        }
        i = i + 1;
    }
    assert(cv.take(cats@.len() as int) =~= cv);
    r
}

/// Where a new category goes: before the last two entries (the catch-all
/// and unclassified categories of the default list), or first in a list of
/// fewer than two.
pub open spec fn insertion_point(len: nat) -> int {
    if len >= 2 {
        len - 2
    } else {
        0
    }
}

/// Whether a (trimmed) name can be added: it is not empty and not listed.
pub open spec fn can_add(cats: Seq<Seq<char>>, name: Seq<char>) -> bool {
    name.len() > 0 && !cats.contains(name)
}

/// Adds the trimmed `raw_name` before the last two categories when it is
/// not empty and not listed yet; tells whether it did.
pub fn add_category(cats: &mut Vec<String>, raw_name: &str) -> (added: bool)
    ensures
        added == can_add(strings_view(old(cats)@), trimmed(raw_name@)),
        strings_view(final(cats)@) == if added {
            strings_view(old(cats)@).insert(
                insertion_point(old(cats)@.len()),
                trimmed(raw_name@),
            )
        } else {
            strings_view(old(cats)@)
        },
{
    let name = trim(raw_name);
    if name.as_str().is_empty() || contains_string(cats, name.as_str()) {
        return false;
    }
    let at = cats.len().saturating_sub(2);
    let ghost before = cats@;
    let ghost nv = name@;
    cats.insert(at, name);
    assert(strings_view(cats@) =~= strings_view(before).insert(at as int, nv));
    true
}

/// The first position of `name` in `cats`.
pub open spec fn position_of_name(cats: Seq<Seq<char>>, name: Seq<char>) -> Option<int>
    decreases cats.len(),
{
    if cats.len() == 0 {
        None
    } else if cats[0] == name {
        Some(0)
    } else {
        match position_of_name(cats.drop_first(), name) {
            Some(k) => Some(k + 1),
            None => None,
        }
    }
}

proof fn lemma_position_of_name(cats: Seq<Seq<char>>, name: Seq<char>, i: int)
    requires
        0 <= i <= cats.len(),
        forall|j: int| 0 <= j < i ==> cats[j] != name,
    ensures
        i < cats.len() && cats[i] == name ==> position_of_name(cats, name) == Some(i),
        i == cats.len() ==> position_of_name(cats, name) is None,
    decreases i,
{
    if i > 0 {
        lemma_position_of_name(cats.drop_first(), name, i - 1);
    }
}

proof fn lemma_position_of_name_in_range(cats: Seq<Seq<char>>, name: Seq<char>)
    ensures
        position_of_name(cats, name) matches Some(k) ==> 0 <= k < cats.len() && cats[k] == name,
    decreases cats.len(),
{
    if cats.len() > 0 {
        lemma_position_of_name_in_range(cats.drop_first(), name);
    }
}

/// The position of the first `name` in `cats`.
fn find_name(cats: &Vec<String>, name: &str) -> (r: Option<usize>)
    ensures
        match r {
            Some(i) => position_of_name(strings_view(cats@), name@) == Some(i as int),
            None => position_of_name(strings_view(cats@), name@) is None,
        },
{
    let mut i: usize = 0;
    while i < cats.len()
        invariant
            i <= cats@.len(),
            forall|j: int| 0 <= j < i ==> strings_view(cats@)[j] != name@,
        decreases cats@.len() - i,
    {
        if same_text(cats[i].as_str(), name) {
            proof {
                lemma_position_of_name(strings_view(cats@), name@, i as int);
            }
            return Some(i);
        }
        i = i + 1;
    }
    proof {
        lemma_position_of_name(strings_view(cats@), name@, i as int);
    }
    None
}

/// The memo with its category set to `to`.
pub open spec fn with_category(m: MemoCardView, to: Seq<char>) -> MemoCardView {
    MemoCardView { data: MemoDataView { category: to, ..m.data }, ..m }
}

/// The memos of category `from` moved to category `to`.
pub open spec fn recategorized(s: Seq<MemoCardView>, from: Seq<char>, to: Seq<char>) -> Seq<
    MemoCardView,
> {
    s.map_values(
        |m: MemoCardView|
            if m.data.category == from {
                with_category(m, to)
            } else {
                m
            },
    )
}

/// Moves every memo of category `from` to category `to`.
fn move_memos(memos: &mut Vec<MemoCard>, from: &str, to: &str)
    ensures
        cards_view(final(memos)@) == recategorized(cards_view(old(memos)@), from@, to@),
{
    let ghost s = cards_view(memos@);
    let mut i: usize = 0;
    while i < memos.len()
        invariant
            i <= memos@.len(),
            memos@.len() == s.len(),
            forall|j: int| 0 <= j < i ==> #[trigger] cards_view(memos@)[j] == recategorized(s, from@, to@)[j],
            forall|j: int| i <= j < memos@.len() ==> #[trigger] cards_view(memos@)[j] == s[j],
        decreases memos@.len() - i,
    {
        let ghost before = cards_view(memos@);
        assert(before[i as int] == s[i as int]);
        if same_text(memos[i].data.category.as_str(), from) {
            let mut m = memos[i].cloned();
            m.data.category = String::from_str(to);
            memos.set(i, m);
            assert(cards_view(memos@) =~= before.update(i as int, with_category(s[i as int], to@)));
        }
        assert(cards_view(memos@)[i as int] == recategorized(s, from@, to@)[i as int]);
        i = i + 1;
    }
    assert(cards_view(memos@) =~= recategorized(s, from@, to@));
}

/// Whether a rename to the trimmed name goes ahead: the name is not empty,
/// differs from the current one and is not listed yet.
pub open spec fn can_rename(cats: Seq<Seq<char>>, current: Seq<char>, name: Seq<char>) -> bool {
    name.len() > 0 && name != current && !cats.contains(name)
}

/// Renames category `current` to the trimmed `raw_name` when that name is
/// not empty, differs and is not listed yet: the first entry `current` in
/// the list is replaced, and every memo of category `current` moves to the
/// new name. Tells whether it renamed.
pub fn rename_category(
    cats: &mut Vec<String>,
    memos: &mut Vec<MemoCard>,
    current: &str,
    raw_name: &str,
) -> (renamed: bool)
    ensures
        renamed == can_rename(strings_view(old(cats)@), current@, trimmed(raw_name@)),
        strings_view(final(cats)@) == if renamed {
            match position_of_name(strings_view(old(cats)@), current@) {
                Some(k) => strings_view(old(cats)@).update(k, trimmed(raw_name@)),
                None => strings_view(old(cats)@),
            }
        } else {
            strings_view(old(cats)@)
        },
        cards_view(final(memos)@) == if renamed {
            recategorized(cards_view(old(memos)@), current@, trimmed(raw_name@))
        } else {
            cards_view(old(memos)@)
        },
{
    let name = trim(raw_name);
    if name.as_str().is_empty() || same_text(name.as_str(), current) || contains_string(
        cats,
        name.as_str(),
    ) {
        return false;
    }
    proof {
        lemma_position_of_name_in_range(strings_view(cats@), current@);
    }
    match find_name(cats, current) {
        Some(k) => {
            let ghost before = cats@;
            let replacement = name.clone();
            cats.set(k, replacement);
            assert(strings_view(cats@) =~= strings_view(before).update(k as int, name@));
        },
        None => {},
    }
    move_memos(memos, current, name.as_str());
    true
}

/// The names of `cats` other than `name`, in order.
pub open spec fn without_name(cats: Seq<Seq<char>>, name: Seq<char>) -> Seq<Seq<char>>
    decreases cats.len(),
{
    if cats.len() == 0 {
        cats
    } else if cats.last() == name {
        without_name(cats.drop_last(), name)
    } else {
        without_name(cats.drop_last(), name).push(cats.last())
    }
}

/// Deletes every entry `name` from the list and moves the memos of that
/// category to the catch-all category.
pub fn delete_category(cats: &mut Vec<String>, memos: &mut Vec<MemoCard>, name: &str)
    ensures
        strings_view(final(cats)@) == without_name(strings_view(old(cats)@), name@),
        cards_view(final(memos)@) == recategorized(cards_view(old(memos)@), name@, etc_category()),
{
    let ghost cv = strings_view(cats@);
    let mut kept: Vec<String> = Vec::new();
    let mut i: usize = 0;
    assert(cv.take(0) =~= Seq::<Seq<char>>::empty());
    assert(strings_view(kept@) =~= Seq::<Seq<char>>::empty());
    while i < cats.len()
        invariant
            cv == strings_view(cats@),
            i <= cats@.len(),
            strings_view(kept@) == without_name(cv.take(i as int), name@),
        decreases cats@.len() - i,
    {
        assert(cv.take(i + 1).drop_last() =~= cv.take(i as int));
        if !same_text(cats[i].as_str(), name) {
            let ghost before = kept@;
            kept.push(cats[i].clone());
            assert(strings_view(kept@) =~= strings_view(before).push(cv[i as int]));
        }
        i = i + 1;
    }
    assert(cv.take(cats@.len() as int) =~= cv);
    *cats = kept;
    move_memos(memos, name, "기타");
}

/// The memo with its content replaced.
pub open spec fn with_content(m: MemoCardView, content: Seq<char>) -> MemoCardView {
    MemoCardView { data: MemoDataView { content: content, ..m.data }, ..m }
}

/// Replaces the content of the first memo with id `id`, if there is one.
pub fn update_memo_content(memos: &mut Vec<MemoCard>, id: usize, content: String)
    ensures
        cards_view(final(memos)@) == match position_of_id(cards_view(old(memos)@), id) {
            Some(k) => cards_view(old(memos)@).update(k, with_content(cards_view(old(memos)@)[k], content@)),
            None => cards_view(old(memos)@),
        },
{
    proof {
        lemma_position_in_range(cards_view(memos@), id);
    }
    match find_memo_index(memos, id) {
        Some(k) => {
            let ghost before = cards_view(memos@);
            let ghost cv = content@;
            let mut m = memos[k].cloned();
            m.data.content = content;
            memos.set(k, m);
            assert(cards_view(memos@) =~= before.update(k as int, with_content(before[k as int], cv)));
        },
        None => {},
    }
}


/// Adding a category keeps the names distinct, and the added name is then
/// listed.
pub proof fn lemma_add_keeps_names_distinct(cats: Seq<Seq<char>>, name: Seq<char>)
    requires
        distinct_names(cats),
        can_add(cats, name),
    ensures
        distinct_names(cats.insert(insertion_point(cats.len()), name)),
        cats.insert(insertion_point(cats.len()), name).contains(name),
{
    let p = insertion_point(cats.len());
    let r = cats.insert(p, name);
    assert(r[p] == name);
    assert forall|i: int, j: int| 0 <= i < j < r.len() implies r[i] != r[j] by {
        if i == p {
            assert(r[j] == cats[j - 1]);
        } else if j == p {
            assert(r[i] == cats[i]);
        } else {
            let a = if i < p { i } else { i - 1 };
            let b = if j < p { j } else { j - 1 };
            assert(r[i] == cats[a] && r[j] == cats[b]);
        }
    }
}

/// Renaming a category keeps the names distinct.
pub proof fn lemma_rename_keeps_names_distinct(cats: Seq<Seq<char>>, current: Seq<char>, name: Seq<char>)
    requires
        distinct_names(cats),
        can_rename(cats, current, name),
    ensures
        distinct_names(
            match position_of_name(cats, current) {
                Some(k) => cats.update(k, name),
                None => cats,
            },
        ),
{
    lemma_position_of_name_in_range(cats, current);
    match position_of_name(cats, current) {
        Some(k) => {
            let r = cats.update(k, name);
            assert forall|i: int, j: int| 0 <= i < j < r.len() implies r[i] != r[j] by {
                if i == k {
                    assert(r[j] == cats[j]);
                } else if j == k {
                    assert(r[i] == cats[i]);
                }
            }
        },
        None => {},
    }
}

/// After deleting a name it is no longer listed, and the remaining names
/// stay distinct.
pub proof fn lemma_delete_removes_name(cats: Seq<Seq<char>>, name: Seq<char>)
    requires
        distinct_names(cats),
    ensures
        !without_name(cats, name).contains(name),
        distinct_names(without_name(cats, name)),
    decreases cats.len(),
{
    if cats.len() > 0 {
        let rest = cats.drop_last();
        assert(distinct_names(rest));
        lemma_delete_removes_name(rest, name);
        lemma_without_name_from(rest, name);
        let w = without_name(cats, name);
        let wr = without_name(rest, name);
        if cats.last() != name {
            assert(!w.contains(name)) by {
                if w.contains(name) {
                    let k = choose|k: int| 0 <= k < w.len() && w[k] == name;
                    if k < wr.len() {
                        assert(wr[k] == w[k]);
                    }
                }
            }
            assert forall|i: int, j: int| 0 <= i < j < w.len() implies w[i] != w[j] by {
                if j == w.len() - 1 {
                    let k = choose|k: int| 0 <= k < rest.len() && rest[k] == wr[i];
                    assert(cats[k] == rest[k]);
                } else {
                    assert(w[i] == wr[i] && w[j] == wr[j]);
                }
            }
        }
    }
}

proof fn lemma_without_name_from(cats: Seq<Seq<char>>, name: Seq<char>)
    ensures
        forall|i: int|
            0 <= i < without_name(cats, name).len() ==> exists|k: int|
                0 <= k < cats.len() && cats[k] == #[trigger] without_name(cats, name)[i],
    decreases cats.len(),
{
    if cats.len() > 0 {
        let rest = cats.drop_last();
        lemma_without_name_from(rest, name);
        let w = without_name(cats, name);
        let wr = without_name(rest, name);
        assert forall|i: int| 0 <= i < w.len() implies exists|k: int|
            0 <= k < cats.len() && cats[k] == #[trigger] w[i] by {
            if i < wr.len() {
                assert(w[i] == wr[i]);
                let k = choose|k: int| 0 <= k < rest.len() && rest[k] == wr[i];
                assert(cats[k] == rest[k]);
            } else {
                assert(cats[cats.len() - 1] == w[i]);
            }
        }
    }
}

/// Moving memos between categories leaves every memo in place with its id
/// and content, and no memo is left in the category moved from (unless it
/// is also the one moved to).
pub proof fn lemma_recategorized_moves_all(s: Seq<MemoCardView>, from: Seq<char>, to: Seq<char>)
    ensures
        recategorized(s, from, to).len() == s.len(),
        forall|i: int|
            0 <= i < s.len() ==> (#[trigger] recategorized(s, from, to)[i]).id == s[i].id
                && recategorized(s, from, to)[i].data.content == s[i].data.content,
        from != to ==> forall|i: int|
            0 <= i < s.len() ==> (#[trigger] recategorized(s, from, to)[i]).data.category != from,
{
}


/// The names the category manager offers are never reserved ones.
pub proof fn lemma_editable_not_reserved(cats: Seq<Seq<char>>, name: Seq<char>)
    requires
        editable_names(cats).contains(name),
    ensures
        !is_reserved(name),
    decreases cats.len(),
{
    if cats.len() > 0 {
        let rest = editable_names(cats.drop_last());
        if !is_reserved(cats.last()) && name == cats.last() {
        } else {
            assert(rest.contains(name)) by {
                let k = choose|k: int| 0 <= k < editable_names(cats).len() && editable_names(cats)[k] == name;
                if !is_reserved(cats.last()) {
                    assert(k < rest.len());
                    assert(rest[k] == name);
                }
            }
            lemma_editable_not_reserved(cats.drop_last(), name);
        }
    }
}

proof fn lemma_without_name_keeps_others(cats: Seq<Seq<char>>, name: Seq<char>, c: Seq<char>)
    requires
        cats.contains(c),
        c != name,
    ensures
        without_name(cats, name).contains(c),
    decreases cats.len(),
{
    let rest = cats.drop_last();
    let w = without_name(cats, name);
    if cats.last() == c {
        assert(w[w.len() - 1] == c);
    } else {
        assert(rest.contains(c)) by {
            let k = choose|k: int| 0 <= k < cats.len() && cats[k] == c;
            assert(k < cats.len() - 1);
            assert(rest[k] == c);
        }
        lemma_without_name_keeps_others(rest, name, c);
        let wr = without_name(rest, name);
        let k = choose|k: int| 0 <= k < wr.len() && wr[k] == c;
        if cats.last() == name {
            assert(w == wr);
        } else {
            assert(w[k] == wr[k]);
        }
    }
}

/// Adding a category, or renaming or deleting one that the category manager
/// offers, keeps the catch-all and unclassified categories listed where
/// they were listed before.
pub proof fn lemma_manager_keeps_reserved(cats: Seq<Seq<char>>, name: Seq<char>, current: Seq<char>)
    requires
        editable_names(cats).contains(current),
    ensures
        forall|c: Seq<char>|
            is_reserved(c) && cats.contains(c) ==> #[trigger] cats.insert(
                insertion_point(cats.len()),
                name,
            ).contains(c),
        forall|c: Seq<char>|
            is_reserved(c) && cats.contains(c) ==> (match position_of_name(cats, current) {
                Some(k) => cats.update(k, name),
                None => cats,
            }).contains(c),
        forall|c: Seq<char>|
            is_reserved(c) && cats.contains(c) ==> #[trigger] without_name(cats, current).contains(c),
{
    lemma_editable_not_reserved(cats, current);
    lemma_position_of_name_in_range(cats, current);
    let p = insertion_point(cats.len());
    assert forall|c: Seq<char>| is_reserved(c) && cats.contains(c) implies #[trigger] cats.insert(
        p,
        name,
    ).contains(c) by {
        let j = choose|j: int| 0 <= j < cats.len() && cats[j] == c;
        let r = cats.insert(p, name);
        if j < p {
            assert(r[j] == c);
        } else {
            assert(r[j + 1] == c);
        }
    }
    assert forall|c: Seq<char>| is_reserved(c) && cats.contains(c) implies (match position_of_name(
        cats,
        current,
    ) {
        Some(k) => cats.update(k, name),
        None => cats,
    }).contains(c) by {
        let j = choose|j: int| 0 <= j < cats.len() && cats[j] == c;
        match position_of_name(cats, current) {
            Some(k) => {
                assert(j != k);
                assert(cats.update(k, name)[j] == c);
            },
            None => {},
        }
    }
    assert forall|c: Seq<char>| is_reserved(c) && cats.contains(c) implies #[trigger] without_name(
        cats,
        current,
    ).contains(c) by {
        lemma_without_name_keeps_others(cats, current, c);
    }
}

} // verus!
