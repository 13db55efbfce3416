//! Splitting a memo's text into the stretches that match a search query and
//! the stretches between them, for highlighting.
//!
//! Matching is case-insensitive: the lower-cased query is searched for in
//! the lower-cased text, byte by byte, and the pieces are cut from the
//! text as typed, at the same byte positions.

use vstd::prelude::*;
use vstd::utf8::{encode_utf8, is_char_boundary, valid_utf8};
use vstd::string::*;
use crate::text::{is_blank, blank, lowercase, to_lowercase, find_bytes, is_first_occurrence,
    occurs_at, occurs_nowhere_after};

verus! {

/// The first position at or after `from` where `p` occurs in `l`.
pub open spec fn first_match(l: Seq<u8>, p: Seq<u8>, from: int) -> Option<int> {
    if exists|i: int| is_first_occurrence(l, p, from, i) {
        Some(choose|i: int| is_first_occurrence(l, p, from, i))
    } else {
        None
    }
}

/// The pieces of the text `t` from byte `start` on, cut where the pattern
/// `p` occurs in the lower-cased text `l`; each occurrence yields a
/// highlighted piece of `n` bytes of `t`. `None` where cutting would hit a
/// position that is no character boundary or lies past the end, or where
/// the scan would not advance.
pub open spec fn scan_parts(t: Seq<u8>, l: Seq<u8>, p: Seq<u8>, n: nat, start: int) -> Option<
    Seq<(Seq<u8>, bool)>,
>
    decreases l.len() - start,
{
    if !(0 <= start <= l.len()) || !is_char_boundary(l, start) || n == 0 {
        None
    } else {
        match first_match(l, p, start) {
            None => {
                if start < t.len() {
                    if is_char_boundary(t, start) {
                        Some(seq![(t.subrange(start, t.len() as int), false)])
                    } else {
                        None
                    }
                } else {
                    Some(Seq::empty())
                }
            },
            Some(i) => {
                if i + n > l.len() || i + n > t.len() || !is_char_boundary(t, start)
                    || !is_char_boundary(t, i) || !is_char_boundary(t, i + n) {
                    None
                } else {
                    match scan_parts(t, l, p, n, i + n) {
                        None => None,
                        Some(rest) => Some(
                            (if i > start {
                                seq![(t.subrange(start, i), false)]
                            } else {
                                Seq::empty()
                            }) + seq![(t.subrange(i, i + n), true)] + rest,
                        ),
                    }
                }
            },
        }
    }
}

/// The highlight pieces of a non-blank search, given the text, its
/// lower-cased form, the lower-cased query and the byte length of the query
/// as typed; `None` where the computation would panic.
pub open spec fn lowered_highlight_spec(
    text: Seq<char>,
    lower: Seq<char>,
    lower_query: Seq<char>,
    query_len: nat,
) -> Option<Seq<(Seq<u8>, bool)>> {
    let t = encode_utf8(text);
    let l = encode_utf8(lower);
    if l.len() != t.len() {
        Some(seq![(t, false)])
    } else {
        scan_parts(t, l, encode_utf8(lower_query), query_len, 0)
    }
}

/// The highlight pieces of `text` for `query`, as byte strings with a flag
/// that marks a match; `None` where the computation would panic.
pub open spec fn highlight_spec(text: Seq<char>, query: Seq<char>) -> Option<Seq<(Seq<u8>, bool)>> {
    if is_blank(query) {
        Some(seq![(encode_utf8(text), false)])
    } else {
        lowered_highlight_spec(text, lowercase(text), lowercase(query), encode_utf8(query).len())
    }
}

/// The pieces, each string taken by its UTF-8 encoding.
pub open spec fn parts_bytes(parts: Seq<(String, bool)>) -> Seq<(Seq<u8>, bool)> {
    parts.map_values(|p: (String, bool)| (encode_utf8(p.0@), p.1))
}

proof fn lemma_first_match(l: Seq<u8>, p: Seq<u8>, from: int, i: int)
    requires
        is_first_occurrence(l, p, from, i),
    ensures
        first_match(l, p, from) == Some(i),
{
    let c = choose|k: int| is_first_occurrence(l, p, from, k);
    assert(is_first_occurrence(l, p, from, c));
    if c < i {
        assert(!occurs_at(l, p, c));
    } else if c > i {
        assert(!occurs_at(l, p, i));
    }
}

proof fn lemma_no_match(l: Seq<u8>, p: Seq<u8>, from: int)
    requires
        occurs_nowhere_after(l, p, from),
    ensures
        first_match(l, p, from) is None,
{
}

/// A boundary of a valid UTF-8 sequence at or after `a` is a boundary of
/// the suffix that starts at the boundary `a`.
proof fn lemma_boundary_in_suffix(bytes: Seq<u8>, a: int, b: int)
    requires
        valid_utf8(bytes),
        0 <= a <= b <= bytes.len(),
        is_char_boundary(bytes, a),
        is_char_boundary(bytes, b),
    ensures
        valid_utf8(bytes.subrange(a, bytes.len() as int)),
        is_char_boundary(bytes.subrange(a, bytes.len() as int), b - a),
{
    broadcast use vstd::utf8::group_utf8_lib;

    let sub = bytes.subrange(a, bytes.len() as int);
    vstd::utf8::valid_utf8_split(bytes, a);
    if b == bytes.len() {
        vstd::utf8::is_char_boundary_start_end_of_seq(sub);
    } else {
        vstd::utf8::is_char_boundary_iff_not_is_continuation_byte(bytes, b);
        vstd::utf8::is_char_boundary_iff_not_is_continuation_byte(sub, b - a);
        assert(sub[b - a] == bytes[b]);
    }
}

/// The text between byte positions `a` and `b`, both character boundaries.
fn slice_text(text: &str, a: usize, b: usize) -> (r: String)
    requires
        a <= b <= encode_utf8(text@).len(),
        is_char_boundary(encode_utf8(text@), a as int),
        is_char_boundary(encode_utf8(text@), b as int),
    ensures
        encode_utf8(r@) == encode_utf8(text@).subrange(a as int, b as int),
{
    let ghost t = encode_utf8(text@);
    proof {
        vstd::utf8::encode_utf8_valid_utf8(text@);
        lemma_boundary_in_suffix(t, a as int, b as int);
    }
    let (_, rest) = text.split_at(a);
    let (mid, _) = rest.split_at(b - a);
    assert(mid.spec_bytes() =~= t.subrange(a as int, b as int));
    mid.to_owned()
}


/// One piece made of a single part.
fn single_part(s: String, flag: bool) -> (v: Vec<(String, bool)>)
    ensures
        parts_bytes(v@) == seq![(encode_utf8(s@), flag)],
{
    let mut v: Vec<(String, bool)> = Vec::new();
    v.push((s, flag));
    assert(parts_bytes(v@) =~= seq![(encode_utf8(v@[0].0@), flag)]);
    v
}

/// The pieces of `text` from byte `start` on, as [`scan_parts`] describes
/// them.
fn scan_from(text: &str, lower: &str, pat: &[u8], n: usize, start: usize) -> (r: Option<
    Vec<(String, bool)>,
>)
    ensures
        match r {
            Some(v) => scan_parts(encode_utf8(text@), encode_utf8(lower@), pat@, n as nat, start as int)
                == Some(parts_bytes(v@)),
            None => scan_parts(
                encode_utf8(text@),
                encode_utf8(lower@),
                pat@,
                n as nat,
                start as int,
            ) is None,
        },
    decreases encode_utf8(lower@).len() - start,
{
    let ghost t = encode_utf8(text@);
    let ghost l = encode_utf8(lower@);
    let lb = lower.as_bytes();
    let tl = text.as_bytes().len();
    if start > lb.len() || !lower.is_char_boundary(start) || n == 0 {
        return None;
    }
    match find_bytes(lb, pat, start) {
        None => {
            proof {
                lemma_no_match(l, pat@, start as int);
            }
            if start < tl {
                if text.is_char_boundary(start) {
                    proof {
                        vstd::utf8::encode_utf8_valid_utf8(text@);
                        vstd::utf8::is_char_boundary_start_end_of_seq(t);
                    }
                    let piece = slice_text(text, start, tl);
                    Some(single_part(piece, false))
                } else {
                    None
                }
            } else {
                let v: Vec<(String, bool)> = Vec::new();
                assert(parts_bytes(v@) =~= Seq::<(Seq<u8>, bool)>::empty());
                Some(v)
            }
        },
        Some(i) => {
            proof {
                lemma_first_match(l, pat@, start as int, i as int);
            }
            if n > lb.len() - i || i > tl || n > tl - i || !text.is_char_boundary(start)
                || !text.is_char_boundary(i) || !text.is_char_boundary(i + n) {
                return None;
            }
            match scan_from(text, lower, pat, n, i + n) {
                None => None,
                Some(rest) => {
                    let mut v: Vec<(String, bool)> = Vec::new();
                    if i > start {
                        let before = slice_text(text, start, i);
                        v.push((before, false));
                    }
                    let hit = slice_text(text, i, i + n);
                    v.push((hit, true));
                    let ghost head = v@;
                    let mut rest = rest;
                    let ghost rest_view = rest@;
                    v.append(&mut rest);
                    proof {
                        assert(v@ == head + rest_view);
                        assert(parts_bytes(v@) =~= parts_bytes(head) + parts_bytes(rest_view));
                        if i > start {
                            assert(parts_bytes(head) =~= seq![(t.subrange(start as int, i as int), false)]
                                + seq![(t.subrange(i as int, i + n), true)]);
                        } else {
                            assert(parts_bytes(head) =~= Seq::<(Seq<u8>, bool)>::empty() + seq![
                                (t.subrange(i as int, i + n), true),
                            ]);
                        }
                    }
                    Some(v)
                },
            }
        },
    }
}

/// The highlight pieces of `text` from its lower-cased form `lower` and the
/// lower-cased query: where `lower` has another byte length than `text`,
/// the whole text as one plain piece; otherwise the text cut where the
/// lower-cased query occurs in `lower`, each match `query_len` bytes long.
/// `None` where cutting would hit a position that is no character boundary
/// or lies past the end.
pub fn highlight_parts_lowered(text: &str, lower: &str, lower_query: &str, query_len: usize) -> (r:
    Option<Vec<(String, bool)>>)
    ensures
        match r {
            Some(v) => lowered_highlight_spec(text@, lower@, lower_query@, query_len as nat)
                == Some(parts_bytes(v@)),
            None => lowered_highlight_spec(text@, lower@, lower_query@, query_len as nat) is None,
        },
{
    if lower.as_bytes().len() != text.as_bytes().len() {
        return Some(single_part(text.to_owned(), false));
    }
    scan_from(text, lower, lower_query.as_bytes(), query_len, 0)
}

/// The highlight pieces of `text` for `query`, or `None` where the
/// computation would panic.
fn highlight_core(text: &str, query: &str) -> (r: Option<Vec<(String, bool)>>)
    ensures
        match r {
            Some(v) => highlight_spec(text@, query@) == Some(parts_bytes(v@)),
            None => highlight_spec(text@, query@) is None,
        },
{
    if blank(query) {
        return Some(single_part(text.to_owned(), false));
    }
    let lower = to_lowercase(text);
    let lower_query = to_lowercase(query);
    highlight_parts_lowered(text, lower.as_str(), lower_query.as_str(), query.as_bytes().len())
}

/// Splits `text` into the pieces shown for a search `query`: the stretches
/// whose lower-cased bytes match the lower-cased query (flag `true`, cut
/// with the byte length of the query as typed) and the stretches between
/// them (flag `false`). A blank query, or a text whose lower-cased form has
/// another byte length, gives the whole text as one plain piece.
pub fn highlight_parts(text: &str, query: &str) -> (r: Vec<(String, bool)>)
    requires
        highlight_spec(text@, query@) is Some,
    ensures
        Some(parts_bytes(r@)) == highlight_spec(text@, query@),
{
    match highlight_core(text, query) {
        Some(v) => v,
        None => Vec::new(),
    }
}

/// [`highlight_parts`] where its pieces can be cut, `None` where cutting
/// them would hit a position that is no character boundary.
pub fn highlight_parts_checked(text: &str, query: &str) -> (r: Option<Vec<(String, bool)>>)
    ensures
        r is Some <==> highlight_spec(text@, query@) is Some,
        r matches Some(v) ==> Some(parts_bytes(v@)) == highlight_spec(text@, query@),
{
    if highlight_core(text, query).is_some() {
        Some(highlight_parts(text, query))
    } else {
        None
    }
}


/// The bytes of the pieces, one after the other.
pub open spec fn joined(parts: Seq<(Seq<u8>, bool)>) -> Seq<u8>
    decreases parts.len(),
{
    if parts.len() == 0 {
        Seq::empty()
    } else {
        parts[0].0 + joined(parts.drop_first())
    }
}

proof fn lemma_joined_single(x: (Seq<u8>, bool))
    ensures
        joined(seq![x]) == x.0,
{
    assert(seq![x].drop_first() =~= Seq::<(Seq<u8>, bool)>::empty());
    assert(joined(Seq::<(Seq<u8>, bool)>::empty()) == Seq::<u8>::empty());
    assert(joined(seq![x]) =~= x.0);
}

proof fn lemma_joined_add(a: Seq<(Seq<u8>, bool)>, b: Seq<(Seq<u8>, bool)>)
    ensures
        joined(a + b) == joined(a) + joined(b),
    decreases a.len(),
{
    if a.len() == 0 {
        assert(a + b =~= b);
        assert(joined(a) + joined(b) =~= joined(b));
    } else {
        assert((a + b).drop_first() =~= a.drop_first() + b);
        lemma_joined_add(a.drop_first(), b);
        assert(joined(a + b) =~= joined(a) + joined(b));
    }
}

proof fn lemma_scan_covers(t: Seq<u8>, l: Seq<u8>, p: Seq<u8>, n: nat, start: int)
    requires
        t.len() == l.len(),
        scan_parts(t, l, p, n, start) is Some,
    ensures
        joined(scan_parts(t, l, p, n, start)->0) == t.subrange(start, t.len() as int),
    decreases l.len() - start,
{
    let parts = scan_parts(t, l, p, n, start)->0;
    match first_match(l, p, start) {
        None => {
            if start < t.len() {
                lemma_joined_single((t.subrange(start, t.len() as int), false));
            } else {
                assert(t.subrange(start, t.len() as int) =~= Seq::<u8>::empty());
            }
        },
        Some(i) => {
            lemma_scan_covers(t, l, p, n, i + n);
            let rest = scan_parts(t, l, p, n, i + n)->0;
            let hit: Seq<(Seq<u8>, bool)> = seq![(t.subrange(i, i + n), true)];
            let before: Seq<(Seq<u8>, bool)> = if i > start {
                seq![(t.subrange(start, i), false)]
            } else {
                Seq::empty()
            };
            assert(parts == before + hit + rest);
            lemma_joined_add(before + hit, rest);
            lemma_joined_add(before, hit);
            lemma_joined_single((t.subrange(i, i + n), true));
            if i > start {
                lemma_joined_single((t.subrange(start, i), false));
            } else {
                assert(joined(before) == Seq::<u8>::empty());
            }
            assert(joined(parts) =~= t.subrange(start, t.len() as int));
        },
    }
}

/// Whenever the pieces can be cut from a text and any lower-cased form of
/// it, they add up to the whole text: joining their bytes in order gives
/// back the UTF-8 encoding of `text`.
pub proof fn lemma_lowered_highlight_covers_text(
    text: Seq<char>,
    lower: Seq<char>,
    lower_query: Seq<char>,
    query_len: nat,
)
    requires
        lowered_highlight_spec(text, lower, lower_query, query_len) is Some,
    ensures
        joined(lowered_highlight_spec(text, lower, lower_query, query_len)->0) == encode_utf8(text),
{
    let t = encode_utf8(text);
    let l = encode_utf8(lower);
    if l.len() != t.len() {
        lemma_joined_single((t, false));
    } else {
        lemma_scan_covers(t, l, encode_utf8(lower_query), query_len, 0);
        assert(t.subrange(0, t.len() as int) =~= t);
    }
}

/// Whenever the pieces of a search can be cut, they add up to the whole
/// text: joining their bytes in order gives back the UTF-8 encoding of
/// `text`.
pub proof fn lemma_highlight_covers_text(text: Seq<char>, query: Seq<char>)
    requires
        highlight_spec(text, query) is Some,
    ensures
        joined(highlight_spec(text, query)->0) == encode_utf8(text),
{
    if is_blank(query) {
        lemma_joined_single((encode_utf8(text), false));
    } else {
        lemma_lowered_highlight_covers_text(
            text,
            lowercase(text),
            lowercase(query),
            encode_utf8(query).len(),
        );
    }
}


/// For a non-blank query whose lower-cased form first occurs at byte `i` of
/// the lower-cased text (of the text's byte length), the pieces, whenever
/// they can be cut, hold the matching stretch of the text — the query's
/// byte length from `i` — as a highlighted piece, whatever the length of
/// the query; and the pieces before it are plain.
pub proof fn lemma_first_match_is_highlighted(text: Seq<char>, query: Seq<char>, i: int)
    requires
        !is_blank(query),
        encode_utf8(lowercase(text)).len() == encode_utf8(text).len(),
        is_first_occurrence(encode_utf8(lowercase(text)), encode_utf8(lowercase(query)), 0, i),
        highlight_spec(text, query) is Some,
    ensures
        ({
            let parts = highlight_spec(text, query)->0;
            let hit = (encode_utf8(text).subrange(i, i + encode_utf8(query).len()), true);
            &&& parts.contains(hit)
            &&& i == 0 ==> parts[0] == hit
            &&& i > 0 ==> parts[0] == (encode_utf8(text).subrange(0, i), false) && parts[1] == hit
        }),
{
    let t = encode_utf8(text);
    let l = encode_utf8(lowercase(text));
    let p = encode_utf8(lowercase(query));
    let n = encode_utf8(query).len();
    lemma_first_match(l, p, 0, i);
    let parts = highlight_spec(text, query)->0;
    let rest = scan_parts(t, l, p, n, i + n)->0;
    let hit = (t.subrange(i, i + n), true);
    if i > 0 {
        assert(parts == seq![(t.subrange(0, i), false)] + seq![hit] + rest);
        assert(parts[1] == hit);
    } else {
        assert(parts == Seq::<(Seq<u8>, bool)>::empty() + seq![hit] + rest);
        assert(parts[0] == hit);
    }
}

} // verus!
