//! Text primitives: whitespace, trimming, lower-casing, and byte-level
//! substring search over the UTF-8 encoding of strings.

use vstd::prelude::*;
use vstd::utf8::*;
use vstd::string::*;

verus! {

/// The characters that Rust's `char::is_whitespace` accepts: those with the
/// Unicode `White_Space` property.
pub open spec fn is_space(c: char) -> bool {
    ||| ('\u{9}' <= c && c <= '\u{d}')
    ||| c == ' '
    ||| c == '\u{85}'
    ||| c == '\u{a0}'
    ||| c == '\u{1680}'
    ||| ('\u{2000}' <= c && c <= '\u{200a}')
    ||| c == '\u{2028}'
    ||| c == '\u{2029}'
    ||| c == '\u{202f}'
    ||| c == '\u{205f}'
    ||| c == '\u{3000}'
}

/// Whether `c` is a whitespace character.
pub fn is_whitespace_char(c: char) -> (r: bool)
    ensures
        r == is_space(c),
{
    ('\u{9}' <= c && c <= '\u{d}') || c == ' ' || c == '\u{85}' || c == '\u{a0}' || c == '\u{1680}'
        || ('\u{2000}' <= c && c <= '\u{200a}') || c == '\u{2028}' || c == '\u{2029}' || c
        == '\u{202f}' || c == '\u{205f}' || c == '\u{3000}'
}

/// The characters of `s`, in order.
pub fn chars_of(s: &str) -> (v: Vec<char>)
    ensures
        v@ == s@,
{
    let mut v: Vec<char> = Vec::new();
    for c in it: s.chars()
        invariant
            v@ == it.seq().take(it.index() as int),
            it.seq() == s@,
    {
        v.push(c);
    }
    v
}


/// Whether every character of `s` is whitespace (so `s` trims to nothing).
pub open spec fn is_blank(s: Seq<char>) -> bool {
    forall|i: int| 0 <= i < s.len() ==> is_space(#[trigger] s[i])
}

/// `s` without its leading and trailing whitespace.
pub open spec fn trimmed(s: Seq<char>) -> Seq<char>
    decreases s.len(),
{
    if s.len() == 0 {
        s
    } else if is_space(s[0]) {
        trimmed(s.drop_first())
    } else if is_space(s.last()) {
        trimmed(s.drop_last())
    } else {
        s
    }
}

/// Whether `s` holds only whitespace (`s.trim().is_empty()`).
pub fn blank(s: &str) -> (r: bool)
    ensures
        r == is_blank(s@),
{
    let cs = chars_of(s);
    let mut i: usize = 0;
    while i < cs.len()
        invariant
            cs@ == s@,
            i <= cs.len(),
            forall|j: int| 0 <= j < i ==> is_space(#[trigger] s@[j]),
        decreases cs.len() - i,
    {
        if !is_whitespace_char(cs[i]) {
            return false;
        }
        i = i + 1;
    }
    true
}

/// Trimming the subrange between the whitespace margins gives that subrange.
proof fn lemma_trimmed_margins(s: Seq<char>, a: int, b: int)
    requires
        0 <= a <= b <= s.len(),
        forall|j: int| 0 <= j < a ==> is_space(#[trigger] s[j]),
        forall|j: int| b <= j < s.len() ==> is_space(#[trigger] s[j]),
        a < b ==> !is_space(s[a]) && !is_space(s[b - 1]),
    ensures
        trimmed(s) == s.subrange(a, b),
    decreases s.len(),
{
    if s.len() == 0 {
        assert(s.subrange(a, b) =~= s);
    } else if is_space(s[0]) {
        assert(a > 0 || a == b);
        if a > 0 {
            lemma_trimmed_margins(s.drop_first(), a - 1, b - 1);
            assert(s.drop_first().subrange(a - 1, b - 1) =~= s.subrange(a, b));
        } else {
            // all of `s` is whitespace here
            lemma_trimmed_margins(s.drop_first(), 0, 0);
            assert(s.drop_first().subrange(0, 0) =~= s.subrange(a, b));
        }
    } else if is_space(s.last()) {
        if b < s.len() {
            lemma_trimmed_margins(s.drop_last(), a, b);
            assert(s.drop_last().subrange(a, b) =~= s.subrange(a, b));
        } else {
            assert(a == b);
            assert(a == 0);
            assert(false);
        }
    } else {
        if a == b {
            assert(!is_space(s[0]));
            assert(a == 0 || b == s.len());
            assert(false);
        }
        assert(a == 0);
        assert(b == s.len());
        assert(s.subrange(a, b) =~= s);
    }
}

/// `s` without leading and trailing whitespace (`s.trim().to_string()`).
pub fn trim(s: &str) -> (r: String)
    ensures
        r@ == trimmed(s@),
{
    let cs = chars_of(s);
    let n = cs.len();
    let mut a: usize = 0;
    while a < n && is_whitespace_char(cs[a])
        invariant
            cs@ == s@,
            n == cs.len(),
            a <= n,
            forall|j: int| 0 <= j < a ==> is_space(#[trigger] s@[j]),
        decreases n - a,
    {
        a = a + 1;
    }
    let mut b: usize = n;
    while b > a && is_whitespace_char(cs[b - 1])
        invariant
            cs@ == s@,
            n == cs.len(),
            a <= b <= n,
            forall|j: int| b <= j < n ==> is_space(#[trigger] s@[j]),
        decreases b,
    {
        b = b - 1;
    }
    proof {
        lemma_trimmed_margins(s@, a as int, b as int);
    }
    s.substring_char(a, b).to_owned()
}


/// The lower-case mapping of a string, as Rust's `str::to_lowercase`
/// computes it from the Unicode tables.
pub uninterp spec fn lowercase(s: Seq<char>) -> Seq<char>;

/// Calls `str::to_lowercase`; the result is the Unicode lower-case mapping
/// of `s`, named [`lowercase`] and not spelled out here.
#[verifier::external_body]
pub(crate) fn to_lowercase(s: &str) -> (r: String)
    ensures
        r@ == lowercase(s@),
{
    s.to_lowercase()
}

/// `needle` occurs in `hay` starting at byte `i`.
pub open spec fn occurs_at(hay: Seq<u8>, needle: Seq<u8>, i: int) -> bool {
    0 <= i && i + needle.len() <= hay.len() && hay.subrange(i, i + needle.len()) == needle
}

/// `i` is the first position at or after `from` where `needle` occurs in
/// `hay`.
pub open spec fn is_first_occurrence(hay: Seq<u8>, needle: Seq<u8>, from: int, i: int) -> bool {
    &&& from <= i
    &&& occurs_at(hay, needle, i)
    &&& forall|j: int| from <= j < i ==> !occurs_at(hay, needle, j)
}

/// `needle` occurs nowhere in `hay` at or after `from`.
pub open spec fn occurs_nowhere_after(hay: Seq<u8>, needle: Seq<u8>, from: int) -> bool {
    forall|j: int| from <= j ==> !occurs_at(hay, needle, j)
}

/// `h` contains `n` as a substring (`str::contains` with a `&str` pattern).
pub open spec fn contains_text(h: Seq<char>, n: Seq<char>) -> bool {
    exists|i: int| occurs_at(encode_utf8(h), encode_utf8(n), i)
}

/// Whether `needle` occurs in `hay` at byte `i`.
fn bytes_match_at(hay: &[u8], needle: &[u8], i: usize) -> (r: bool)
    requires
        i + needle@.len() <= hay@.len(),
    ensures
        r == occurs_at(hay@, needle@, i as int),
{
    let hl = hay.len();
    let mut k: usize = 0;
    while k < needle.len()
        invariant
            hl == hay@.len(),
            i + needle@.len() <= hay@.len(),
            k <= needle@.len(),
            forall|j: int| 0 <= j < k ==> hay@[i + j] == needle@[j],
        decreases needle@.len() - k,
    {
        if hay[i + k] != needle[k] {
            assert(hay@.subrange(i as int, i + needle@.len())[k as int] != needle@[k as int]);
            return false;
        }
        k = k + 1;
    }
    assert(hay@.subrange(i as int, i + needle@.len()) =~= needle@);
    true
}

/// The first byte position at or after `from` where `needle` occurs in
/// `hay`, as `str::find` reports it on `hay[from..]` (shifted by `from`).
pub fn find_bytes(hay: &[u8], needle: &[u8], from: usize) -> (r: Option<usize>)
    ensures
        match r {
            Some(i) => is_first_occurrence(hay@, needle@, from as int, i as int),
            None => occurs_nowhere_after(hay@, needle@, from as int),
        },
{
    let hl = hay.len();
    let nl = needle.len();
    if nl > hl {
        return None;
    }
    let last = hl - nl;
    if from > last {
        return None;
    }
    let mut i: usize = from;
    loop
        invariant
            hl == hay@.len(),
            nl == needle@.len(),
            last == hl - nl,
            from <= i <= last,
            forall|j: int| from <= j < i ==> !occurs_at(hay@, needle@, j),
        decreases last - i,
    {
        if bytes_match_at(hay, needle, i) {
            return Some(i);
        }
        if i == last {
            return None;
        }
        i = i + 1;
    }
}

/// Whether `needle` occurs in `hay` (`hay.contains(needle)`).
pub fn contains(hay: &str, needle: &str) -> (r: bool)
    ensures
        r == contains_text(hay@, needle@),
{
    let h = hay.as_bytes();
    let n = needle.as_bytes();
    let found = find_bytes(h, n, 0);
    match found {
        Some(i) => {
            assert(occurs_at(h@, n@, i as int));
            true
        },
        None => {
            assert forall|i: int| !occurs_at(h@, n@, i) by {
                if 0 <= i {
                    assert(!occurs_at(h@, n@, i));
                }
            }
            false
        },
    }
}

/// Whether two strings are equal, comparing their UTF-8 encodings.
pub fn same_text(a: &str, b: &str) -> (r: bool)
    ensures
        r == (a@ == b@),
{
    let x = a.as_bytes();
    let y = b.as_bytes();
    if x.len() != y.len() {
        return false;
    }
    let mut k: usize = 0;
    while k < x.len()
        invariant
            x@ == encode_utf8(a@),
            y@ == encode_utf8(b@),
            x@.len() == y@.len(),
            k <= x@.len(),
            forall|j: int| 0 <= j < k ==> x@[j] == y@[j],
        decreases x@.len() - k,
    {
        if x[k] != y[k] {
            return false;
        }
        k = k + 1;
    }
    assert(x@ =~= y@);
    broadcast use vstd::utf8::encode_utf8_decode_utf8;
    assert(decode_utf8(encode_utf8(a@)) == a@);
    assert(decode_utf8(encode_utf8(b@)) == b@);
    true
}

/// Calls `String::push`: the character is appended.
#[verifier::external_body]
pub(crate) fn push_char(s: &mut String, c: char)
    ensures
        final(s)@ == old(s)@.push(c),
{
    s.push(c);
}

} // verus!
