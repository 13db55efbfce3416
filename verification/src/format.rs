//! Number and date rendering: amounts with thousands separators, zero-padded
//! dates, the backup file name and the engine status line.

use vstd::prelude::*;
use vstd::string::*;
use crate::models::{AppStatus, AppStatusView, MemoCard, cards_view};
use crate::memos::{amount_total, totals_fit, total_amount};
use crate::text::push_char;

verus! {

/// The decimal digit character for `d`.
pub open spec fn digit_char(d: int) -> char {
    (48 + d) as char
}

/// The decimal digits of `n`, most significant first, without leading zeros.
pub open spec fn decimal(n: nat) -> Seq<char>
    decreases n,
{
    if n < 10 {
        seq![digit_char(n as int)]
    } else {
        decimal(n / 10).push(digit_char((n % 10) as int))
    }
}

/// The text that `to_string` gives for an integer: an optional minus sign,
/// then its decimal digits.
pub open spec fn int_text(n: int) -> Seq<char> {
    if n < 0 {
        seq!['-'] + decimal((-n) as nat)
    } else {
        decimal(n as nat)
    }
}

/// `t` with a comma after each character that is followed by a positive
/// multiple of three characters.
pub open spec fn with_commas(t: Seq<char>) -> Seq<char>
    decreases t.len(),
{
    if t.len() == 0 {
        t
    } else {
        let rest = t.drop_first();
        seq![t[0]] + (if rest.len() > 0 && rest.len() % 3 == 0 {
            seq![',']
        } else {
            Seq::<char>::empty()
        }) + with_commas(rest)
    }
}

/// `s` padded on the left with zeros to at least `width` characters.
pub open spec fn zero_padded(s: Seq<char>, width: nat) -> Seq<char> {
    if s.len() < width {
        Seq::new((width - s.len()) as nat, |i: int| '0') + s
    } else {
        s
    }
}

/// Appends the decimal digits of `m` to `out`.
fn push_decimal(out: &mut Vec<char>, m: u64)
    ensures
        final(out)@ == old(out)@ + decimal(m as nat),
    decreases m,
{
    if m >= 10 {
        push_decimal(out, m / 10);
    }
    let d = (m % 10) as u8;
    let c = (48u8 + d) as char;
    out.push(c);
}


/// The text of an integer, as `to_string` writes it.
fn int_chars(n: i32) -> (v: Vec<char>)
    ensures
        v@ == int_text(n as int),
{
    let mut v: Vec<char> = Vec::new();
    if n < 0 {
        v.push('-');
        let m: u64 = (0i64 - (n as i64)) as u64;
        push_decimal(&mut v, m);
        assert(v@ =~= seq!['-'] + decimal((-n) as nat));
    } else {
        push_decimal(&mut v, n as u64);
        assert(v@ =~= decimal(n as nat));
    }
    v
}

/// A string holding the given characters.
fn string_of(cs: &Vec<char>) -> (r: String)
    ensures
        r@ == cs@,
{
    let mut r = String::new();
    let mut i: usize = 0;
    while i < cs.len()
        invariant
            i <= cs@.len(),
            r@ == cs@.take(i as int),
        decreases cs@.len() - i,
    {
        push_char(&mut r, cs[i]);
        assert(cs@.take(i + 1) =~= cs@.take(i as int).push(cs@[i as int]));
        i = i + 1;
    }
    assert(cs@.take(cs@.len() as int) =~= cs@);
    r
}

/// An amount written with a comma after every character that is followed
/// by a positive multiple of three characters (`1234567` gives
/// `1,234,567`).
pub fn format_num(n: i32) -> (r: String)
    ensures
        r@ == with_commas(int_text(n as int)),
{
    let t = int_chars(n);
    let len = t.len();
    let mut out: Vec<char> = Vec::new();
    let mut i: usize = 0;
    assert(t@.subrange(0, len as int) =~= t@);
    assert(out@ + with_commas(t@) =~= with_commas(t@));
    while i < len
        invariant
            len == t@.len(),
            i <= len,
            out@ + with_commas(t@.subrange(i as int, len as int)) == with_commas(t@),
        decreases len - i,
    {
        let ghost tail = t@.subrange(i as int, len as int);
        assert(tail.drop_first() =~= t@.subrange(i + 1, len as int));
        out.push(t[i]);
        let rest = len - 1 - i;
        if rest > 0 && rest % 3 == 0 {
            out.push(',');
        }
        assert(out@ + with_commas(t@.subrange(i + 1, len as int)) =~= with_commas(t@)) by {
            assert(with_commas(tail) == seq![tail[0]] + (if tail.drop_first().len() > 0
                && tail.drop_first().len() % 3 == 0 {
                seq![',']
            } else {
                Seq::<char>::empty()
            }) + with_commas(tail.drop_first()));
        }
        i = i + 1;
    }
    assert(t@.subrange(len as int, len as int) =~= Seq::<char>::empty());
    assert(out@ =~= out@ + with_commas(Seq::<char>::empty()));
    string_of(&out)
}

/// Appends `m` in decimal, padded on the left with zeros to `width`.
fn push_padded(out: &mut Vec<char>, m: u64, width: usize)
    ensures
        final(out)@ == old(out)@ + zero_padded(decimal(m as nat), width as nat),
{
    let mut digits: Vec<char> = Vec::new();
    push_decimal(&mut digits, m);
    assert(digits@ =~= decimal(m as nat));
    let ghost start = out@;
    if digits.len() < width {
        let pad = width - digits.len();
        let mut k: usize = 0;
        while k < pad
            invariant
                k <= pad,
                out@ == start + Seq::new(k as nat, |i: int| '0'),
            decreases pad - k,
        {
            out.push('0');
            assert(Seq::new((k + 1) as nat, |i: int| '0') =~= Seq::new(k as nat, |i: int| '0').push(
                '0',
            ));
            k = k + 1;
        }
    }
    let ghost mid = out@;
    let mut j: usize = 0;
    while j < digits.len()
        invariant
            j <= digits@.len(),
            out@ == mid + digits@.take(j as int),
        decreases digits@.len() - j,
    {
        out.push(digits[j]);
        assert(digits@.take(j + 1) =~= digits@.take(j as int).push(digits@[j as int]));
        j = j + 1;
    }
    assert(digits@.take(digits@.len() as int) =~= digits@);
    assert(out@ =~= start + zero_padded(decimal(m as nat), width as nat));
}

/// The date label stored with a memo: `YYYY-MM-DD hh:mm`, from a calendar
/// date whose month counts from zero.
pub open spec fn date_label(year: u32, month0: u32, day: u32, hours: u32, minutes: u32) -> Seq<
    char,
> {
    zero_padded(decimal(year as nat), 4) + seq!['-'] + zero_padded(decimal((month0 + 1) as nat), 2)
        + seq!['-'] + zero_padded(decimal(day as nat), 2) + seq![' '] + zero_padded(
        decimal(hours as nat),
        2,
    ) + seq![':'] + zero_padded(decimal(minutes as nat), 2)
}

/// The label `YYYY-MM-DD hh:mm` of a moment given by its calendar fields,
/// the month counting from zero.
pub fn format_memo_date(year: u32, month0: u32, day: u32, hours: u32, minutes: u32) -> (r: String)
    requires
        month0 < u32::MAX,
    ensures
        r@ == date_label(year, month0, day, hours, minutes),
{
    let mut out: Vec<char> = Vec::new();
    push_padded(&mut out, year as u64, 4);
    out.push('-');
    push_padded(&mut out, (month0 + 1) as u64, 2);
    out.push('-');
    push_padded(&mut out, day as u64, 2);
    out.push(' ');
    push_padded(&mut out, hours as u64, 2);
    out.push(':');
    push_padded(&mut out, minutes as u64, 2);
    assert(out@ =~= date_label(year, month0, day, hours, minutes));
    string_of(&out)
}

/// The name of the backup file: `ai_memos_backup_YYYYMMDD.json`.
pub open spec fn backup_file_name(year: u32, month0: u32, day: u32) -> Seq<char> {
    "ai_memos_backup_"@ + zero_padded(decimal(year as nat), 4) + zero_padded(
        decimal((month0 + 1) as nat),
        2,
    ) + zero_padded(decimal(day as nat), 2) + ".json"@
}

/// The backup file name for a calendar date whose month counts from zero.
pub fn export_file_name(year: u32, month0: u32, day: u32) -> (r: String)
    requires
        month0 < u32::MAX,
    ensures
        r@ == backup_file_name(year, month0, day),
{
    let mut out: Vec<char> = Vec::new();
    push_padded(&mut out, year as u64, 4);
    push_padded(&mut out, (month0 + 1) as u64, 2);
    push_padded(&mut out, day as u64, 2);
    let digits = string_of(&out);
    let name = String::from_str("ai_memos_backup_").concat(digits.as_str()).concat(".json");
    assert(name@ =~= backup_file_name(year, month0, day));
    name
}

/// The status line shown for each engine state.
pub open spec fn status_line(s: AppStatusView) -> Seq<char> {
    match s {
        AppStatusView::NotLoaded => "엔진 대기중"@,
        AppStatusView::Loading => "🚀 AI 엔진 적재 중..."@,
        AppStatusView::Ready => "🟢 AI 엔진 활성화"@,
        AppStatusView::Error(e) => "🔴 "@ + e,
    }
}

/// The status line for the engine state.
pub fn status_text(status: &AppStatus) -> (r: String)
    ensures
        r@ == status_line(status@),
{
    match status {
        AppStatus::NotLoaded => String::from_str("엔진 대기중"),
        AppStatus::Loading => String::from_str("🚀 AI 엔진 적재 중..."),
        AppStatus::Ready => String::from_str("🟢 AI 엔진 활성화"),
        AppStatus::Error(e) => String::from_str("🔴 ").concat(e.as_str()),
    }
}


/// `t` with its commas taken out.
pub open spec fn without_commas(t: Seq<char>) -> Seq<char>
    decreases t.len(),
{
    if t.len() == 0 {
        t
    } else if t[0] == ',' {
        without_commas(t.drop_first())
    } else {
        seq![t[0]] + without_commas(t.drop_first())
    }
}

proof fn lemma_without_commas_add(a: Seq<char>, b: Seq<char>)
    ensures
        without_commas(a + b) == without_commas(a) + without_commas(b),
    decreases a.len(),
{
    if a.len() == 0 {
        assert(a + b =~= b);
        assert(without_commas(a) + without_commas(b) =~= without_commas(b));
    } else {
        assert((a + b).drop_first() =~= a.drop_first() + b);
        lemma_without_commas_add(a.drop_first(), b);
        assert((a + b)[0] == a[0]);
        if a[0] == ',' {
        } else {
            assert(seq![a[0]] + without_commas(a.drop_first() + b) =~= seq![a[0]] + without_commas(
                a.drop_first(),
            ) + without_commas(b));
        }
    }
}

proof fn lemma_commas_round_trip(t: Seq<char>)
    requires
        !t.contains(','),
    ensures
        without_commas(with_commas(t)) == t,
    decreases t.len(),
{
    if t.len() > 0 {
        let rest = t.drop_first();
        assert(!rest.contains(',')) by {
            if rest.contains(',') {
                let k = choose|k: int| 0 <= k < rest.len() && rest[k] == ',';
                assert(t[k + 1] == ',');
            }
        }
        lemma_commas_round_trip(rest);
        assert(t[0] != ',') by {
            assert(t.contains(t[0]));
        }
        let sep: Seq<char> = if rest.len() > 0 && rest.len() % 3 == 0 {
            seq![',']
        } else {
            Seq::empty()
        };
        lemma_without_commas_add(seq![t[0]] + sep, with_commas(rest));
        lemma_without_commas_add(seq![t[0]], sep);
        assert(seq![t[0]].drop_first() =~= Seq::<char>::empty());
        assert(without_commas(Seq::<char>::empty()) == Seq::<char>::empty());
        assert(seq![t[0]][0] == t[0]);
        assert(without_commas(seq![t[0]]) =~= seq![t[0]] + without_commas(Seq::<char>::empty()));
        if sep.len() > 0 {
            assert(sep.drop_first() =~= Seq::<char>::empty());
            assert(without_commas(sep) =~= Seq::<char>::empty());
        } else {
            assert(without_commas(sep) =~= Seq::<char>::empty());
        }
        assert(seq![t[0]] + rest =~= t);
    }
}

proof fn lemma_decimal_no_commas(n: nat)
    ensures
        !decimal(n).contains(','),
    decreases n,
{
    if n >= 10 {
        lemma_decimal_no_commas(n / 10);
        let d = decimal(n);
        assert forall|k: int| 0 <= k < d.len() implies d[k] != ',' by {
            if k < d.len() - 1 {
                assert(d[k] == decimal(n / 10)[k]);
            }
        }
    } else {
        assert(decimal(n)[0] != ',');
    }
}

/// Taking the separators out of a formatted amount gives back exactly the
/// amount's plain decimal text.
pub proof fn lemma_format_num_keeps_digits(n: i32)
    ensures
        without_commas(with_commas(int_text(n as int))) == int_text(n as int),
{
    let t = int_text(n as int);
    if n < 0 {
        lemma_decimal_no_commas((-n) as nat);
        let d = decimal((-n) as nat);
        assert forall|k: int| 0 <= k < t.len() implies t[k] != ',' by {
            if k > 0 {
                assert(t[k] == d[k - 1]);
            }
        }
    } else {
        lemma_decimal_no_commas(n as nat);
    }
    lemma_commas_round_trip(t);
}


/// The spending line of a group: the label, then the total with its
/// separators.
pub open spec fn spending_line(total: int) -> Seq<char> {
    "총 지출: ₩ "@ + with_commas(int_text(total))
}

/// The spending line shown under a group's name: present exactly when the
/// amounts of its memos add up to more than zero.
pub fn amount_label(items: &Vec<MemoCard>) -> (r: Option<String>)
    requires
        totals_fit(cards_view(items@)),
    ensures
        r is Some <==> amount_total(cards_view(items@)) > 0,
        r matches Some(t) ==> t@ == spending_line(amount_total(cards_view(items@))),
{
    let ghost s = cards_view(items@);
    assert(s.take(s.len() as int) =~= s);
    assert(i32::MIN <= amount_total(s.take(s.len() as int)) <= i32::MAX);
    match total_amount(items) {
        Some(total) => {
            assert(total as int == amount_total(s));
            if total > 0 {
                let amount = format_num(total);
                Some(String::from_str("총 지출: ₩ ").concat(amount.as_str()))
            } else {
                None
            }
        },
        None => None,
    }
}


/// Where character `k` of a text of `n` characters lands once the commas
/// are in: after the commas that follow the characters before it.
pub open spec fn comma_position(n: int, k: int) -> int {
    k + (n - 1) / 3 - (n - 1 - k) / 3
}

proof fn lemma_div3_step(n: int)
    requires
        n >= 2,
    ensures
        (n - 1) / 3 == (n - 2) / 3 + if (n - 1) % 3 == 0 {
            1int
        } else {
            0int
        },
{
}

/// Separators depend on positions alone, whatever the characters: a text of
/// `n` characters gets `(n - 1) / 3` commas; its character `k` stands at
/// [`comma_position`] `(n, k)`; and a comma follows it exactly when a
/// positive multiple of three characters come after it.
pub proof fn lemma_commas_by_position(t: Seq<char>)
    requires
        t.len() > 0,
    ensures
        with_commas(t).len() == t.len() + (t.len() - 1) / 3,
        forall|k: int|
            0 <= k < t.len() ==> #[trigger] with_commas(t)[comma_position(t.len() as int, k)] == t[k],
        forall|k: int|
            0 <= k < t.len() && t.len() - 1 - k > 0 && (t.len() - 1 - k) % 3 == 0 ==> #[trigger] with_commas(
                t,
            )[comma_position(t.len() as int, k) + 1] == ',',
        forall|k: int|
            0 <= k < t.len() - 1 && !((t.len() - 1 - k) % 3 == 0) ==> comma_position(
                t.len() as int,
                k + 1,
            ) == #[trigger] comma_position(t.len() as int, k) + 1,
    decreases t.len(),
{
    let n = t.len() as int;
    let rest = t.drop_first();
    let sep: Seq<char> = if rest.len() > 0 && rest.len() % 3 == 0 {
        seq![',']
    } else {
        Seq::empty()
    };
    let w = with_commas(t);
    assert(w == seq![t[0]] + sep + with_commas(rest));
    if n == 1 {
        assert(rest.len() == 0);
        assert(with_commas(rest) == rest);
        assert(w =~= seq![t[0]]);
        assert forall|k: int| 0 <= k < t.len() implies #[trigger] with_commas(t)[comma_position(n, k)]
            == t[k] by {
            assert(k == 0);
        }
    } else {
        lemma_commas_by_position(rest);
        lemma_div3_step(n);
        let m = n - 1;
        assert(rest.len() == m);
        assert forall|k: int| 0 <= k < t.len() implies #[trigger] with_commas(t)[comma_position(n, k)]
            == t[k] by {
            if k == 0 {
                assert(comma_position(n, 0) == 0);
            } else {
                assert(comma_position(n, k) == 1 + sep.len() + comma_position(m, k - 1));
                assert(with_commas(rest)[comma_position(m, k - 1)] == rest[k - 1]);
            }
        }
        assert forall|k: int|
            0 <= k < t.len() && t.len() - 1 - k > 0 && (t.len() - 1 - k) % 3 == 0 implies #[trigger] with_commas(
            t,
        )[comma_position(n, k) + 1] == ',' by {
            if k == 0 {
                assert(sep.len() == 1);
            } else {
                assert(comma_position(n, k) == 1 + sep.len() + comma_position(m, k - 1));
                assert(with_commas(rest)[comma_position(m, k - 1) + 1] == ',');
            }
        }
        assert forall|k: int|
            0 <= k < t.len() - 1 && !((t.len() - 1 - k) % 3 == 0) implies comma_position(n, k + 1)
            == #[trigger] comma_position(n, k) + 1 by {
        }
    }
}

/// A formatted amount has its separators by position alone: exactly the
/// text of the amount with a comma after every character followed by a
/// positive multiple of three characters (`50000` gives `50,000`).
pub proof fn lemma_format_num_separators(n: i32)
    ensures
        with_commas(int_text(n as int)).len() == int_text(n as int).len() + (int_text(n as int).len()
            - 1) / 3,
        forall|k: int|
            0 <= k < int_text(n as int).len() ==> #[trigger] with_commas(int_text(n as int))[comma_position(
                int_text(n as int).len() as int,
                k,
            )] == int_text(n as int)[k],
        forall|k: int|
            0 <= k < int_text(n as int).len() && int_text(n as int).len() - 1 - k > 0 && (int_text(
                n as int,
            ).len() - 1 - k) % 3 == 0 ==> #[trigger] with_commas(int_text(n as int))[comma_position(
                int_text(n as int).len() as int,
                k,
            ) + 1] == ',',
{
    lemma_decimal_not_empty(if n < 0 { (-n) as nat } else { n as nat });
    lemma_commas_by_position(int_text(n as int));
}

proof fn lemma_decimal_not_empty(m: nat)
    ensures
        decimal(m).len() > 0,
    decreases m,
{
    if m >= 10 {
        lemma_decimal_not_empty(m / 10);
    }
}

} // verus!
