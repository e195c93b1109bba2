//! What the timestamps of the formats mean, digit by digit, and how times are written.
use vstd::prelude::*;

use crate::ass;
use crate::chars;
use crate::srt;
use crate::text;
use crate::vtt;

verus! {

/// Whether `c` is one of the ten decimal digits.
pub open spec fn is_numeral(c: char) -> bool {
    48 <= c as int <= 57
}

/// What a decimal digit counts.
pub open spec fn worth(c: char) -> int {
    c as int - 48
}

/// Whether `s` is made of digits, at least one.
pub open spec fn are_numerals(s: Seq<char>) -> bool {
    s.len() > 0 && forall|i: int| 0 <= i < s.len() ==> is_numeral(#[trigger] s[i])
}

/// Whether `s` can stand between the separators of a timestamp.
pub open spec fn is_between(s: Seq<char>) -> bool {
    chars::lacks(s, ':') && chars::lacks(s, ',') && chars::lacks(s, '.')
}

// ---------------------------------------------------------------------------
// Fields
// ---------------------------------------------------------------------------

/// A field of a timestamp is read in base ten: one digit is worth itself, and a further digit
/// makes it ten times what it was and adds its own worth.
pub proof fn law_fields_are_decimal(s: Seq<char>, c: char)
    requires
        is_numeral(c),
        s.len() == 0 || are_numerals(s),
    ensures
        s.len() == 0 ==> text::field(s.push(c)) == Some(worth(c)),
        text::field(s) is Some && 10 * text::field(s)->0 + worth(c) <= i64::MAX ==> text::field(
            s.push(c),
        ) == Some(10 * text::field(s)->0 + worth(c)),
{
    let t = s.push(c);
    assert(chars::all_digits(s)) by {
        assert forall|i: int| 0 <= i < s.len() implies chars::is_digit(#[trigger] s[i]) by {
            assert(is_numeral(s[i]));
        }
    }
    assert(chars::all_digits(t)) by {
        assert forall|i: int| 0 <= i < t.len() implies chars::is_digit(#[trigger] t[i]) by {
            if i < s.len() {
                assert(t[i] == s[i]);
                assert(is_numeral(s[i]));
            }
        }
    }
    chars::lemma_trim_digits(s);
    chars::lemma_trim_digits(t);
    assert(t.drop_last() =~= s);
    assert(t.last() == c);
    assert(chars::is_digit(t[0]));
    if s.len() == 0 {
        assert(chars::digits_value(s) == 0);
    } else {
        assert(chars::is_digit(s[0]));
    }
    lemma_digits_count(s);
}

proof fn lemma_digits_count(s: Seq<char>)
    requires
        chars::all_digits(s),
    ensures
        chars::digits_value(s) >= 0,
    decreases s.len(),
{
    if s.len() > 0 {
        let t = s.drop_last();
        assert forall|i: int| 0 <= i < t.len() implies chars::is_digit(#[trigger] t[i]) by {
            assert(chars::is_digit(s[i]));
        }
        lemma_digits_count(t);
        assert(chars::is_digit(s[s.len() - 1]));
    }
}

/// White space around a field does not count.
pub proof fn law_fields_may_stand_in_spaces(s: Seq<char>, c: char)
    requires
        are_numerals(s),
        chars::is_space(c),
    ensures
        text::field(seq![c] + s) == text::field(s),
        text::field(s + seq![c]) == text::field(s),
{
    assert(is_numeral(s[0]));
    assert(is_numeral(s[s.len() - 1]));
    let a = seq![c] + s;
    assert(a.drop_first() =~= s);
    assert(chars::is_space(a[0]));
    assert(chars::trim_start(s) == s);
    assert(chars::trim_start(a) == s);
    let b = s + seq![c];
    assert(b[0] == s[0]);
    assert(b.drop_last() =~= s);
    assert(chars::is_space(b.last()));
    assert(chars::trim_start(b) == b);
    assert(chars::trim_end(s) == s);
    assert(chars::trim_end(b) == s);
}

/// White space is the tab, the four line and page breaks behind it, the space, the next line, the
/// spaces of a fixed width, and the line and paragraph separators; no other character is.
pub proof fn law_white_space(c: char)
    ensures
        chars::is_space(c) == (c == '\t' || c == '\n' || c == '\u{b}' || c == '\u{c}' || c == '\r'
            || c == ' ' || c == '\u{85}' || c == '\u{a0}' || c == '\u{1680}' || c == '\u{2000}' || c
            == '\u{2001}' || c == '\u{2002}' || c == '\u{2003}' || c == '\u{2004}' || c == '\u{2005}'
            || c == '\u{2006}' || c == '\u{2007}' || c == '\u{2008}' || c == '\u{2009}' || c
            == '\u{200a}' || c == '\u{2028}' || c == '\u{2029}' || c == '\u{202f}' || c == '\u{205f}'
            || c == '\u{3000}'),
{
}

/// A plus before a field makes no difference, and a minus before one leaves zero alone: no part of
/// a time is negative.
pub proof fn law_fields_may_have_a_sign(s: Seq<char>)
    requires
        are_numerals(s),
    ensures
        text::field(seq!['+'] + s) == text::field(s),
        text::field(seq!['-'] + s) == (if text::field(s) == Some(0int) {
            Some(0int)
        } else {
            None
        }),
        text::field(seq!['+']) is None,
        text::field(seq!['-']) is None,
{
    assert(chars::all_digits(s)) by {
        assert forall|i: int| 0 <= i < s.len() implies chars::is_digit(#[trigger] s[i]) by {
            assert(is_numeral(s[i]));
        }
    }
    lemma_digits_count(s);
    chars::lemma_trim_digits(s);
    assert(is_numeral(s[0]) && is_numeral(s[s.len() - 1]));
    let p = seq!['+'] + s;
    let m = seq!['-'] + s;
    assert(p.drop_first() =~= s && m.drop_first() =~= s);
    assert(p.last() == s[s.len() - 1] && m.last() == s[s.len() - 1]);
    chars::lemma_trim_tight(p);
    chars::lemma_trim_tight(m);
    chars::lemma_trim_tight(seq!['+']);
    chars::lemma_trim_tight(seq!['-']);
    assert(seq!['+'].drop_first().len() == 0);
    assert(seq!['-'].drop_first().len() == 0);
}

/// A field with a letter, or any other character that is neither a digit nor a sign nor a space,
/// is no number; nor is one without a digit.
pub proof fn law_fields_are_numbers(s: Seq<char>, i: int)
    requires
        0 <= i < s.len(),
        !is_numeral(s[i]),
        s[i] != '+',
        s[i] != '-',
        !chars::is_space(s[i]),
    ensures
        text::field(s) is None,
        text::field(seq![]) is None,
{
    let empty = Seq::<char>::empty();
    assert(chars::trim(empty) =~= empty);
    let t = lemma_trimmed_char(s, i);
    let r = chars::trim(s);
    let signed = r.len() > 0 && (r[0] == '-' || r[0] == '+');
    if signed {
        let d = r.drop_first();
        assert(t > 0);
        assert(d[t - 1] == s[i]);
        assert(!chars::is_digit(d[t - 1]));
        assert(!chars::all_digits(d));
    } else {
        assert(!chars::is_digit(r[t]));
        assert(!chars::all_digits(r));
    }
}

/// A character that is no white space is not trimmed.
proof fn lemma_trimmed_char(s: Seq<char>, i: int) -> (k: int)
    requires
        0 <= i < s.len(),
        !chars::is_space(s[i]),
    ensures
        0 <= k < chars::trim(s).len(),
        chars::trim(s)[k] == s[i],
{
    let k = lemma_start_char(s, i);
    lemma_end_char(chars::trim_start(s), k);
    k
}

proof fn lemma_start_char(s: Seq<char>, i: int) -> (k: int)
    requires
        0 <= i < s.len(),
        !chars::is_space(s[i]),
    ensures
        0 <= k < chars::trim_start(s).len(),
        chars::trim_start(s)[k] == s[i],
    decreases s.len(),
{
    if chars::is_space(s[0]) {
        assert(s.drop_first()[i - 1] == s[i]);
        lemma_start_char(s.drop_first(), i - 1)
    } else {
        i
    }
}

proof fn lemma_end_char(s: Seq<char>, i: int)
    requires
        0 <= i < s.len(),
        !chars::is_space(s[i]),
    ensures
        i < chars::trim_end(s).len(),
        chars::trim_end(s)[i] == s[i],
    decreases s.len(),
{
    if chars::is_space(s.last()) {
        assert(s.last() == s[s.len() - 1]);
        assert(s.drop_last()[i] == s[i]);
        lemma_end_char(s.drop_last(), i);
    }
}

// ---------------------------------------------------------------------------
// Timestamps
// ---------------------------------------------------------------------------

/// What hours, minutes, seconds and milliseconds come to, if it is a 64-bit number.
pub open spec fn sum_of(h: int, m: int, s: int, x: int) -> Option<int> {
    let ms = 3_600_000 * h + 60_000 * m + 1000 * s + x;
    if ms <= i64::MAX {
        Some(ms)
    } else {
        None
    }
}

proof fn lemma_sum(h: int, m: int, s: int, x: int)
    requires
        0 <= h,
        0 <= m,
        0 <= s,
        0 <= x,
    ensures
        text::checked_ms(h, m, s, x) == sum_of(h, m, s, x),
{
}

/// The text of a timestamp with three parts before the separator.
pub open spec fn three_parts(h: Seq<char>, m: Seq<char>, s: Seq<char>, sep: char, x: Seq<char>) -> Seq<
    char,
> {
    h + seq![':'] + m + seq![':'] + s + seq![sep] + x
}

proof fn lemma_three_parts(h: Seq<char>, m: Seq<char>, s: Seq<char>, sep: char, x: Seq<char>)
    requires
        is_between(h),
        is_between(m),
        is_between(s),
        sep == ',' || sep == '.',
    ensures
        ({
            let hms = h + seq![':'] + m + seq![':'] + s;
            &&& chars::split_once(three_parts(h, m, s, sep, x), sep) == Some((hms, x))
            &&& chars::split(hms, ':') == seq![h, m, s]
            &&& chars::lacks(hms, ',')
            &&& chars::lacks(hms, '.')
        }),
{
    let colon = seq![':'];
    let hms = h + colon + m + colon + s;
    let rest = m + colon + s;
    chars::lemma_find_char_absent(s, ':');
    chars::lemma_split_between(m, ':', s);
    chars::lemma_split_between(h, ':', rest);
    assert(hms =~= h + colon + rest);
    assert(seq![h] + (seq![m] + seq![s]) =~= seq![h, m, s]);
    assert forall|j: int| 0 <= j < hms.len() implies hms[j] != ',' && hms[j] != '.' by {
        if j < h.len() {
            assert(hms[j] == h[j]);
        } else if h.len() < j < h.len() + 1 + m.len() {
            assert(hms[j] == m[j - h.len() - 1]);
        } else if j > h.len() + 1 + m.len() {
            assert(hms[j] == s[j - h.len() - 2 - m.len()]);
        }
    }
    chars::lemma_find_char_between(hms, sep, x);
    assert(three_parts(h, m, s, sep, x) =~= hms + seq![sep] + x);
}

/// A SubRip timestamp means its hours, minutes, seconds and milliseconds together, with a comma
/// before the milliseconds or a point, all the same; it means nothing if one of them is no number
/// or the sum is too large.
pub proof fn law_srt_timestamps(
    h: Seq<char>,
    m: Seq<char>,
    s: Seq<char>,
    sep: char,
    x: Seq<char>,
)
    requires
        is_between(h),
        is_between(m),
        is_between(s),
        is_between(x),
        sep == ',' || sep == '.',
    ensures
        srt::timestamp(three_parts(h, m, s, sep, x)) == (match (
            text::field(h),
            text::field(m),
            text::field(s),
            text::field(x),
        ) {
            (Some(a), Some(b), Some(c), Some(d)) => sum_of(a, b, c, d),
            _ => None::<int>,
        }),
{
    let t = three_parts(h, m, s, sep, x);
    lemma_three_parts(h, m, s, sep, x);
    if sep == '.' {
        let hms = h + seq![':'] + m + seq![':'] + s;
        assert(t =~= hms + seq!['.'] + x);
        assert forall|j: int| 0 <= j < t.len() implies t[j] != ',' by {
            if j < hms.len() {
                assert(t[j] == hms[j]);
            } else if j > hms.len() {
                assert(t[j] == x[j - hms.len() - 1]);
            }
        }
        chars::lemma_find_char_absent(t, ',');
    }
    lemma_sum_if(h, m, s, x);
}

proof fn lemma_sum_if(h: Seq<char>, m: Seq<char>, s: Seq<char>, x: Seq<char>)
    ensures
        (match (text::field(h), text::field(m), text::field(s), text::field(x)) {
            (Some(a), Some(b), Some(c), Some(d)) => text::checked_ms(a, b, c, d),
            _ => None::<int>,
        }) == (match (text::field(h), text::field(m), text::field(s), text::field(x)) {
            (Some(a), Some(b), Some(c), Some(d)) => sum_of(a, b, c, d),
            _ => None::<int>,
        }),
{
    match (text::field(h), text::field(m), text::field(s), text::field(x)) {
        (Some(a), Some(b), Some(c), Some(d)) => {
            lemma_sum(a, b, c, d);
        },
        _ => {},
    }
}

/// In SubRip a comma and a point before the milliseconds mean the same, whatever stands around
/// it.
pub proof fn law_srt_comma_or_point(a: Seq<char>, b: Seq<char>)
    requires
        chars::lacks(a, ','),
        chars::lacks(a, '.'),
        chars::lacks(b, ','),
    ensures
        srt::timestamp(a + seq!['.'] + b) == srt::timestamp(a + seq![','] + b),
        srt::timestamp(a) is None,
{
    let t = a + seq!['.'] + b;
    chars::lemma_find_char_between(a, ',', b);
    chars::lemma_find_char_between(a, '.', b);
    assert forall|j: int| 0 <= j < t.len() implies t[j] != ',' by {
        if j < a.len() {
            assert(t[j] == a[j]);
        } else if j > a.len() {
            assert(t[j] == b[j - a.len() - 1]);
        }
    }
    chars::lemma_find_char_absent(t, ',');
    chars::lemma_find_char_absent(a, ',');
    chars::lemma_find_char_absent(a, '.');
}

/// A WebVTT timestamp means its hours, minutes, seconds and milliseconds together; the hours may
/// be left out and then count nothing.
pub proof fn law_vtt_timestamps(h: Seq<char>, m: Seq<char>, s: Seq<char>, x: Seq<char>)
    requires
        is_between(h),
        is_between(m),
        is_between(s),
    ensures
        vtt::timestamp(three_parts(h, m, s, '.', x)) == (match (
            text::field(h),
            text::field(m),
            text::field(s),
            text::field(x),
        ) {
            (Some(a), Some(b), Some(c), Some(d)) => sum_of(a, b, c, d),
            _ => None::<int>,
        }),
        vtt::timestamp(m + seq![':'] + s + seq!['.'] + x) == (match (
            text::field(m),
            text::field(s),
            text::field(x),
        ) {
            (Some(b), Some(c), Some(d)) => sum_of(0, b, c, d),
            _ => None::<int>,
        }),
        vtt::timestamp(s + seq!['.'] + x) is None,
        vtt::timestamp(s) is None,
{
    lemma_three_parts(h, m, s, '.', x);
    lemma_sum_if(h, m, s, x);
    let ms = m + seq![':'] + s;
    chars::lemma_find_char_absent(s, ':');
    chars::lemma_split_between(m, ':', s);
    assert(seq![m] + seq![s] =~= seq![m, s]);
    assert forall|j: int| 0 <= j < ms.len() implies ms[j] != '.' by {
        if j < m.len() {
            assert(ms[j] == m[j]);
        } else if j > m.len() {
            assert(ms[j] == s[j - m.len() - 1]);
        }
    }
    chars::lemma_find_char_between(ms, '.', x);
    match (text::field(m), text::field(s), text::field(x)) {
        (Some(b), Some(c), Some(d)) => {
            lemma_sum(0, b, c, d);
        },
        _ => {},
    }
    chars::lemma_find_char_between(s, '.', x);
    chars::lemma_find_char_absent(s, '.');
}

/// An ASS time means its hours, minutes, seconds and centiseconds together; the centiseconds are
/// two digits, no more and no fewer.
pub proof fn law_ass_times(h: Seq<char>, m: Seq<char>, s: Seq<char>, x: Seq<char>)
    requires
        are_numerals(h),
        is_between(m),
        is_between(s),
        are_numerals(x),
    ensures
        x.len() == 2 ==> ass::time(three_parts(h, m, s, '.', x)) == (match (
            text::field(h),
            text::field(m),
            text::field(s),
        ) {
            (Some(a), Some(b), Some(c)) => sum_of(a, b, c, 100 * worth(x[0]) + 10 * worth(x[1])),
            _ => None::<int>,
        }),
        x.len() != 2 ==> ass::time(three_parts(h, m, s, '.', x)) is None,
{
    assert forall|j: int| 0 <= j < h.len() implies h[j] != ':' && h[j] != ',' && h[j] != '.' by {
        assert(is_numeral(h[j]));
    }
    let t = three_parts(h, m, s, '.', x);
    lemma_three_parts(h, m, s, '.', x);
    assert(is_numeral(h[0]) && is_numeral(x[x.len() - 1]));
    assert(t[0] == h[0] && t.last() == x[x.len() - 1]);
    chars::lemma_trim_tight(t);
    assert(chars::all_digits(x)) by {
        assert forall|i: int| 0 <= i < x.len() implies chars::is_digit(#[trigger] x[i]) by {
            assert(is_numeral(x[i]));
        }
    }
    chars::lemma_trim_digits(x);
    if x.len() == 2 {
        assert(is_numeral(x[0]) && is_numeral(x[1]));
        reveal_with_fuel(chars::digits_value, 3);
        assert(x.drop_last().last() == x[0]);
        assert(x.drop_last().drop_last().len() == 0);
        assert(chars::digits_value(x) == 10 * worth(x[0]) + worth(x[1]));
        match (text::field(h), text::field(m), text::field(s)) {
            (Some(a), Some(b), Some(c)) => {
                lemma_sum(a, b, c, 100 * worth(x[0]) + 10 * worth(x[1]));
            },
            _ => {},
        }
    }
}

// ---------------------------------------------------------------------------
// Written times
// ---------------------------------------------------------------------------

proof fn lemma_one_digit(n: nat)
    requires
        n < 10,
    ensures
        chars::decimal(n) == seq![(48 + n) as char],
{
    assert(chars::decimal(n) =~= seq![(48 + n) as char]);
}

proof fn lemma_two_digits(n: nat)
    requires
        n < 100,
    ensures
        chars::padded(n, 2) == seq![(48 + n / 10) as char, (48 + n % 10) as char],
        n >= 10 ==> chars::decimal(n) == chars::padded(n, 2),
{
    if n < 10 {
        lemma_one_digit(n);
    } else {
        lemma_one_digit(n / 10);
    }
    assert(chars::padded(n, 2) =~= seq![(48 + n / 10) as char, (48 + n % 10) as char]);
}

proof fn lemma_three_digits(n: nat)
    requires
        n < 1000,
    ensures
        chars::padded(n, 3) == seq![
            (48 + n / 100) as char,
            (48 + n / 10 % 10) as char,
            (48 + n % 10) as char,
        ],
{
    if n < 100 {
        lemma_two_digits(n);
        if n < 10 {
            lemma_one_digit(n);
        }
    } else {
        lemma_two_digits(n / 10);
        assert(chars::decimal(n) == chars::decimal(n / 10) + chars::decimal(n % 10)) by {
            lemma_one_digit(n % 10);
            assert(chars::decimal(n) =~= chars::decimal(n / 10) + chars::decimal(n % 10));
        }
        lemma_one_digit(n % 10);
    }
    assert(chars::padded(n, 3) =~= seq![
        (48 + n / 100) as char,
        (48 + n / 10 % 10) as char,
        (48 + n % 10) as char,
    ]);
}

/// Two digits write the number that they are read as.
proof fn lemma_pair(a: char, b: char)
    requires
        is_numeral(a),
        is_numeral(b),
    ensures
        chars::padded((10 * worth(a) + worth(b)) as nat, 2) == seq![a, b],
{
    let n = (10 * worth(a) + worth(b)) as nat;
    lemma_two_digits(n);
    assert(n / 10 == worth(a) && n % 10 == worth(b));
    assert((48 + n / 10) as char == a && (48 + n % 10) as char == b);
}

/// Three digits write the number that they are read as.
proof fn lemma_triple(a: char, b: char, c: char)
    requires
        is_numeral(a),
        is_numeral(b),
        is_numeral(c),
    ensures
        chars::padded((100 * worth(a) + 10 * worth(b) + worth(c)) as nat, 3) == seq![a, b, c],
{
    let n = (100 * worth(a) + 10 * worth(b) + worth(c)) as nat;
    lemma_three_digits(n);
    assert(n / 100 == worth(a) && n / 10 % 10 == worth(b) && n % 10 == worth(c));
    assert((48 + n / 100) as char == a && (48 + n / 10 % 10) as char == b && (48 + n % 10) as char
        == c);
}

/// The parts of a time are those that it was put together from.
proof fn lemma_time_parts(h: int, m: int, s: int, x: int)
    requires
        0 <= h,
        0 <= m < 60,
        0 <= s < 60,
        0 <= x < 1000,
    ensures
        ({
            let ms = h * 3_600_000 + m * 60_000 + s * 1000 + x;
            &&& text::hours_of(ms) == h
            &&& text::minutes_of(ms) == m
            &&& text::seconds_of(ms) == s
            &&& text::millis_of(ms) == x
        }),
{
    let ms = h * 3_600_000 + m * 60_000 + s * 1000 + x;
    assert(ms / 1000 == h * 3600 + m * 60 + s);
    assert(ms / 60_000 == h * 60 + m);
}

/// Times are written with two digits each for the hours, the minutes and the seconds and three for
/// the milliseconds, whatever the digits are; a negative time is written as none.
pub proof fn law_written_clocks(d: Seq<char>, sep: char, late: int)
    requires
        d.len() == 9,
        are_numerals(d),
        worth(d[2]) < 6,
        worth(d[4]) < 6,
        late > 0,
    ensures
        text::clock(
            (10 * worth(d[0]) + worth(d[1])) * 3_600_000 + (10 * worth(d[2]) + worth(d[3])) * 60_000
                + (10 * worth(d[4]) + worth(d[5])) * 1000 + 100 * worth(d[6]) + 10 * worth(d[7])
                + worth(d[8]),
            sep,
        ) == seq![
            d[0],
            d[1],
            ':',
            d[2],
            d[3],
            ':',
            d[4],
            d[5],
            sep,
            d[6],
            d[7],
            d[8],
        ],
        text::clock(-late, sep) == text::clock(0, sep),
{
    reveal(text::clock);
    assert(is_numeral(d[0]) && is_numeral(d[1]) && is_numeral(d[2]) && is_numeral(d[3])
        && is_numeral(d[4]) && is_numeral(d[5]) && is_numeral(d[6]) && is_numeral(d[7])
        && is_numeral(d[8]));
    let h = 10 * worth(d[0]) + worth(d[1]);
    let m = 10 * worth(d[2]) + worth(d[3]);
    let s = 10 * worth(d[4]) + worth(d[5]);
    let x = 100 * worth(d[6]) + 10 * worth(d[7]) + worth(d[8]);
    let ms = h * 3_600_000 + m * 60_000 + s * 1000 + x;
    lemma_time_parts(h, m, s, x);
    lemma_pair(d[0], d[1]);
    lemma_pair(d[2], d[3]);
    lemma_pair(d[4], d[5]);
    lemma_triple(d[6], d[7], d[8]);
    assert(text::clock(ms, sep) =~= seq![
        d[0],
        d[1],
        ':',
        d[2],
        d[3],
        ':',
        d[4],
        d[5],
        sep,
        d[6],
        d[7],
        d[8],
    ]);
}

/// Every time that is not negative reads back from its written form, with a comma or with a
/// point; a negative one reads back as zero.
pub proof fn law_written_clocks_read_back(ms: int, sep: char)
    requires
        text::fits(ms),
        sep == ',' || sep == '.',
    ensures
        srt::timestamp(text::clock(ms, sep)) == Some(
            if ms < 0 {
                0
            } else {
                ms
            },
        ),
        vtt::timestamp(text::clock(ms, '.')) == Some(
            if ms < 0 {
                0
            } else {
                ms
            },
        ),
{
    text::lemma_clock(ms, sep);
    text::lemma_clock(ms, '.');
    text::law_decompose_then_combine(text::clamped(ms));
    if sep == '.' {
        let c = text::clock(ms, '.');
        let t = text::clamped(ms);
        reveal(text::clock);
        chars::lemma_padded(text::hours_of(t) as nat, 2);
        chars::lemma_padded(text::minutes_of(t) as nat, 2);
        chars::lemma_padded(text::seconds_of(t) as nat, 2);
        chars::lemma_padded(text::millis_of(t) as nat, 3);
        let h = chars::padded(text::hours_of(t) as nat, 2);
        let m = chars::padded(text::minutes_of(t) as nat, 2);
        let s = chars::padded(text::seconds_of(t) as nat, 2);
        let x = chars::padded(text::millis_of(t) as nat, 3);
        lemma_digits_between(h);
        lemma_digits_between(m);
        lemma_digits_between(s);
        lemma_digits_between(x);
        law_srt_timestamps(h, m, s, '.', x);
        assert(c =~= three_parts(h, m, s, '.', x));
        chars::lemma_trim_digits(h);
        chars::lemma_trim_digits(m);
        chars::lemma_trim_digits(s);
        chars::lemma_trim_digits(x);
    }
}

proof fn lemma_digits_between(s: Seq<char>)
    requires
        chars::all_digits(s),
    ensures
        is_between(s),
{
    assert forall|j: int| 0 <= j < s.len() implies s[j] != ':' && s[j] != ',' && s[j] != '.' by {
        assert(chars::is_digit(s[j]));
    }
}

/// ASS times are written with as many digits as the hours need, two for the minutes, two for the
/// seconds and two for the centiseconds; what is less than a centisecond is dropped.
pub proof fn law_written_ass_times(d: Seq<char>, rest: int, late: int)
    requires
        d.len() == 7,
        are_numerals(d),
        worth(d[1]) < 6,
        worth(d[3]) < 6,
        0 <= rest < 10,
        late > 0,
    ensures
        ass::time_text(
            worth(d[0]) * 3_600_000 + (10 * worth(d[1]) + worth(d[2])) * 60_000 + (10 * worth(d[3])
                + worth(d[4])) * 1000 + 100 * worth(d[5]) + 10 * worth(d[6]) + rest,
        ) == seq![d[0], ':', d[1], d[2], ':', d[3], d[4], '.', d[5], d[6]],
        ass::time_text(-late) == ass::time_text(0),
{
    reveal(ass::time_text);
    assert(is_numeral(d[0]) && is_numeral(d[1]) && is_numeral(d[2]) && is_numeral(d[3])
        && is_numeral(d[4]) && is_numeral(d[5]) && is_numeral(d[6]));
    let h = worth(d[0]);
    let m = 10 * worth(d[1]) + worth(d[2]);
    let s = 10 * worth(d[3]) + worth(d[4]);
    let c = 10 * worth(d[5]) + worth(d[6]);
    let ms = h * 3_600_000 + m * 60_000 + s * 1000 + 10 * c + rest;
    lemma_time_parts(h, m, s, 10 * c + rest);
    lemma_one_digit(h as nat);
    assert((48 + h) as char == d[0]);
    lemma_pair(d[1], d[2]);
    lemma_pair(d[3], d[4]);
    lemma_pair(d[5], d[6]);
    assert(ass::time_text(ms) =~= seq![
        d[0],
        ':',
        d[1],
        d[2],
        ':',
        d[3],
        d[4],
        '.',
        d[5],
        d[6],
    ]);
}

} // verus!
