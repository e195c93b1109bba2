//! Shared low-level helpers for the subtitle text formats.
//!
//! All four parsers preprocess their input the same way, and the three timestamped
//! formats (`srt`, `vtt`, `ass`) share the arithmetic between milliseconds and
//! hours, minutes and seconds.
use vstd::prelude::*;

use crate::chars;
use crate::chars::{blank, parse_integer, push_padded, to_chars, trimmed};

verus! {

/// The byte-order mark that may stand before the text.
pub const BOM: char = '\u{feff}';

/// `s` without a leading byte-order mark.
pub open spec fn without_bom(s: Seq<char>) -> Seq<char> {
    if s.len() > 0 && s[0] == BOM {
        s.drop_first()
    } else {
        s
    }
}

/// `s` with each line ending (a carriage return and a line feed, or a carriage return
/// alone) written as one line feed.
pub open spec fn unix_lines(s: Seq<char>) -> Seq<char>
    decreases s.len(),
{
    if s.len() == 0 {
        seq![]
    } else if s[0] == '\r' && s.len() > 1 && s[1] == '\n' {
        seq!['\n'] + unix_lines(s.skip(2))
    } else if s[0] == '\r' {
        seq!['\n'] + unix_lines(s.drop_first())
    } else {
        seq![s[0]] + unix_lines(s.drop_first())
    }
}

/// What the parsers read: `s` without a byte-order mark, with line feeds only.
pub open spec fn normalized(s: Seq<char>) -> Seq<char> {
    unix_lines(without_bom(s))
}

/// Strip a leading byte-order mark, then write every line ending as a line feed.
pub fn normalize_chars(input: &str) -> (r: Vec<char>)
    ensures
        r@ == normalized(input@),
{
    let chars = to_chars(input);
    let mut i: usize = if chars.len() > 0 && chars[0] == BOM {
        1
    } else {
        0
    };
    let mut out: Vec<char> = Vec::new();
    assert(chars@.skip(i as int) =~= without_bom(input@));
    assert(out@ + unix_lines(chars@.skip(i as int)) =~= normalized(input@));
    while i < chars.len()
        invariant
            i <= chars@.len(),
            out@ + unix_lines(chars@.skip(i as int)) == normalized(input@),
        decreases chars.len() - i,
    {
        let ghost rest = chars@.skip(i as int);
        let ghost before = out@;
        if chars[i] == '\r' && chars.len() - i > 1 && chars[i + 1] == '\n' {
            out.push('\n');
            i += 2;
            proof {
                assert(rest.skip(2) =~= chars@.skip(i as int));
            }
        } else if chars[i] == '\r' {
            out.push('\n');
            i += 1;
            proof {
                assert(rest.drop_first() =~= chars@.skip(i as int));
            }
        } else {
            out.push(chars[i]);
            i += 1;
            proof {
                assert(rest.drop_first() =~= chars@.skip(i as int));
            }
        }
        assert(out@ + unix_lines(chars@.skip(i as int)) =~= before + unix_lines(rest));
    }
    assert(out@ =~= normalized(input@));
    out
}

/// Strip a leading byte-order mark, then write every line ending as a line feed.
pub fn normalize(input: &str) -> (r: String)
    ensures
        r@ == normalized(input@),
{
    let chars = normalize_chars(input);
    crate::chars::to_text(chars.as_slice())
}

/// Normalized text holds no carriage return.
pub proof fn lemma_unix_lines_no_cr(s: Seq<char>)
    ensures
        no_cr(unix_lines(s)),
    decreases s.len(),
{
    if s.len() > 0 {
        let t = if s[0] == '\r' && s.len() > 1 && s[1] == '\n' {
            s.skip(2)
        } else {
            s.drop_first()
        };
        lemma_unix_lines_no_cr(t);
        assert forall|i: int| 0 <= i < unix_lines(s).len() implies unix_lines(s)[i] != '\r' by {
            if i > 0 {
                assert(unix_lines(s)[i] == unix_lines(t)[i - 1]);
            }
        }
    }
}

/// Whether `s` holds no carriage return.
pub open spec fn no_cr(s: Seq<char>) -> bool {
    forall|i: int| 0 <= i < s.len() ==> s[i] != '\r'
}

/// Texts without a carriage return have none when one follows the other.
pub proof fn lemma_no_cr_concat(a: Seq<char>, b: Seq<char>)
    requires
        no_cr(a),
        no_cr(b),
    ensures
        no_cr(a + b),
{
    let s = a + b;
    assert forall|i: int| 0 <= i < s.len() implies s[i] != '\r' by {
        if i < a.len() {
            assert(s[i] == a[i]);
        } else {
            assert(s[i] == b[i - a.len()]);
        }
    }
}

/// Text without a carriage return is left as it is.
pub proof fn lemma_unix_lines_same(s: Seq<char>)
    requires
        no_cr(s),
    ensures
        unix_lines(s) == s,
    decreases s.len(),
{
    if s.len() > 0 {
        lemma_unix_lines_same(s.drop_first());
    }
    assert(unix_lines(s) =~= s);
}

/// A count of milliseconds, none if it is negative.
pub open spec fn clamped(ms: int) -> int {
    if ms < 0 {
        0
    } else {
        ms
    }
}

/// Hours, minutes, seconds and milliseconds as a count of milliseconds.
pub open spec fn total_ms(hours: int, minutes: int, seconds: int, subsec_ms: int) -> int {
    ((hours * 60 + minutes) * 60 + seconds) * 1000 + subsec_ms
}

/// Split a millisecond count into `(hours, minutes, seconds, millis)`.
///
/// Negative inputs clamp to zero, so serializers never emit a negative timestamp.
pub fn decompose_ms(ms: i64) -> (r: (i64, i64, i64, i64))
    ensures
        r.0 == hours_of(clamped(ms as int)),
        r.1 == minutes_of(clamped(ms as int)),
        r.2 == seconds_of(clamped(ms as int)),
        r.3 == millis_of(clamped(ms as int)),
{
    let ms: i64 = if ms < 0 {
        0
    } else {
        ms
    };
    (ms / 3_600_000, ms / 60_000 % 60, ms / 1000 % 60, ms % 1000)
}

/// Whether `n` fits a 64-bit signed integer.
pub open spec fn fits(n: int) -> bool {
    i64::MIN <= n <= i64::MAX
}

/// `total_ms`, if it and every partial result fit 64 bits.
pub open spec fn checked_ms(hours: int, minutes: int, seconds: int, subsec_ms: int) -> Option<int> {
    let h = hours * 60;
    let m = h + minutes;
    let s = m * 60 + seconds;
    if fits(h) && fits(m) && fits(m * 60) && fits(s) && fits(s * 1000) && fits(
        s * 1000 + subsec_ms,
    ) {
        Some(total_ms(hours, minutes, seconds, subsec_ms))
    } else {
        None
    }
}

/// Combine `hours:minutes:seconds` plus an already-millisecond sub-second part into
/// total milliseconds, with checked arithmetic, so that malformed huge fields return
/// `None` instead of overflowing.
pub fn hms_to_ms(hours: i64, minutes: i64, seconds: i64, subsec_ms: i64) -> (r: Option<i64>)
    ensures
        match r {
            Some(v) => checked_ms(hours as int, minutes as int, seconds as int, subsec_ms as int)
                == Some(v as int),
            None => checked_ms(
                hours as int,
                minutes as int,
                seconds as int,
                subsec_ms as int,
            ) is None,
        },
{
    let h: i64 = match hours.checked_mul(60) {
        Some(v) => v,
        None => return None,
    };
    let m: i64 = match h.checked_add(minutes) {
        Some(v) => v,
        None => return None,
    };
    let m60: i64 = match m.checked_mul(60) {
        Some(v) => v,
        None => return None,
    };
    let s: i64 = match m60.checked_add(seconds) {
        Some(v) => v,
        None => return None,
    };
    let s1000: i64 = match s.checked_mul(1000) {
        Some(v) => v,
        None => return None,
    };
    s1000.checked_add(subsec_ms)
}

/// The hours of a count of milliseconds.
pub open spec fn hours_of(ms: int) -> int {
    ms / 3_600_000
}

/// The minutes of a count of milliseconds, beyond its hours.
pub open spec fn minutes_of(ms: int) -> int {
    ms / 60_000 % 60
}

/// The seconds of a count of milliseconds, beyond its minutes.
pub open spec fn seconds_of(ms: int) -> int {
    ms / 1000 % 60
}

/// The milliseconds of a count of milliseconds, beyond its seconds.
pub open spec fn millis_of(ms: int) -> int {
    ms % 1000
}

/// Taking a time apart and combining the parts again gives the time, for every time that is
/// not negative.
pub proof fn law_decompose_then_combine(ms: int)
    requires
        0 <= ms <= i64::MAX,
    ensures
        checked_ms(hours_of(ms), minutes_of(ms), seconds_of(ms), millis_of(ms)) == Some(ms),
        0 <= hours_of(ms) <= i64::MAX,
        0 <= minutes_of(ms) < 60,
        0 <= seconds_of(ms) < 60,
        0 <= millis_of(ms) < 1000,
{
}

/// The arrow between the two times of a timing line.
pub open spec fn arrow() -> Seq<char> {
    seq!['-', '-', '>']
}

/// A field of a timestamp: an integer that is not negative, with white space around it left
/// out.
pub open spec fn field(s: Seq<char>) -> Option<int> {
    match chars::integer(chars::trim(s)) {
        Some(v) => if v < 0 {
            None
        } else {
            Some(v)
        },
        None => None,
    }
}

/// Parse a single non-negative integer timestamp field.
pub fn parse_field(s: &[char]) -> (r: Option<i64>)
    ensures
        match r {
            Some(v) => field(s@) == Some(v as int),
            None => field(s@) is None,
        },
{
    match parse_integer(trimmed(s)) {
        Some(v) => if v < 0 {
            None
        } else {
            Some(v)
        },
        None => None,
    }
}

/// `HH:MM:SS`, a separator and three digits of milliseconds; a negative time is written
/// as zero.
#[verifier::opaque]
pub open spec fn clock(ms: int, sep: char) -> Seq<char> {
    let t = clamped(ms);
    chars::padded(hours_of(t) as nat, 2) + seq![':'] + chars::padded(minutes_of(t) as nat, 2) + seq![':']
        + chars::padded(seconds_of(t) as nat, 2) + seq![sep] + chars::padded(millis_of(t) as nat, 3)
}

/// Append the time `ms` as `HH:MM:SS`, `sep` and three digits of milliseconds.
pub fn push_clock(out: &mut String, ms: i64, sep: char)
    ensures
        final(out)@ == old(out)@ + clock(ms as int, sep),
{
    reveal(clock);
    let ghost before = out@;
    let (hours, minutes, seconds, millis) = decompose_ms(ms);
    push_padded(out, hours as u64, 2);
    out.push(':');
    push_padded(out, minutes as u64, 2);
    out.push(':');
    push_padded(out, seconds as u64, 2);
    out.push(sep);
    push_padded(out, millis as u64, 3);
    assert(out@ =~= before + clock(ms as int, sep));
}

/// The blocks of `lines` when the lines of `open` have been read since the last blank line:
/// a block is a run of lines that are not blank, and a blank line ends it.
pub open spec fn blocks_after(open_block: Seq<Seq<char>>, lines: Seq<Seq<char>>) -> Seq<
    Seq<Seq<char>>,
>
    decreases lines.len(),
{
    let closed = if open_block.len() > 0 {
        seq![open_block]
    } else {
        seq![]
    };
    if lines.len() == 0 {
        closed
    } else if chars::is_blank(lines[0]) {
        closed + blocks_after(seq![], lines.drop_first())
    } else {
        blocks_after(open_block.push(lines[0]), lines.drop_first())
    }
}

/// The blocks of `lines`: its runs of lines that are not blank.
pub open spec fn blocks(lines: Seq<Seq<char>>) -> Seq<Seq<Seq<char>>> {
    blocks_after(seq![], lines)
}

/// The texts of each block.
pub open spec fn block_texts(v: Seq<Vec<&[char]>>) -> Seq<Seq<Seq<char>>> {
    Seq::new(v.len(), |i: int| chars::texts(v[i]@))
}

/// The blocks of `lines`: its runs of lines that are not blank.
pub fn blocks_of<'a>(lines: &Vec<&'a [char]>) -> (r: Vec<Vec<&'a [char]>>)
    ensures
        block_texts(r@) == blocks(chars::texts(lines@)),
{
    let mut out: Vec<Vec<&'a [char]>> = Vec::new();
    let mut block: Vec<&'a [char]> = Vec::new();
    let ghost all = chars::texts(lines@);
    let mut i: usize = 0;
    assert(all.skip(0) =~= all);
    assert(chars::texts(block@) =~= seq![]);
    assert(block_texts(out@) + blocks_after(chars::texts(block@), all.skip(0)) =~= blocks(all));
    while i < lines.len()
        invariant
            i <= lines@.len(),
            all == chars::texts(lines@),
            block_texts(out@) + blocks_after(chars::texts(block@), all.skip(i as int)) == blocks(all),
        decreases lines.len() - i,
    {
        let ghost rest = all.skip(i as int);
        let ghost before = out@;
        let ghost open_block = chars::texts(block@);
        assert(rest[0] == lines@[i as int]@);
        assert(rest.drop_first() =~= all.skip(i + 1));
        if blank(lines[i]) {
            if block.len() > 0 {
                let mut full: Vec<&'a [char]> = Vec::new();
                std::mem::swap(&mut full, &mut block);
                out.push(full);
                assert(block_texts(out@) =~= block_texts(before) + seq![open_block]);
            }
            assert(chars::texts(block@) =~= seq![]);
            assert(block_texts(out@) + blocks_after(chars::texts(block@), all.skip(i + 1)) =~= block_texts(
                before,
            ) + blocks_after(open_block, rest));
        } else {
            block.push(lines[i]);
            assert(chars::texts(block@) =~= open_block.push(rest[0]));
        }
        i += 1;
    }
    let ghost before = out@;
    let ghost open_block = chars::texts(block@);
    assert(all.skip(i as int) =~= seq![]);
    if block.len() > 0 {
        out.push(block);
        assert(block_texts(out@) =~= block_texts(before) + seq![open_block]);
    }
    assert(block_texts(out@) =~= blocks(all));
    out
}

/// What was read before, followed by what is read now; an error stays an error.
pub open spec fn prepend<T, E>(done: Seq<T>, r: Result<Seq<T>, E>) -> Result<Seq<T>, E> {
    match r {
        Ok(more) => Ok(done + more),
        Err(e) => Err(e),
    }
}

/// Whether `l` holds no part of a line ending.
pub open spec fn is_line(l: Seq<char>) -> bool {
    forall|i: int| 0 <= i < l.len() ==> l[i] != '\n' && l[i] != '\r'
}

/// The lines of text without a carriage return hold no line ending.
pub proof fn lemma_lines_are_lines(s: Seq<char>)
    ensures
        no_cr(s) ==> all_lines(chars::lines(s)),
    decreases s.len(),
{
    if s.len() > 0 && no_cr(s) {
        let i = chars::find_char(s, '\n');
        chars::lemma_find_char(s, '\n');
        if i < s.len() {
            let t = s.skip(i + 1);
            lemma_lines_are_lines(t);
            assert(chars::strip_cr(s.take(i)) =~= s.take(i)) by {
                if i > 0 {
                    assert(s.take(i).last() == s[i - 1]);
                }
            }
            assert(is_line(s.take(i)));
            assert forall|k: int| 0 <= k < chars::lines(s).len() implies is_line(
                #[trigger] chars::lines(s)[k],
            ) by {
                if k > 0 {
                    assert(chars::lines(s)[k] == chars::lines(t)[k - 1]);
                }
            }
        }
    }
}

/// Whether `b` holds only lines that are not blank.
pub open spec fn solid(b: Seq<Seq<char>>) -> bool {
    forall|j: int| 0 <= j < b.len() ==> !chars::is_blank(#[trigger] b[j]) && is_line(b[j])
}

/// Every block holds at least one line, and none that is blank.
pub proof fn lemma_blocks_solid(open_block: Seq<Seq<char>>, lines: Seq<Seq<char>>)
    requires
        solid(open_block),
        all_lines(lines),
    ensures
        forall|i: int|
            0 <= i < blocks_after(open_block, lines).len() ==> solid(
                #[trigger] blocks_after(open_block, lines)[i],
            ) && blocks_after(open_block, lines)[i].len() > 0,
    decreases lines.len(),
{
    if lines.len() > 0 {
        let rest = lines.drop_first();
        let empty = Seq::<Seq<char>>::empty();
        assert(is_line(lines[0]));
        assert forall|j: int| 0 <= j < rest.len() implies is_line(#[trigger] rest[j]) by {
            assert(is_line(lines[j + 1]));
        }
        if chars::is_blank(lines[0]) {
            lemma_blocks_solid(empty, rest);
            let all = blocks_after(open_block, lines);
            let more = blocks_after(empty, rest);
            assert forall|i: int| 0 <= i < all.len() implies solid(#[trigger] all[i])
                && all[i].len() > 0 by {
                if open_block.len() == 0 {
                    assert(all[i] == more[i]);
                } else if i > 0 {
                    assert(all[i] == more[i - 1]);
                }
            }
        } else {
            lemma_blocks_solid(open_block.push(lines[0]), rest);
            assert(blocks_after(open_block, lines) == blocks_after(open_block.push(lines[0]), rest));
        }
    }
}

/// Whether every line holds no part of a line ending.
pub open spec fn all_lines(ls: Seq<Seq<char>>) -> bool {
    forall|i: int| 0 <= i < ls.len() ==> is_line(#[trigger] ls[i])
}

/// Lines joined by line feeds hold no carriage return.
pub proof fn lemma_join_no_cr(ls: Seq<Seq<char>>)
    requires
        all_lines(ls),
    ensures
        no_cr(chars::join(ls, seq!['\n'])),
    decreases ls.len(),
{
    let nl = seq!['\n'];
    let w = chars::join(ls, nl);
    if ls.len() > 0 {
        assert(is_line(ls[0]));
        if ls.len() > 1 {
            let rest = ls.drop_first();
            assert forall|i: int| 0 <= i < rest.len() implies is_line(#[trigger] rest[i]) by {
                assert(is_line(ls[i + 1]));
            }
            lemma_join_no_cr(rest);
            lemma_no_cr_concat(ls[0], nl);
            lemma_no_cr_concat(ls[0] + nl, chars::join(rest, nl));
        }
    }
}

/// The lines of a block behind any of them are not blank either.
pub proof fn lemma_solid_skip(b: Seq<Seq<char>>, k: int)
    requires
        solid(b),
        0 <= k <= b.len(),
    ensures
        solid(b.skip(k)),
{
    assert forall|j: int| 0 <= j < b.skip(k).len() implies !chars::is_blank(
        #[trigger] b.skip(k)[j],
    ) && is_line(b.skip(k)[j]) by {
        assert(!chars::is_blank(b[j + k]));
    }
}

/// Fields that are not negative add up to a time that is not negative.
pub proof fn lemma_checked_ms_range(h: int, m: int, s: int, x: int)
    requires
        0 <= h,
        0 <= m,
        0 <= s,
        0 <= x,
    ensures
        checked_ms(h, m, s, x) matches Some(v) ==> 0 <= v <= i64::MAX,
{
}

/// Lines that are not blank join the block that is being read.
pub proof fn lemma_blocks_solid_run(
    open_block: Seq<Seq<char>>,
    run: Seq<Seq<char>>,
    rest: Seq<Seq<char>>,
)
    requires
        solid(run),
    ensures
        blocks_after(open_block, run + rest) == blocks_after(open_block + run, rest),
    decreases run.len(),
{
    if run.len() == 0 {
        assert(run + rest =~= rest);
        assert(open_block + run =~= open_block);
    } else {
        let tail = run.drop_first();
        let all = run + rest;
        assert(!chars::is_blank(run[0]));
        assert forall|j: int| 0 <= j < tail.len() implies !chars::is_blank(#[trigger] tail[j])
            && is_line(tail[j]) by {
            assert(!chars::is_blank(run[j + 1]));
        }
        assert(all[0] == run[0]);
        assert(all.drop_first() =~= tail + rest);
        lemma_blocks_solid_run(open_block.push(run[0]), tail, rest);
        assert(open_block.push(run[0]) + tail =~= open_block + run);
    }
}

/// Lines that end in a blank line keep their blocks, whatever follows them.
pub proof fn lemma_blocks_concat(
    open_block: Seq<Seq<char>>,
    a: Seq<Seq<char>>,
    b: Seq<Seq<char>>,
)
    requires
        a.len() == 0 ==> open_block.len() == 0,
        a.len() > 0 ==> chars::is_blank(a.last()),
    ensures
        blocks_after(open_block, a + b) == blocks_after(open_block, a) + blocks(b),
    decreases a.len(),
{
    if a.len() == 0 {
        assert(a + b =~= b);
        assert(open_block =~= seq![]);
        assert(blocks_after(open_block, a) + blocks(b) =~= blocks(b));
    } else {
        let rest = a.drop_first();
        let all = a + b;
        assert(all[0] == a[0]);
        assert(all.drop_first() =~= rest + b);
        assert(rest.len() > 0 ==> rest.last() == a.last());
        if chars::is_blank(a[0]) {
            lemma_blocks_concat(seq![], rest, b);
            assert(blocks_after(open_block, all) =~= blocks_after(open_block, a) + blocks(b));
        } else {
            lemma_blocks_concat(open_block.push(a[0]), rest, b);
        }
    }
}

/// The parts of a written time, and what each reads back as.
pub proof fn lemma_clock(ms: int, sep: char)
    requires
        fits(ms),
        sep == ',' || sep == '.',
    ensures
        ({
            let t = clamped(ms);
            let h = padded_hours(ms);
            let m = chars::padded(minutes_of(t) as nat, 2);
            let s = chars::padded(seconds_of(t) as nat, 2);
            let x = chars::padded(millis_of(t) as nat, 3);
            let hms = h + seq![':'] + m + seq![':'] + s;
            &&& chars::split_once(clock(ms, sep), sep) == Some((hms, x))
            &&& chars::split(hms, ':') == seq![h, m, s]
            &&& chars::integer(chars::trim(h)) == Some(hours_of(t))
            &&& chars::integer(chars::trim(m)) == Some(minutes_of(t))
            &&& chars::integer(chars::trim(s)) == Some(seconds_of(t))
            &&& chars::integer(chars::trim(x)) == Some(millis_of(t))
            &&& checked_ms(hours_of(t), minutes_of(t), seconds_of(t), millis_of(t)) == Some(t)
        }),
        clock(ms, sep).len() > 0,
        clock_like(clock(ms, sep)),
{
    reveal(clock);
    let t = clamped(ms);
    let h = padded_hours(ms);
    let m = chars::padded(minutes_of(t) as nat, 2);
    let s = chars::padded(seconds_of(t) as nat, 2);
    let x = chars::padded(millis_of(t) as nat, 3);
    law_decompose_then_combine(t);
    chars::lemma_padded(hours_of(t) as nat, 2);
    chars::lemma_padded(minutes_of(t) as nat, 2);
    chars::lemma_padded(seconds_of(t) as nat, 2);
    chars::lemma_padded(millis_of(t) as nat, 3);
    chars::lemma_trim_digits(h);
    chars::lemma_trim_digits(m);
    chars::lemma_trim_digits(s);
    chars::lemma_trim_digits(x);
    assert forall|j: int| 0 <= j < h.len() implies h[j] != ':' && h[j] != sep by {
        assert(chars::is_digit(h[j]));
    }
    assert forall|j: int| 0 <= j < m.len() implies m[j] != ':' && m[j] != sep by {
        assert(chars::is_digit(m[j]));
    }
    assert forall|j: int| 0 <= j < s.len() implies s[j] != ':' && s[j] != sep by {
        assert(chars::is_digit(s[j]));
    }
    let colon = seq![':'];
    let hms = h + colon + m + colon + s;
    let ms_part = m + colon + s;
    chars::lemma_find_char_absent(s, ':');
    chars::lemma_split_between(m, ':', s);
    chars::lemma_split_between(h, ':', ms_part);
    assert(hms =~= h + colon + ms_part);
    assert(seq![h] + (seq![m] + seq![s]) =~= seq![h, m, s]);
    assert forall|j: int| 0 <= j < hms.len() implies hms[j] != sep by {
        if j >= h.len() + 1 + m.len() + 1 {
            assert(hms[j] == s[j - h.len() - 1 - m.len() - 1]);
        } else if j >= h.len() + 1 && j < h.len() + 1 + m.len() {
            assert(hms[j] == m[j - h.len() - 1]);
        } else if j < h.len() {
            assert(hms[j] == h[j]);
        }
    }
    chars::lemma_find_char_between(hms, sep, x);
    let c = clock(ms, sep);
    assert(c =~= hms + seq![sep] + x);
    assert forall|i: int| 0 <= i < c.len() implies {
        let d = #[trigger] c[i];
        chars::is_digit(d) || d == ':' || d == ',' || d == '.'
    } by {
        if i > hms.len() {
            assert(c[i] == x[i - hms.len() - 1]);
            assert(chars::is_digit(x[i - hms.len() - 1]));
        } else if i < hms.len() {
            assert(c[i] == hms[i]);
            if i >= h.len() + 1 + m.len() + 1 {
                assert(hms[i] == s[i - h.len() - 1 - m.len() - 1]);
                assert(chars::is_digit(s[i - h.len() - 1 - m.len() - 1]));
            } else if i >= h.len() + 1 && i < h.len() + 1 + m.len() {
                assert(hms[i] == m[i - h.len() - 1]);
                assert(chars::is_digit(m[i - h.len() - 1]));
            } else if i < h.len() {
                assert(chars::is_digit(h[i]));
            }
        }
    }
}

/// Whether `s` is made of the characters that a written time is made of.
pub open spec fn clock_like(s: Seq<char>) -> bool {
    forall|i: int|
        0 <= i < s.len() ==> {
            let c = #[trigger] s[i];
            chars::is_digit(c) || c == ':' || c == ',' || c == '.'
        }
}

/// A timing line: two written times with an arrow between them.
pub open spec fn timing_line(start: int, end: int, sep: char) -> Seq<char> {
    clock(start, sep) + seq![' ', '-', '-', '>', ' '] + clock(end, sep)
}

/// A word of such characters stands between spaces as one word.
proof fn lemma_clock_like_word(c: Seq<char>)
    requires
        clock_like(c),
        c.len() > 0,
    ensures
        chars::trim(c + seq![' ']) == c,
        chars::first_word(seq![' '] + c) == c,
        chars::trim(c) == c,
{
    assert forall|i: int| 0 <= i < c.len() implies !chars::is_space(#[trigger] c[i]) by {
        let d = c[i];
        assert(chars::is_digit(d) || d == ':' || d == ',' || d == '.');
    }
    let a = c + seq![' '];
    assert(a[0] == c[0]);
    assert(chars::trim_start(a) == a);
    assert(a.drop_last() =~= c);
    assert(chars::is_space(a.last()));
    assert(!chars::is_space(c[c.len() - 1]));
    assert(chars::trim_end(c) == c);
    assert(chars::trim_end(a) == chars::trim_end(c));
    let b = seq![' '] + c;
    assert(b.drop_first() =~= c);
    assert(chars::trim_start(c) == c);
    assert(chars::trim_start(b) == c);
    chars::lemma_word_len_is(c, c.len() as int);
    assert(c.take(c.len() as int) =~= c);
}

/// Where the arrow between two words stands, and what is on either side of it.
proof fn lemma_arrow_between(a: Seq<char>, b: Seq<char>)
    requires
        clock_like(a),
        clock_like(b),
        a.len() > 0,
        b.len() > 0,
    ensures
        ({
            let l = a + seq![' ', '-', '-', '>', ' '] + b;
            let i = a.len() as int + 1;
            &&& chars::find(l, seq!['-', '-', '>']) == Some(i)
            &&& chars::trim(l.take(i)) == a
            &&& chars::first_word(l.skip(i + 3)) == b
            &&& is_line(l)
            &&& !chars::is_blank(l)
        }),
{
    let l = a + seq![' ', '-', '-', '>', ' '] + b;
    let pat = seq!['-', '-', '>'];
    let i = a.len() as int + 1;
    assert(l.subrange(i, i + 3) =~= pat);
    assert(chars::occurs_at(l, pat, i));
    assert forall|j: int| 0 <= j < i implies !chars::occurs_at(l, pat, j) by {
        if chars::occurs_at(l, pat, j) {
            assert(l.subrange(j, j + 3)[0] == '-');
            assert(l[j] == '-');
            if j < a.len() {
                assert(l[j] == a[j]);
            }
        }
    }
    chars::lemma_find_is(l, pat, i);
    lemma_clock_like_word(a);
    lemma_clock_like_word(b);
    assert(l.take(i) =~= a + seq![' ']);
    assert(l.skip(i + 3) =~= seq![' '] + b);
    assert forall|j: int| 0 <= j < l.len() implies l[j] != '\n' && l[j] != '\r' by {
        if j < a.len() {
            assert(l[j] == a[j]);
        } else if j >= a.len() + 5 {
            assert(l[j] == b[j - a.len() - 5]);
        }
    }
    assert(!chars::is_space(l[i]));
}

/// Where the arrow of a timing line stands, and what is on either side of it.
pub proof fn lemma_timing_line(start: int, end: int, sep: char)
    requires
        fits(start),
        fits(end),
        sep == ',' || sep == '.',
    ensures
        ({
            let l = timing_line(start, end, sep);
            let i = clock(start, sep).len() as int + 1;
            &&& chars::find(l, seq!['-', '-', '>']) == Some(i)
            &&& chars::trim(l.take(i)) == clock(start, sep)
            &&& chars::first_word(l.skip(i + 3)) == clock(end, sep)
            &&& is_line(l)
            &&& !chars::is_blank(l)
        }),
{
    lemma_clock(start, sep);
    lemma_clock(end, sep);
    lemma_arrow_between(clock(start, sep), clock(end, sep));
}

/// The hours of a time, at least two digits.
pub open spec fn padded_hours(ms: int) -> Seq<char> {
    chars::padded(hours_of(clamped(ms)) as nat, 2)
}

} // verus!
