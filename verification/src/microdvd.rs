//! MicroDVD (`.sub`) parsing and serialization.
//!
//! MicroDVD is frame-based (`{startframe}{endframe}text` with `|` separating text lines), so
//! both parsing and serializing need the video frame rate to convert between frames and
//! milliseconds. A frame rate is not a whole number, so that conversion is made by the caller:
//! [`declared_rate`] and [`frames`] hand out what is to be converted, and [`parse`] and
//! [`serialize`] take the results.
//!
//! A *leading* `{1}{1}fps` declaration line, if present, is preserved verbatim in
//! [`Subtitle::header`], and re-emitted. Lines that don't match `{a}{b}text` are skipped.
use vstd::prelude::*;
use vstd::slice::slice_subrange;

use crate::chars;
use crate::chars::{
    lines_of, parse_integer, push_decimal, push_replaced, split_first, to_chars, to_text, trimmed,
};
use crate::cue;
use crate::cue::{Cue, CueView, Format, Subtitle, SubtitleView};
use crate::text;
use crate::text::normalize_chars;

verus! {

/// A record as mathematical values: its frames, its text, and the line that it stands in.
#[verifier::ext_equal]
pub struct RecordView {
    pub start: int,
    pub end: int,
    pub text: Seq<char>,
    pub line: Seq<char>,
}

/// What stands in braces at the start of `s`, and what follows them.
pub open spec fn braced(s: Seq<char>) -> Option<(Seq<char>, Seq<char>)> {
    if s.len() > 0 && s[0] == '{' {
        chars::split_once(s.skip(1), '}')
    } else {
        None
    }
}

/// The record that a line writes: two frames in braces, neither negative, then the text. White
/// space around the line and around the frames does not count.
pub open spec fn record(line: Seq<char>) -> Option<RecordView> {
    match braced(chars::trim(line)) {
        None => None,
        Some((a, rest)) => match braced(rest) {
            None => None,
            Some((b, text)) => match (text::field(a), text::field(b)) {
                (Some(start), Some(end)) => Some(RecordView { start, end, text, line }),
                _ => None,
            },
        },
    }
}

/// The records of the lines that write one, in order.
pub open spec fn records(lines: Seq<Seq<char>>) -> Seq<RecordView>
    decreases lines.len(),
{
    if lines.len() == 0 {
        seq![]
    } else {
        let before = records(lines.drop_last());
        match record(lines.last()) {
            Some(r) => before.push(r),
            None => before,
        }
    }
}

/// The records of MicroDVD text.
pub open spec fn records_of(input: Seq<char>) -> Seq<RecordView> {
    records(chars::lines(text::normalized(input)))
}

/// What a record of the first frame alone writes where a frame rate would stand.
pub open spec fn rate_text(r: RecordView) -> Option<Seq<char>> {
    if r.start == 1 && r.end == 1 {
        Some(chars::trim(r.text))
    } else {
        None
    }
}

/// What the first record writes where a frame rate would stand. Only a *leading* record can
/// declare the rate; the same shape later is a real one-frame cue.
pub open spec fn leading_rate(input: Seq<char>) -> Option<Seq<char>> {
    let rs = records_of(input);
    if rs.len() == 0 {
        None
    } else {
        rate_text(rs[0])
    }
}

/// The records that are cues: all but the first, if that one declares the frame rate.
pub open spec fn cue_records(input: Seq<char>, declared: bool) -> Seq<RecordView> {
    let rs = records_of(input);
    if declared {
        rs.skip(1)
    } else {
        rs
    }
}

/// The subtitle that MicroDVD text writes, with the times of its cues given.
pub open spec fn parsed(input: Seq<char>, declared: bool, times: Seq<(i64, i64)>) -> SubtitleView {
    let rs = cue_records(input, declared);
    SubtitleView {
        format: Format::MicroDvd,
        header: if declared {
            records_of(input)[0].line
        } else {
            seq![]
        },
        cues: Seq::new(
            rs.len(),
            |i: int|
                CueView {
                    start_ms: times[i].0 as int,
                    end_ms: times[i].1 as int,
                    payload: chars::replaced(rs[i].text, '|', seq!['\n']),
                },
        ),
    }
}

/// One `{start}{end}text` line.
pub struct Record<'a> {
    pub start_frame: i64,
    pub end_frame: i64,
    pub text: &'a [char],
    pub line: &'a [char],
}

impl<'a> View for Record<'a> {
    type V = RecordView;

    open spec fn view(&self) -> RecordView {
        RecordView {
            start: self.start_frame as int,
            end: self.end_frame as int,
            text: self.text@,
            line: self.line@,
        }
    }
}

/// The views of a sequence of records.
pub open spec fn record_views(v: Seq<Record<'_>>) -> Seq<RecordView> {
    Seq::new(v.len(), |i: int| v[i]@)
}

/// What stands in braces at the start of `s`, and what follows them.
fn take_braced(s: &[char]) -> (r: Option<(&[char], &[char])>)
    ensures
        match r {
            Some((a, b)) => braced(s@) == Some((a@, b@)),
            None => braced(s@) is None,
        },
{
    if s.len() == 0 || s[0] != '{' {
        return None;
    }
    let rest = slice_subrange(s, 1, s.len());
    assert(rest@ =~= s@.skip(1));
    split_first(rest, '}')
}

/// Parse one `{start}{end}text` line.
pub fn parse_line(line: &[char]) -> (r: Option<Record<'_>>)
    ensures
        match r {
            Some(v) => record(line@) == Some(v@),
            None => record(line@) is None,
        },
{
    let (a, rest) = match take_braced(trimmed(line)) {
        Some(p) => p,
        None => return None,
    };
    let (b, text) = match take_braced(rest) {
        Some(p) => p,
        None => return None,
    };
    match (parse_integer(trimmed(a)), parse_integer(trimmed(b))) {
        (Some(start_frame), Some(end_frame)) => if start_frame < 0 || end_frame < 0 {
            None
        } else {
            Some(Record { start_frame, end_frame, text, line })
        },
        _ => None,
    }
}

/// The records of the lines that write one, in order.
fn parse_records<'a>(lines: &Vec<&'a [char]>) -> (r: Vec<Record<'a>>)
    ensures
        record_views(r@) == records(chars::texts(lines@)),
{
    let mut out: Vec<Record<'a>> = Vec::new();
    let ghost all = chars::texts(lines@);
    let mut i: usize = 0;
    assert(all.take(0) =~= seq![]);
    assert(record_views(out@) =~= seq![]);
    while i < lines.len()
        invariant
            i <= lines@.len(),
            all == chars::texts(lines@),
            record_views(out@) == records(all.take(i as int)),
        decreases lines.len() - i,
    {
        let ghost before = out@;
        let ghost next = all.take(i + 1);
        proof {
            assert(next.drop_last() =~= all.take(i as int));
            assert(next.last() == lines@[i as int]@);
        }
        if let Some(record) = parse_line(lines[i]) {
            out.push(record);
            assert(record_views(out@) =~= record_views(before).push(record@));
        }
        i += 1;
    }
    assert(all.take(all.len() as int) =~= all);
    out
}

/// What the first record writes where a frame rate would stand, without white space around it:
/// if it is a usable frame rate, the record is its declaration.
pub fn declared_rate(input: &str) -> (r: Option<String>)
    ensures
        match r {
            Some(s) => leading_rate(input@) == Some(s@),
            None => leading_rate(input@) is None,
        },
{
    let all = normalize_chars(input);
    let lines = lines_of(all.as_slice());
    let records = parse_records(&lines);
    let ghost rs = record_views(records@);
    assert(rs.len() == records@.len());
    if records.len() == 0 {
        return None;
    }
    assert(rs[0] == records@[0]@);
    if records[0].start_frame == 1 && records[0].end_frame == 1 {
        Some(to_text(trimmed(records[0].text)))
    } else {
        None
    }
}

/// What a header writes where a frame rate would stand, without white space around it; only a
/// record of the first frame alone does so.
pub fn header_rate(header: &str) -> (r: Option<String>)
    ensures
        ({
            let rate = match record(header@) {
                Some(v) => rate_text(v),
                None => None,
            };
            match r {
                Some(s) => rate == Some(s@),
                None => rate is None,
            }
        }),
{
    let all = to_chars(header);
    match parse_line(all.as_slice()) {
        Some(record) => if record.start_frame == 1 && record.end_frame == 1 {
            Some(to_text(trimmed(record.text)))
        } else {
            None
        },
        None => None,
    }
}

/// The start and end frames of the cues, in order. `declared` says whether the first record
/// declares the frame rate and so is no cue.
pub fn frames(input: &str, declared: bool) -> (r: Vec<(i64, i64)>)
    requires
        declared ==> leading_rate(input@) is Some,
    ensures
        r@.len() == cue_records(input@, declared).len(),
        forall|i: int|
            0 <= i < r@.len() ==> (#[trigger] r@[i]).0 == cue_records(input@, declared)[i].start
                && r@[i].1 == cue_records(input@, declared)[i].end,
{
    let all = normalize_chars(input);
    let lines = lines_of(all.as_slice());
    let records = parse_records(&lines);
    let ghost rs = record_views(records@);
    assert(rs.len() == records@.len());
    let first: usize = if declared {
        1
    } else {
        0
    };
    let mut out: Vec<(i64, i64)> = Vec::new();
    let mut i: usize = first;
    while i < records.len()
        invariant
            first <= i <= records@.len(),
            first == (if declared {
                1int
            } else {
                0int
            }),
            rs == record_views(records@),
            rs == records_of(input@),
            out@.len() == i - first,
            forall|k: int|
                0 <= k < out@.len() ==> (#[trigger] out@[k]).0 == rs[k + first].start && out@[k].1
                    == rs[k + first].end,
        decreases records.len() - i,
    {
        assert(rs[i as int] == records@[i as int]@);
        out.push((records[i].start_frame, records[i].end_frame));
        i += 1;
    }
    out
}

/// Parse MicroDVD text. `declared` says whether the first record declares the frame rate, and
/// `times` holds the times in milliseconds of the frames that [`frames`] gives.
pub fn parse(input: &str, declared: bool, times: &[(i64, i64)]) -> (r: Subtitle)
    requires
        declared ==> leading_rate(input@) is Some,
        times@.len() == cue_records(input@, declared).len(),
    ensures
        r@ == parsed(input@, declared, times@),
{
    let all = normalize_chars(input);
    let lines = lines_of(all.as_slice());
    let records = parse_records(&lines);
    let ghost rs = record_views(records@);
    assert(rs.len() == records@.len());
    let first: usize = if declared {
        1
    } else {
        0
    };
    let header = if declared {
        assert(rs[0] == records@[0]@);
        to_text(records[0].line)
    } else {
        String::new()
    };
    let ghost want = parsed(input@, declared, times@);
    let mut cues: Vec<Cue> = Vec::new();
    let mut i: usize = 0;
    while i < times.len()
        invariant
            i <= times@.len(),
            first == (if declared {
                1int
            } else {
                0int
            }),
            rs == record_views(records@),
            rs == records_of(input@),
            want == parsed(input@, declared, times@),
            times@.len() + first == rs.len(),
            cues@.len() == i,
            forall|k: int| 0 <= k < i ==> (#[trigger] cues@[k])@ == want.cues[k],
        decreases times.len() - i,
    {
        let len: usize = records.len();
        assert(i + first < len);
        let record = &records[i + first];
        assert(rs[i + first] == record@);
        assert(cue_records(input@, declared)[i as int] == record@);
        let mut payload = String::new();
        proof {
            reveal_strlit("\n");
            assert("\n"@ =~= seq!['\n']);
        }
        push_replaced(&mut payload, record.text, '|', "\n");
        let cue = Cue { start_ms: times[i].0, end_ms: times[i].1, payload };
        proof {
            assert(cue@.payload =~= want.cues[i as int].payload);
            assert(cue@ =~= want.cues[i as int]);
        }
        cues.push(cue);
        i += 1;
    }
    let r = Subtitle { format: Format::MicroDvd, header, cues };
    proof {
        assert(r@.header =~= want.header);
        assert(r@.cues =~= want.cues);
    }
    r
}

/// The line that writes a cue.
pub open spec fn cue_line(start: nat, end: nat, payload: Seq<char>) -> Seq<char> {
    seq!['{'] + chars::decimal(start) + seq!['}', '{'] + chars::decimal(end) + seq!['}']
        + chars::replaced(payload, '\n', seq!['|'])
}

/// The lines that write the cues, each with its line feed.
pub open spec fn cues_text(cues: Seq<CueView>, frames: Seq<(u64, u64)>) -> Seq<char>
    decreases cues.len(),
{
    if cues.len() == 0 {
        seq![]
    } else {
        let i = cues.len() - 1;
        cues_text(cues.drop_last(), frames) + cue_line(
            frames[i].0 as nat,
            frames[i].1 as nat,
            cues[i].payload,
        ) + seq!['\n']
    }
}

/// The MicroDVD text of a subtitle whose cues start and end at the given frames.
pub open spec fn written(sub: SubtitleView, frames: Seq<(u64, u64)>) -> Seq<char> {
    (if sub.header.len() == 0 {
        seq![]
    } else {
        sub.header + seq!['\n']
    }) + cues_text(sub.cues, frames)
}

/// Append the line that writes a cue.
fn push_cue(out: &mut String, start: u64, end: u64, payload: &str)
    ensures
        final(out)@ == old(out)@ + cue_line(start as nat, end as nat, payload@) + seq!['\n'],
{
    let ghost before = out@;
    out.push('{');
    push_decimal(out, start);
    out.append("}{");
    push_decimal(out, end);
    out.push('}');
    let p = to_chars(payload);
    push_replaced(out, p.as_slice(), '\n', "|");
    out.push('\n');
    proof {
        reveal_strlit("}{");
        reveal_strlit("|");
        assert("}{"@ =~= seq!['}', '{']);
        assert("|"@ =~= seq!['|']);
        assert(out@ =~= before + cue_line(start as nat, end as nat, payload@) + seq!['\n']);
    }
}

/// Serialize a [`Subtitle`] to MicroDVD. `frames` holds the start and end frame of each cue.
pub fn serialize(sub: &Subtitle, frames: &[(u64, u64)]) -> (r: String)
    requires
        frames@.len() == sub.cues@.len(),
    ensures
        r@ == written(sub@, frames@),
{
    let mut out = String::new();
    let head = to_chars(sub.header.as_str());
    if head.len() > 0 {
        out.append(sub.header.as_str());
        out.push('\n');
    }
    let ghost start = out@;
    let ghost all = sub@.cues;
    proof {
        assert(all.take(0) =~= seq![]);
        assert(start + cues_text(all.take(0), frames@) =~= start);
    }
    let mut i: usize = 0;
    while i < sub.cues.len()
        invariant
            i <= sub.cues@.len(),
            frames@.len() == sub.cues@.len(),
            all == sub@.cues,
            out@ == start + cues_text(all.take(i as int), frames@),
        decreases sub.cues.len() - i,
    {
        push_cue(&mut out, frames[i].0, frames[i].1, sub.cues[i].payload.as_str());
        proof {
            assert(all.take(i + 1).drop_last() =~= all.take(i as int));
            assert(all.take(i + 1)[i as int] == all[i as int]);
            assert(out@ =~= start + cues_text(all.take(i + 1), frames@));
        }
        i += 1;
    }
    assert(all.take(all.len() as int) =~= all);
    out
}

// ---------------------------------------------------------------------------
// Round trips
// ---------------------------------------------------------------------------

/// Whether `p` can be the payload of a record: without a carriage return or a bar, and without
/// white space other than a line feed at its end.
pub open spec fn is_payload(p: Seq<char>) -> bool {
    &&& text::no_cr(p)
    &&& chars::lacks(p, '|')
    &&& p.len() > 0 ==> p.last() == '\n' || !chars::is_space(p.last())
}

/// Each of the characters is itself or the replacement.
pub proof fn lemma_replaced_chars(s: Seq<char>, c: char, d: char)
    ensures
        chars::replaced(s, c, seq![d]).len() == s.len(),
        forall|i: int|
            0 <= i < s.len() ==> #[trigger] chars::replaced(s, c, seq![d])[i] == if s[i] == c {
                d
            } else {
                s[i]
            },
    decreases s.len(),
{
    if s.len() > 0 {
        let t = s.drop_first();
        lemma_replaced_chars(t, c, d);
        let r = chars::replaced(s, c, seq![d]);
        assert forall|i: int| 0 <= i < s.len() implies #[trigger] r[i] == if s[i] == c {
            d
        } else {
            s[i]
        } by {
            if i > 0 {
                assert(r[i] == chars::replaced(t, c, seq![d])[i - 1]);
            }
        }
    }
}

/// A written line reads back as the record that it was written for.
proof fn lemma_cue_line(start: nat, end: nat, payload: Seq<char>)
    requires
        start <= i64::MAX,
        end <= i64::MAX,
        is_payload(payload),
    ensures
        ({
            let l = cue_line(start, end, payload);
            let t = chars::replaced(payload, '\n', seq!['|']);
            &&& record(l) == Some(
                RecordView { start: start as int, end: end as int, text: t, line: l },
            )
            &&& text::is_line(l)
            &&& l.len() > 0
            &&& l[0] == '{'
            &&& chars::replaced(t, '|', seq!['\n']) == payload
        }),
{
    let l = cue_line(start, end, payload);
    let t = chars::replaced(payload, '\n', seq!['|']);
    let a = chars::decimal(start);
    let b = chars::decimal(end);
    lemma_replaced_chars(payload, '\n', '|');
    lemma_replaced_chars(t, '|', '\n');
    assert(chars::replaced(t, '|', seq!['\n']) =~= payload) by {
        assert forall|i: int| 0 <= i < payload.len() implies chars::replaced(
            t,
            '|',
            seq!['\n'],
        )[i] == payload[i] by {
            assert(payload[i] != '|');
        }
    }
    chars::lemma_padded(start, 0);
    chars::lemma_padded(end, 0);
    chars::lemma_trim_digits(a);
    chars::lemma_trim_digits(b);
    assert forall|j: int| 0 <= j < a.len() implies a[j] != '}' by {
        assert(chars::is_digit(a[j]));
    }
    assert forall|j: int| 0 <= j < b.len() implies b[j] != '}' by {
        assert(chars::is_digit(b[j]));
    }
    // The line has no white space around it.
    assert(l[0] == '{');
    assert(!chars::is_space(l.last())) by {
        if t.len() > 0 {
            assert(l.last() == t.last());
            assert(t.last() == t[payload.len() - 1]);
            assert(payload.last() == payload[payload.len() - 1]);
        } else {
            assert(l.last() == '}');
        }
    }
    chars::lemma_trim_tight(l);
    let rest = seq!['{'] + b + seq!['}'] + t;
    chars::lemma_find_char_between(a, '}', rest);
    assert(l.skip(1) =~= a + seq!['}'] + rest);
    chars::lemma_find_char_between(b, '}', t);
    assert(rest.skip(1) =~= b + seq!['}'] + t);
    assert forall|j: int| 0 <= j < l.len() implies l[j] != '\n' && l[j] != '\r' by {
        let n = a.len() + b.len() + 4;
        if j >= n {
            assert(l[j] == t[j - n]);
            assert(t[j - n] == if payload[j - n] == '\n' {
                '|'
            } else {
                payload[j - n]
            });
        } else if 1 <= j < 1 + a.len() {
            assert(l[j] == a[j - 1]);
            assert(chars::is_digit(a[j - 1]));
        } else if a.len() + 3 <= j < a.len() + 3 + b.len() {
            assert(l[j] == b[j - a.len() - 3]);
            assert(chars::is_digit(b[j - a.len() - 3]));
        }
    }
}

/// The records that are written for the cues.
pub open spec fn written_records(cues: Seq<CueView>, frames: Seq<(u64, u64)>) -> Seq<RecordView> {
    Seq::new(
        cues.len(),
        |i: int|
            RecordView {
                start: frames[i].0 as int,
                end: frames[i].1 as int,
                text: chars::replaced(cues[i].payload, '\n', seq!['|']),
                line: cue_line(frames[i].0 as nat, frames[i].1 as nat, cues[i].payload),
            },
    )
}

/// Whether every cue has a payload that a record can hold, and frames of 63 bits.
pub open spec fn writable(cues: Seq<CueView>, frames: Seq<(u64, u64)>) -> bool {
    frames.len() == cues.len() && forall|i: int|
        0 <= i < cues.len() ==> is_payload((#[trigger] cues[i]).payload) && frames[i].0
            <= i64::MAX && frames[i].1 <= i64::MAX
}

/// What the lines of the cues are made of.
proof fn lemma_cues_text(cues: Seq<CueView>, frames: Seq<(u64, u64)>, n: nat)
    requires
        writable(cues, frames),
        n <= cues.len(),
    ensures
        ({
            let w = cues_text(cues.take(n as int), frames);
            &&& records(chars::lines(w)) == written_records(cues, frames).take(n as int)
            &&& text::no_cr(w)
            &&& w.len() > 0 ==> w[0] == '{' && w.last() == '\n'
        }),
    decreases n,
{
    let part = cues.take(n as int);
    let w = cues_text(part, frames);
    let all = written_records(cues, frames);
    if n == 0 {
        assert(chars::lines(w) =~= seq![]);
        assert(all.take(0) =~= seq![]);
    } else {
        let m = (n - 1) as nat;
        let empty = Seq::<char>::empty();
        lemma_cues_text(cues, frames, m);
        assert(part.drop_last() =~= cues.take(m as int));
        let a = cues_text(cues.take(m as int), frames);
        assert(is_payload(cues[m as int].payload));
        let l = cue_line(frames[m as int].0 as nat, frames[m as int].1 as nat, cues[m as int].payload);
        lemma_cue_line(
            frames[m as int].0 as nat,
            frames[m as int].1 as nat,
            cues[m as int].payload,
        );
        let b = l + seq!['\n'];
        assert(w =~= a + b);
        chars::lemma_lines_concat(a, b);
        chars::lemma_lines_between(l, empty);
        assert(l + seq!['\n'] + empty =~= b);
        assert(chars::lines(empty) =~= seq![]);
        assert(chars::lines(b) =~= seq![l]);
        let ls = chars::lines(a).push(l);
        assert(chars::lines(w) =~= ls);
        assert(ls.drop_last() =~= chars::lines(a));
        assert(records(ls) =~= all.take(n as int));
        text::lemma_no_cr_concat(l, seq!['\n']);
        text::lemma_no_cr_concat(a, b);
        if a.len() > 0 {
            assert(w[0] == a[0]);
        } else {
            assert(w[0] == b[0]);
        }
    }
}

/// Whether `h` is empty or a line that declares a frame rate.
pub open spec fn is_header(h: Seq<char>) -> bool {
    h.len() == 0 || (text::is_line(h) && record(h) is Some && rate_text(record(h)->0) is Some)
}

/// A subtitle that MicroDVD can hold survives a round trip: the text that is written for it has
/// its header as the first record, if there is one, and then one record for each cue, in order,
/// with the frames that were given and with the payload.
pub proof fn law_written_records_read_back(sub: SubtitleView, frames: Seq<(u64, u64)>)
    requires
        is_header(sub.header),
        writable(sub.cues, frames),
    ensures
        records_of(written(sub, frames)) == (if sub.header.len() == 0 {
            seq![]
        } else {
            seq![record(sub.header)->0]
        }) + written_records(sub.cues, frames),
        forall|i: int|
            0 <= i < sub.cues.len() ==> chars::replaced(
                (#[trigger] written_records(sub.cues, frames)[i]).text,
                '|',
                seq!['\n'],
            ) == sub.cues[i].payload,
{
    let h = sub.header;
    let n = sub.cues.len();
    let all = written_records(sub.cues, frames);
    let c = cues_text(sub.cues, frames);
    let w = written(sub, frames);
    lemma_cues_text(sub.cues, frames, n);
    assert(sub.cues.take(n as int) =~= sub.cues);
    assert(all.take(n as int) =~= all);
    assert forall|i: int| 0 <= i < n implies chars::replaced(
        (#[trigger] all[i]).text,
        '|',
        seq!['\n'],
    ) == sub.cues[i].payload by {
        assert(is_payload(sub.cues[i].payload));
        lemma_cue_line(frames[i].0 as nat, frames[i].1 as nat, sub.cues[i].payload);
    }
    if h.len() == 0 {
        assert(w =~= c);
        assert(text::without_bom(w) == w);
        text::lemma_unix_lines_same(w);
        assert(Seq::<RecordView>::empty() + all =~= all);
    } else {
        assert(w =~= h + seq!['\n'] + c);
        text::lemma_no_cr_concat(h, seq!['\n']);
        text::lemma_no_cr_concat(h + seq!['\n'], c);
        text::lemma_unix_lines_same(w);
        assert(w[0] == h[0]);
        lemma_record_start(h);
        assert(text::without_bom(w) == w);
        chars::lemma_lines_between(h, c);
        assert(chars::lines(w) == seq![h] + chars::lines(c));
        lemma_records_behind(h, chars::lines(c));
    }
}

/// A line that writes a record starts with white space or a brace.
proof fn lemma_record_start(l: Seq<char>)
    requires
        record(l) is Some,
    ensures
        l.len() > 0,
        chars::is_space(l[0]) || l[0] == '{',
{
    chars::lemma_trim_start_suffix(l);
    let s = chars::trim_start(l);
    chars::lemma_trim_end_prefix(s);
    let t = chars::trim(l);
    assert(t.len() > 0 && t[0] == '{');
    assert(s[0] == t[0]);
    if s.len() == l.len() {
        assert(l[0] == s[0]);
    }
}

/// The record of a first line comes before those of the others.
proof fn lemma_records_behind(l: Seq<char>, ls: Seq<Seq<char>>)
    requires
        record(l) is Some,
    ensures
        records(seq![l] + ls) == seq![record(l)->0] + records(ls),
    decreases ls.len(),
{
    let all = seq![l] + ls;
    if ls.len() == 0 {
        assert(all.drop_last() =~= seq![]);
        assert(all.last() == l);
        assert(records(all.drop_last()) =~= seq![]);
        assert(records(ls) =~= seq![]);
        assert(records(all) =~= seq![record(l)->0] + records(ls));
    } else {
        lemma_records_behind(l, ls.drop_last());
        assert(all.drop_last() =~= seq![l] + ls.drop_last());
        assert(all.last() == ls.last());
        assert(records(all) =~= seq![record(l)->0] + records(ls));
    }
}

/// What is read can be written again: the header is a declaration or empty, and each payload is
/// one that a record can hold.
proof fn lemma_read(input: Seq<char>, declared: bool, times: Seq<(i64, i64)>)
    requires
        declared ==> leading_rate(input) is Some,
    ensures
        is_header(parsed(input, declared, times).header),
        forall|i: int|
            0 <= i < parsed(input, declared, times).cues.len() ==> is_payload(
                (#[trigger] parsed(input, declared, times).cues[i]).payload,
            ),
{
    let all = text::normalized(input);
    let ls = chars::lines(all);
    text::lemma_lines_are_lines(all);
    text::lemma_unix_lines_no_cr(text::without_bom(input));
    lemma_records(ls);
    let rs = records_of(input);
    let sub = parsed(input, declared, times);
    assert forall|i: int| 0 <= i < sub.cues.len() implies is_payload(
        (#[trigger] sub.cues[i]).payload,
    ) by {
        let k = if declared {
            i + 1
        } else {
            i
        };
        assert(cue_records(input, declared)[i] == rs[k]);
        let t = rs[k].text;
        assert(text::is_line(t) && (t.len() > 0 ==> !chars::is_space(t.last())));
        lemma_replaced_chars(t, '|', '\n');
        let p = sub.cues[i].payload;
        assert(p == chars::replaced(t, '|', seq!['\n']));
        assert forall|j: int| 0 <= j < p.len() implies p[j] != '\r' && p[j] != '|' by {
            assert(p[j] == if t[j] == '|' {
                '\n'
            } else {
                t[j]
            });
        }
        assert(text::no_cr(p));
        assert(chars::lacks(p, '|'));
        if p.len() > 0 {
            let last = t.len() - 1;
            assert(t.last() == t[last]);
            assert(p.last() == p[last]);
            assert(t[last] != '|' ==> p[last] == t[last]);
        }
    }
    if declared {
        assert(text::is_line(rs[0].line));
    }
}

/// What holds of every record that is read.
proof fn lemma_records(ls: Seq<Seq<char>>)
    requires
        text::all_lines(ls),
    ensures
        forall|i: int|
            0 <= i < records(ls).len() ==> {
                let r = #[trigger] records(ls)[i];
                &&& text::is_line(r.line)
                &&& text::is_line(r.text)
                &&& r.text.len() > 0 ==> !chars::is_space(r.text.last())
                &&& record(r.line) == Some(r)
            },
    decreases ls.len(),
{
    if ls.len() > 0 {
        let before = ls.drop_last();
        assert(text::all_lines(before)) by {
            assert forall|i: int| 0 <= i < before.len() implies text::is_line(
                #[trigger] before[i],
            ) by {
                assert(before[i] == ls[i]);
            }
        }
        lemma_records(before);
        let l = ls.last();
        assert(l == ls[ls.len() - 1]);
        if record(l) is Some {
            lemma_record_text(l);
        }
        assert forall|i: int| 0 <= i < records(ls).len() implies {
            let r = #[trigger] records(ls)[i];
            &&& text::is_line(r.line)
            &&& text::is_line(r.text)
            &&& r.text.len() > 0 ==> !chars::is_space(r.text.last())
            &&& record(r.line) == Some(r)
        } by {
            if i < records(before).len() {
                assert(records(ls)[i] == records(before)[i]);
            }
        }
    }
}

/// The text of a record is the end of its line, without white space at its end.
proof fn lemma_record_text(l: Seq<char>)
    requires
        text::is_line(l),
        record(l) is Some,
    ensures
        ({
            let t = record(l)->0.text;
            text::is_line(t) && (t.len() > 0 ==> !chars::is_space(t.last()))
        }),
{
    let s = chars::trim_start(l);
    let w = chars::trim(l);
    chars::lemma_trim_start_suffix(l);
    chars::lemma_trim_end_prefix(s);
    assert(text::is_line(s));
    assert(text::is_line(w));
    let (a, rest) = braced(w)->0;
    let i = chars::find_char(w.skip(1), '}');
    assert(rest == w.skip(1).skip(i + 1));
    chars::lemma_find_char(w.skip(1), '}');
    assert(rest =~= w.skip(i + 2));
    let (b, t) = braced(rest)->0;
    let k = chars::find_char(rest.skip(1), '}');
    chars::lemma_find_char(rest.skip(1), '}');
    assert(t =~= w.skip(i + 2 + k + 2));
    if t.len() > 0 {
        assert(t.last() == w.last());
    }
}

/// A parsed subtitle, written with any frames, reads back as the same header and payloads with
/// those frames.
pub proof fn law_reframed_subtitle_reads_back(
    input: Seq<char>,
    declared: bool,
    times: Seq<(i64, i64)>,
    retimed: SubtitleView,
    frames: Seq<(u64, u64)>,
)
    requires
        declared ==> leading_rate(input) is Some,
        retimed.header == parsed(input, declared, times).header,
        cue::same_payloads(retimed.cues, parsed(input, declared, times).cues),
        frames.len() == retimed.cues.len(),
        forall|i: int|
            0 <= i < frames.len() ==> (#[trigger] frames[i]).0 <= i64::MAX && frames[i].1
                <= i64::MAX,
    ensures
        records_of(written(retimed, frames)) == (if declared {
            seq![records_of(input)[0]]
        } else {
            seq![]
        }) + written_records(retimed.cues, frames),
        forall|i: int|
            0 <= i < retimed.cues.len() ==> chars::replaced(
                (#[trigger] written_records(retimed.cues, frames)[i]).text,
                '|',
                seq!['\n'],
            ) == retimed.cues[i].payload,
{
    lemma_read(input, declared, times);
    let sub = parsed(input, declared, times);
    assert forall|i: int| 0 <= i < retimed.cues.len() implies is_payload(
        (#[trigger] retimed.cues[i]).payload,
    ) && frames[i].0 <= i64::MAX && frames[i].1 <= i64::MAX by {
        assert(is_payload(sub.cues[i].payload));
        assert(frames[i].0 <= i64::MAX);
    }
    law_written_records_read_back(retimed, frames);
    if declared {
        let all = text::normalized(input);
        text::lemma_lines_are_lines(all);
        text::lemma_unix_lines_no_cr(text::without_bom(input));
        lemma_records(chars::lines(all));
        let r = records_of(input)[0];
        assert(record(r.line) == Some(r));
        lemma_record_start(r.line);
    }
}

} // verus!
