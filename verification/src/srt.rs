//! SubRip (`.srt`) parsing and serialization.
//!
//! Tolerant on input (optional indices, `,` or `.` decimal separators, CRLF or LF line
//! endings, a leading UTF-8 BOM, whitespace-only separator lines, and trailing
//! cue-position coordinates) and canonical on output.
use vstd::prelude::*;
use vstd::slice::slice_subrange;

use crate::chars;
use crate::chars::{
    find_text, first_word_of, joined, labelled, lines_of, push_decimal, quote, split_all,
    split_first, to_text, trimmed,
};
use crate::cue;
use crate::cue::{Cue, CueView, Format, Subtitle, SubtitleView};
use crate::text;
use crate::text::{blocks_of, hms_to_ms, normalize_chars, parse_field, push_clock};

verus! {

/// An error encountered while parsing SubRip text.
#[derive(Clone, Debug, PartialEq, Eq)]
pub enum SrtError {
    /// A block had no `-->` timing line. Carries the 1-based block number.
    MissingTiming(usize),
    /// A timestamp could not be parsed (malformed, negative, or out of range).
    /// Carries the offending text.
    BadTimestamp(String),
}

/// A parse error as mathematical values.
pub enum SrtErrorView {
    MissingTiming(int),
    BadTimestamp(Seq<char>),
}

impl View for SrtError {
    type V = SrtErrorView;

    open spec fn view(&self) -> SrtErrorView {
        match self {
            SrtError::MissingTiming(n) => SrtErrorView::MissingTiming(*n as int),
            SrtError::BadTimestamp(s) => SrtErrorView::BadTimestamp(s@),
        }
    }
}

/// What is said of an error.
pub open spec fn message(e: SrtErrorView) -> Seq<char> {
    match e {
        SrtErrorView::MissingTiming(n) => "subtitle block "@ + chars::decimal(n as nat)
            + " has no timing line"@,
        SrtErrorView::BadTimestamp(s) => "bad SRT timestamp: "@ + chars::quoted(s),
    }
}

impl SrtError {
    /// What is said of the error.
    pub fn message(&self) -> (r: String)
        ensures
            r@ == message(self@),
    {
        match self {
            SrtError::MissingTiming(n) => {
                let mut r = "subtitle block ".to_owned();
                push_decimal(&mut r, *n as u64);
                r.append(" has no timing line");
                r
            },
            SrtError::BadTimestamp(s) => labelled("bad SRT timestamp: ", quote(s.as_str()).as_str()),
        }
    }
}

/// The milliseconds that `hms` (hours, minutes and seconds between colons) and `millis`
/// write together.
pub open spec fn clock_value(hms: Seq<char>, millis: Seq<char>) -> Option<int> {
    let parts = chars::split(hms, ':');
    if parts.len() != 3 {
        None
    } else {
        match (text::field(parts[0]), text::field(parts[1]), text::field(parts[2]), text::field(millis)) {
            (Some(h), Some(m), Some(s), Some(ms)) => text::checked_ms(h, m, s, ms),
            _ => None,
        }
    }
}

/// The milliseconds that `HH:MM:SS,mmm` writes; without a comma, a point separates the
/// milliseconds.
pub open spec fn timestamp(s: Seq<char>) -> Option<int> {
    match chars::split_once(s, ',') {
        Some((hms, millis)) => clock_value(hms, millis),
        None => match chars::split_once(s, '.') {
            Some((hms, millis)) => clock_value(hms, millis),
            None => None,
        },
    }
}

/// The two times of a timing line, or the text that is no timestamp.
pub open spec fn timing(line: Seq<char>) -> Result<(int, int), Seq<char>> {
    match chars::find(line, text::arrow()) {
        None => Err(line),
        Some(i) => {
            let left = chars::trim(line.take(i));
            let right = chars::first_word(line.skip(i + 3));
            match timestamp(left) {
                None => Err(left),
                Some(start) => match timestamp(right) {
                    None => Err(right),
                    Some(end) => Ok((start, end)),
                },
            }
        },
    }
}

/// Where the timing line of a block stands: in its first or its second line.
pub open spec fn timing_index(block: Seq<Seq<char>>) -> Option<int> {
    if chars::find(block[0], text::arrow()) is Some {
        Some(0)
    } else if block.len() >= 2 && chars::find(block[1], text::arrow()) is Some {
        Some(1)
    } else {
        None
    }
}

/// The cue that block number `number` writes.
pub open spec fn block_cue(block: Seq<Seq<char>>, number: int) -> Result<CueView, SrtErrorView> {
    match timing_index(block) {
        None => Err(SrtErrorView::MissingTiming(number)),
        Some(k) => match timing(block[k]) {
            Err(s) => Err(SrtErrorView::BadTimestamp(s)),
            Ok((start, end)) => Ok(
                CueView {
                    start_ms: start,
                    end_ms: end,
                    payload: chars::join(block.skip(k + 1), seq!['\n']),
                },
            ),
        },
    }
}

/// The cues of the blocks, numbered from `number`; the first bad block decides the error.
pub open spec fn block_cues(blocks: Seq<Seq<Seq<char>>>, number: int) -> Result<
    Seq<CueView>,
    SrtErrorView,
>
    decreases blocks.len(),
{
    if blocks.len() == 0 {
        Ok(seq![])
    } else {
        match block_cue(blocks[0], number) {
            Err(e) => Err(e),
            Ok(cue) => text::prepend(seq![cue], block_cues(blocks.drop_first(), number + 1)),
        }
    }
}

/// The subtitle that SubRip text writes.
pub open spec fn parsed(input: Seq<char>) -> Result<SubtitleView, SrtErrorView> {
    match block_cues(text::blocks(chars::lines(text::normalized(input))), 1) {
        Err(e) => Err(e),
        Ok(cues) => Ok(SubtitleView { format: Format::SubRip, header: seq![], cues }),
    }
}

/// The milliseconds that `hms` and `millis` write together.
fn parse_clock(hms: &[char], millis: &[char]) -> (r: Option<i64>)
    ensures
        match r {
            Some(v) => clock_value(hms@, millis@) == Some(v as int),
            None => clock_value(hms@, millis@) is None,
        },
{
    let parts = split_all(hms, ':');
    assert(chars::texts(parts@).len() == parts@.len());
    if parts.len() != 3 {
        return None;
    }
    assert(chars::texts(parts@)[0] == parts@[0]@ && chars::texts(parts@)[1] == parts@[1]@ && chars::texts(parts@)[2]
        == parts@[2]@);
    let hours = parse_field(parts[0]);
    let minutes = parse_field(parts[1]);
    let seconds = parse_field(parts[2]);
    let ms = parse_field(millis);
    match (hours, minutes, seconds, ms) {
        (Some(h), Some(m), Some(s), Some(x)) => hms_to_ms(h, m, s, x),
        _ => None,
    }
}

/// Parse `HH:MM:SS,mmm` (or `.mmm`) into milliseconds, using checked arithmetic so
/// malformed huge fields can't overflow.
pub fn parse_timestamp(s: &[char]) -> (r: Result<i64, SrtError>)
    ensures
        match r {
            Ok(v) => timestamp(s@) == Some(v as int),
            Err(e) => timestamp(s@) is None && e@ == SrtErrorView::BadTimestamp(s@),
        },
{
    let parts = match split_first(s, ',') {
        Some(p) => Some(p),
        None => split_first(s, '.'),
    };
    let value = match parts {
        Some((hms, millis)) => parse_clock(hms, millis),
        None => None,
    };
    match value {
        Some(v) => Ok(v),
        None => Err(SrtError::BadTimestamp(to_text(s))),
    }
}

/// The two times of a timing line. The end may be followed by position coordinates, which
/// are ignored.
fn parse_timing(line: &[char]) -> (r: Result<(i64, i64), SrtError>)
    ensures
        match r {
            Ok((start, end)) => timing(line@) == Ok::<(int, int), Seq<char>>(
                (start as int, end as int),
            ),
            Err(e) => timing(line@) matches Err(s) && e@ == SrtErrorView::BadTimestamp(s),
        },
{
    let arrow_chars: [char; 3] = ['-', '-', '>'];
    let pat = arrow_chars.as_slice();
    assert(pat@ =~= text::arrow());
    match find_text(line, pat) {
        None => Err(SrtError::BadTimestamp(to_text(line))),
        Some(i) => {
            let len: usize = line.len();
            assert(pat@.len() == 3 && i + 3 <= len);
            let left = slice_subrange(line, 0, i);
            let right = slice_subrange(line, i + 3, len);
            assert(left@ =~= line@.take(i as int));
            assert(right@ =~= line@.skip(i + 3));
            let start = match parse_timestamp(trimmed(left)) {
                Ok(v) => v,
                Err(e) => return Err(e),
            };
            let end = match parse_timestamp(first_word_of(right)) {
                Ok(v) => v,
                Err(e) => return Err(e),
            };
            Ok((start, end))
        },
    }
}

/// Parse one non-empty block of lines into a [`Cue`]. `number` is the 1-based cue index,
/// used only for error messages.
fn parse_block(block: &Vec<&[char]>, number: usize) -> (r: Result<Cue, SrtError>)
    requires
        block@.len() > 0,
    ensures
        match r {
            Ok(cue) => block_cue(chars::texts(block@), number as int) == Ok::<CueView, SrtErrorView>(cue@),
            Err(e) => block_cue(chars::texts(block@), number as int) == Err::<CueView, SrtErrorView>(e@),
        },
{
    let arrow_chars: [char; 3] = ['-', '-', '>'];
    let pat = arrow_chars.as_slice();
    assert(pat@ =~= text::arrow());
    let ghost all = chars::texts(block@);
    assert(all[0] == block@[0]@);
    assert(block@.len() >= 2 ==> all[1] == block@[1]@);
    let at: usize = if find_text(block[0], pat).is_some() {
        0
    } else if block.len() >= 2 && find_text(block[1], pat).is_some() {
        1
    } else {
        return Err(SrtError::MissingTiming(number));
    };
    let (start_ms, end_ms) = match parse_timing(block[at]) {
        Ok(t) => t,
        Err(e) => return Err(e),
    };
    let rest = slice_subrange(block.as_slice(), at + 1, block.len());
    proof {
        reveal_strlit("\n");
        assert("\n"@ =~= seq!['\n']);
        assert(chars::texts(rest@) =~= all.skip(at + 1));
    }
    let payload = joined(rest, "\n");
    Ok(Cue { start_ms, end_ms, payload })
}

/// One more block read.
proof fn lemma_block_cues_step(
    bs: Seq<Seq<Seq<char>>>,
    i: int,
    done: Seq<CueView>,
    cue: CueView,
)
    requires
        0 <= i < bs.len(),
        block_cue(bs[i], i + 1) == Ok::<CueView, SrtErrorView>(cue),
        block_cues(bs, 1) == text::prepend(done, block_cues(bs.skip(i), i + 1)),
    ensures
        block_cues(bs, 1) == text::prepend(done.push(cue), block_cues(bs.skip(i + 1), i + 2)),
{
    let rest = bs.skip(i);
    assert(rest[0] == bs[i]);
    assert(rest.drop_first() =~= bs.skip(i + 1));
    match block_cues(bs.skip(i + 1), i + 2) {
        Ok(more) => {
            assert(done + (seq![cue] + more) =~= done.push(cue) + more);
        },
        Err(e) => {},
    }
}

/// Parse SubRip text into a [`Subtitle`].
pub fn parse(input: &str) -> (r: Result<Subtitle, SrtError>)
    ensures
        match r {
            Ok(sub) => parsed(input@) == Ok::<SubtitleView, SrtErrorView>(sub@),
            Err(e) => parsed(input@) == Err::<SubtitleView, SrtErrorView>(e@),
        },
{
    let chars = normalize_chars(input);
    let all = lines_of(chars.as_slice());
    let groups = blocks_of(&all);
    let mut cues: Vec<Cue> = Vec::new();
    let ghost bs = text::block_texts(groups@);
    let mut i: usize = 0;
    proof {
        assert(bs.skip(0) =~= bs);
        assert(cue::cue_views(cues@) =~= seq![]);
        match block_cues(bs, 1) {
            Ok(more) => {
                assert(cue::cue_views(cues@) + more =~= more);
            },
            Err(e) => {},
        }
        lemma_no_empty_block(input@);
    }
    while i < groups.len()
        invariant
            i <= groups@.len(),
            bs == text::block_texts(groups@),
            bs == text::blocks(chars::lines(text::normalized(input@))),
            forall|k: int| 0 <= k < bs.len() ==> (#[trigger] bs[k]).len() > 0,
            cues@.len() == i,
            block_cues(bs, 1) == text::prepend(
                cue::cue_views(cues@),
                block_cues(bs.skip(i as int), i + 1),
            ),
        decreases groups.len() - i,
    {
        let ghost rest = bs.skip(i as int);
        let ghost done = cue::cue_views(cues@);
        assert(rest[0] == bs[i as int]);
        assert(bs[i as int] == chars::texts(groups@[i as int]@));
        match parse_block(&groups[i], i + 1) {
            Ok(cue) => {
                let ghost view = cue@;
                cues.push(cue);
                proof {
                    assert(cue::cue_views(cues@) =~= done.push(view));
                    lemma_block_cues_step(bs, i as int, done, view);
                }
            },
            Err(e) => {
                return Err(e);
            },
        }
        i += 1;
    }
    let sub = Subtitle { format: Format::SubRip, header: String::new(), cues };
    proof {
        assert(bs.skip(i as int) =~= seq![]);
        assert(cue::cue_views(sub.cues@) + seq![] =~= cue::cue_views(sub.cues@));
        assert(sub@.header =~= seq![]);
    }
    Ok(sub)
}

/// No block is without a line.
proof fn lemma_no_empty_block(input: Seq<char>)
    ensures
        ({
            let bs = text::blocks(chars::lines(text::normalized(input)));
            forall|k: int| 0 <= k < bs.len() ==> (#[trigger] bs[k]).len() > 0
        }),
{
    text::lemma_lines_are_lines(text::normalized(input));
    text::lemma_unix_lines_no_cr(text::without_bom(input));
    text::lemma_blocks_solid(seq![], chars::lines(text::normalized(input)));
}

/// The lines that write one cue, each with its line feed, and a blank line.
pub open spec fn cue_text(number: int, cue: CueView) -> Seq<char> {
    chars::decimal(number as nat) + seq!['\n'] + text::timing_line(
        cue.start_ms,
        cue.end_ms,
        ',',
    ) + seq!['\n'] + cue.payload + seq!['\n', '\n']
}

/// The text of the cues, numbered from 1.
pub open spec fn cues_text(cues: Seq<CueView>) -> Seq<char>
    decreases cues.len(),
{
    if cues.len() == 0 {
        seq![]
    } else {
        cues_text(cues.drop_last()) + cue_text(cues.len() as int, cues.last())
    }
}

/// Append the lines that write one cue.
fn push_cue(out: &mut String, number: u64, cue: &Cue)
    ensures
        final(out)@ == old(out)@ + cue_text(number as int, cue@),
{
    let ghost before = out@;
    push_decimal(out, number);
    out.push('\n');
    push_clock(out, cue.start_ms, ',');
    out.append(" --> ");
    push_clock(out, cue.end_ms, ',');
    out.push('\n');
    out.append(cue.payload.as_str());
    out.append("\n\n");
    proof {
        reveal_strlit(" --> ");
        reveal_strlit("\n\n");
        assert(" --> "@ =~= seq![' ', '-', '-', '>', ' ']);
        assert("\n\n"@ =~= seq!['\n', '\n']);
        assert(out@ =~= before + cue_text(number as int, cue@));
    }
}

/// Serialize a [`Subtitle`] back to canonical SubRip text.
pub fn serialize(sub: &Subtitle) -> (r: String)
    ensures
        r@ == cues_text(sub@.cues),
{
    let mut out = String::new();
    let ghost all = sub@.cues;
    let mut i: usize = 0;
    assert(all.take(0) =~= seq![]);
    while i < sub.cues.len()
        invariant
            i <= sub.cues@.len(),
            all == sub@.cues,
            out@ == cues_text(all.take(i as int)),
        decreases sub.cues.len() - i,
    {
        push_cue(&mut out, i as u64 + 1, &sub.cues[i]);
        proof {
            assert(all.take(i + 1).drop_last() =~= all.take(i as int));
            assert(all.take(i + 1).last() == all[i as int]);
        }
        i += 1;
    }
    assert(all.take(all.len() as int) =~= all);
    out
}

// ---------------------------------------------------------------------------
// Round trips
// ---------------------------------------------------------------------------

/// A written timestamp reads back as its time.
proof fn lemma_timestamp(ms: int)
    requires
        text::fits(ms),
    ensures
        timestamp(text::clock(ms, ',')) == Some(text::clamped(ms)),
{
    text::lemma_clock(ms, ',');
    text::law_decompose_then_combine(text::clamped(ms));
}

/// The lines of a block that writes a cue.
pub open spec fn cue_block(number: int, cue: CueView, ls: Seq<Seq<char>>) -> Seq<Seq<char>> {
    seq![chars::decimal(number as nat), text::timing_line(cue.start_ms, cue.end_ms, ',')] + ls
}

/// A written block reads back as its cue.
proof fn lemma_cue_block(number: int, cue: CueView, ls: Seq<Seq<char>>)
    requires
        1 <= number,
        text::solid(ls),
        text::fits(cue.start_ms),
        text::fits(cue.end_ms),
        cue.payload == chars::join(ls, seq!['\n']),
    ensures
        block_cue(cue_block(number, cue, ls), number) == Ok::<CueView, SrtErrorView>(
            cue::from_zero(seq![cue])[0],
        ),
        text::solid(cue_block(number, cue, ls)),
{
    let b = cue_block(number, cue, ls);
    let d = chars::decimal(number as nat);
    let t = text::timing_line(cue.start_ms, cue.end_ms, ',');
    assert(b[0] == d);
    assert(b[1] == t);
    assert(b.skip(2) =~= ls);
    chars::lemma_decimal(number as nat);
    chars::lemma_find(d, text::arrow());
    if chars::find(d, text::arrow()) is Some {
        let k = chars::find(d, text::arrow())->0;
        assert(d.subrange(k, k + 3)[0] == '-');
        assert(chars::is_digit(d[k]));
    }
    text::lemma_timing_line(cue.start_ms, cue.end_ms, ',');
    lemma_timestamp(cue.start_ms);
    lemma_timestamp(cue.end_ms);
    assert(chars::is_digit(d[0]));
    assert(!chars::is_space(d[0]));
    assert(text::is_line(d)) by {
        assert forall|j: int| 0 <= j < d.len() implies d[j] != '\n' && d[j] != '\r' by {
            assert(chars::is_digit(d[j]));
        }
    }
    assert forall|j: int| 0 <= j < b.len() implies !chars::is_blank(#[trigger] b[j])
        && text::is_line(b[j]) by {
        if j >= 2 {
            assert(b[j] == ls[j - 2]);
        }
    }
}

/// The text of a cue is the lines of its block, and a blank line or two.
proof fn lemma_cue_text_lines(number: int, cue: CueView, ls: Seq<Seq<char>>)
    requires
        1 <= number,
        text::solid(ls),
        text::fits(cue.start_ms),
        text::fits(cue.end_ms),
        cue.payload == chars::join(ls, seq!['\n']),
    ensures
        text::blocks(chars::lines(cue_text(number, cue))) == seq![cue_block(number, cue, ls)],
        chars::lines(cue_text(number, cue)).len() > 0,
        chars::is_blank(chars::lines(cue_text(number, cue)).last()),
        cue_text(number, cue).last() == '\n',
{
    let nl = seq!['\n'];
    let empty = Seq::<char>::empty();
    let d = chars::decimal(number as nat);
    let t = text::timing_line(cue.start_ms, cue.end_ms, ',');
    let head = seq![d, t];
    lemma_cue_block(number, cue, ls);
    let b = cue_block(number, cue, ls);
    assert forall|k: int, j: int| 0 <= k < head.len() && 0 <= j < head[k].len() implies (
    #[trigger] head[k][j]) != '\n' && head[k][j] != '\r' by {
        assert(text::is_line(b[k]));
        assert(b[k] == head[k]);
    }
    let tail = cue.payload + seq!['\n', '\n'];
    chars::lemma_lines_of_join(head, tail);
    reveal_with_fuel(chars::join, 3);
    assert(head.drop_first() =~= seq![t]);
    assert(chars::join(head, nl) =~= d + nl + t);
    let w = cue_text(number, cue);
    assert(w =~= chars::join(head, nl) + nl + tail);
    // What follows the timing line.
    chars::lemma_lines_between(empty, empty);
    assert(empty + nl + empty =~= nl);
    assert(chars::lines(empty) =~= seq![]);
    assert(chars::lines(nl) =~= seq![empty]);
    if ls.len() == 0 {
        assert(cue.payload =~= empty);
        chars::lemma_lines_between(empty, nl);
        assert(tail =~= empty + nl + nl);
        assert(chars::lines(tail) =~= seq![empty, empty]);
        assert(chars::lines(w) =~= b + seq![empty, empty]);
        text::lemma_blocks_solid_run(seq![], b, seq![empty, empty]);
        assert(Seq::<Seq<char>>::empty() + b =~= b);
        assert(seq![empty, empty].drop_first() =~= seq![empty]);
        assert(seq![empty].drop_first() =~= seq![]);
        reveal_with_fuel(text::blocks_after, 4);
        assert(text::blocks(chars::lines(w)) =~= seq![b]);
    } else {
        assert forall|k: int, j: int| 0 <= k < ls.len() && 0 <= j < ls[k].len() implies (
        #[trigger] ls[k][j]) != '\n' && ls[k][j] != '\r' by {
            assert(text::is_line(ls[k]));
        }
        chars::lemma_lines_of_join(ls, nl);
        assert(tail =~= cue.payload + nl + nl);
        assert(chars::lines(w) =~= b + seq![empty]);
        text::lemma_blocks_solid_run(seq![], b, seq![empty]);
        assert(Seq::<Seq<char>>::empty() + b =~= b);
        assert(seq![empty].drop_first() =~= seq![]);
        reveal_with_fuel(text::blocks_after, 3);
        assert(text::blocks(chars::lines(w)) =~= seq![b]);
    }
    assert(w.last() == '\n');
}

/// One more block at the end is one more cue at the end.
pub proof fn lemma_block_cues_push(
    bs: Seq<Seq<Seq<char>>>,
    number: int,
    cues: Seq<CueView>,
    b: Seq<Seq<char>>,
    cue: CueView,
)
    requires
        block_cues(bs, number) == Ok::<Seq<CueView>, SrtErrorView>(cues),
        block_cue(b, number + bs.len()) == Ok::<CueView, SrtErrorView>(cue),
    ensures
        block_cues(bs.push(b), number) == Ok::<Seq<CueView>, SrtErrorView>(cues.push(cue)),
    decreases bs.len(),
{
    let all = bs.push(b);
    if bs.len() == 0 {
        assert(all[0] == b);
        assert(all.drop_first() =~= seq![]);
        assert(seq![cue] + Seq::<CueView>::empty() =~= cues.push(cue));
    } else {
        assert(all[0] == bs[0]);
        assert(all.drop_first() =~= bs.drop_first().push(b));
        let first = block_cue(bs[0], number)->Ok_0;
        let more = block_cues(bs.drop_first(), number + 1)->Ok_0;
        lemma_block_cues_push(bs.drop_first(), number + 1, more, b, cue);
        assert(seq![first] + more.push(cue) =~= cues.push(cue));
    }
}

/// What the text of the cues is made of.
proof fn lemma_cues_text(cues: Seq<CueView>)
    requires
        cue::writable(cues),
    ensures
        ({
            let w = cues_text(cues);
            let ls = chars::lines(w);
            &&& text::blocks(ls).len() == cues.len()
            &&& block_cues(text::blocks(ls), 1) == Ok::<Seq<CueView>, SrtErrorView>(
                cue::from_zero(cues),
            )
            &&& w.len() > 0 ==> w.last() == '\n' && chars::is_digit(w[0])
            &&& ls.len() > 0 ==> chars::is_blank(ls.last())
            &&& forall|i: int| 0 <= i < w.len() ==> w[i] != '\r'
        }),
    decreases cues.len(),
{
    let w = cues_text(cues);
    if cues.len() == 0 {
        assert(chars::lines(w) =~= seq![]);
        assert(text::blocks(chars::lines(w)) =~= seq![]);
        assert(cue::from_zero(cues) =~= seq![]);
    } else {
        let before = cues.drop_last();
        let cue = cues.last();
        let n = cues.len() as int;
        assert(cue == cues[n - 1]);
        assert(cue::writable(before)) by {
            assert forall|i: int| 0 <= i < before.len() implies {
                let c = #[trigger] before[i];
                cue::is_payload(c.payload) && text::fits(c.start_ms) && text::fits(c.end_ms)
            } by {
                assert(before[i] == cues[i]);
            }
        }
        lemma_cues_text(before);
        let ls = choose|ls: Seq<Seq<char>>| #[trigger]
            text::solid(ls) && cue.payload == chars::join(ls, seq!['\n']);
        let a = cues_text(before);
        let t = cue_text(n, cue);
        lemma_cue_text_lines(n, cue, ls);
        lemma_cue_block(n, cue, ls);
        let block = cue_block(n, cue, ls);
        chars::lemma_lines_concat(a, t);
        text::lemma_blocks_concat(seq![], chars::lines(a), chars::lines(t));
        let bs = text::blocks(chars::lines(a));
        assert(text::blocks(chars::lines(w)) =~= bs.push(block));
        lemma_block_cues_push(bs, 1, cue::from_zero(before), block, cue::from_zero(seq![cue])[0]);
        assert(cue::from_zero(cues) =~= cue::from_zero(before).push(cue::from_zero(seq![cue])[0]));
        assert(w.last() == t.last());
        lemma_cue_text_chars(n, cue, ls);
        assert forall|i: int| 0 <= i < w.len() implies w[i] != '\r' by {
            if i < a.len() {
                assert(w[i] == a[i]);
            } else {
                assert(w[i] == t[i - a.len()]);
            }
        }
        if a.len() > 0 {
            assert(w[0] == a[0]);
        } else {
            assert(w[0] == t[0]);
        }
        assert((chars::lines(a) + chars::lines(t)).last() == chars::lines(t).last());
    }
}

/// The text of a cue starts with a digit and holds no carriage return.
proof fn lemma_cue_text_chars(number: int, cue: CueView, ls: Seq<Seq<char>>)
    requires
        1 <= number,
        text::solid(ls),
        text::fits(cue.start_ms),
        text::fits(cue.end_ms),
        cue.payload == chars::join(ls, seq!['\n']),
    ensures
        cue_text(number, cue).len() > 0,
        chars::is_digit(cue_text(number, cue)[0]),
        forall|i: int| 0 <= i < cue_text(number, cue).len() ==> cue_text(number, cue)[i] != '\r',
{
    let d = chars::decimal(number as nat);
    let t = text::timing_line(cue.start_ms, cue.end_ms, ',');
    let w = cue_text(number, cue);
    chars::lemma_decimal(number as nat);
    text::lemma_timing_line(cue.start_ms, cue.end_ms, ',');
    text::lemma_join_no_cr(ls);
    assert(w[0] == d[0]);
    assert(chars::is_digit(d[0]));
    let p = d.len() + 1 + t.len() + 1;
    assert forall|i: int| 0 <= i < w.len() implies w[i] != '\r' by {
        if i < d.len() {
            assert(w[i] == d[i]);
            assert(chars::is_digit(d[i]));
        } else if d.len() < i < d.len() + 1 + t.len() {
            assert(w[i] == t[i - d.len() - 1]);
        } else if p <= i < p + cue.payload.len() {
            assert(w[i] == cue.payload[i - p]);
        }
    }
}

/// Cues that SubRip can hold survive a round trip: reading the text that is written for them
/// gives the same cues again, in the same order and with the same payloads; only a negative
/// time is read back as zero.
pub proof fn law_written_cues_read_back(cues: Seq<CueView>)
    requires
        cue::writable(cues),
    ensures
        parsed(cues_text(cues)) == Ok::<SubtitleView, SrtErrorView>(
            SubtitleView { format: Format::SubRip, header: seq![], cues: cue::from_zero(cues) },
        ),
{
    lemma_cues_text(cues);
    let w = cues_text(cues);
    assert(text::without_bom(w) == w);
    text::lemma_unix_lines_same(w);
}

/// What was read can be written, and has no negative time.
proof fn lemma_block_cues_writable(bs: Seq<Seq<Seq<char>>>, number: int)
    requires
        forall|i: int| 0 <= i < bs.len() ==> text::solid(#[trigger] bs[i]) && bs[i].len() > 0,
    ensures
        block_cues(bs, number) matches Ok(cues) ==> cue::writable(cues) && cue::from_zero(cues) == cues,
    decreases bs.len(),
{
    if bs.len() > 0 && block_cues(bs, number) is Ok {
        let b = bs[0];
        let rest = bs.drop_first();
        assert(text::solid(b));
        assert forall|i: int| 0 <= i < rest.len() implies text::solid(#[trigger] rest[i])
            && rest[i].len() > 0 by {
            assert(text::solid(bs[i + 1]));
        }
        lemma_block_cues_writable(rest, number + 1);
        let cues = block_cues(bs, number)->Ok_0;
        let more = block_cues(rest, number + 1)->Ok_0;
        let cue = block_cue(b, number)->Ok_0;
        let k = timing_index(b)->0;
        text::lemma_solid_skip(b, k + 1);
        assert(cue::is_payload(cue.payload));
        lemma_timing_range(b[k]);
        assert forall|i: int| 0 <= i < cues.len() implies {
            let c = #[trigger] cues[i];
            cue::is_payload(c.payload) && text::fits(c.start_ms) && text::fits(c.end_ms)
                && cue::from_zero(cues)[i] == c
        } by {
            if i > 0 {
                assert(cues[i] == more[i - 1]);
                assert(cue::from_zero(more)[i - 1] == more[i - 1]);
            }
        }
        assert(cue::from_zero(cues) =~= cues);
    } else if bs.len() == 0 {
        assert(cue::from_zero(seq![]) =~= seq![]);
    }
}

/// The times of a timing line are not negative.
proof fn lemma_timing_range(line: Seq<char>)
    ensures
        timing(line) matches Ok((start, end)) ==> 0 <= start <= i64::MAX && 0 <= end <= i64::MAX,
{
    if timing(line) is Ok {
        let i = chars::find(line, text::arrow())->0;
        lemma_timestamp_range(chars::trim(line.take(i)));
        lemma_timestamp_range(chars::first_word(line.skip(i + 3)));
    }
}

/// A timestamp is not negative.
proof fn lemma_timestamp_range(s: Seq<char>)
    ensures
        timestamp(s) matches Some(v) ==> 0 <= v <= i64::MAX,
{
    let (hms, millis) = match chars::split_once(s, ',') {
        Some(p) => p,
        None => chars::split_once(s, '.')->0,
    };
    let parts = chars::split(hms, ':');
    if timestamp(s) is Some {
        text::lemma_checked_ms_range(
            text::field(parts[0])->0,
            text::field(parts[1])->0,
            text::field(parts[2])->0,
            text::field(millis)->0,
        );
    }
}

/// Parsing the text that is written for a parsed subtitle reproduces that subtitle, whatever
/// the input was.
pub proof fn law_parse_serialize_parse(input: Seq<char>)
    ensures
        parsed(input) matches Ok(sub) ==> parsed(cues_text(sub.cues)) == Ok::<
            SubtitleView,
            SrtErrorView,
        >(sub),
{
    let ls = chars::lines(text::normalized(input));
    text::lemma_lines_are_lines(text::normalized(input));
    text::lemma_unix_lines_no_cr(text::without_bom(input));
    text::lemma_blocks_solid(seq![], ls);
    lemma_block_cues_writable(text::blocks(ls), 1);
    if parsed(input) is Ok {
        law_written_cues_read_back(parsed(input)->Ok_0.cues);
    }
}

/// A parsed subtitle whose cues were re-timed in any way reads back with the new times (at
/// zero where they are negative) and with its payloads untouched.
pub proof fn law_retimed_subtitle_reads_back(input: Seq<char>, cues: Seq<CueView>)
    requires
        parsed(input) matches Ok(sub) && cue::same_payloads(cues, sub.cues),
    ensures
        parsed(cues_text(cues)) == Ok::<SubtitleView, SrtErrorView>(
            SubtitleView { format: Format::SubRip, header: seq![], cues: cue::from_zero(cues) },
        ),
{
    let sub = parsed(input)->Ok_0;
    let ls = chars::lines(text::normalized(input));
    text::lemma_lines_are_lines(text::normalized(input));
    text::lemma_unix_lines_no_cr(text::without_bom(input));
    text::lemma_blocks_solid(seq![], ls);
    lemma_block_cues_writable(text::blocks(ls), 1);
    assert forall|i: int| 0 <= i < cues.len() implies {
        let c = #[trigger] cues[i];
        cue::is_payload(c.payload) && text::fits(c.start_ms) && text::fits(c.end_ms)
    } by {
        assert(cue::is_payload(sub.cues[i].payload));
    }
    law_written_cues_read_back(cues);
}

} // verus!
