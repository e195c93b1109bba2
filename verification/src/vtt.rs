//! WebVTT (`.vtt`) parsing and serialization.
//!
//! The format preamble (the `WEBVTT` line and any `STYLE`/`NOTE`/`REGION` blocks) is
//! preserved in [`Subtitle::header`], and each cue's text in its payload. Cues are
//! separated by blank lines (any whitespace-only line counts).
//!
//! Per-cue identifiers and cue settings (position/line/region/...) are dropped and timing
//! lines re-emitted canonically; `NOTE`/`STYLE`/`REGION` blocks appearing *between* cues
//! are folded into the preamble (so they re-emit before all cues); out-of-range timestamp
//! fields are tolerated and normalized rather than rejected.
use vstd::prelude::*;
use vstd::slice::slice_subrange;

use crate::chars;
use crate::chars::{
    find_text, first_word_of, holds_at, joined, labelled, lines_of, push_joined, quote, split_all,
    split_first, to_chars, to_text, trimmed, trimmed_end,
};
use crate::cue;
use crate::cue::{Cue, CueView, Format, Subtitle, SubtitleView};
use crate::text;
use crate::text::{blocks_of, hms_to_ms, normalize_chars, parse_field, push_clock};

verus! {

/// An error encountered while parsing WebVTT text.
#[derive(Clone, Debug, PartialEq, Eq)]
pub enum VttError {
    /// The input did not start with the required `WEBVTT` signature.
    MissingHeader,
    /// A timestamp could not be parsed.
    BadTimestamp(String),
}

/// A parse error as mathematical values.
pub enum VttErrorView {
    MissingHeader,
    BadTimestamp(Seq<char>),
}

impl View for VttError {
    type V = VttErrorView;

    open spec fn view(&self) -> VttErrorView {
        match self {
            VttError::MissingHeader => VttErrorView::MissingHeader,
            VttError::BadTimestamp(s) => VttErrorView::BadTimestamp(s@),
        }
    }
}

/// What is said of an error.
pub open spec fn message(e: VttErrorView) -> Seq<char> {
    match e {
        VttErrorView::MissingHeader => "not a WebVTT file (missing WEBVTT signature)"@,
        VttErrorView::BadTimestamp(s) => "bad WebVTT timestamp: "@ + chars::quoted(s),
    }
}

impl VttError {
    /// What is said of the error.
    pub fn message(&self) -> (r: String)
        ensures
            r@ == message(self@),
    {
        match self {
            VttError::MissingHeader => "not a WebVTT file (missing WEBVTT signature)".to_owned(),
            VttError::BadTimestamp(s) => labelled(
                "bad WebVTT timestamp: ",
                quote(s.as_str()).as_str(),
            ),
        }
    }
}

/// What the first line of a WebVTT file starts with.
pub open spec fn signature() -> Seq<char> {
    seq!['W', 'E', 'B', 'V', 'T', 'T']
}

/// The milliseconds that `HH:MM:SS.mmm` or `MM:SS.mmm` writes.
pub open spec fn timestamp(s: Seq<char>) -> Option<int> {
    match chars::split_once(s, '.') {
        None => None,
        Some((hms, millis)) => {
            let parts = chars::split(hms, ':');
            if parts.len() == 2 {
                match (text::field(parts[0]), text::field(parts[1]), text::field(millis)) {
                    (Some(m), Some(sec), Some(ms)) => text::checked_ms(0, m, sec, ms),
                    _ => None,
                }
            } else if parts.len() == 3 {
                match (
                    text::field(parts[0]),
                    text::field(parts[1]),
                    text::field(parts[2]),
                    text::field(millis),
                ) {
                    (Some(h), Some(m), Some(sec), Some(ms)) => text::checked_ms(h, m, sec, ms),
                    _ => None,
                }
            } else {
                None
            }
        },
    }
}

/// The two times of a timing line, or the text that is no timestamp.
pub open spec fn timing(line: Seq<char>) -> Result<(int, int), Seq<char>> {
    match chars::find(line, text::arrow()) {
        None => Err(line),
        Some(i) => {
            let left = chars::trim(line.take(i));
            let right = chars::first_word(line.skip(i + 3));
            match timestamp(left) {
                None => Err(left),
                Some(start) => match timestamp(right) {
                    None => Err(right),
                    Some(end) => Ok((start, end)),
                },
            }
        },
    }
}

/// The number of lines before the first one with an arrow.
pub open spec fn lines_before_timing(block: Seq<Seq<char>>) -> int
    decreases block.len(),
{
    if block.len() == 0 || chars::find(block[0], text::arrow()) is Some {
        0
    } else {
        1 + lines_before_timing(block.drop_first())
    }
}

/// Whether a block writes a cue: one of its lines holds an arrow.
pub open spec fn is_cue(block: Seq<Seq<char>>) -> bool {
    lines_before_timing(block) < block.len()
}

/// The cue that a block writes. Lines before the timing line are an identifier and are
/// dropped; the signature line has been set apart before.
pub open spec fn block_cue(block: Seq<Seq<char>>) -> Result<CueView, VttErrorView> {
    let k = lines_before_timing(block);
    match timing(block[k]) {
        Err(s) => Err(VttErrorView::BadTimestamp(s)),
        Ok((start, end)) => Ok(
            CueView {
                start_ms: start,
                end_ms: end,
                payload: chars::join(block.skip(k + 1), seq!['\n']),
            },
        ),
    }
}

/// The cues of the blocks that write one; the first bad block decides the error.
pub open spec fn block_cues(blocks: Seq<Seq<Seq<char>>>) -> Result<Seq<CueView>, VttErrorView>
    decreases blocks.len(),
{
    if blocks.len() == 0 {
        Ok(seq![])
    } else if is_cue(blocks[0]) {
        match block_cue(blocks[0]) {
            Err(e) => Err(e),
            Ok(cue) => text::prepend(seq![cue], block_cues(blocks.drop_first())),
        }
    } else {
        block_cues(blocks.drop_first())
    }
}

/// The blocks that write no cue: the `WEBVTT` line, styles, notes and regions.
pub open spec fn preamble(blocks: Seq<Seq<Seq<char>>>) -> Seq<Seq<Seq<char>>>
    decreases blocks.len(),
{
    if blocks.len() == 0 {
        seq![]
    } else if is_cue(blocks[0]) {
        preamble(blocks.drop_first())
    } else {
        seq![blocks[0]] + preamble(blocks.drop_first())
    }
}

/// The text of each block.
pub open spec fn block_lines(blocks: Seq<Seq<Seq<char>>>) -> Seq<Seq<char>> {
    Seq::new(blocks.len(), |i: int| chars::join(blocks[i], seq!['\n']))
}

/// The blocks of the preamble, with a blank line between each two.
pub open spec fn header_text(blocks: Seq<Seq<Seq<char>>>) -> Seq<char> {
    chars::join(block_lines(blocks), seq!['\n', '\n'])
}

/// The blocks with the signature line apart: where the first block also writes a cue, its first
/// line is a block of its own, so that it belongs to the preamble and not to the cue.
pub open spec fn signature_apart(blocks: Seq<Seq<Seq<char>>>) -> Seq<Seq<Seq<char>>> {
    if blocks.len() > 0 && 0 < lines_before_timing(blocks[0]) < blocks[0].len() {
        seq![blocks[0].take(1), blocks[0].skip(1)] + blocks.drop_first()
    } else {
        blocks
    }
}

/// The subtitle that WebVTT text writes.
pub open spec fn parsed(input: Seq<char>) -> Result<SubtitleView, VttErrorView> {
    let all = text::normalized(input);
    let blocks = signature_apart(text::blocks(chars::lines(all)));
    if !chars::starts_with(all, signature()) {
        Err(VttErrorView::MissingHeader)
    } else {
        match block_cues(blocks) {
            Err(e) => Err(e),
            Ok(cues) => Ok(
                SubtitleView {
                    format: Format::WebVtt,
                    header: header_text(preamble(blocks)),
                    cues,
                },
            ),
        }
    }
}

/// Parse `HH:MM:SS.mmm` or `MM:SS.mmm` into milliseconds (checked, non-negative).
pub fn parse_timestamp(s: &[char]) -> (r: Result<i64, VttError>)
    ensures
        match r {
            Ok(v) => timestamp(s@) == Some(v as int),
            Err(e) => timestamp(s@) is None && e@ == VttErrorView::BadTimestamp(s@),
        },
{
    let value = match split_first(s, '.') {
        None => None,
        Some((hms, millis)) => parse_clock(hms, millis),
    };
    match value {
        Some(v) => Ok(v),
        None => Err(VttError::BadTimestamp(to_text(s))),
    }
}

/// The milliseconds that `hms` and `millis` write together.
fn parse_clock(hms: &[char], millis: &[char]) -> (r: Option<i64>)
    ensures
        forall|s: Seq<char>|
            #[trigger] chars::split_once(s, '.') == Some((hms@, millis@)) ==> match r {
                Some(v) => timestamp(s) == Some(v as int),
                None => timestamp(s) is None,
            },
{
    let parts = split_all(hms, ':');
    let ghost all = chars::texts(parts@);
    assert(all.len() == parts@.len());
    assert(forall|i: int| 0 <= i < all.len() ==> #[trigger] all[i] == parts@[i]@);
    let ms = parse_field(millis);
    if parts.len() == 2 {
        match (parse_field(parts[0]), parse_field(parts[1]), ms) {
            (Some(m), Some(sec), Some(x)) => hms_to_ms(0, m, sec, x),
            _ => None,
        }
    } else if parts.len() == 3 {
        match (parse_field(parts[0]), parse_field(parts[1]), parse_field(parts[2]), ms) {
            (Some(h), Some(m), Some(sec), Some(x)) => hms_to_ms(h, m, sec, x),
            _ => None,
        }
    } else {
        None
    }
}

/// The two times of a timing line. The end may be followed by cue settings, which are
/// ignored.
fn parse_timing(line: &[char]) -> (r: Result<(i64, i64), VttError>)
    ensures
        match r {
            Ok((start, end)) => timing(line@) == Ok::<(int, int), Seq<char>>(
                (start as int, end as int),
            ),
            Err(e) => timing(line@) matches Err(s) && e@ == VttErrorView::BadTimestamp(s),
        },
{
    let arrow_chars: [char; 3] = ['-', '-', '>'];
    let pat = arrow_chars.as_slice();
    assert(pat@ =~= text::arrow());
    match find_text(line, pat) {
        None => Err(VttError::BadTimestamp(to_text(line))),
        Some(i) => {
            let len: usize = line.len();
            assert(pat@.len() == 3 && i + 3 <= len);
            let left = slice_subrange(line, 0, i);
            let right = slice_subrange(line, i + 3, len);
            assert(left@ =~= line@.take(i as int));
            assert(right@ =~= line@.skip(i + 3));
            let start = match parse_timestamp(trimmed(left)) {
                Ok(v) => v,
                Err(e) => return Err(e),
            };
            let end = match parse_timestamp(first_word_of(right)) {
                Ok(v) => v,
                Err(e) => return Err(e),
            };
            Ok((start, end))
        },
    }
}

/// `lines_before_timing` is the least index of a line with an arrow.
pub proof fn lemma_lines_before_timing(block: Seq<Seq<char>>, k: int)
    requires
        0 <= k <= block.len(),
        k < block.len() ==> chars::find(block[k], text::arrow()) is Some,
        forall|j: int| 0 <= j < k ==> chars::find(#[trigger] block[j], text::arrow()) is None,
    ensures
        lines_before_timing(block) == k,
    decreases block.len(),
{
    if k > 0 {
        let t = block.drop_first();
        assert(chars::find(block[0], text::arrow()) is None);
        assert forall|j: int| 0 <= j < k - 1 implies chars::find(
            #[trigger] t[j],
            text::arrow(),
        ) is None by {
            assert(chars::find(block[j + 1], text::arrow()) is None);
        }
        lemma_lines_before_timing(t, k - 1);
    }
}

/// The number of lines before the first one with an arrow.
fn find_timing(block: &Vec<&[char]>) -> (k: usize)
    ensures
        k == lines_before_timing(chars::texts(block@)),
        k <= block@.len(),
{
    let arrow_chars: [char; 3] = ['-', '-', '>'];
    let pat = arrow_chars.as_slice();
    assert(pat@ =~= text::arrow());
    let ghost all = chars::texts(block@);
    let mut k: usize = 0;
    while k < block.len()
        invariant
            k <= block@.len(),
            pat@ == text::arrow(),
            all == chars::texts(block@),
            forall|j: int| 0 <= j < k ==> chars::find(#[trigger] all[j], text::arrow()) is None,
        decreases block.len() - k,
    {
        assert(all[k as int] == block@[k as int]@);
        if find_text(block[k], pat).is_some() {
            proof {
                lemma_lines_before_timing(all, k as int);
            }
            return k;
        }
        k += 1;
    }
    proof {
        lemma_lines_before_timing(all, k as int);
    }
    k
}

/// The cue of a block whose timing line is line `k`.
fn parse_block(block: &Vec<&[char]>, k: usize) -> (r: Result<Cue, VttError>)
    requires
        k < block@.len(),
        k == lines_before_timing(chars::texts(block@)),
    ensures
        match r {
            Ok(cue) => block_cue(chars::texts(block@)) == Ok::<CueView, VttErrorView>(cue@),
            Err(e) => block_cue(chars::texts(block@)) == Err::<CueView, VttErrorView>(e@),
        },
{
    let ghost all = chars::texts(block@);
    assert(all[k as int] == block@[k as int]@);
    let (start_ms, end_ms) = match parse_timing(block[k]) {
        Ok(t) => t,
        Err(e) => return Err(e),
    };
    let len: usize = block.len();
    let rest = slice_subrange(block.as_slice(), k + 1, len);
    proof {
        reveal_strlit("\n");
        assert("\n"@ =~= seq!['\n']);
        assert(chars::texts(rest@) =~= all.skip(k + 1));
    }
    let payload = joined(rest, "\n");
    Ok(Cue { start_ms, end_ms, payload })
}

/// Append one more block to the preamble, after a blank line if it is not the first.
fn push_header_block(
    header: &mut String,
    first: bool,
    block: &Vec<&[char]>,
    Ghost(done): Ghost<Seq<Seq<Seq<char>>>>,
)
    requires
        old(header)@ == header_text(done),
        first == (done.len() == 0),
    ensures
        final(header)@ == header_text(done.push(chars::texts(block@))),
{
    let ghost before = header@;
    let ghost b = chars::texts(block@);
    if !first {
        header.append("\n\n");
    }
    push_joined(header, block.as_slice(), "\n");
    proof {
        reveal_strlit("\n");
        reveal_strlit("\n\n");
        assert("\n"@ =~= seq!['\n']);
        assert("\n\n"@ =~= seq!['\n', '\n']);
        assert(block_lines(done.push(b)) =~= block_lines(done).push(chars::join(b, seq!['\n'])));
        chars::lemma_join_push(block_lines(done), chars::join(b, seq!['\n']), seq!['\n', '\n']);
        assert(header@ =~= header_text(done.push(b)));
    }
}

/// One more block read.
proof fn lemma_step(
    bs: Seq<Seq<Seq<char>>>,
    i: int,
    done: Seq<CueView>,
    headers: Seq<Seq<Seq<char>>>,
)
    requires
        0 <= i < bs.len(),
        block_cues(bs) == text::prepend(done, block_cues(bs.skip(i))),
        preamble(bs) == headers + preamble(bs.skip(i)),
    ensures
        is_cue(bs[i]) ==> {
            &&& preamble(bs) == headers + preamble(bs.skip(i + 1))
            &&& block_cue(bs[i]) matches Ok(cue) ==> block_cues(bs) == text::prepend(
                done.push(cue),
                block_cues(bs.skip(i + 1)),
            )
            &&& block_cue(bs[i]) matches Err(e) ==> block_cues(bs) == Err::<
                Seq<CueView>,
                VttErrorView,
            >(e)
        },
        !is_cue(bs[i]) ==> {
            &&& preamble(bs) == headers.push(bs[i]) + preamble(bs.skip(i + 1))
            &&& block_cues(bs) == text::prepend(done, block_cues(bs.skip(i + 1)))
        },
{
    let rest = bs.skip(i);
    assert(rest[0] == bs[i]);
    assert(rest.drop_first() =~= bs.skip(i + 1));
    if is_cue(bs[i]) {
        if block_cue(bs[i]) is Ok {
            let cue = block_cue(bs[i])->Ok_0;
            match block_cues(bs.skip(i + 1)) {
                Ok(more) => {
                    assert(done + (seq![cue] + more) =~= done.push(cue) + more);
                },
                Err(e) => {},
            }
        }
    } else {
        assert(headers + (seq![bs[i]] + preamble(bs.skip(i + 1))) =~= headers.push(bs[i])
            + preamble(bs.skip(i + 1)));
    }
}

/// Set the signature line apart from a cue in its block.
fn part_signature<'a>(groups: Vec<Vec<&'a [char]>>) -> (r: Vec<Vec<&'a [char]>>)
    ensures
        text::block_texts(r@) == signature_apart(text::block_texts(groups@)),
{
    let ghost bs = text::block_texts(groups@);
    if groups.len() == 0 {
        return groups;
    }
    assert(bs[0] == chars::texts(groups@[0]@));
    let len: usize = groups[0].len();
    let k: usize = find_timing(&groups[0]);
    if k == 0 || k == len {
        return groups;
    }
    let mut line: Vec<&'a [char]> = Vec::new();
    line.push(groups[0][0]);
    let mut rest: Vec<&'a [char]> = Vec::new();
    let mut i: usize = 1;
    while i < len
        invariant
            1 <= i <= len,
            groups@.len() > 0,
            len == groups@[0]@.len(),
            rest@ == groups@[0]@.subrange(1, i as int),
        decreases len - i,
    {
        rest.push(groups[0][i]);
        i += 1;
        assert(rest@ =~= groups@[0]@.subrange(1, i as int));
    }
    let ghost was = groups@;
    let mut out = groups;
    out.set(0, rest);
    out.insert(0, line);
    proof {
        assert(chars::texts(line@) =~= bs[0].take(1));
        assert(chars::texts(rest@) =~= bs[0].skip(1));
        let want = signature_apart(bs);
        assert forall|j: int| 0 <= j < want.len() implies #[trigger] text::block_texts(out@)[j]
            == want[j] by {
            if j >= 2 {
                assert(out@[j] == was[j - 1]);
                assert(want[j] == bs[j - 1]);
            }
        }
        assert(text::block_texts(out@) =~= want);
    }
    out
}

/// Parse WebVTT text into a [`Subtitle`].
pub fn parse(input: &str) -> (r: Result<Subtitle, VttError>)
    ensures
        match r {
            Ok(sub) => parsed(input@) == Ok::<SubtitleView, VttErrorView>(sub@),
            Err(e) => parsed(input@) == Err::<SubtitleView, VttErrorView>(e@),
        },
{
    let all = normalize_chars(input);
    let sig_chars: [char; 6] = ['W', 'E', 'B', 'V', 'T', 'T'];
    let sig = sig_chars.as_slice();
    assert(sig@ =~= signature());
    let signed = holds_at(all.as_slice(), sig, 0);
    proof {
        let n = signature().len() as int;
        if n <= all@.len() {
            assert(all@.take(n) =~= all@.subrange(0, n));
        }
    }
    if !signed {
        return Err(VttError::MissingHeader);
    }
    let ls = lines_of(all.as_slice());
    let groups = part_signature(blocks_of(&ls));
    let mut header = String::new();
    let mut first = true;
    let mut cues: Vec<Cue> = Vec::new();
    let ghost bs = text::block_texts(groups@);
    let ghost mut headers: Seq<Seq<Seq<char>>> = seq![];
    let mut i: usize = 0;
    proof {
        assert(bs.skip(0) =~= bs);
        assert(cue::cue_views(cues@) =~= seq![]);
        match block_cues(bs) {
            Ok(more) => {
                assert(cue::cue_views(cues@) + more =~= more);
            },
            Err(e) => {},
        }
        assert(headers + preamble(bs) =~= preamble(bs));
        assert(block_lines(headers) =~= seq![]);
        assert(header_text(headers) =~= seq![]);
    }
    while i < groups.len()
        invariant
            i <= groups@.len(),
            bs == text::block_texts(groups@),
            bs == signature_apart(text::blocks(chars::lines(text::normalized(input@)))),
            chars::starts_with(text::normalized(input@), signature()),
            header@ == header_text(headers),
            first == (headers.len() == 0),
            block_cues(bs) == text::prepend(cue::cue_views(cues@), block_cues(bs.skip(i as int))),
            preamble(bs) == headers + preamble(bs.skip(i as int)),
        decreases groups.len() - i,
    {
        let ghost done = cue::cue_views(cues@);
        let block = &groups[i];
        assert(bs[i as int] == chars::texts(block@));
        proof {
            lemma_step(bs, i as int, done, headers);
        }
        let k: usize = find_timing(block);
        if k < block.len() {
            match parse_block(block, k) {
                Ok(cue) => {
                    let ghost view = cue@;
                    cues.push(cue);
                    assert(cue::cue_views(cues@) =~= done.push(view));
                },
                Err(e) => {
                    return Err(e);
                },
            }
        } else {
            push_header_block(&mut header, first, block, Ghost(headers));
            first = false;
            proof {
                headers = headers.push(bs[i as int]);
            }
        }
        i += 1;
    }
    let sub = Subtitle { format: Format::WebVtt, header, cues };
    proof {
        assert(bs.skip(i as int) =~= seq![]);
        assert(cue::cue_views(sub.cues@) + seq![] =~= cue::cue_views(sub.cues@));
        assert(headers + preamble(seq![]) =~= headers);
    }
    Ok(sub)
}

/// The lines that write one cue, each with its line feed, and a blank line.
pub open spec fn cue_text(cue: CueView) -> Seq<char> {
    text::timing_line(cue.start_ms, cue.end_ms, '.') + seq!['\n'] + cue.payload + seq!['\n', '\n']
}

/// The text of the cues.
pub open spec fn cues_text(cues: Seq<CueView>) -> Seq<char>
    decreases cues.len(),
{
    if cues.len() == 0 {
        seq![]
    } else {
        cues_text(cues.drop_last()) + cue_text(cues.last())
    }
}

/// What is written before the cues: the header without trailing white space, or the
/// signature where there is no header.
pub open spec fn preamble_text(header: Seq<char>) -> Seq<char> {
    let h = chars::trim_end(header);
    if h.len() == 0 {
        signature()
    } else {
        h
    }
}

/// The WebVTT text of a subtitle.
pub open spec fn written(sub: SubtitleView) -> Seq<char> {
    preamble_text(sub.header) + seq!['\n', '\n'] + cues_text(sub.cues)
}

/// Append the lines that write one cue.
fn push_cue(out: &mut String, cue: &Cue)
    ensures
        final(out)@ == old(out)@ + cue_text(cue@),
{
    let ghost before = out@;
    push_clock(out, cue.start_ms, '.');
    out.append(" --> ");
    push_clock(out, cue.end_ms, '.');
    out.push('\n');
    out.append(cue.payload.as_str());
    out.append("\n\n");
    proof {
        reveal_strlit(" --> ");
        reveal_strlit("\n\n");
        assert(" --> "@ =~= seq![' ', '-', '-', '>', ' ']);
        assert("\n\n"@ =~= seq!['\n', '\n']);
        assert(out@ =~= before + cue_text(cue@));
    }
}

/// Serialize a [`Subtitle`] back to canonical WebVTT text.
pub fn serialize(sub: &Subtitle) -> (r: String)
    ensures
        r@ == written(sub@),
{
    let header = to_chars(sub.header.as_str());
    let head = trimmed_end(header.as_slice());
    let mut out = String::new();
    if head.len() == 0 {
        out.append("WEBVTT");
    } else {
        chars::push_chars(&mut out, head);
    }
    out.append("\n\n");
    let ghost start = out@;
    let ghost all = sub@.cues;
    proof {
        reveal_strlit("WEBVTT");
        reveal_strlit("\n\n");
        assert("WEBVTT"@ =~= signature());
        assert("\n\n"@ =~= seq!['\n', '\n']);
        assert(start =~= preamble_text(sub@.header) + seq!['\n', '\n']);
        assert(all.take(0) =~= seq![]);
        assert(start + cues_text(all.take(0)) =~= start);
    }
    let mut i: usize = 0;
    while i < sub.cues.len()
        invariant
            i <= sub.cues@.len(),
            all == sub@.cues,
            out@ == start + cues_text(all.take(i as int)),
        decreases sub.cues.len() - i,
    {
        push_cue(&mut out, &sub.cues[i]);
        proof {
            assert(all.take(i + 1).drop_last() =~= all.take(i as int));
            assert(all.take(i + 1).last() == all[i as int]);
            assert(out@ =~= start + cues_text(all.take(i + 1)));
        }
        i += 1;
    }
    assert(all.take(all.len() as int) =~= all);
    out
}

// ---------------------------------------------------------------------------
// Round trips
// ---------------------------------------------------------------------------

/// A written timestamp reads back as its time.
proof fn lemma_timestamp(ms: int)
    requires
        text::fits(ms),
    ensures
        timestamp(text::clock(ms, '.')) == Some(text::clamped(ms)),
{
    text::lemma_clock(ms, '.');
    text::law_decompose_then_combine(text::clamped(ms));
}

/// A timestamp is not negative.
proof fn lemma_timestamp_range(s: Seq<char>)
    ensures
        timestamp(s) matches Some(v) ==> 0 <= v <= i64::MAX,
{
    if timestamp(s) is Some {
        let (hms, millis) = chars::split_once(s, '.')->0;
        let parts = chars::split(hms, ':');
        let ms = text::field(millis)->0;
        if parts.len() == 2 {
            text::lemma_checked_ms_range(0, text::field(parts[0])->0, text::field(parts[1])->0, ms);
        } else {
            text::lemma_checked_ms_range(
                text::field(parts[0])->0,
                text::field(parts[1])->0,
                text::field(parts[2])->0,
                ms,
            );
        }
    }
}

/// Whether the lines can be a block of the preamble: at least one, none blank, none with an
/// arrow.
pub open spec fn is_preamble_block(b: Seq<Seq<char>>) -> bool {
    b.len() > 0 && text::solid(b) && !is_cue(b)
}

/// Whether every block is one of a preamble.
pub open spec fn is_preamble(bs: Seq<Seq<Seq<char>>>) -> bool {
    forall|i: int| 0 <= i < bs.len() ==> is_preamble_block(#[trigger] bs[i])
}

/// A block without an arrow has no line with one.
proof fn lemma_no_arrow(b: Seq<Seq<char>>, k: int)
    requires
        !is_cue(b),
        0 <= k < b.len(),
    ensures
        chars::find(b[k], text::arrow()) is None,
    decreases k,
{
    lemma_lines_before_timing_bound(b);
    if k > 0 {
        assert(lines_before_timing(b) == 1 + lines_before_timing(b.drop_first()));
        lemma_no_arrow(b.drop_first(), k - 1);
    }
}

pub proof fn lemma_lines_before_timing_bound(b: Seq<Seq<char>>)
    ensures
        0 <= lines_before_timing(b) <= b.len(),
        lines_before_timing(b) < b.len() ==> chars::find(
            b[lines_before_timing(b)],
            text::arrow(),
        ) is Some,
    decreases b.len(),
{
    if b.len() > 0 && chars::find(b[0], text::arrow()) is None {
        lemma_lines_before_timing_bound(b.drop_first());
    }
}

/// The block with the white space at the end of its last line left out.
pub open spec fn end_trimmed(b: Seq<Seq<char>>) -> Seq<Seq<char>> {
    b.drop_last().push(chars::trim_end(b.last()))
}

/// Leaving out the white space at the end of a block leaves a block of the preamble.
proof fn lemma_end_trimmed(b: Seq<Seq<char>>)
    requires
        is_preamble_block(b),
    ensures
        is_preamble_block(end_trimmed(b)),
        chars::trim_end(chars::join(b, seq!['\n'])) == chars::join(end_trimmed(b), seq!['\n']),
        !chars::is_blank(chars::join(b, seq!['\n'])),
{
    let nl = seq!['\n'];
    let t = end_trimmed(b);
    let l = b.last();
    let before = b.drop_last();
    assert(l == b[b.len() - 1]);
    assert(!chars::is_blank(l) && text::is_line(l));
    chars::lemma_trim_end_prefix(l);
    let m = chars::trim_end(l);
    assert(before.push(l) =~= b);
    chars::lemma_join_push(before, l, nl);
    chars::lemma_join_push(before, m, nl);
    let start = if before.len() > 0 {
        chars::join(before, nl) + nl
    } else {
        Seq::<char>::empty()
    };
    assert(chars::join(b, nl) =~= start + l);
    assert(chars::join(t, nl) =~= start + m);
    chars::lemma_trim_end_behind(start, l);
    assert(!chars::is_blank(start + l)) by {
        let i = choose|i: int| 0 <= i < l.len() && !chars::is_space(#[trigger] l[i]);
        assert((start + l)[start.len() + i] == l[i]);
    }
    assert forall|j: int| 0 <= j < t.len() implies !chars::is_blank(#[trigger] t[j])
        && text::is_line(t[j]) by {
        if j < before.len() {
            assert(t[j] == b[j]);
            assert(!chars::is_blank(b[j]) && text::is_line(b[j]));
        } else {
            assert(t[j] == m);
            assert(text::is_line(m));
        }
    }
    assert forall|j: int| 0 <= j < t.len() implies chars::find(
        #[trigger] t[j],
        text::arrow(),
    ) is None by {
        lemma_no_arrow(b, j);
        if j < before.len() {
            assert(t[j] == b[j]);
        } else {
            chars::lemma_find(l, text::arrow());
            chars::lemma_find(m, text::arrow());
            if chars::find(m, text::arrow()) is Some {
                let i = chars::find(m, text::arrow())->0;
                assert(l.subrange(i, i + 3) =~= m.subrange(i, i + 3));
                assert(chars::occurs_at(l, text::arrow(), i));
            }
        }
    }
    lemma_lines_before_timing(t, t.len() as int);
}

/// The blocks with the white space at the end of the last one left out.
pub open spec fn all_end_trimmed(bs: Seq<Seq<Seq<char>>>) -> Seq<Seq<Seq<char>>> {
    bs.drop_last().push(end_trimmed(bs.last()))
}

/// Leaving out the white space at the end of the header leaves the text of a preamble.
proof fn lemma_header_trimmed(bs: Seq<Seq<Seq<char>>>)
    requires
        bs.len() > 0,
        is_preamble(bs),
    ensures
        is_preamble(all_end_trimmed(bs)),
        chars::trim_end(header_text(bs)) == header_text(all_end_trimmed(bs)),
        chars::trim_end(header_text(bs)).len() > 0,
{
    let sep = seq!['\n', '\n'];
    let b = bs.last();
    assert(b == bs[bs.len() - 1]);
    lemma_end_trimmed(b);
    let t = all_end_trimmed(bs);
    let before = block_lines(bs.drop_last());
    let x = chars::join(b, seq!['\n']);
    let y = chars::join(end_trimmed(b), seq!['\n']);
    assert(block_lines(bs) =~= before.push(x));
    assert(block_lines(t) =~= before.push(y));
    chars::lemma_join_push(before, x, sep);
    chars::lemma_join_push(before, y, sep);
    let start = if before.len() > 0 {
        chars::join(before, sep) + sep
    } else {
        Seq::<char>::empty()
    };
    assert(header_text(bs) =~= start + x);
    assert(header_text(t) =~= start + y);
    chars::lemma_trim_end_behind(start, x);
    chars::lemma_trim_end_prefix(x);
    assert forall|i: int| 0 <= i < t.len() implies is_preamble_block(#[trigger] t[i]) by {
        if i < bs.len() - 1 {
            assert(t[i] == bs[i]);
        }
    }
}

/// A block, a blank line, then the rest: the block comes first.
proof fn lemma_block_between(b: Seq<Seq<char>>, rest: Seq<char>)
    requires
        b.len() > 0,
        text::solid(b),
    ensures
        text::blocks(chars::lines(chars::join(b, seq!['\n']) + seq!['\n', '\n'] + rest)) == seq![b]
            + text::blocks(chars::lines(rest)),
{
    let nl = seq!['\n'];
    let empty = Seq::<char>::empty();
    let w = chars::join(b, nl) + seq!['\n', '\n'] + rest;
    assert forall|k: int, j: int| 0 <= k < b.len() && 0 <= j < b[k].len() implies (
    #[trigger] b[k][j]) != '\n' && b[k][j] != '\r' by {
        assert(text::is_line(b[k]));
    }
    chars::lemma_lines_of_join(b, nl + rest);
    chars::lemma_lines_between(empty, rest);
    assert(empty + nl + rest =~= nl + rest);
    assert(w =~= chars::join(b, nl) + nl + (nl + rest));
    let after = seq![empty] + chars::lines(rest);
    text::lemma_blocks_solid_run(seq![], b, after);
    assert(Seq::<Seq<char>>::empty() + b =~= b);
    assert(after.drop_first() =~= chars::lines(rest));
    assert(chars::is_blank(after[0]));
}

/// Blank lines before the rest write no block.
proof fn lemma_blank_line(rest: Seq<char>)
    ensures
        text::blocks(chars::lines(seq!['\n'] + rest)) == text::blocks(chars::lines(rest)),
{
    let nl = seq!['\n'];
    let empty = Seq::<char>::empty();
    chars::lemma_lines_between(empty, rest);
    assert(empty + nl + rest =~= nl + rest);
    let after = seq![empty] + chars::lines(rest);
    assert(after.drop_first() =~= chars::lines(rest));
    assert(chars::is_blank(after[0]));
    assert(Seq::<Seq<Seq<char>>>::empty() + text::blocks(chars::lines(rest)) =~= text::blocks(
        chars::lines(rest),
    ));
}

/// The text of a preamble, a blank line, then the rest: its blocks come first.
proof fn lemma_header_between(bs: Seq<Seq<Seq<char>>>, rest: Seq<char>)
    requires
        bs.len() > 0,
        is_preamble(bs),
    ensures
        text::blocks(chars::lines(header_text(bs) + seq!['\n', '\n'] + rest)) == bs + text::blocks(
            chars::lines(rest),
        ),
    decreases bs.len(),
{
    let sep = seq!['\n', '\n'];
    let b = bs[0];
    assert(is_preamble_block(b));
    if bs.len() == 1 {
        assert(block_lines(bs)[0] == chars::join(b, seq!['\n']));
        lemma_block_between(b, rest);
        assert(bs =~= seq![b]);
    } else {
        let more = bs.drop_first();
        assert forall|i: int| 0 <= i < more.len() implies is_preamble_block(#[trigger] more[i]) by {
            assert(is_preamble_block(bs[i + 1]));
        }
        let tail = header_text(more) + sep + rest;
        lemma_header_between(more, rest);
        lemma_block_between(b, tail);
        assert(block_lines(bs).drop_first() =~= block_lines(more));
        assert(header_text(bs) + sep + rest =~= chars::join(b, seq!['\n']) + sep + tail);
        assert(seq![b] + (more + text::blocks(chars::lines(rest))) =~= bs + text::blocks(
            chars::lines(rest),
        ));
    }
}

/// The lines that a payload is made of.
pub open spec fn payload_lines(p: Seq<char>) -> Seq<Seq<char>> {
    choose|ls: Seq<Seq<char>>| #[trigger] text::solid(ls) && p == chars::join(ls, seq!['\n'])
}

/// The lines of a block that writes a cue.
pub open spec fn cue_block(cue: CueView) -> Seq<Seq<char>> {
    seq![text::timing_line(cue.start_ms, cue.end_ms, '.')] + payload_lines(cue.payload)
}

/// The blocks that write the cues.
pub open spec fn cue_blocks(cues: Seq<CueView>) -> Seq<Seq<Seq<char>>> {
    Seq::new(cues.len(), |i: int| cue_block(cues[i]))
}

/// A written block reads back as its cue, and its text is its lines and a blank line or two.
proof fn lemma_cue_block(cue: CueView, rest: Seq<char>)
    requires
        cue::is_payload(cue.payload),
        text::fits(cue.start_ms),
        text::fits(cue.end_ms),
    ensures
        is_cue(cue_block(cue)),
        block_cue(cue_block(cue)) == Ok::<CueView, VttErrorView>(cue::from_zero(seq![cue])[0]),
        text::blocks(chars::lines(cue_text(cue) + rest)) == seq![cue_block(cue)] + text::blocks(
            chars::lines(rest),
        ),
        text::no_cr(cue_text(cue)),
{
    let nl = seq!['\n'];
    let b = cue_block(cue);
    let ls = payload_lines(cue.payload);
    let t = text::timing_line(cue.start_ms, cue.end_ms, '.');
    text::lemma_timing_line(cue.start_ms, cue.end_ms, '.');
    lemma_timestamp(cue.start_ms);
    lemma_timestamp(cue.end_ms);
    assert(b[0] == t);
    assert(b.skip(1) =~= ls);
    assert(b.drop_first() =~= ls);
    assert forall|j: int| 0 <= j < b.len() implies !chars::is_blank(#[trigger] b[j])
        && text::is_line(b[j]) by {
        if j > 0 {
            assert(b[j] == ls[j - 1]);
        }
    }
    let w = cue_text(cue) + rest;
    text::lemma_join_no_cr(ls);
    if ls.len() == 0 {
        assert(b =~= seq![t]);
        lemma_block_between(b, nl + rest);
        lemma_blank_line(rest);
        assert(w =~= chars::join(b, nl) + seq!['\n', '\n'] + (nl + rest));
    } else {
        lemma_block_between(b, rest);
        assert(chars::join(b, nl) == t + nl + cue.payload);
        assert(w =~= chars::join(b, nl) + seq!['\n', '\n'] + rest);
    }
    let c = cue_text(cue);
    assert forall|i: int| 0 <= i < c.len() implies c[i] != '\r' by {
        if i < t.len() {
            assert(c[i] == t[i]);
        } else if t.len() < i < t.len() + 1 + cue.payload.len() {
            assert(c[i] == cue.payload[i - t.len() - 1]);
        }
    }
}

/// What the text of the cues is made of.
proof fn lemma_cues_text(cues: Seq<CueView>, rest: Seq<char>)
    requires
        cue::writable(cues),
    ensures
        text::blocks(chars::lines(cues_text(cues) + rest)) == cue_blocks(cues) + text::blocks(
            chars::lines(rest),
        ),
        text::no_cr(cues_text(cues)),
    decreases cues.len(),
{
    let more = text::blocks(chars::lines(rest));
    if cues.len() == 0 {
        assert(cues_text(cues) + rest =~= rest);
        assert(cue_blocks(cues) + more =~= more);
    } else {
        let before = cues.drop_last();
        let cue = cues.last();
        assert(cue == cues[cues.len() - 1]);
        assert forall|i: int| 0 <= i < before.len() implies {
            let c = #[trigger] before[i];
            cue::is_payload(c.payload) && text::fits(c.start_ms) && text::fits(c.end_ms)
        } by {
            assert(before[i] == cues[i]);
        }
        lemma_cue_block(cue, rest);
        lemma_cues_text(before, cue_text(cue) + rest);
        assert(cues_text(cues) + rest =~= cues_text(before) + (cue_text(cue) + rest));
        assert(cue_blocks(before) + (seq![cue_block(cue)] + more) =~= cue_blocks(cues) + more);
        text::lemma_no_cr_concat(cues_text(before), cue_text(cue));
    }
}

/// Written blocks of cues read back as those cues.
proof fn lemma_cue_blocks_read(cues: Seq<CueView>)
    requires
        cue::writable(cues),
    ensures
        block_cues(cue_blocks(cues)) == Ok::<Seq<CueView>, VttErrorView>(cue::from_zero(cues)),
        preamble(cue_blocks(cues)) == Seq::<Seq<Seq<char>>>::empty(),
    decreases cues.len(),
{
    let bs = cue_blocks(cues);
    if cues.len() > 0 {
        let cue = cues[0];
        let more = cues.drop_first();
        assert forall|i: int| 0 <= i < more.len() implies {
            let c = #[trigger] more[i];
            cue::is_payload(c.payload) && text::fits(c.start_ms) && text::fits(c.end_ms)
        } by {
            assert(more[i] == cues[i + 1]);
        }
        lemma_cue_blocks_read(more);
        lemma_cue_block(cue, seq![]);
        assert(bs[0] == cue_block(cue));
        assert(bs.drop_first() =~= cue_blocks(more));
        assert(seq![cue::from_zero(seq![cue])[0]] + cue::from_zero(more) =~= cue::from_zero(cues));
    } else {
        assert(cue::from_zero(cues) =~= seq![]);
    }
}

/// A preamble before other blocks is added to theirs and writes no cue.
proof fn lemma_preamble_before(hs: Seq<Seq<Seq<char>>>, bs: Seq<Seq<Seq<char>>>)
    requires
        is_preamble(hs),
    ensures
        block_cues(hs + bs) == block_cues(bs),
        preamble(hs + bs) == hs + preamble(bs),
    decreases hs.len(),
{
    let all = hs + bs;
    if hs.len() == 0 {
        assert(all =~= bs);
        assert(hs + preamble(bs) =~= preamble(bs));
    } else {
        let more = hs.drop_first();
        assert(is_preamble_block(hs[0]));
        assert forall|i: int| 0 <= i < more.len() implies is_preamble_block(#[trigger] more[i]) by {
            assert(is_preamble_block(hs[i + 1]));
        }
        lemma_preamble_before(more, bs);
        assert(all[0] == hs[0]);
        assert(all.drop_first() =~= more + bs);
        assert(seq![hs[0]] + (more + preamble(bs)) =~= hs + preamble(bs));
    }
}

/// The text of a preamble holds no carriage return.
proof fn lemma_header_no_cr(bs: Seq<Seq<Seq<char>>>)
    requires
        is_preamble(bs),
    ensures
        text::no_cr(header_text(bs)),
    decreases bs.len(),
{
    if bs.len() > 0 {
        let sep = seq!['\n', '\n'];
        let x = chars::join(bs[0], seq!['\n']);
        assert(is_preamble_block(bs[0]));
        text::lemma_join_no_cr(bs[0]);
        assert(block_lines(bs)[0] == x);
        if bs.len() > 1 {
            let more = bs.drop_first();
            assert forall|i: int| 0 <= i < more.len() implies is_preamble_block(
                #[trigger] more[i],
            ) by {
                assert(is_preamble_block(bs[i + 1]));
            }
            lemma_header_no_cr(more);
            assert(block_lines(bs).drop_first() =~= block_lines(more));
            text::lemma_no_cr_concat(x, sep);
            text::lemma_no_cr_concat(x + sep, header_text(more));
        }
    }
}

/// Whether `h` is the text of a preamble that starts with the signature, or empty.
pub open spec fn is_header(h: Seq<char>) -> bool {
    h.len() == 0 || (chars::starts_with(h, signature()) && exists|bs: Seq<Seq<Seq<char>>>| #[trigger]
        is_preamble(bs) && h == header_text(bs))
}

/// A subtitle that WebVTT can hold survives a round trip: reading the text that is written for
/// it gives the same cues again, in the same order and with the same payloads, and the same
/// header; only a negative time is read back as zero, white space at the end of the header is
/// left out, and an empty header becomes the signature.
pub proof fn law_written_subtitle_reads_back(sub: SubtitleView)
    requires
        cue::writable(sub.cues),
        is_header(sub.header),
    ensures
        parsed(written(sub)) == Ok::<SubtitleView, VttErrorView>(
            SubtitleView {
                format: Format::WebVtt,
                header: preamble_text(sub.header),
                cues: cue::from_zero(sub.cues),
            },
        ),
{
    let sep = seq!['\n', '\n'];
    let hs = lemma_written_preamble(sub.header);
    let h = preamble_text(sub.header);
    let c = cues_text(sub.cues);
    let w = written(sub);
    lemma_cues_text(sub.cues, seq![]);
    assert(c + Seq::<char>::empty() =~= c);
    assert(chars::lines(Seq::<char>::empty()) =~= seq![]);
    assert(text::blocks(Seq::<Seq<char>>::empty()) =~= seq![]);
    assert(text::blocks(chars::lines(c)) =~= cue_blocks(sub.cues));
    lemma_header_between(hs, c);
    lemma_cue_blocks_read(sub.cues);
    lemma_preamble_before(hs, cue_blocks(sub.cues));
    assert(is_preamble_block(hs[0]));
    assert((hs + cue_blocks(sub.cues))[0] == hs[0]);
    assert(signature_apart(hs + cue_blocks(sub.cues)) == hs + cue_blocks(sub.cues));
    assert(hs + Seq::<Seq<Seq<char>>>::empty() =~= hs);
    lemma_header_no_cr(hs);
    text::lemma_no_cr_concat(h, sep);
    text::lemma_no_cr_concat(h + sep, c);
    assert(w[0] == h[0]);
    assert(h.take(6)[0] == 'W');
    assert(text::without_bom(w) == w);
    text::lemma_unix_lines_same(w);
    assert(w.take(6) =~= h.take(6));
}

/// What is written before the cues is the text of a preamble that starts with the signature.
proof fn lemma_written_preamble(h: Seq<char>) -> (hs: Seq<Seq<Seq<char>>>)
    requires
        is_header(h),
    ensures
        hs.len() > 0,
        is_preamble(hs),
        preamble_text(h) == header_text(hs),
        chars::starts_with(preamble_text(h), signature()),
{
    if h.len() == 0 {
        let sig = signature();
        let b = seq![sig];
        let hs = seq![b];
        assert(text::is_line(sig));
        assert(!chars::is_space(sig[0]));
        assert(!chars::is_blank(sig));
        assert(text::solid(b));
        chars::lemma_find(sig, text::arrow());
        if chars::find(sig, text::arrow()) is Some {
            let i = chars::find(sig, text::arrow())->0;
            assert(sig.subrange(i, i + 3)[0] == '-');
            assert(sig[i] == '-');
        }
        assert(b.drop_first() =~= seq![]);
        lemma_lines_before_timing(b, 1);
        assert(is_preamble_block(b));
        assert(block_lines(hs) =~= seq![sig]);
        assert(sig.take(6) =~= sig);
        hs
    } else {
        let bs = choose|bs: Seq<Seq<Seq<char>>>| #[trigger]
            is_preamble(bs) && h == header_text(bs);
        if bs.len() == 0 {
            assert(block_lines(bs) =~= seq![]);
        }
        lemma_header_trimmed(bs);
        let t = chars::trim_end(h);
        chars::lemma_trim_end_prefix(h);
        assert(t.len() >= 6) by {
            if t.len() < 6 {
                assert(chars::is_space(h[5]));
                assert(h.take(6)[5] == 'T');
            }
        }
        assert(t.take(6) =~= h.take(6));
        all_end_trimmed(bs)
    }
}

/// What was read can be written, and has no negative time.
proof fn lemma_read_blocks(bs: Seq<Seq<Seq<char>>>)
    requires
        forall|i: int| 0 <= i < bs.len() ==> text::solid(#[trigger] bs[i]) && bs[i].len() > 0,
    ensures
        block_cues(bs) matches Ok(cues) ==> cue::writable(cues) && cue::from_zero(cues) == cues,
        is_preamble(preamble(bs)),
    decreases bs.len(),
{
    if bs.len() == 0 {
        assert(cue::from_zero(seq![]) =~= seq![]);
    } else {
        let b = bs[0];
        let rest = bs.drop_first();
        assert(text::solid(b));
        assert forall|i: int| 0 <= i < rest.len() implies text::solid(#[trigger] rest[i])
            && rest[i].len() > 0 by {
            assert(text::solid(bs[i + 1]));
        }
        lemma_read_blocks(rest);
        let hs = preamble(bs);
        assert forall|i: int| 0 <= i < hs.len() implies is_preamble_block(#[trigger] hs[i]) by {
            if is_cue(b) {
                assert(hs[i] == preamble(rest)[i]);
            } else if i > 0 {
                assert(hs[i] == preamble(rest)[i - 1]);
            }
        }
        if is_cue(b) && block_cues(bs) is Ok {
            let cues = block_cues(bs)->Ok_0;
            let more = block_cues(rest)->Ok_0;
            let cue = block_cue(b)->Ok_0;
            let k = lines_before_timing(b);
            lemma_lines_before_timing_bound(b);
            text::lemma_solid_skip(b, k + 1);
            assert(cue::is_payload(cue.payload));
            let i = chars::find(b[k], text::arrow())->0;
            lemma_timestamp_range(chars::trim(b[k].take(i)));
            lemma_timestamp_range(chars::first_word(b[k].skip(i + 3)));
            assert forall|i: int| 0 <= i < cues.len() implies {
                let c = #[trigger] cues[i];
                cue::is_payload(c.payload) && text::fits(c.start_ms) && text::fits(c.end_ms)
                    && cue::from_zero(cues)[i] == c
            } by {
                if i > 0 {
                    assert(cues[i] == more[i - 1]);
                    assert(cue::from_zero(more)[i - 1] == more[i - 1]);
                }
            }
            assert(cue::from_zero(cues) =~= cues);
        }
    }
}

/// The first block starts with the first line, if that is not blank.
pub proof fn lemma_first_line(open_block: Seq<Seq<char>>, ls: Seq<Seq<char>>)
    requires
        open_block.len() > 0 || (ls.len() > 0 && !chars::is_blank(ls[0])),
    ensures
        ({
            let bs = text::blocks_after(open_block, ls);
            &&& bs.len() > 0
            &&& bs[0].len() > 0
            &&& bs[0][0] == if open_block.len() > 0 {
                open_block[0]
            } else {
                ls[0]
            }
        }),
    decreases ls.len(),
{
    if ls.len() > 0 && !chars::is_blank(ls[0]) {
        lemma_first_line(open_block.push(ls[0]), ls.drop_first());
    }
}

/// Text that starts with a letter is no number.
proof fn lemma_letter_is_no_field(s: Seq<char>)
    requires
        s.len() > 0,
        s[0] == 'W',
    ensures
        text::field(s) is None,
{
    chars::lemma_trim_end_prefix(s);
    assert(!chars::is_space(s[0]));
    assert(chars::trim_start(s) == s);
    let t = chars::trim(s);
    assert(t.len() > 0);
    assert(t[0] == s[0]);
    assert(!chars::is_digit(t[0]));
}

/// Text that starts with a letter is no timestamp.
proof fn lemma_letter_is_no_timestamp(s: Seq<char>)
    requires
        s.len() > 0,
        s[0] == 'W',
    ensures
        timestamp(s) is None,
{
    if chars::split_once(s, '.') is Some {
        let (hms, millis) = chars::split_once(s, '.')->0;
        chars::lemma_find_char(s, '.');
        assert(hms.len() > 0 && hms[0] == 'W');
        let parts = chars::split(hms, ':');
        let i = chars::find_char(hms, ':');
        chars::lemma_find_char(hms, ':');
        assert(i > 0);
        assert(parts[0].len() > 0 && parts[0][0] == 'W');
        lemma_letter_is_no_field(parts[0]);
    }
}

/// The signature line is no timing line.
proof fn lemma_signature_is_no_timing(line: Seq<char>)
    requires
        chars::starts_with(line, signature()),
    ensures
        timing(line) is Err,
{
    assert(line.take(6)[0] == 'W');
    if chars::find(line, text::arrow()) is Some {
        let i = chars::find(line, text::arrow())->0;
        chars::lemma_find(line, text::arrow());
        assert(line.subrange(i, i + 3)[0] == line[i]);
        assert(i > 0);
        let a = line.take(i);
        assert(a[0] == 'W');
        assert(!chars::is_space(a[0]));
        assert(chars::trim_start(a) == a);
        chars::lemma_trim_end_prefix(a);
        let left = chars::trim(a);
        assert(left.len() > 0);
        assert(left[0] == a[0]);
        lemma_letter_is_no_timestamp(left);
    }
}

/// The first line of a text that starts with the signature starts with it too.
pub proof fn lemma_signature_line(all: Seq<char>)
    requires
        chars::starts_with(all, signature()),
        text::no_cr(all),
    ensures
        chars::lines(all).len() > 0,
        chars::starts_with(chars::lines(all)[0], signature()),
        !chars::is_blank(chars::lines(all)[0]),
{
    let i = chars::find_char(all, '\n');
    chars::lemma_find_char(all, '\n');
    assert(i >= 6) by {
        if i < 6 {
            assert(all.take(6)[i] == all[i]);
        }
    }
    let l = all.take(i);
    assert(l.len() > 0 && l.last() == all[i - 1]);
    assert(chars::strip_cr(l) == l);
    if i == all.len() {
        assert(l =~= all);
    }
    assert(chars::lines(all)[0] == l);
    assert(l.take(6) =~= all.take(6));
    assert(l.take(6)[0] == 'W');
    assert(!chars::is_space(l[0]));
}

/// The lines of a header start with those of its first block.
proof fn lemma_header_start(bs: Seq<Seq<Seq<char>>>)
    requires
        bs.len() > 0,
        bs[0].len() > 0,
    ensures
        chars::starts_with(header_text(bs), bs[0][0]),
{
    let x = chars::join(bs[0], seq!['\n']);
    let l = bs[0][0];
    assert(x.take(l.len() as int) =~= l);
    assert(block_lines(bs)[0] == x);
    assert(header_text(bs).take(x.len() as int) =~= x);
    assert(header_text(bs).take(l.len() as int) =~= x.take(l.len() as int));
}

/// Setting the signature line apart leaves solid blocks, of which the first starts as before.
proof fn lemma_signature_apart(bs: Seq<Seq<Seq<char>>>)
    requires
        forall|i: int| 0 <= i < bs.len() ==> text::solid(#[trigger] bs[i]) && bs[i].len() > 0,
        bs.len() > 0,
    ensures
        ({
            let r = signature_apart(bs);
            &&& forall|i: int| 0 <= i < r.len() ==> text::solid(#[trigger] r[i]) && r[i].len() > 0
            &&& r.len() > 0
            &&& r[0][0] == bs[0][0]
            &&& is_cue(r[0]) ==> lines_before_timing(r[0]) == 0
        }),
{
    let r = signature_apart(bs);
    let b = bs[0];
    lemma_lines_before_timing_bound(b);
    assert(text::solid(b));
    let k = lines_before_timing(b);
    if 0 < k < b.len() {
        let line = b.take(1);
        assert(text::solid(line)) by {
            assert(line[0] == b[0]);
            assert(!chars::is_blank(b[0]) && text::is_line(b[0]));
        }
        text::lemma_solid_skip(b, 1);
        assert(chars::find(line[0], text::arrow()) is None);
        assert forall|j: int| 0 <= j < line.len() implies chars::find(
            #[trigger] line[j],
            text::arrow(),
        ) is None by {}
        lemma_lines_before_timing(line, 1);
        assert forall|i: int| 0 <= i < r.len() implies text::solid(#[trigger] r[i])
            && r[i].len() > 0 by {
            if i >= 2 {
                assert(r[i] == bs[i - 1]);
            }
        }
    }
}

/// What was read can be written, has no negative time, and has a preamble for its header that
/// starts with the signature line.
proof fn lemma_read_subtitle(input: Seq<char>)
    ensures
        parsed(input) matches Ok(sub) ==> {
            &&& cue::writable(sub.cues)
            &&& cue::from_zero(sub.cues) == sub.cues
            &&& is_header(sub.header)
            &&& chars::lines(text::normalized(input)).len() > 0
            &&& chars::starts_with(sub.header, chars::lines(text::normalized(input))[0])
            &&& chars::starts_with(sub.header, signature())
        },
{
    let all = text::normalized(input);
    if chars::starts_with(all, signature()) {
        let ls = chars::lines(all);
        text::lemma_lines_are_lines(all);
        text::lemma_unix_lines_no_cr(text::without_bom(input));
        text::lemma_blocks_solid(seq![], ls);
        lemma_signature_line(all);
        lemma_first_line(seq![], ls);
        let bs = text::blocks(ls);
        lemma_signature_apart(bs);
        let r = signature_apart(bs);
        lemma_read_blocks(r);
        if parsed(input) is Ok {
            if is_cue(r[0]) {
                lemma_signature_is_no_timing(r[0][0]);
                assert(block_cue(r[0]) is Err);
            }
            let hs = preamble(r);
            assert(hs[0] == r[0]);
            assert(is_preamble(hs));
            lemma_header_start(hs);
            let h = header_text(hs);
            assert(h.take(6) =~= h.take(ls[0].len() as int).take(6));
        }
    }
}

/// The `WEBVTT` line is preserved: the header of a parsed subtitle starts with the first line of
/// the text, whether or not a cue follows it without a blank line between.
pub proof fn law_signature_line_is_preserved(input: Seq<char>)
    ensures
        parsed(input) matches Ok(sub) ==> {
            &&& chars::lines(text::normalized(input)).len() > 0
            &&& chars::starts_with(sub.header, chars::lines(text::normalized(input))[0])
            &&& chars::starts_with(sub.header, signature())
        },
{
    lemma_read_subtitle(input);
}

/// Parsing the text that is written for a parsed subtitle reproduces its cues, and its header
/// without white space at its end, whatever the input was.
pub proof fn law_parse_serialize_parse(input: Seq<char>)
    ensures
        parsed(input) matches Ok(sub) ==> parsed(written(sub)) == Ok::<SubtitleView, VttErrorView>(
            SubtitleView {
                format: Format::WebVtt,
                header: chars::trim_end(sub.header),
                cues: sub.cues,
            },
        ),
{
    lemma_read_subtitle(input);
    if parsed(input) is Ok {
        let sub = parsed(input)->Ok_0;
        law_written_subtitle_reads_back(sub);
        lemma_signed_header(sub.header);
    }
}

/// A header that starts with the signature is not blank.
proof fn lemma_signed_header(h: Seq<char>)
    requires
        chars::starts_with(h, signature()),
    ensures
        preamble_text(h) == chars::trim_end(h),
{
    assert(h.take(6)[0] == 'W');
    assert(!chars::is_space(h[0]));
    chars::lemma_trim_end_prefix(h);
}

/// A parsed subtitle whose cues were re-timed in any way reads back with the new times (at
/// zero where they are negative) and with its payloads and its header untouched, but for white
/// space at the end of the header.
pub proof fn law_retimed_subtitle_reads_back(input: Seq<char>, retimed: SubtitleView)
    requires
        parsed(input) matches Ok(sub) && retimed.header == sub.header && cue::same_payloads(
            retimed.cues,
            sub.cues,
        ),
    ensures
        parsed(written(retimed)) == Ok::<SubtitleView, VttErrorView>(
            SubtitleView {
                format: Format::WebVtt,
                header: chars::trim_end(retimed.header),
                cues: cue::from_zero(retimed.cues),
            },
        ),
{
    lemma_read_subtitle(input);
    let sub = parsed(input)->Ok_0;
    assert forall|i: int| 0 <= i < retimed.cues.len() implies {
        let c = #[trigger] retimed.cues[i];
        cue::is_payload(c.payload) && text::fits(c.start_ms) && text::fits(c.end_ms)
    } by {
        assert(cue::is_payload(sub.cues[i].payload));
    }
    law_written_subtitle_reads_back(retimed);
    lemma_signed_header(retimed.header);
}

} // verus!
