//! What is written for a subtitle, cue by cue, and what is said of an error.
use vstd::prelude::*;

use crate::ass;
use crate::chars;
use crate::cue::{CueView, Format, SubtitleView};
use crate::microdvd;
use crate::srt;
use crate::text;
use crate::vtt;
use crate::wav;

verus! {

// ---------------------------------------------------------------------------
// Numbers
// ---------------------------------------------------------------------------

/// A number is written in base ten: one digit is itself, a larger number is its tenth and then
/// its last digit, so that none but zero starts with a zero.
pub proof fn law_numbers_are_decimal(n: nat, d: nat)
    requires
        d < 10,
    ensures
        chars::decimal(d) == seq![(48 + d) as char],
        n > 0 ==> chars::decimal(10 * n + d) == chars::decimal(n).push((48 + d) as char),
        n > 0 ==> chars::decimal(n)[0] != '0',
        text::field(chars::decimal(n)) == (if n <= i64::MAX {
            Some(n as int)
        } else {
            None
        }),
    decreases n,
{
    assert(chars::decimal(d) =~= seq![(48 + d) as char]);
    if n > 0 {
        let m = 10 * n + d;
        assert(m / 10 == n && m % 10 == d);
        assert(chars::decimal(m) =~= chars::decimal(n).push((48 + d) as char));
    }
    if n >= 10 {
        law_numbers_are_decimal(n / 10, n % 10);
        chars::lemma_decimal(n / 10);
        assert(chars::decimal(n)[0] == chars::decimal(n / 10)[0]);
    } else {
        assert(chars::decimal(n) =~= seq![(48 + n) as char]);
        if n > 0 {
            assert((48 + n) as char != '0');
        }
    }
    chars::lemma_decimal(n);
    let s = chars::decimal(n);
    chars::lemma_trim_digits(s);
    assert(chars::is_digit(s[0]));
}

// ---------------------------------------------------------------------------
// Cues
// ---------------------------------------------------------------------------

/// SubRip text has for each cue its number, its two times with a comma before the milliseconds and
/// an arrow between them, its payload as it is, and a blank line; nothing stands before the
/// first.
pub proof fn law_srt_writes_one_more_cue(cues: Seq<CueView>, cue: CueView)
    ensures
        srt::cues_text(seq![]) == Seq::<char>::empty(),
        srt::cues_text(cues.push(cue)) == srt::cues_text(cues) + (chars::decimal(cues.len() + 1)
            + seq!['\n'] + text::clock(cue.start_ms, ',') + seq![' ', '-', '-', '>', ' ']
            + text::clock(cue.end_ms, ',') + seq!['\n'] + cue.payload + seq!['\n', '\n']),
{
    let all = cues.push(cue);
    assert(all.drop_last() =~= cues);
    assert(all.last() == cue);
    assert(srt::cue_text(all.len() as int, cue) =~= chars::decimal(cues.len() + 1) + seq!['\n']
        + text::clock(cue.start_ms, ',') + seq![' ', '-', '-', '>', ' '] + text::clock(
        cue.end_ms,
        ',',
    ) + seq!['\n'] + cue.payload + seq!['\n', '\n']);
}

/// WebVTT text has for each cue its two times with a point before the milliseconds and an arrow
/// between them, its payload as it is, and a blank line.
pub proof fn law_vtt_writes_one_more_cue(sub: SubtitleView, cue: CueView)
    ensures
        vtt::written(SubtitleView { cues: sub.cues.push(cue), ..sub }) == vtt::written(sub) + (
        text::clock(cue.start_ms, '.') + seq![' ', '-', '-', '>', ' '] + text::clock(
            cue.end_ms,
            '.',
        ) + seq!['\n'] + cue.payload + seq!['\n', '\n']),
{
    let all = sub.cues.push(cue);
    assert(all.drop_last() =~= sub.cues);
    assert(all.last() == cue);
    assert(vtt::written(SubtitleView { cues: all, ..sub }) =~= vtt::written(sub) + (text::clock(
        cue.start_ms,
        '.',
    ) + seq![' ', '-', '-', '>', ' '] + text::clock(cue.end_ms, '.') + seq!['\n'] + cue.payload
        + seq!['\n', '\n']));
}

/// Before the cues WebVTT text has the header as it is, or the signature where there is none, and
/// a blank line; white space at the end of the header is left out.
pub proof fn law_vtt_writes_the_header_first(sub: SubtitleView)
    requires
        sub.cues.len() == 0,
    ensures
        sub.header.len() == 0 ==> vtt::written(sub) == seq!['W', 'E', 'B', 'V', 'T', 'T', '\n', '\n'],
        sub.header.len() > 0 && !chars::is_space(sub.header.last()) ==> vtt::written(sub)
            == sub.header + seq!['\n', '\n'],
        vtt::written(SubtitleView { header: sub.header + seq!['\n'], ..sub }) == vtt::written(sub),
{
    assert(vtt::cues_text(sub.cues) =~= seq![]);
    let h = sub.header;
    let longer = h + seq!['\n'];
    assert(longer.drop_last() =~= h);
    assert(chars::is_space(longer.last()));
    assert(chars::trim_end(longer) == chars::trim_end(h));
    if h.len() == 0 {
        assert(vtt::written(sub) =~= seq!['W', 'E', 'B', 'V', 'T', 'T', '\n', '\n']);
    } else if !chars::is_space(h.last()) {
        assert(vtt::written(sub) =~= h + seq!['\n', '\n']);
    }
}

/// MicroDVD text has for each cue its two frames in braces and its payload on one line, with a bar
/// for each line feed and every other character as it is; before the first stands the header, if
/// there is one, on a line of its own.
pub proof fn law_microdvd_writes_one_more_cue(
    sub: SubtitleView,
    frames: Seq<(u64, u64)>,
    cue: CueView,
    last: (u64, u64),
    shown: Seq<char>,
)
    requires
        frames.len() == sub.cues.len(),
        shown.len() == cue.payload.len(),
        forall|k: int|
            0 <= k < shown.len() ==> #[trigger] shown[k] == if cue.payload[k] == '\n' {
                '|'
            } else {
                cue.payload[k]
            },
    ensures
        microdvd::written(SubtitleView { cues: sub.cues.push(cue), ..sub }, frames.push(last))
            == microdvd::written(sub, frames) + (seq!['{'] + chars::decimal(last.0 as nat) + seq![
            '}',
            '{',
        ] + chars::decimal(last.1 as nat) + seq!['}'] + shown + seq!['\n']),
        sub.cues.len() == 0 ==> microdvd::written(sub, frames) == (if sub.header.len() == 0 {
            seq![]
        } else {
            sub.header + seq!['\n']
        }),
{
    let all = sub.cues.push(cue);
    let more = frames.push(last);
    assert(all.drop_last() =~= sub.cues);
    lemma_frames_behind(sub.cues, frames, more);
    microdvd::lemma_replaced_chars(cue.payload, '\n', '|');
    assert(chars::replaced(cue.payload, '\n', seq!['|']) =~= shown);
    let line = seq!['{'] + chars::decimal(last.0 as nat) + seq!['}', '{'] + chars::decimal(
        last.1 as nat,
    ) + seq!['}'] + shown + seq!['\n'];
    assert(microdvd::written(SubtitleView { cues: all, ..sub }, more) =~= microdvd::written(
        sub,
        frames,
    ) + line);
    if sub.cues.len() == 0 {
        assert(microdvd::cues_text(sub.cues, frames) =~= seq![]);
        assert(microdvd::written(sub, frames) =~= if sub.header.len() == 0 {
            seq![]
        } else {
            sub.header + seq!['\n']
        });
    }
}

/// Frames behind those of the cues make no difference.
proof fn lemma_frames_behind(cues: Seq<CueView>, frames: Seq<(u64, u64)>, more: Seq<(u64, u64)>)
    requires
        frames.len() >= cues.len(),
        more.len() >= frames.len(),
        forall|i: int| 0 <= i < frames.len() ==> #[trigger] more[i] == frames[i],
    ensures
        microdvd::cues_text(cues, more) == microdvd::cues_text(cues, frames),
    decreases cues.len(),
{
    if cues.len() > 0 {
        lemma_frames_behind(cues.drop_last(), frames, more);
        assert(more[cues.len() - 1] == frames[cues.len() - 1]);
    }
}

/// ASS text has the header as it is on lines of its own, and then a line for each cue: the line
/// that was read, with the times of the cue in the columns of its times and all else as it was.
pub proof fn law_ass_writes_one_more_event(
    sub: SubtitleView,
    word: Seq<char>,
    fields: Seq<Seq<char>>,
    cols: ass::ColumnsView,
    start: int,
    end: int,
)
    requires
        ass::layout(chars::lines(sub.header)) == Some(cols),
        chars::lacks(word, ':'),
        chars::are_pieces(fields, cols.count, ','),
        0 <= cols.start < fields.len(),
        0 <= cols.end < fields.len(),
        cols.start != cols.end,
    ensures
        ({
            let line = word + seq![':'] + chars::join(fields, seq![',']);
            let cue = CueView { start_ms: start, end_ms: end, payload: line };
            let out = word + seq![':'] + chars::join(
                Seq::new(
                    fields.len(),
                    |k: int|
                        if k == cols.start {
                            ass::time_text(start)
                        } else if k == cols.end {
                            ass::time_text(end)
                        } else {
                            fields[k]
                        },
                ),
                seq![','],
            );
            ass::written(SubtitleView { cues: sub.cues.push(cue), ..sub }) == ass::written(sub) + (
            out + seq!['\n'])
        }),
        sub.cues.len() == 0 ==> ass::written(sub) == sub.header + seq!['\n'],
{
    let line = word + seq![':'] + chars::join(fields, seq![',']);
    let rest = chars::join(fields, seq![',']);
    let cue = CueView { start_ms: start, end_ms: end, payload: line };
    chars::lemma_find_char_between(word, ':', rest);
    assert(line.take(word.len() as int + 1) =~= word + seq![':']);
    assert(line.skip(word.len() as int + 1) =~= rest);
    chars::lemma_splitn_join(fields, cols.count, ',');
    let times = Seq::new(
        fields.len(),
        |k: int|
            if k == cols.start {
                ass::time_text(start)
            } else if k == cols.end {
                ass::time_text(end)
            } else {
                fields[k]
            },
    );
    assert(fields.update(cols.start, ass::time_text(start)).update(cols.end, ass::time_text(end))
        =~= times);
    let all = sub.cues.push(cue);
    assert(all.drop_last() =~= sub.cues);
    assert(all.last() == cue);
    let out = word + seq![':'] + chars::join(times, seq![',']);
    assert(ass::retimed(line, Some(cols), start, end) =~= out);
    assert(ass::written(SubtitleView { cues: all, ..sub }) =~= ass::written(sub) + (out + seq!['\n']));
    if sub.cues.len() == 0 {
        assert(ass::written(sub) =~= sub.header + seq!['\n']);
    }
}

/// A subtitle is read and written by the rules of its own format.
pub proof fn law_formats_are_kept_apart(
    sub: SubtitleView,
    frames: Seq<(u64, u64)>,
    input: Seq<char>,
    declared: bool,
    times: Seq<(i64, i64)>,
)
    ensures
        sub.format == Format::SubRip ==> crate::cue::written(sub, frames) == srt::cues_text(sub.cues),
        sub.format == Format::WebVtt ==> crate::cue::written(sub, frames) == vtt::written(sub),
        sub.format == Format::MicroDvd ==> crate::cue::written(sub, frames) == microdvd::written(
            sub,
            frames,
        ),
        sub.format == Format::Ass ==> crate::cue::written(sub, frames) == ass::written(sub),
        srt::parsed(input) is Ok ==> crate::cue::parsed(Format::SubRip, input, declared, times)
            == Ok::<SubtitleView, crate::cue::ParseErrorView>(srt::parsed(input)->Ok_0),
        srt::parsed(input) is Err ==> crate::cue::parsed(Format::SubRip, input, declared, times)
            == Err::<SubtitleView, crate::cue::ParseErrorView>(
            crate::cue::ParseErrorView::Srt(srt::parsed(input)->Err_0),
        ),
        vtt::parsed(input) is Ok ==> crate::cue::parsed(Format::WebVtt, input, declared, times)
            == Ok::<SubtitleView, crate::cue::ParseErrorView>(vtt::parsed(input)->Ok_0),
        vtt::parsed(input) is Err ==> crate::cue::parsed(Format::WebVtt, input, declared, times)
            == Err::<SubtitleView, crate::cue::ParseErrorView>(
            crate::cue::ParseErrorView::Vtt(vtt::parsed(input)->Err_0),
        ),
        ass::parsed(input) is Ok ==> crate::cue::parsed(Format::Ass, input, declared, times)
            == Ok::<SubtitleView, crate::cue::ParseErrorView>(ass::parsed(input)->Ok_0),
        ass::parsed(input) is Err ==> crate::cue::parsed(Format::Ass, input, declared, times)
            == Err::<SubtitleView, crate::cue::ParseErrorView>(
            crate::cue::ParseErrorView::Ass(ass::parsed(input)->Err_0),
        ),
        crate::cue::parsed(Format::MicroDvd, input, declared, times) == Ok::<
            SubtitleView,
            crate::cue::ParseErrorView,
        >(microdvd::parsed(input, declared, times)),
{
}

// ---------------------------------------------------------------------------
// Messages
// ---------------------------------------------------------------------------

/// What is said of an error names the block, the text, the line or the chunk that it is about,
/// whichever it is.
pub proof fn law_messages_name_what_they_are_about(n: nat, s: Seq<char>)
    ensures
        srt::message(srt::SrtErrorView::MissingTiming(n as int)) == "subtitle block "@
            + chars::decimal(n) + " has no timing line"@,
        srt::message(srt::SrtErrorView::BadTimestamp(s)) == "bad SRT timestamp: "@ + chars::quoted(
            s,
        ),
        vtt::message(vtt::VttErrorView::BadTimestamp(s)) == "bad WebVTT timestamp: "@
            + chars::quoted(s),
        vtt::message(vtt::VttErrorView::MissingHeader)
            == "not a WebVTT file (missing WEBVTT signature)"@,
        ass::message(ass::AssErrorView::MissingEventsFormat)
            == "ASS file has no [Events] Format: line"@,
        ass::message(ass::AssErrorView::BadTiming(s)) == "bad ASS dialogue timing: "@
            + chars::quoted(s),
        wav::message(wav::WavErrorView::NotRiffWave) == "not a RIFF/WAVE file"@,
        wav::message(wav::WavErrorView::Truncated) == "truncated WAV file"@,
        wav::message(wav::WavErrorView::MissingChunk(s)) == "WAV is missing the "@ + chars::quoted(
            s,
        ) + " chunk"@,
        wav::message(wav::WavErrorView::Unsupported(s)) == "unsupported WAV format ("@ + s + ")"@,
        crate::cue::message(
            crate::cue::ParseErrorView::Srt(srt::SrtErrorView::BadTimestamp(s)),
        ) == "bad SRT timestamp: "@ + chars::quoted(s),
        crate::cue::message(
            crate::cue::ParseErrorView::Vtt(vtt::VttErrorView::BadTimestamp(s)),
        ) == "bad WebVTT timestamp: "@ + chars::quoted(s),
        crate::cue::message(crate::cue::ParseErrorView::Ass(ass::AssErrorView::BadTiming(s)))
            == "bad ASS dialogue timing: "@ + chars::quoted(s),
{
}

} // verus!
