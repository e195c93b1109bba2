//! The format-agnostic subtitle model.
//!
//! Synchronization is timing-only, so a subtitle is just an ordered list of cues, each
//! a time interval plus an *opaque* payload (text, styling, ...) that the engine never
//! inspects and never alters: only `start_ms`/`end_ms` move.
use vstd::prelude::*;

use crate::align;
use crate::align::{scale_time, Alignment};
use crate::ass;
use crate::ass::{AssError, AssErrorView};
use crate::chars;
use crate::chars::{is_word, to_chars};
use crate::convert;
use crate::convert::{encode, to_format};
use crate::microdvd;
use crate::srt;
use crate::srt::{SrtError, SrtErrorView};
use crate::text;
use crate::vtt;
use crate::vtt::{VttError, VttErrorView};
use crate::Span;

verus! {

/// Subtitle container formats that the library round-trips.
///
/// Re-serializing always emits the *same* format the subtitle was parsed from, so
/// styling and other payload survive untouched.
#[derive(Clone, Copy, Debug, PartialEq, Eq, Structural)]
pub enum Format {
    /// SubRip (`.srt`).
    SubRip,
    /// WebVTT (`.vtt`).
    WebVtt,
    /// MicroDVD (`.sub`), frame-based.
    MicroDvd,
    /// Advanced SubStation Alpha (`.ass`/`.ssa`).
    Ass,
}

/// The format that a file extension stands for, when the case of its letters does not count.
pub open spec fn format_of(ext: Seq<char>) -> Option<Format> {
    let e = chars::lowered(ext);
    if e == seq!['s', 'r', 't'] {
        Some(Format::SubRip)
    } else if e == seq!['v', 't', 't'] {
        Some(Format::WebVtt)
    } else if e == seq!['s', 'u', 'b'] {
        Some(Format::MicroDvd)
    } else if e == seq!['a', 's', 's'] || e == seq!['s', 's', 'a'] {
        Some(Format::Ass)
    } else {
        None
    }
}

impl Format {
    /// Match a file extension (case-insensitive, without the leading dot) to a format, or
    /// `None` if unrecognized. The single source for the mapping from extensions to formats
    /// that the front-ends share.
    pub fn from_extension(ext: &str) -> (r: Option<Format>)
        ensures
            r == format_of(ext@),
    {
        proof {
            reveal_strlit("srt");
            reveal_strlit("vtt");
            reveal_strlit("sub");
            reveal_strlit("ass");
            reveal_strlit("ssa");
            assert("srt"@ =~= seq!['s', 'r', 't']);
            assert("vtt"@ =~= seq!['v', 't', 't']);
            assert("sub"@ =~= seq!['s', 'u', 'b']);
            assert("ass"@ =~= seq!['a', 's', 's']);
            assert("ssa"@ =~= seq!['s', 's', 'a']);
        }
        let e = to_chars(ext);
        let e = e.as_slice();
        if is_word(e, "srt") {
            Some(Format::SubRip)
        } else if is_word(e, "vtt") {
            Some(Format::WebVtt)
        } else if is_word(e, "sub") {
            Some(Format::MicroDvd)
        } else if is_word(e, "ass") || is_word(e, "ssa") {
            Some(Format::Ass)
        } else {
            None
        }
    }
}

/// An error from [`Subtitle::parse`], wrapping the originating format's error.
///
/// A thin wrapper rather than a merged enum: each format keeps its own error type, and the
/// wrapper just carries whichever one occurred.
#[derive(Clone, Debug, PartialEq, Eq)]
pub enum ParseError {
    /// A SubRip (`.srt`) parse error.
    Srt(SrtError),
    /// A WebVTT (`.vtt`) parse error.
    Vtt(VttError),
    /// An ASS/SSA (`.ass`/`.ssa`) parse error.
    Ass(AssError),
}

/// A parse error as mathematical values.
pub enum ParseErrorView {
    Srt(SrtErrorView),
    Vtt(VttErrorView),
    Ass(AssErrorView),
}

impl View for ParseError {
    type V = ParseErrorView;

    open spec fn view(&self) -> ParseErrorView {
        match self {
            ParseError::Srt(e) => ParseErrorView::Srt(e@),
            ParseError::Vtt(e) => ParseErrorView::Vtt(e@),
            ParseError::Ass(e) => ParseErrorView::Ass(e@),
        }
    }
}

/// What is said of an error: what its format says of it.
pub open spec fn message(e: ParseErrorView) -> Seq<char> {
    match e {
        ParseErrorView::Srt(e) => srt::message(e),
        ParseErrorView::Vtt(e) => vtt::message(e),
        ParseErrorView::Ass(e) => ass::message(e),
    }
}

impl ParseError {
    /// What is said of the error.
    pub fn message(&self) -> (r: String)
        ensures
            r@ == message(self@),
    {
        match self {
            ParseError::Srt(e) => e.message(),
            ParseError::Vtt(e) => e.message(),
            ParseError::Ass(e) => e.message(),
        }
    }
}

impl From<SrtError> for ParseError {
    fn from(e: SrtError) -> (r: Self) {
        ParseError::Srt(e)
    }
}

impl vstd::std_specs::convert::FromSpecImpl<SrtError> for ParseError {
    open spec fn obeys_from_spec() -> bool {
        true
    }

    open spec fn from_spec(e: SrtError) -> Self {
        ParseError::Srt(e)
    }
}

impl From<VttError> for ParseError {
    fn from(e: VttError) -> (r: Self) {
        ParseError::Vtt(e)
    }
}

impl vstd::std_specs::convert::FromSpecImpl<VttError> for ParseError {
    open spec fn obeys_from_spec() -> bool {
        true
    }

    open spec fn from_spec(e: VttError) -> Self {
        ParseError::Vtt(e)
    }
}

impl From<AssError> for ParseError {
    fn from(e: AssError) -> (r: Self) {
        ParseError::Ass(e)
    }
}

impl vstd::std_specs::convert::FromSpecImpl<AssError> for ParseError {
    open spec fn obeys_from_spec() -> bool {
        true
    }

    open spec fn from_spec(e: AssError) -> Self {
        ParseError::Ass(e)
    }
}

/// A cue as mathematical values.
#[verifier::ext_equal]
pub struct CueView {
    pub start_ms: int,
    pub end_ms: int,
    pub payload: Seq<char>,
}

/// A subtitle as mathematical values.
#[verifier::ext_equal]
pub struct SubtitleView {
    pub format: Format,
    pub header: Seq<char>,
    pub cues: Seq<CueView>,
}

/// One subtitle entry: a time interval plus its original, untouched payload (the cue's
/// text/body, verbatim: the engine only moves the timing).
#[derive(Clone, Debug, PartialEq, Eq)]
pub struct Cue {
    pub start_ms: i64,
    pub end_ms: i64,
    /// The cue's original text/markup, preserved verbatim across a round-trip.
    pub payload: String,
}

impl View for Cue {
    type V = CueView;

    open spec fn view(&self) -> CueView {
        CueView {
            start_ms: self.start_ms as int,
            end_ms: self.end_ms as int,
            payload: self.payload@,
        }
    }
}

impl CueView {
    /// The cue with `delta` added to both times, each kept within 64 bits.
    pub open spec fn moved(self, delta: int) -> CueView {
        CueView {
            start_ms: crate::saturated(self.start_ms + delta),
            end_ms: crate::saturated(self.end_ms + delta),
            payload: self.payload,
        }
    }
}

impl Cue {
    /// Convenience constructor.
    pub fn new(start_ms: i64, end_ms: i64, payload: &str) -> (r: Self)
        ensures
            r@ == (CueView {
                start_ms: start_ms as int,
                end_ms: end_ms as int,
                payload: payload@,
            }),
    {
        Cue { start_ms, end_ms, payload: payload.to_owned() }
    }

    /// This cue's time interval, as seen by the alignment engine.
    pub fn span(&self) -> (r: Span)
        ensures
            r == (Span { start: self.start_ms, end: self.end_ms }),
    {
        Span::new(self.start_ms, self.end_ms)
    }

    /// The same cue again.
    pub fn copy(&self) -> (r: Cue)
        ensures
            r@ == self@,
    {
        Cue { start_ms: self.start_ms, end_ms: self.end_ms, payload: self.payload.clone() }
    }
}

/// The views of a sequence of cues.
pub open spec fn cue_views(cues: Seq<Cue>) -> Seq<CueView> {
    Seq::new(cues.len(), |i: int| cues[i]@)
}

/// Whether `p` can be the payload of a block: lines that are not blank, joined by line feeds.
pub open spec fn is_payload(p: Seq<char>) -> bool {
    exists|ls: Seq<Seq<char>>| #[trigger] text::solid(ls) && p == chars::join(ls, seq!['\n'])
}

/// Whether every cue has a payload that a block can hold, and times of 64 bits.
pub open spec fn writable(cues: Seq<CueView>) -> bool {
    forall|i: int|
        0 <= i < cues.len() ==> {
            let cue = #[trigger] cues[i];
            is_payload(cue.payload) && text::fits(cue.start_ms) && text::fits(cue.end_ms)
        }
}

/// The cues with every negative time at zero.
pub open spec fn from_zero(cues: Seq<CueView>) -> Seq<CueView> {
    Seq::new(
        cues.len(),
        |i: int|
            CueView {
                start_ms: text::clamped(cues[i].start_ms),
                end_ms: text::clamped(cues[i].end_ms),
                payload: cues[i].payload,
            },
    )
}

/// Whether the cues are as many as `of`, with the same payloads, and times of 64 bits.
pub open spec fn same_payloads(cues: Seq<CueView>, of: Seq<CueView>) -> bool {
    cues.len() == of.len() && forall|i: int|
        0 <= i < cues.len() ==> (#[trigger] cues[i]).payload == of[i].payload && text::fits(
            cues[i].start_ms,
        ) && text::fits(cues[i].end_ms)
}

/// A parsed subtitle: its source format, an opaque format preamble (e.g. the `WEBVTT`
/// block; empty for SubRip/MicroDVD), and its ordered cues.
#[derive(Clone, Debug, PartialEq, Eq)]
pub struct Subtitle {
    pub format: Format,
    pub header: String,
    pub cues: Vec<Cue>,
}

impl View for Subtitle {
    type V = SubtitleView;

    open spec fn view(&self) -> SubtitleView {
        SubtitleView { format: self.format, header: self.header@, cues: cue_views(self.cues@) }
    }
}

impl SubtitleView {
    /// The subtitle with `delta` added to the times of every cue.
    pub open spec fn moved(self, delta: int) -> SubtitleView {
        SubtitleView {
            format: self.format,
            header: self.header,
            cues: Seq::new(self.cues.len(), |i: int| self.cues[i].moved(delta)),
        }
    }

    /// The subtitle with the times of every cue scaled, and then moved by the offset of the
    /// cue if there is one.
    pub open spec fn aligned(self, a: Alignment) -> SubtitleView {
        SubtitleView {
            format: self.format,
            header: self.header,
            cues: Seq::new(
                self.cues.len(),
                |i: int|
                    {
                        let cue = self.cues[i];
                        let num = a.fps_ratio.num();
                        let den = a.fps_ratio.den();
                        CueView {
                            start_ms: align::scaled(cue.start_ms, num, den),
                            end_ms: align::scaled(cue.end_ms, num, den),
                            payload: cue.payload,
                        }.moved(
                            if i < a.offsets@.len() {
                                a.offsets@[i] as int
                            } else {
                                0
                            },
                        )
                    },
            ),
        }
    }

    /// The subtitle with one more cue, after the last one ends.
    pub open spec fn credited(self, text: Seq<char>, gap: int, duration: int) -> SubtitleView {
        let start = crate::saturated(last_end(self.cues) + gap);
        SubtitleView {
            cues: self.cues.push(
                CueView {
                    start_ms: start,
                    end_ms: crate::saturated(start + duration),
                    payload: convert::encoded(self.format, text),
                },
            ),
            ..self
        }
    }
}

/// The subtitle that text in the given format writes.
pub open spec fn parsed(
    format: Format,
    text: Seq<char>,
    declared: bool,
    times: Seq<(i64, i64)>,
) -> Result<SubtitleView, ParseErrorView> {
    match format {
        Format::SubRip => match srt::parsed(text) {
            Ok(sub) => Ok(sub),
            Err(e) => Err(ParseErrorView::Srt(e)),
        },
        Format::WebVtt => match vtt::parsed(text) {
            Ok(sub) => Ok(sub),
            Err(e) => Err(ParseErrorView::Vtt(e)),
        },
        Format::MicroDvd => Ok(microdvd::parsed(text, declared, times)),
        Format::Ass => match ass::parsed(text) {
            Ok(sub) => Ok(sub),
            Err(e) => Err(ParseErrorView::Ass(e)),
        },
    }
}

/// The text of a subtitle in its own format.
pub open spec fn written(sub: SubtitleView, frames: Seq<(u64, u64)>) -> Seq<char> {
    match sub.format {
        Format::SubRip => srt::cues_text(sub.cues),
        Format::WebVtt => vtt::written(sub),
        Format::MicroDvd => microdvd::written(sub, frames),
        Format::Ass => ass::written(sub),
    }
}

/// The latest end of the cues; zero, if there are none.
pub open spec fn last_end(cues: Seq<CueView>) -> int
    decreases cues.len(),
{
    if cues.len() == 0 {
        0
    } else {
        let before = last_end(cues.drop_last());
        if cues.len() == 1 || before < cues.last().end_ms {
            cues.last().end_ms
        } else {
            before
        }
    }
}

/// The time intervals of the cues, in order.
pub open spec fn spans_of(cues: Seq<Cue>) -> Seq<Span> {
    Seq::new(cues.len(), |i: int| Span { start: cues[i].start_ms, end: cues[i].end_ms })
}

impl Subtitle {
    /// The cues' time intervals, in order: the engine's view of the subtitle.
    pub fn spans(&self) -> (r: Vec<Span>)
        ensures
            r@ == spans_of(self.cues@),
    {
        let mut r: Vec<Span> = Vec::new();
        let mut i: usize = 0;
        while i < self.cues.len()
            invariant
                i <= self.cues@.len(),
                r@ == spans_of(self.cues@).take(i as int),
            decreases self.cues.len() - i,
        {
            r.push(self.cues[i].span());
            i += 1;
        }
        r
    }

    /// Shift every cue by `delta_ms` (negative moves earlier). This is how a global
    /// alignment result is applied back to the subtitle. Saturating arithmetic keeps
    /// pathological times within `i64` bounds.
    pub fn shift_all(&mut self, delta_ms: i64)
        ensures
            final(self)@ == old(self)@.moved(delta_ms as int),
    {
        let ghost before = self@;
        let mut i: usize = 0;
        while i < self.cues.len()
            invariant
                i <= self.cues@.len(),
                self.format == before.format,
                self.header@ == before.header,
                self.cues@.len() == before.cues.len(),
                forall|j: int|
                    0 <= j < i ==> #[trigger] self.cues@[j]@ == before.cues[j].moved(
                        delta_ms as int,
                    ),
                forall|j: int|
                    i <= j < self.cues@.len() ==> #[trigger] self.cues@[j]@ == before.cues[j],
            decreases self.cues.len() - i,
        {
            let span = self.cues[i].span().shifted(delta_ms);
            assert(self.cues@[i as int]@ == before.cues[i as int]);
            self.cues[i].start_ms = span.start;
            self.cues[i].end_ms = span.end;
            i += 1;
        }
        assert(self@ =~~= before.moved(delta_ms as int));
    }

    /// Parse `text` as the given [`Format`]. `declared` and `times` are used only by MicroDVD
    /// (see [`microdvd::parse`]); the other formats ignore them. The single source for the
    /// dispatch from formats to parsers that the front-ends share; pairs with
    /// [`Subtitle::serialize`].
    pub fn parse(format: Format, text: &str, declared: bool, times: &[(i64, i64)]) -> (r: Result<
        Subtitle,
        ParseError,
    >)
        requires
            format == Format::MicroDvd ==> {
                &&& declared ==> microdvd::leading_rate(text@) is Some
                &&& times@.len() == microdvd::cue_records(text@, declared).len()
            },
        ensures
            match r {
                Ok(sub) => parsed(format, text@, declared, times@) == Ok::<
                    SubtitleView,
                    ParseErrorView,
                >(sub@),
                Err(e) => parsed(format, text@, declared, times@) == Err::<
                    SubtitleView,
                    ParseErrorView,
                >(e@),
            },
    {
        match format {
            Format::SubRip => match srt::parse(text) {
                Ok(sub) => Ok(sub),
                Err(e) => Err(ParseError::from(e)),
            },
            Format::WebVtt => match vtt::parse(text) {
                Ok(sub) => Ok(sub),
                Err(e) => Err(ParseError::from(e)),
            },
            Format::MicroDvd => Ok(microdvd::parse(text, declared, times)),
            Format::Ass => match ass::parse(text) {
                Ok(sub) => Ok(sub),
                Err(e) => Err(ParseError::from(e)),
            },
        }
    }

    /// Serialize back to this subtitle's original [`Format`] (re-emitting the same format it
    /// was parsed from). `frames` is used only by MicroDVD, which is frame-based (see
    /// [`microdvd::serialize`]); the other formats ignore it.
    pub fn serialize(&self, frames: &[(u64, u64)]) -> (r: String)
        requires
            self.format == Format::MicroDvd ==> frames@.len() == self.cues@.len(),
        ensures
            r@ == written(self@, frames@),
    {
        match self.format {
            Format::SubRip => srt::serialize(self),
            Format::WebVtt => vtt::serialize(self),
            Format::MicroDvd => microdvd::serialize(self, frames),
            Format::Ass => ass::serialize(self),
        }
    }

    /// Serialize in the given format, converting to it first. `frames` is used only if that
    /// is MicroDVD.
    pub fn serialize_as(&self, target: Format, frames: &[(u64, u64)]) -> (r: String)
        requires
            target == Format::MicroDvd ==> frames@.len() == self.cues@.len(),
        ensures
            r@ == written(convert::converted(self@, target), frames@),
    {
        let out = to_format(self, target);
        assert(out@.cues.len() == self@.cues.len());
        out.serialize(frames)
    }

    /// Apply an [`Alignment`] in place: scale every cue by `fps_ratio`, then add its per-cue
    /// offset (saturating). Cues without a matching offset keep the scaled time. Payloads are
    /// never touched.
    pub fn apply_alignment(&mut self, alignment: &Alignment)
        ensures
            final(self)@ == old(self)@.aligned(*alignment),
    {
        let ghost before = self@;
        let mut i: usize = 0;
        while i < self.cues.len()
            invariant
                i <= self.cues@.len(),
                self.format == before.format,
                self.header@ == before.header,
                self.cues@.len() == before.cues.len(),
                forall|j: int|
                    0 <= j < i ==> #[trigger] self.cues@[j]@ == before.aligned(*alignment).cues[j],
                forall|j: int|
                    i <= j < self.cues@.len() ==> #[trigger] self.cues@[j]@ == before.cues[j],
            decreases self.cues.len() - i,
        {
            let offset: i64 = if i < alignment.offsets.len() {
                alignment.offsets[i]
            } else {
                0
            };
            assert(self.cues@[i as int]@ == before.cues[i as int]);
            let start = scale_time(self.cues[i].start_ms, alignment.fps_ratio);
            let end = scale_time(self.cues[i].end_ms, alignment.fps_ratio);
            let span = Span::new(start, end).shifted(offset);
            self.cues[i].start_ms = span.start;
            self.cues[i].end_ms = span.end;
            assert(self.cues@[i as int]@ =~= before.aligned(*alignment).cues[i as int]);
            i += 1;
        }
        assert(self@ =~~= before.aligned(*alignment));
    }

    /// Add a cue that shows `text`, `gap_ms` after the last of the cues ends and for
    /// `duration_ms` (saturating).
    pub fn append_credit(&mut self, text: &str, gap_ms: i64, duration_ms: i64)
        ensures
            final(self)@ == old(self)@.credited(text@, gap_ms as int, duration_ms as int),
    {
        let ghost before = self@;
        let mut last: i64 = 0;
        let mut i: usize = 0;
        assert(before.cues.take(0) =~= seq![]);
        while i < self.cues.len()
            invariant
                i <= self.cues@.len(),
                before == self@,
                last == last_end(before.cues.take(i as int)),
            decreases self.cues.len() - i,
        {
            let ghost next = before.cues.take(i + 1);
            proof {
                assert(next.drop_last() =~= before.cues.take(i as int));
                assert(next.last() == self.cues@[i as int]@);
            }
            if i == 0 || last < self.cues[i].end_ms {
                last = self.cues[i].end_ms;
            }
            i += 1;
        }
        assert(before.cues.take(before.cues.len() as int) =~= before.cues);
        let start_ms: i64 = crate::saturate(last as i128 + gap_ms as i128);
        let end_ms: i64 = crate::saturate(start_ms as i128 + duration_ms as i128);
        let payload = encode(self.format, text);
        self.cues.push(Cue { start_ms, end_ms, payload });
        assert(self@.cues =~= before.credited(text@, gap_ms as int, duration_ms as int).cues);
    }

    /// The same subtitle again.
    pub fn copy(&self) -> (r: Subtitle)
        ensures
            r@ == self@,
    {
        let mut cues: Vec<Cue> = Vec::new();
        let mut i: usize = 0;
        while i < self.cues.len()
            invariant
                i <= self.cues@.len(),
                cues@.len() == i,
                forall|j: int| 0 <= j < i ==> (#[trigger] cues@[j])@ == self.cues@[j]@,
            decreases self.cues.len() - i,
        {
            cues.push(self.cues[i].copy());
            i += 1;
        }
        let r = Subtitle { format: self.format, header: self.header.clone(), cues };
        assert(r@ =~~= self@);
        r
    }
}

// ---------------------------------------------------------------------------
// Laws
// ---------------------------------------------------------------------------

/// Shifting a subtitle and shifting it back leaves it as it was, unless a time left 64 bits on
/// the way.
pub proof fn law_shift_is_undone(sub: SubtitleView, delta: int)
    requires
        forall|i: int|
            0 <= i < sub.cues.len() ==> {
                let cue = #[trigger] sub.cues[i];
                &&& text::fits(cue.start_ms)
                &&& text::fits(cue.end_ms)
                &&& text::fits(cue.start_ms + delta)
                &&& text::fits(cue.end_ms + delta)
            },
    ensures
        sub.moved(delta).moved(-delta) == sub,
{
    let after = sub.moved(delta).moved(-delta);
    assert forall|i: int| 0 <= i < sub.cues.len() implies #[trigger] after.cues[i]
        == sub.cues[i] by {
        assert(text::fits(sub.cues[i].start_ms));
    }
    assert(after.cues =~= sub.cues);
}

/// The credit plays after the dialogue, not over it: every cue stays as it was, and the credit
/// starts no earlier than any of them ends.
pub proof fn law_credit_follows_the_dialogue(
    sub: SubtitleView,
    t: Seq<char>,
    gap: int,
    duration: int,
    i: int,
)
    requires
        gap >= 0,
        0 <= i < sub.cues.len(),
        text::fits(sub.cues[i].end_ms),
    ensures
        sub.credited(t, gap, duration).cues.len() == sub.cues.len() + 1,
        sub.credited(t, gap, duration).cues[i] == sub.cues[i],
        sub.credited(t, gap, duration).cues.last().start_ms >= sub.cues[i].end_ms,
{
    lemma_last_end(sub.cues, i);
}

/// No cue ends after the last end.
pub proof fn lemma_last_end(cues: Seq<CueView>, i: int)
    requires
        0 <= i < cues.len(),
    ensures
        last_end(cues) >= cues[i].end_ms,
    decreases cues.len(),
{
    if i < cues.len() - 1 {
        assert(cues.drop_last()[i] == cues[i]);
        lemma_last_end(cues.drop_last(), i);
    }
}

} // verus!
