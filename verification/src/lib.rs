//! Timing-only subtitle synchronization.
//!
//! The library takes already-decoded inputs (a subtitle plus a reference *activity
//! signal*, both expressed as time [`Span`]s) and warps the subtitle's timings to
//! match. It holds no audio, file or network code.
//!
//! Layers:
//! - [`cue`]: the format-agnostic subtitle model.
//! - [`srt`], [`vtt`], [`microdvd`], [`ass`]: the subtitle formats.
//! - [`clocks`]: what their timestamps mean.
//! - [`reading`]: what their text means, cue by cue.
//! - [`writing`]: what is written for a cue.
//! - [`convert`]: from one format to another.
//! - [`markup`]: what is displayed of a cue.
//! - [`align`]: the alignment engine that finds the timing correction.
//! - [`times`]: what the engine maximizes, in moments.
//! - [`retiming`]: what a correction does to each time.
//! - [`recovery`]: what the correction does to a subtitle that is late by one amount.
//! - [`vad`], [`wav`]: from decoded audio to activity spans.
//! - [`speech`]: which speech comes out of detection.
//! - [`signals`]: what the bytes of audio mean.
//! - [`opensubtitles`]: the requests to the subtitle service and what its replies mean.
//! - [`fetch`]: fetching a subtitle from it, one request at a time.
//! - [`front`]: what the front-ends share around the engine.
//! - [`text`], [`chars`]: the text primitives that the formats are made of.
use vstd::prelude::*;

pub mod chars;
pub mod text;
pub mod cue;
pub mod align;
pub mod srt;
pub mod vtt;
pub mod ass;
pub mod microdvd;
pub mod convert;
pub mod vad;
pub mod wav;
pub mod opensubtitles;
pub mod front;
pub mod recovery;
pub mod fetch;
pub mod times;
pub mod speech;
pub mod clocks;
pub mod reading;
pub mod markup;
pub mod retiming;
pub mod signals;
pub mod writing;

pub use align::{
    align_offsets, best_alignment, best_global_offset, AlignParams, Alignment, FpsRatio,
    SearchRange,
};
pub use cue::{Cue, Format, Subtitle};

verus! {

/// `n` moved to the nearest value that a 64-bit signed integer holds.
pub open spec fn saturated(n: int) -> int {
    if n < i64::MIN {
        i64::MIN as int
    } else if n > i64::MAX {
        i64::MAX as int
    } else {
        n
    }
}

/// `n` moved to the nearest value that an `i64` holds.
pub fn saturate(n: i128) -> (r: i64)
    ensures
        r == saturated(n as int),
{
    if n < i64::MIN as i128 {
        i64::MIN
    } else if n > i64::MAX as i128 {
        i64::MAX
    } else {
        n as i64
    }
}

/// A half-open time interval in integer milliseconds: `[start, end)`.
///
/// Used both for subtitle cues and for reference voice-activity spans, since the
/// alignment engine treats every input as a set of intervals.
#[derive(Clone, Copy, Debug, PartialEq, Eq)]
pub struct Span {
    pub start: i64,
    pub end: i64,
}

impl Span {
    /// The duration of the span, none if it is empty, and at most the largest `i64`.
    pub open spec fn duration(self) -> int {
        if self.end <= self.start {
            0
        } else {
            saturated(self.end - self.start)
        }
    }

    /// Whether the time `t` lies in the span.
    pub open spec fn covers(self, t: int) -> bool {
        self.start <= t < self.end
    }

    /// The part of the time that both spans cover.
    pub open spec fn common(self, other: Span) -> Span {
        Span {
            start: if self.start >= other.start {
                self.start
            } else {
                other.start
            },
            end: if self.end <= other.end {
                self.end
            } else {
                other.end
            },
        }
    }

    /// The span with `delta` added to both ends, each kept within 64 bits.
    pub open spec fn moved(self, delta: int) -> Span {
        Span {
            start: saturated(self.start + delta) as i64,
            end: saturated(self.end + delta) as i64,
        }
    }

    /// Create a span. If `end <= start` the span is considered empty.
    pub fn new(start: i64, end: i64) -> (r: Self)
        ensures
            r == (Span { start, end }),
    {
        Span { start, end }
    }

    /// Duration in milliseconds (0 if the span is empty).
    pub fn len(&self) -> (r: i64)
        ensures
            r == self.duration(),
    {
        if self.end <= self.start {
            0
        } else {
            saturate(self.end as i128 - self.start as i128)
        }
    }

    /// Whether the span covers no time.
    pub fn is_empty(&self) -> (r: bool)
        ensures
            r == (self.end <= self.start),
            r == (forall|t: int| !self.covers(t)),
    {
        assert(self.start < self.end ==> self.covers(self.start as int));
        self.end <= self.start
    }

    /// Length of the overlap between two spans, in milliseconds (0 if disjoint).
    pub fn overlap(&self, other: &Span) -> (r: i64)
        ensures
            r == self.common(*other).duration(),
    {
        let start: i64 = if self.start >= other.start {
            self.start
        } else {
            other.start
        };
        let end: i64 = if self.end <= other.end {
            self.end
        } else {
            other.end
        };
        Span { start, end }.len()
    }

    /// This span moved later by `delta` ms (earlier if `delta` is negative).
    ///
    /// Saturating arithmetic keeps pathological times within `i64` bounds instead of
    /// overflowing.
    pub fn shifted(&self, delta: i64) -> (r: Span)
        ensures
            r == self.moved(delta as int),
    {
        Span {
            start: saturate(self.start as i128 + delta as i128),
            end: saturate(self.end as i128 + delta as i128),
        }
    }
}

/// Synchronize `subtitle` to a reference activity signal (voice-activity spans, or a known-good
/// subtitle's cue spans), returning a new, re-timed subtitle.
///
/// Searches common frame-rate ratios and a per-cue offset alignment (see
/// [`align::best_alignment`]), then applies the resulting warp, leaving every cue's payload
/// untouched.
pub fn sync(subtitle: &Subtitle, reference: &[Span], params: &AlignParams) -> (r: Subtitle)
    ensures
        exists|a: Alignment| #[trigger]
            align::is_best_alignment(reference@, cue::spans_of(subtitle.cues@), *params, a) && r@
                == subtitle@.aligned(a),
        r.format == subtitle.format,
        r.header@ == subtitle.header@,
        r.cues@.len() == subtitle.cues@.len(),
        forall|i: int|
            0 <= i < r.cues@.len() ==> (#[trigger] r.cues@[i]).payload@
                == subtitle.cues@[i].payload@,
{
    let cues = subtitle.spans();
    let alignment = best_alignment(reference, cues.as_slice(), params);
    let mut out = subtitle.copy();
    out.apply_alignment(&alignment);
    proof {
        let want = subtitle@.aligned(alignment);
        assert(out@.cues.len() == want.cues.len());
        assert forall|i: int| 0 <= i < out.cues@.len() implies (#[trigger] out.cues@[i]).payload@
            == subtitle.cues@[i].payload@ by {
            assert(out@.cues[i] == out.cues@[i]@);
            assert(want.cues[i].payload == subtitle.cues@[i].payload@);
        }
    }
    out
}

/// The common part of two spans covers the times that both cover.
pub proof fn law_common_is_intersection(a: Span, b: Span, t: int)
    ensures
        a.common(b).covers(t) == (a.covers(t) && b.covers(t)),
        a.common(b).duration() == b.common(a).duration(),
        a.common(b).duration() <= a.duration(),
{
}

} // verus!
