//! Voice-activity detection: from the frames of an audio signal that hold speech to the
//! reference speech [`Span`]s that the aligner consumes.
//!
//! A detector decides for each frame of the signal whether it holds speech, from samples that
//! are not whole numbers. What follows that decision is here: runs of speech frames become
//! spans on the time line of the audio, spans with only a short gap between them are joined,
//! and short ones are dropped.
use vstd::prelude::*;

use crate::chars::{same_chars, to_chars};
use crate::Span;

verus! {

/// Which detector is used.
#[derive(Clone, Copy, Debug, PartialEq, Eq, Structural)]
pub enum Detector {
    /// The fast energy-threshold detector.
    Energy,
    /// The sharper neural detector, far more robust on audio where loudness alone mistakes the
    /// soundtrack for speech.
    Earshot,
}

/// The detector that a name selects: `"energy"` the energy-threshold one, any other the neural
/// one.
pub fn detector_named(name: &str) -> (r: Detector)
    ensures
        r == if name@ == seq!['e', 'n', 'e', 'r', 'g', 'y'] {
            Detector::Energy
        } else {
            Detector::Earshot
        },
{
    proof {
        reveal_strlit("energy");
        assert("energy"@ =~= seq!['e', 'n', 'e', 'r', 'g', 'y']);
    }
    let n = to_chars(name);
    let energy = to_chars("energy");
    if same_chars(n.as_slice(), energy.as_slice()) {
        Detector::Energy
    } else {
        Detector::Earshot
    }
}

/// The spans that are kept of those that a detector finds.
#[derive(Clone, Copy, Debug, PartialEq, Eq)]
pub struct Smoothing {
    /// Discard detected spans shorter than this, in milliseconds.
    pub min_speech_ms: i64,
    /// Bridge speech spans separated by a gap no larger than this, in milliseconds.
    pub merge_gap_ms: i64,
}

impl Default for Smoothing {
    fn default() -> (r: Self)
        ensures
            r.min_speech_ms == 100,
            r.merge_gap_ms == 200,
    {
        Smoothing { min_speech_ms: 100, merge_gap_ms: 200 }
    }
}

// ---------------------------------------------------------------------------
// Runs
// ---------------------------------------------------------------------------

/// The first frame from `i` on that holds no speech; the number of frames if there is none.
pub open spec fn run_end(speech: Seq<bool>, i: int) -> int
    decreases speech.len() - i,
{
    if i < 0 || i >= speech.len() || !speech[i] {
        i
    } else {
        run_end(speech, i + 1)
    }
}

/// The maximal runs of speech frames from frame `i` on, each from its first frame to the one
/// behind its last.
pub open spec fn runs_from(speech: Seq<bool>, i: int) -> Seq<(int, int)>
    decreases speech.len() - i,
{
    if i < 0 || i >= speech.len() {
        seq![]
    } else if !speech[i] {
        runs_from(speech, i + 1)
    } else {
        proof {
            lemma_run_end(speech, i);
        }
        seq![(i, run_end(speech, i))] + runs_from(speech, run_end(speech, i))
    }
}

/// The maximal runs of speech frames.
pub open spec fn runs(speech: Seq<bool>) -> Seq<(int, int)> {
    runs_from(speech, 0)
}

/// A run holds speech frames and nothing else, and ends at a frame without speech or at the end.
pub proof fn lemma_run_end(speech: Seq<bool>, i: int)
    requires
        0 <= i <= speech.len(),
    ensures
        i <= run_end(speech, i) <= speech.len(),
        i < speech.len() && speech[i] ==> i < run_end(speech, i),
        forall|k: int| i <= k < run_end(speech, i) ==> speech[k],
        run_end(speech, i) < speech.len() ==> !speech[run_end(speech, i)],
    decreases speech.len() - i,
{
    if i < speech.len() && speech[i] {
        lemma_run_end(speech, i + 1);
    }
}

/// `e` is the end of the run that starts at `i`.
proof fn lemma_run_end_is(speech: Seq<bool>, i: int, e: int)
    requires
        0 <= i <= e <= speech.len(),
        forall|k: int| i <= k < e ==> speech[k],
        e < speech.len() ==> !speech[e],
    ensures
        run_end(speech, i) == e,
    decreases e - i,
{
    if i < e {
        lemma_run_end_is(speech, i + 1, e);
    }
}

/// Whether frame `k` is in one of the runs.
pub open spec fn in_run(rs: Seq<(int, int)>, k: int) -> bool {
    exists|r: int| 0 <= r < rs.len() && (#[trigger] rs[r]).0 <= k < rs[r].1
}

/// The runs hold all speech frames and nothing else, in order, with at least one other frame
/// between each two.
pub proof fn law_runs_are_the_speech(speech: Seq<bool>)
    ensures
        forall|k: int| 0 <= k < speech.len() ==> #[trigger] in_run(runs(speech), k) == speech[k],
        forall|r: int| #![trigger runs(speech)[r]]
            0 <= r < runs(speech).len() ==> 0 <= runs(speech)[r].0 < runs(speech)[r].1
                <= speech.len(),
        forall|r: int, q: int|
            0 <= r < q < runs(speech).len() ==> (#[trigger] runs(speech)[r]).1 < (
            #[trigger] runs(speech)[q]).0,
{
    lemma_runs(speech, 0);
}

proof fn lemma_runs(speech: Seq<bool>, i: int)
    requires
        0 <= i <= speech.len(),
        i > 0 && i < speech.len() && speech[i] ==> !speech[i - 1],
    ensures
        forall|k: int| i <= k < speech.len() ==> #[trigger] in_run(runs_from(speech, i), k)
            == speech[k],
        forall|r: int| #![trigger runs_from(speech, i)[r]]
            0 <= r < runs_from(speech, i).len() ==> i <= runs_from(speech, i)[r].0
                < runs_from(speech, i)[r].1 <= speech.len() && (i < speech.len() && !speech[i]
                ==> i < runs_from(speech, i)[r].0),
        forall|r: int, q: int|
            0 <= r < q < runs_from(speech, i).len() ==> (#[trigger] runs_from(speech, i)[r]).1 < (
            #[trigger] runs_from(speech, i)[q]).0,
    decreases speech.len() - i,
{
    let rs = runs_from(speech, i);
    if i < speech.len() {
        if !speech[i] {
            lemma_runs(speech, i + 1);
            let more = runs_from(speech, i + 1);
            assert forall|k: int| i <= k < speech.len() implies #[trigger] in_run(rs, k)
                == speech[k] by {
                if k == i && in_run(rs, k) {
                    let r = choose|r: int| 0 <= r < rs.len() && (#[trigger] rs[r]).0 <= k < rs[r].1;
                    assert(more[r].0 >= i + 1);
                }
            }
        } else {
            lemma_run_end(speech, i);
            let e = run_end(speech, i);
            lemma_runs(speech, e);
            let more = runs_from(speech, e);
            assert forall|r: int| 0 <= r < rs.len() implies i <= (#[trigger] rs[r]).0 < rs[r].1
                <= speech.len() by {
                if r > 0 {
                    assert(rs[r] == more[r - 1]);
                }
            }
            assert forall|r: int, q: int| 0 <= r < q < rs.len() implies (#[trigger] rs[r]).1 < (
            #[trigger] rs[q]).0 by {
                assert(rs[q] == more[q - 1]);
                if r > 0 {
                    assert(rs[r] == more[r - 1]);
                }
            }
            assert forall|k: int| i <= k < speech.len() implies #[trigger] in_run(rs, k)
                == speech[k] by {
                if k < e {
                    assert(rs[0].0 <= k < rs[0].1);
                } else {
                    assert(in_run(more, k) == speech[k]);
                    if in_run(more, k) {
                        let r = choose|r: int|
                            0 <= r < more.len() && (#[trigger] more[r]).0 <= k < more[r].1;
                        assert(rs[r + 1].0 <= k < rs[r + 1].1);
                    }
                    if in_run(rs, k) {
                        let r = choose|r: int|
                            0 <= r < rs.len() && (#[trigger] rs[r]).0 <= k < rs[r].1;
                        assert(r > 0);
                        assert(more[r - 1].0 <= k < more[r - 1].1);
                    }
                }
            }
        }
    }
}

/// The maximal runs of speech frames.
fn find_runs(speech: &[bool]) -> (r: Vec<(usize, usize)>)
    ensures
        r@.len() == runs(speech@).len(),
        forall|k: int|
            0 <= k < r@.len() ==> (#[trigger] r@[k]).0 == runs(speech@)[k].0 && r@[k].1
                == runs(speech@)[k].1,
        forall|k: int| 0 <= k < r@.len() ==> (#[trigger] r@[k]).0 < r@[k].1 <= speech@.len(),
{
    let mut out: Vec<(usize, usize)> = Vec::new();
    let ghost all = runs(speech@);
    let mut i: usize = 0;
    assert(all.skip(0) =~= all);
    while i < speech.len()
        invariant
            i <= speech@.len(),
            all == runs(speech@),
            out@.len() <= all.len(),
            all.skip(out@.len() as int) == runs_from(speech@, i as int),
            forall|k: int|
                0 <= k < out@.len() ==> (#[trigger] out@[k]).0 == all[k].0 && out@[k].1
                    == all[k].1,
            forall|k: int|
                0 <= k < out@.len() ==> (#[trigger] out@[k]).0 < out@[k].1 <= speech@.len(),
        decreases speech.len() - i,
    {
        if speech[i] {
            let start: usize = i;
            while i < speech.len() && speech[i]
                invariant
                    start <= i <= speech@.len(),
                    forall|k: int| start <= k < i ==> speech@[k],
                decreases speech.len() - i,
            {
                i += 1;
            }
            let ghost n = out@.len() as int;
            proof {
                lemma_run_end_is(speech@, start as int, i as int);
                lemma_run_end(speech@, start as int);
                let rest = all.skip(n);
                assert(rest == seq![(start as int, i as int)] + runs_from(speech@, i as int));
                assert(rest[0] == all[n]);
                assert(all.skip(n + 1) =~= rest.skip(1));
                assert(rest.skip(1) =~= runs_from(speech@, i as int));
            }
            out.push((start, i));
        } else {
            i += 1;
        }
    }
    proof {
        assert(all.skip(out@.len() as int).len() == 0);
    }
    out
}

// ---------------------------------------------------------------------------
// Joining and dropping spans
// ---------------------------------------------------------------------------

/// The spans with each that comes no more than `gap` after the end of what was read before
/// joined to it.
pub open spec fn bridged(spans: Seq<Span>, gap: int) -> Seq<Span>
    decreases spans.len(),
{
    if spans.len() == 0 {
        seq![]
    } else {
        let before = bridged(spans.drop_last(), gap);
        let s = spans.last();
        if before.len() > 0 && crate::saturated(s.start - before.last().end) <= gap {
            before.update(
                before.len() - 1,
                Span {
                    start: before.last().start,
                    end: if before.last().end >= s.end {
                        before.last().end
                    } else {
                        s.end
                    },
                },
            )
        } else {
            before.push(s)
        }
    }
}

/// The spans that last at least `min`, in order.
pub open spec fn long_enough(spans: Seq<Span>, min: int) -> Seq<Span> {
    spans.filter(|s: Span| s.duration() >= min)
}

/// Merge ordered spans separated by a gap no larger than `merge_gap_ms`, then drop any shorter
/// than `min_speech_ms`.
pub fn merge_and_filter(spans: &[Span], merge_gap_ms: i64, min_speech_ms: i64) -> (r: Vec<Span>)
    ensures
        r@ == long_enough(bridged(spans@, merge_gap_ms as int), min_speech_ms as int),
{
    let mut joined: Vec<Span> = Vec::new();
    let mut i: usize = 0;
    assert(spans@.take(0) =~= seq![]);
    while i < spans.len()
        invariant
            i <= spans@.len(),
            joined@ == bridged(spans@.take(i as int), merge_gap_ms as int),
        decreases spans.len() - i,
    {
        let span = spans[i];
        let n: usize = joined.len();
        let ghost next = spans@.take(i + 1);
        proof {
            assert(next.drop_last() =~= spans@.take(i as int));
            assert(next.last() == span);
        }
        if n > 0 && crate::saturate(span.start as i128 - joined[n - 1].end as i128) <= merge_gap_ms
        {
            let last = joined[n - 1];
            let end: i64 = if last.end >= span.end {
                last.end
            } else {
                span.end
            };
            joined.set(n - 1, Span { start: last.start, end });
        } else {
            joined.push(span);
        }
        i += 1;
    }
    assert(spans@.take(spans@.len() as int) =~= spans@);
    let ghost keep = |s: Span| s.duration() >= min_speech_ms;
    let mut out: Vec<Span> = Vec::new();
    let mut k: usize = 0;
    proof {
        reveal(Seq::filter);
        assert(joined@.take(0).filter(keep) =~= seq![]);
    }
    while k < joined.len()
        invariant
            k <= joined@.len(),
            keep == (|s: Span| s.duration() >= min_speech_ms),
            out@ == joined@.take(k as int).filter(keep),
        decreases joined.len() - k,
    {
        let ghost next = joined@.take(k + 1);
        proof {
            reveal(Seq::filter);
            assert(next.drop_last() =~= joined@.take(k as int));
            assert(next.last() == joined@[k as int]);
        }
        if joined[k].len() >= min_speech_ms {
            out.push(joined[k]);
        }
        k += 1;
    }
    proof {
        assert(joined@.take(joined@.len() as int) =~= joined@);
        assert(keep =~= (|s: Span| s.duration() >= min_speech_ms as int));
    }
    out
}

/// Spans in order that do not overlap are still so when they are joined, with more than `gap`
/// between each two.
pub proof fn law_bridged_spans_are_apart(spans: Seq<Span>, gap: int)
    requires
        0 <= gap < i64::MAX,
        forall|i: int| 0 <= i < spans.len() ==> (#[trigger] spans[i]).start <= spans[i].end,
        forall|i: int, j: int|
            0 <= i < j < spans.len() ==> (#[trigger] spans[i]).end <= (#[trigger] spans[j]).start,
    ensures
        forall|i: int|
            0 <= i < bridged(spans, gap).len() ==> (#[trigger] bridged(spans, gap)[i]).start
                <= bridged(spans, gap)[i].end,
        forall|i: int, j: int|
            0 <= i < j < bridged(spans, gap).len() ==> (#[trigger] bridged(spans, gap)[i]).end + gap
                < (#[trigger] bridged(spans, gap)[j]).start,
        spans.len() > 0 ==> bridged(spans, gap).len() > 0 && bridged(spans, gap).last().end
            == spans.last().end,
    decreases spans.len(),
{
    if spans.len() > 0 {
        let before = spans.drop_last();
        let s = spans.last();
        assert(s == spans[spans.len() - 1]);
        assert forall|i: int| 0 <= i < before.len() implies (#[trigger] before[i]).start
            <= before[i].end by {
            assert(before[i] == spans[i]);
        }
        assert forall|i: int, j: int| 0 <= i < j < before.len() implies (#[trigger] before[i]).end
            <= (#[trigger] before[j]).start by {
            assert(before[i] == spans[i] && before[j] == spans[j]);
        }
        law_bridged_spans_are_apart(before, gap);
        let b = bridged(before, gap);
        let r = bridged(spans, gap);
        if before.len() > 0 {
            assert(before.last() == spans[spans.len() - 2]);
            assert(before.last().end <= s.start);
        }
        let n = b.len();
        if n > 0 {
            assert(b.last() == b[n - 1]);
            assert(b[n - 1].start <= b[n - 1].end);
        }
        assert forall|i: int, j: int| 0 <= i < j < r.len() implies (#[trigger] r[i]).end + gap < (
        #[trigger] r[j]).start by {
            if r.len() == n {
                assert(b[i].end + gap < b[j].start);
            } else if j == n {
                assert(r[i] == b[i]);
                if i < n - 1 {
                    assert(b[i].end + gap < b[n - 1].start);
                }
            } else {
                assert(r[i] == b[i] && r[j] == b[j]);
            }
        }
    }
}

/// Every span that is kept lasts long enough.
pub proof fn law_kept_spans_last(spans: Seq<Span>, min: int)
    ensures
        forall|i: int|
            0 <= i < long_enough(spans, min).len() ==> (#[trigger] long_enough(
                spans,
                min,
            )[i]).duration() >= min,
{
    let keep = |s: Span| s.duration() >= min;
    assert forall|i: int| 0 <= i < long_enough(spans, min).len() implies (#[trigger] long_enough(
        spans,
        min,
    )[i]).duration() >= min by {
        spans.lemma_filter_pred(keep, i);
    }
}

/// Spans with more than `gap` between each two.
pub open spec fn are_apart(spans: Seq<Span>, gap: int) -> bool {
    &&& forall|i: int| 0 <= i < spans.len() ==> (#[trigger] spans[i]).start <= spans[i].end
    &&& forall|i: int, j: int|
        0 <= i < j < spans.len() ==> (#[trigger] spans[i]).end + gap < (#[trigger] spans[j]).start
}

/// Spans in order that do not overlap have more than `gap` between each two once they are merged
/// and the short ones are dropped.
pub proof fn law_merged_and_filtered_spans_are_apart(spans: Seq<Span>, gap: int, min: int)
    requires
        0 <= gap < i64::MAX,
        forall|i: int| 0 <= i < spans.len() ==> (#[trigger] spans[i]).start <= spans[i].end,
        forall|i: int, j: int|
            0 <= i < j < spans.len() ==> (#[trigger] spans[i]).end <= (#[trigger] spans[j]).start,
    ensures
        are_apart(long_enough(bridged(spans, gap), min), gap),
{
    law_bridged_spans_are_apart(spans, gap);
    lemma_filtered_apart(bridged(spans, gap), |s: Span| s.duration() >= min, gap);
}

/// Leaving spans out keeps them apart.
proof fn lemma_filtered_apart(spans: Seq<Span>, keep: spec_fn(Span) -> bool, gap: int)
    requires
        are_apart(spans, gap),
        gap >= 0,
    ensures
        are_apart(spans.filter(keep), gap),
        spans.len() > 0 ==> forall|i: int|
            0 <= i < spans.filter(keep).len() ==> (#[trigger] spans.filter(keep)[i]).end
                <= spans.last().end,
    decreases spans.len(),
{
    reveal(Seq::filter);
    if spans.len() > 0 {
        let before = spans.drop_last();
        let s = spans.last();
        assert(s == spans[spans.len() - 1]);
        assert(are_apart(before, gap)) by {
            assert forall|i: int| 0 <= i < before.len() implies (#[trigger] before[i]).start
                <= before[i].end by {
                assert(before[i] == spans[i]);
            }
            assert forall|i: int, j: int| 0 <= i < j < before.len() implies (
            #[trigger] before[i]).end + gap < (#[trigger] before[j]).start by {
                assert(before[i] == spans[i] && before[j] == spans[j]);
            }
        }
        lemma_filtered_apart(before, keep, gap);
        let b = before.filter(keep);
        let r = spans.filter(keep);
        if before.len() > 0 {
            assert(before.last() == spans[spans.len() - 2]);
            assert(before.last().end + gap < s.start);
        }
        assert forall|i: int| 0 <= i < r.len() implies (#[trigger] r[i]).start <= r[i].end
            && r[i].end <= s.end by {
            if i < b.len() {
                assert(r[i] == b[i]);
            }
        }
        assert forall|i: int, j: int| 0 <= i < j < r.len() implies (#[trigger] r[i]).end + gap < (
        #[trigger] r[j]).start by {
            assert(r[i] == b[i]);
            if j < b.len() {
                assert(r[j] == b[j]);
            }
        }
    }
}

// ---------------------------------------------------------------------------
// The energy-threshold detector
// ---------------------------------------------------------------------------

/// The number of samples in a frame of `frame_ms` milliseconds, at least one.
pub open spec fn samples_per_frame(frame_ms: int, sample_rate: int) -> int {
    let n = crate::saturated(frame_ms * sample_rate) / 1000;
    if n < 1 {
        1
    } else {
        n
    }
}

/// The time of the start of a frame, by the position of its first sample and no later than the
/// end of the audio.
pub open spec fn frame_time(frame: int, frame_len: int, total: int, sample_rate: int) -> int {
    let position = crate::saturated(frame * frame_len);
    let sample = if position <= total {
        position
    } else {
        total
    };
    crate::saturated(sample * 1000) / sample_rate
}

/// The speech spans of a signal, given which of its frames hold speech.
pub open spec fn energy_speech(
    speech: Seq<bool>,
    frame_len: int,
    total: int,
    sample_rate: int,
    smoothing: Smoothing,
) -> Seq<Span> {
    let rs = runs(speech);
    let found = Seq::new(
        rs.len(),
        |i: int|
            Span {
                start: frame_time(rs[i].0, frame_len, total, sample_rate) as i64,
                end: frame_time(rs[i].1, frame_len, total, sample_rate) as i64,
            },
    );
    long_enough(
        bridged(found, smoothing.merge_gap_ms as int),
        smoothing.min_speech_ms as int,
    )
}

/// The number of samples in an analysis frame of `frame_ms` milliseconds, at least one.
pub fn frame_len(frame_ms: u32, sample_rate: u32) -> (r: i64)
    ensures
        r == samples_per_frame(frame_ms as int, sample_rate as int),
        r >= 1,
{
    assert(0 <= frame_ms * sample_rate <= 0x1_0000_0000 * 0x1_0000_0000) by (nonlinear_arith);
    let product: i64 = crate::saturate(frame_ms as i128 * sample_rate as i128);
    let n: i64 = product / 1000;
    if n < 1 {
        1
    } else {
        n
    }
}

/// Map a frame index to milliseconds via its sample position (drift-free, and clamped to the
/// real duration so the last partial frame can't run past the end of the audio).
fn frame_to_ms(frame: usize, frame_len: i64, total: i64, sample_rate: u32) -> (r: i64)
    requires
        frame_len >= 1,
        total >= 0,
        sample_rate > 0,
    ensures
        r == frame_time(frame as int, frame_len as int, total as int, sample_rate as int),
        0 <= r,
{
    assert(0 <= frame * frame_len <= 0xffff_ffff_ffff_ffff * 0x7fff_ffff_ffff_ffff)
        by (nonlinear_arith)
        requires
            0 <= frame <= 0xffff_ffff_ffff_ffff,
            1 <= frame_len <= 0x7fff_ffff_ffff_ffff,
    ;
    let position: i64 = crate::saturate(frame as i128 * frame_len as i128);
    let sample: i64 = if position <= total {
        position
    } else {
        total
    };
    let thousandths: i64 = crate::saturate(sample as i128 * 1000);
    thousandths / sample_rate as i64
}

/// The speech spans of a signal of `total` samples, given which of its frames of `frame_len`
/// samples hold speech.
pub fn energy_spans(
    speech: &[bool],
    frame_len: i64,
    total: i64,
    sample_rate: u32,
    smoothing: Smoothing,
) -> (r: Vec<Span>)
    requires
        frame_len >= 1,
        total >= 0,
        sample_rate > 0,
    ensures
        r@ == energy_speech(
            speech@,
            frame_len as int,
            total as int,
            sample_rate as int,
            smoothing,
        ),
{
    let rs = find_runs(speech);
    let ghost all = runs(speech@);
    let mut found: Vec<Span> = Vec::new();
    let mut i: usize = 0;
    while i < rs.len()
        invariant
            i <= rs@.len(),
            frame_len >= 1,
            total >= 0,
            sample_rate > 0,
            all == runs(speech@),
            rs@.len() == all.len(),
            forall|k: int|
                0 <= k < rs@.len() ==> (#[trigger] rs@[k]).0 == all[k].0 && rs@[k].1 == all[k].1,
            found@.len() == i,
            forall|k: int|
                0 <= k < i ==> (#[trigger] found@[k]).start == frame_time(
                    all[k].0,
                    frame_len as int,
                    total as int,
                    sample_rate as int,
                ) && found@[k].end == frame_time(
                    all[k].1,
                    frame_len as int,
                    total as int,
                    sample_rate as int,
                ),
        decreases rs.len() - i,
    {
        let (start, end) = rs[i];
        assert(rs@[i as int].0 == all[i as int].0);
        let span = Span::new(
            frame_to_ms(start, frame_len, total, sample_rate),
            frame_to_ms(end, frame_len, total, sample_rate),
        );
        found.push(span);
        i += 1;
    }
    proof {
        let want = Seq::new(
            all.len(),
            |i: int|
                Span {
                    start: frame_time(
                        all[i].0,
                        frame_len as int,
                        total as int,
                        sample_rate as int,
                    ) as i64,
                    end: frame_time(
                        all[i].1,
                        frame_len as int,
                        total as int,
                        sample_rate as int,
                    ) as i64,
                },
        );
        assert(found@ =~= want);
    }
    merge_and_filter(found.as_slice(), smoothing.merge_gap_ms, smoothing.min_speech_ms)
}

// ---------------------------------------------------------------------------
// The neural detector
// ---------------------------------------------------------------------------

/// The number of samples in a frame of the neural detector, which runs at 16 kHz.
pub const NEURAL_FRAME: usize = 256;

/// The speech spans of `total` samples at 16 kHz, given which of its whole frames of 16 ms hold
/// speech: frame `i` spans from `i * 16` ms on, and a run that is still open at the end lasts
/// to the true end of the audio.
pub open spec fn neural_speech(speech: Seq<bool>, total: int, smoothing: Smoothing) -> Seq<Span> {
    let rs = runs(speech);
    let found = Seq::new(
        rs.len(),
        |i: int|
            Span {
                start: (rs[i].0 * 16) as i64,
                end: if rs[i].1 == speech.len() {
                    (total * 1000 / 16_000) as i64
                } else {
                    (rs[i].1 * 16) as i64
                },
            },
    );
    long_enough(
        bridged(found, smoothing.merge_gap_ms as int),
        smoothing.min_speech_ms as int,
    )
}

/// The speech spans of `total` samples at 16 kHz, given which of its whole frames hold speech.
pub fn neural_spans(speech: &[bool], total: usize, smoothing: Smoothing) -> (r: Vec<Span>)
    requires
        speech@.len() == total / NEURAL_FRAME,
    ensures
        r@ == neural_speech(speech@, total as int, smoothing),
{
    let rs = find_runs(speech);
    let ghost all = runs(speech@);
    let end_ms: i64 = (total as u128 * 1000 / 16_000) as i64;
    let mut found: Vec<Span> = Vec::new();
    let mut i: usize = 0;
    while i < rs.len()
        invariant
            i <= rs@.len(),
            speech@.len() == total / NEURAL_FRAME,
            all == runs(speech@),
            end_ms == total * 1000 / 16_000,
            rs@.len() == all.len(),
            forall|k: int|
                0 <= k < rs@.len() ==> (#[trigger] rs@[k]).0 == all[k].0 && rs@[k].1 == all[k].1,
            forall|k: int|
                0 <= k < rs@.len() ==> (#[trigger] rs@[k]).0 < rs@[k].1 <= speech@.len(),
            found@.len() == i,
            forall|k: int|
                0 <= k < i ==> (#[trigger] found@[k]).start == all[k].0 * 16 && found@[k].end == if all[k].1
                    == speech@.len() {
                    total * 1000 / 16_000
                } else {
                    all[k].1 * 16
                },
        decreases rs.len() - i,
    {
        let (start, end) = rs[i];
        assert(rs@[i as int].0 == all[i as int].0);
        let span = if end == speech.len() {
            Span::new(start as i64 * 16, end_ms)
        } else {
            Span::new(start as i64 * 16, end as i64 * 16)
        };
        found.push(span);
        i += 1;
    }
    proof {
        let want = Seq::new(
            all.len(),
            |i: int|
                Span {
                    start: (all[i].0 * 16) as i64,
                    end: if all[i].1 == speech@.len() {
                        (total * 1000 / 16_000) as i64
                    } else {
                        (all[i].1 * 16) as i64
                    },
                },
        );
        assert(found@ =~= want);
    }
    merge_and_filter(found.as_slice(), smoothing.merge_gap_ms, smoothing.min_speech_ms)
}

// ---------------------------------------------------------------------------
// What every detection keeps
// ---------------------------------------------------------------------------

/// Whether the spans are in order, do not overlap, and lie between zero and `end`.
pub open spec fn is_timeline(spans: Seq<Span>, end: int) -> bool {
    &&& forall|i: int|
        0 <= i < spans.len() ==> 0 <= (#[trigger] spans[i]).start <= spans[i].end <= end
    &&& forall|i: int, j: int|
        0 <= i < j < spans.len() ==> (#[trigger] spans[i]).end <= (#[trigger] spans[j]).start
}

proof fn lemma_timeline_before(spans: Seq<Span>, end: int)
    requires
        is_timeline(spans, end),
        spans.len() > 0,
    ensures
        is_timeline(spans.drop_last(), end),
{
    let before = spans.drop_last();
    assert forall|i: int| 0 <= i < before.len() implies 0 <= (#[trigger] before[i]).start
        <= before[i].end <= end by {
        assert(before[i] == spans[i]);
    }
    assert forall|i: int, j: int| 0 <= i < j < before.len() implies (#[trigger] before[i]).end <= (
    #[trigger] before[j]).start by {
        assert(before[i] == spans[i] && before[j] == spans[j]);
    }
}

/// Bridging gaps keeps a timeline.
proof fn lemma_bridged_timeline(spans: Seq<Span>, gap: int, end: int)
    requires
        is_timeline(spans, end),
    ensures
        is_timeline(bridged(spans, gap), end),
        spans.len() > 0 ==> bridged(spans, gap).len() > 0 && bridged(spans, gap).last().end
            == spans.last().end,
    decreases spans.len(),
{
    if spans.len() > 0 {
        let before = spans.drop_last();
        let s = spans.last();
        assert(s == spans[spans.len() - 1]);
        lemma_timeline_before(spans, end);
        lemma_bridged_timeline(before, gap, end);
        let b = bridged(before, gap);
        let r = bridged(spans, gap);
        let n = b.len();
        if before.len() > 0 {
            assert(before.last() == spans[spans.len() - 2]);
            assert(before.last().end <= s.start);
            assert(b.last() == b[n - 1]);
        }
        assert forall|i: int| 0 <= i < r.len() implies 0 <= (#[trigger] r[i]).start <= r[i].end
            <= end by {
            if i < n {
                assert(0 <= b[i].start <= b[i].end <= end);
            }
        }
        assert forall|i: int, j: int| 0 <= i < j < r.len() implies (#[trigger] r[i]).end <= (
        #[trigger] r[j]).start by {
            if j < n {
                assert(b[i].end <= b[j].start);
            } else if i < n - 1 {
                assert(b[i].end <= b[n - 1].start);
                assert(b[n - 1].start <= b[n - 1].end);
            }
        }
    }
}

/// Leaving spans out keeps a timeline.
proof fn lemma_filtered_timeline(spans: Seq<Span>, keep: spec_fn(Span) -> bool, end: int)
    requires
        is_timeline(spans, end),
    ensures
        is_timeline(spans.filter(keep), end),
        spans.len() > 0 ==> forall|i: int|
            0 <= i < spans.filter(keep).len() ==> (#[trigger] spans.filter(keep)[i]).end
                <= spans.last().end,
    decreases spans.len(),
{
    reveal(Seq::filter);
    if spans.len() > 0 {
        let before = spans.drop_last();
        let s = spans.last();
        assert(s == spans[spans.len() - 1]);
        lemma_timeline_before(spans, end);
        lemma_filtered_timeline(before, keep, end);
        let b = before.filter(keep);
        let r = spans.filter(keep);
        if before.len() > 0 {
            assert(before.last() == spans[spans.len() - 2]);
            assert(before.last().end <= s.start);
        }
        assert forall|i: int| 0 <= i < r.len() implies 0 <= (#[trigger] r[i]).start <= r[i].end
            <= end && r[i].end <= s.end by {
            if i < b.len() {
                assert(r[i] == b[i]);
            }
        }
        assert forall|i: int, j: int| 0 <= i < j < r.len() implies (#[trigger] r[i]).end <= (
        #[trigger] r[j]).start by {
            assert(r[i] == b[i]);
            if j < b.len() {
                assert(r[j] == b[j]);
            }
        }
    }
}

/// A later frame starts no earlier, and every frame starts within the audio.
proof fn lemma_frame_time(a: int, b: int, frame_len: int, total: int, sample_rate: int)
    requires
        0 <= a <= b,
        frame_len >= 1,
        total >= 0,
        sample_rate > 0,
    ensures
        0 <= frame_time(a, frame_len, total, sample_rate) <= frame_time(
            b,
            frame_len,
            total,
            sample_rate,
        ),
        frame_time(b, frame_len, total, sample_rate) <= audio_end(total, sample_rate) <= i64::MAX,
{
    assert(0 <= a * frame_len <= b * frame_len) by (nonlinear_arith)
        requires
            0 <= a <= b,
            frame_len >= 1,
    ;
    let sample = |frame: int|
        {
            let position = crate::saturated(frame * frame_len);
            if position <= total {
                position
            } else {
                total
            }
        };
    let x = crate::saturated(sample(a) * 1000);
    let y = crate::saturated(sample(b) * 1000);
    let z = crate::saturated(total * 1000);
    vstd::arithmetic::div_mod::lemma_div_is_ordered(0, x, sample_rate);
    vstd::arithmetic::div_mod::lemma_div_is_ordered(x, y, sample_rate);
    vstd::arithmetic::div_mod::lemma_div_is_ordered(y, z, sample_rate);
    vstd::arithmetic::div_mod::lemma_div_is_ordered_by_denominator(z, 1, sample_rate);
    assert(0int / sample_rate == 0) by {
        vstd::arithmetic::div_mod::lemma_div_basics(sample_rate);
    }
    assert(z / 1 == z);
}

/// The time at which audio of `total` samples ends.
pub open spec fn audio_end(total: int, sample_rate: int) -> int {
    crate::saturated(total * 1000) / sample_rate
}

/// Whatever frames hold speech, the spans of the energy-threshold detector are in order, do not
/// overlap, and lie within the audio.
pub proof fn law_energy_spans_lie_within_the_audio(
    speech: Seq<bool>,
    frame_len: int,
    total: int,
    sample_rate: int,
    smoothing: Smoothing,
)
    requires
        frame_len >= 1,
        total >= 0,
        sample_rate > 0,
    ensures
        is_timeline(
            energy_speech(speech, frame_len, total, sample_rate, smoothing),
            audio_end(total, sample_rate),
        ),
{
    let rs = runs(speech);
    let end = audio_end(total, sample_rate);
    let found = Seq::new(
        rs.len(),
        |i: int|
            Span {
                start: frame_time(rs[i].0, frame_len, total, sample_rate) as i64,
                end: frame_time(rs[i].1, frame_len, total, sample_rate) as i64,
            },
    );
    law_runs_are_the_speech(speech);
    assert forall|i: int| 0 <= i < found.len() implies 0 <= (#[trigger] found[i]).start
        <= found[i].end <= end by {
        assert(0 <= rs[i].0 < rs[i].1);
        lemma_frame_time(rs[i].0, rs[i].1, frame_len, total, sample_rate);
    }
    assert forall|i: int, j: int| 0 <= i < j < found.len() implies (#[trigger] found[i]).end <= (
    #[trigger] found[j]).start by {
        assert(0 <= rs[i].0 < rs[i].1);
        assert(rs[i].1 < rs[j].0);
        assert(0 <= rs[j].0 < rs[j].1);
        lemma_frame_time(rs[i].1, rs[j].0, frame_len, total, sample_rate);
    }
    let gap = smoothing.merge_gap_ms as int;
    lemma_bridged_timeline(found, gap, end);
    let min = smoothing.min_speech_ms as int;
    lemma_filtered_timeline(bridged(found, gap), |s: Span| s.duration() >= min, end);
}

/// Whatever frames hold speech, the spans of the neural detector are in order, do not overlap,
/// and lie within the audio.
pub proof fn law_neural_spans_lie_within_the_audio(
    speech: Seq<bool>,
    total: int,
    smoothing: Smoothing,
)
    requires
        0 <= total <= usize::MAX,
        speech.len() == total / NEURAL_FRAME as int,
    ensures
        is_timeline(neural_speech(speech, total, smoothing), total * 1000 / 16_000),
{
    let rs = runs(speech);
    let end = total * 1000 / 16_000;
    let found = Seq::new(
        rs.len(),
        |i: int|
            Span {
                start: (rs[i].0 * 16) as i64,
                end: if rs[i].1 == speech.len() {
                    (total * 1000 / 16_000) as i64
                } else {
                    (rs[i].1 * 16) as i64
                },
            },
    );
    law_runs_are_the_speech(speech);
    assert forall|i: int| 0 <= i < found.len() implies 0 <= (#[trigger] found[i]).start
        <= found[i].end <= end by {
        assert(0 <= rs[i].0 < rs[i].1 <= speech.len());
    }
    assert forall|i: int, j: int| 0 <= i < j < found.len() implies (#[trigger] found[i]).end <= (
    #[trigger] found[j]).start by {
        assert(rs[i].1 < rs[j].0);
        assert(0 <= rs[i].0 < rs[i].1 <= speech.len());
        assert(0 <= rs[j].0 < rs[j].1 <= speech.len());
    }
    let gap = smoothing.merge_gap_ms as int;
    lemma_bridged_timeline(found, gap, end);
    let min = smoothing.min_speech_ms as int;
    lemma_filtered_timeline(bridged(found, gap), |s: Span| s.duration() >= min, end);
}

} // verus!
