//! What speech detection promises, in frames and milliseconds: which stretches of speech come
//! out, and that nothing else does.
use vstd::prelude::*;

use crate::vad;
use crate::vad::{Smoothing, NEURAL_FRAME};
use crate::Span;

verus! {

/// The time between span `k` and the one before it.
pub open spec fn gap_before(spans: Seq<Span>, k: int) -> int {
    spans[k].start - spans[k - 1].end
}

/// Whether each of the spans behind `i`, up to `j`, starts no more than `gap` after the one
/// before it ends.
pub open spec fn are_close(spans: Seq<Span>, gap: int, i: int, j: int) -> bool {
    forall|k: int| i < k <= j ==> #[trigger] gap_before(spans, k) <= gap
}

/// Whether one of the spans reaches from `start` to `end`.
pub open spec fn reaches(spans: Seq<Span>, start: int, end: int) -> bool {
    exists|m: int|
        0 <= m < spans.len() && (#[trigger] spans[m]).start <= start && end <= spans[m].end
}

/// Whether the spans are in the order of their starts.
pub open spec fn start_in_order(spans: Seq<Span>) -> bool {
    forall|i: int, j: int|
        0 <= i <= j < spans.len() ==> (#[trigger] spans[i]).start <= (#[trigger] spans[j]).start
}

/// Whether the spans are in order and do not overlap.
pub open spec fn are_in_order(spans: Seq<Span>) -> bool {
    &&& forall|i: int| 0 <= i < spans.len() ==> (#[trigger] spans[i]).start <= spans[i].end
    &&& forall|i: int, j: int|
        0 <= i < j < spans.len() ==> (#[trigger] spans[i]).end <= (#[trigger] spans[j]).start
}

/// Whether `r` reaches from the start of span `i` to the end of span `j`, where those are close
/// to one another and no other span is close to them.
pub open spec fn is_group(spans: Seq<Span>, gap: int, r: Span, i: int, j: int) -> bool {
    &&& 0 <= i <= j < spans.len()
    &&& are_close(spans, gap, i, j)
    &&& i > 0 ==> gap_before(spans, i) > gap
    &&& j < spans.len() - 1 ==> gap_before(spans, j + 1) > gap
    &&& r.start == spans[i].start
    &&& r.end == spans[j].end
}

// ---------------------------------------------------------------------------
// Joining and dropping spans
// ---------------------------------------------------------------------------

/// Spans that are close to one another are joined.
proof fn lemma_close_spans_are_joined(spans: Seq<Span>, gap: int, i: int, j: int) -> (m: int)
    requires
        i64::MIN <= gap <= i64::MAX,
        start_in_order(spans),
        0 <= i <= j < spans.len(),
        are_close(spans, gap, i, j),
    ensures
        0 <= m < vad::bridged(spans, gap).len(),
        vad::bridged(spans, gap)[m].start <= spans[i].start,
        spans[i].end <= vad::bridged(spans, gap)[m].end,
        spans[j].end <= vad::bridged(spans, gap)[m].end,
        j == spans.len() - 1 ==> m == vad::bridged(spans, gap).len() - 1,
    decreases spans.len(),
{
    let before = spans.drop_last();
    let n = before.len() as int;
    let b = vad::bridged(before, gap);
    let r = vad::bridged(spans, gap);
    let s = spans.last();
    assert(s == spans[n]);
    assert forall|p: int, q: int| 0 <= p <= q < before.len() implies (#[trigger] before[p]).start
        <= (#[trigger] before[q]).start by {
        assert(before[p] == spans[p] && before[q] == spans[q]);
    }
    assert(before[i] == spans[i] || i == n);
    if j < n {
        assert(are_close(before, gap, i, j)) by {
            assert forall|k: int| i < k <= j implies #[trigger] gap_before(before, k) <= gap by {
                assert(gap_before(before, k) == gap_before(spans, k));
            }
        }
        assert(before[j] == spans[j]);
        let m = lemma_close_spans_are_joined(before, gap, i, j);
        assert(r[m].start == b[m].start && r[m].end >= b[m].end);
        m
    } else {
        let last = r.len() - 1;
        if i < n {
            assert(gap_before(spans, n) <= gap);
            assert(are_close(before, gap, i, n - 1)) by {
                assert forall|k: int| i < k <= n - 1 implies #[trigger] gap_before(before, k)
                    <= gap by {
                    assert(gap_before(before, k) == gap_before(spans, k));
                }
            }
            assert(before[n - 1] == spans[n - 1]);
            let m = lemma_close_spans_are_joined(before, gap, i, n - 1);
            assert(b.last() == b[m]);
            assert(s.start - b.last().end <= gap);
        } else if n > 0 {
            // What was joined before starts no later.
            assert(are_close(before, gap, n - 1, n - 1));
            assert(before[n - 1] == spans[n - 1]);
            let m = lemma_close_spans_are_joined(before, gap, n - 1, n - 1);
            assert(spans[n - 1].start <= spans[n].start);
        }
        last
    }
}

/// A span that is kept is among those that are left.
proof fn lemma_kept(spans: Seq<Span>, keep: spec_fn(Span) -> bool, m: int) -> (q: int)
    requires
        0 <= m < spans.len(),
        keep(spans[m]),
    ensures
        0 <= q < spans.filter(keep).len(),
        spans.filter(keep)[q] == spans[m],
    decreases spans.len(),
{
    reveal(Seq::filter);
    let before = spans.drop_last();
    if m == spans.len() - 1 {
        before.filter(keep).len() as int
    } else {
        assert(before[m] == spans[m]);
        lemma_kept(before, keep, m)
    }
}

/// A span that is left is one of those that there were.
proof fn lemma_left(spans: Seq<Span>, keep: spec_fn(Span) -> bool, q: int) -> (m: int)
    requires
        0 <= q < spans.filter(keep).len(),
    ensures
        0 <= m < spans.len(),
        spans.filter(keep)[q] == spans[m],
        keep(spans[m]),
    decreases spans.len(),
{
    reveal(Seq::filter);
    let before = spans.drop_last();
    if q < before.filter(keep).len() {
        let m = lemma_left(before, keep, q);
        assert(before[m] == spans[m]);
        m
    } else {
        spans.len() - 1
    }
}

/// Speech that goes on long enough is never lost: where spans follow one another with no gap
/// larger than `gap` and last at least `min` together, one span of the result reaches from the
/// start of the first to the end of the last. With a single span: every span that lasts at least
/// `min` is covered, however long it is.
pub proof fn law_long_speech_is_kept(spans: Seq<Span>, gap: i64, min: i64, i: int, j: int)
    requires
        start_in_order(spans),
        0 <= i <= j < spans.len(),
        are_close(spans, gap as int, i, j),
        spans[j].end - spans[i].start >= min || min <= 0,
    ensures
        reaches(
            vad::long_enough(vad::bridged(spans, gap as int), min as int),
            spans[i].start as int,
            spans[j].end as int,
        ),
{
    let b = vad::bridged(spans, gap as int);
    let m = lemma_close_spans_are_joined(spans, gap as int, i, j);
    let keep = |s: Span| s.duration() >= min as int;
    let q = lemma_kept(b, keep, m);
    let r = vad::long_enough(b, min as int);
    assert(r[q].start <= spans[i].start && spans[j].end <= r[q].end);
}

proof fn lemma_order_before(spans: Seq<Span>)
    requires
        are_in_order(spans),
        spans.len() > 0,
    ensures
        are_in_order(spans.drop_last()),
{
    let before = spans.drop_last();
    assert forall|i: int| 0 <= i < before.len() implies (#[trigger] before[i]).start
        <= before[i].end by {
        assert(before[i] == spans[i]);
    }
    assert forall|i: int, j: int| 0 <= i < j < before.len() implies (#[trigger] before[i]).end <= (
    #[trigger] before[j]).start by {
        assert(before[i] == spans[i] && before[j] == spans[j]);
    }
}

/// Each span that comes out of joining is a group, and the last of them holds the last span.
proof fn lemma_groups(spans: Seq<Span>, gap: int, m: int) -> (g: (int, int))
    requires
        are_in_order(spans),
        gap < i64::MAX,
        0 <= m < vad::bridged(spans, gap).len(),
    ensures
        is_group(spans, gap, vad::bridged(spans, gap)[m], g.0, g.1),
        m == vad::bridged(spans, gap).len() - 1 <==> g.1 == spans.len() - 1,
    decreases spans.len(),
{
    let before = spans.drop_last();
    let n = before.len() as int;
    let b = vad::bridged(before, gap);
    let r = vad::bridged(spans, gap);
    let s = spans.last();
    assert(s == spans[n]);
    lemma_order_before(spans);
    if b.len() > 0 {
        let (p, q) = lemma_groups(before, gap, b.len() - 1);
        assert(before[n - 1] == spans[n - 1]);
        assert(b.last().end == spans[n - 1].end);
        assert(spans[n - 1].end <= spans[n].start);
        assert(crate::saturated(s.start - b.last().end) <= gap <==> gap_before(spans, n) <= gap);
    } else if n > 0 {
        lemma_some_are_joined(before, gap);
    }
    if m < b.len() {
        let (p, q) = lemma_groups(before, gap, m);
        assert(before[p] == spans[p] && before[q] == spans[q]);
        assert(p > 0 ==> gap_before(before, p) == gap_before(spans, p));
        assert forall|k: int| p < k <= q implies #[trigger] gap_before(spans, k) <= gap by {
            assert(gap_before(before, k) == gap_before(spans, k));
        }
        if m < b.len() - 1 {
            assert(r[m] == b[m]);
            assert(gap_before(before, q + 1) == gap_before(spans, q + 1));
            (p, q)
        } else if r.len() == b.len() {
            assert(are_close(spans, gap, p, n));
            (p, n)
        } else {
            assert(r[m] == b[m]);
            (p, q)
        }
    } else {
        (n, n)
    }
}

/// Joining leaves at least one span of any.
proof fn lemma_some_are_joined(spans: Seq<Span>, gap: int)
    ensures
        spans.len() > 0 ==> vad::bridged(spans, gap).len() > 0,
{
}

/// Nothing is made up: each span of the result reaches from the start of one span to the end of
/// one, over gaps no larger than `gap` alone and with larger ones on both sides, and lasts at
/// least `min`.
pub proof fn law_kept_speech_was_there(spans: Seq<Span>, gap: i64, min: i64, q: int)
    requires
        are_in_order(spans),
        gap < i64::MAX,
        0 <= q < vad::long_enough(vad::bridged(spans, gap as int), min as int).len(),
    ensures
        exists|i: int, j: int|
            is_group(
                spans,
                gap as int,
                #[trigger] vad::long_enough(vad::bridged(spans, gap as int), min as int)[q],
                i,
                j,
            ) && (#[trigger] spans[j]).end - (#[trigger] spans[i]).start >= min,
{
    let b = vad::bridged(spans, gap as int);
    let r = vad::long_enough(b, min as int);
    let keep = |s: Span| s.duration() >= min as int;
    let m = lemma_left(b, keep, q);
    let (i, j) = lemma_groups(spans, gap as int, m);
    assert(spans[i].start <= spans[i].end);
    assert(spans[i].start <= spans[j].end);
    assert(is_group(spans, gap as int, r[q], i, j));
}

// ---------------------------------------------------------------------------
// Frames
// ---------------------------------------------------------------------------

/// Whether none of the frames from `u` on, up to `v`, holds speech.
pub open spec fn is_silent(speech: Seq<bool>, u: int, v: int) -> bool {
    forall|k: int| u <= k < v ==> !#[trigger] speech[k]
}

/// Whether no silence between the frames `x` and `w` lasts longer than `gap`, with frame `f`
/// starting at `time(f)`.
pub open spec fn goes_on(
    speech: Seq<bool>,
    time: spec_fn(int) -> int,
    gap: int,
    x: int,
    w: int,
) -> bool {
    forall|u: int, v: int|
        x <= u < v <= w && #[trigger] is_silent(speech, u, v) ==> time(v) - time(u) <= gap
}

/// The run that frame `x` is in.
proof fn lemma_run_of(speech: Seq<bool>, x: int) -> (p: int)
    requires
        0 <= x < speech.len(),
        speech[x],
    ensures
        0 <= p < vad::runs(speech).len(),
        vad::runs(speech)[p].0 <= x < vad::runs(speech)[p].1 <= speech.len(),
{
    vad::law_runs_are_the_speech(speech);
    let rs = vad::runs(speech);
    assert(vad::in_run(rs, x));
    let p = choose|p: int| 0 <= p < rs.len() && (#[trigger] rs[p]).0 <= x < rs[p].1;
    assert(rs[p].1 <= speech.len());
    p
}

/// Between two runs that follow one another there is no speech.
proof fn lemma_silence_between(speech: Seq<bool>, k: int)
    requires
        0 < k < vad::runs(speech).len(),
    ensures
        vad::runs(speech)[k - 1].1 < vad::runs(speech)[k].0,
        is_silent(speech, vad::runs(speech)[k - 1].1, vad::runs(speech)[k].0),
{
    vad::law_runs_are_the_speech(speech);
    let rs = vad::runs(speech);
    assert(0 <= rs[k - 1].0 < rs[k - 1].1);
    assert(0 <= rs[k].0 < rs[k].1 <= speech.len());
    assert forall|f: int| rs[k - 1].1 <= f < rs[k].0 implies !#[trigger] speech[f] by {
        if speech[f] {
            let p = lemma_run_of(speech, f);
            if p < k - 1 {
                assert(rs[p].1 < rs[k - 1].0);
            } else if p > k {
                assert(rs[k].1 < rs[p].0);
            }
        }
    }
}

/// A frame without speech from run `i` to run `j` lies between two of them.
proof fn lemma_between(speech: Seq<bool>, i: int, j: int, u: int) -> (k: int)
    requires
        0 <= i <= j < vad::runs(speech).len(),
        vad::runs(speech)[i].0 <= u < vad::runs(speech)[j].1,
        !speech[u],
    ensures
        i < k <= j,
        vad::runs(speech)[k - 1].1 <= u < vad::runs(speech)[k].0,
    decreases j - i,
{
    vad::law_runs_are_the_speech(speech);
    let rs = vad::runs(speech);
    assert(0 <= rs[i].0 < rs[i].1 <= speech.len());
    assert(0 <= rs[j].0 < rs[j].1 <= speech.len());
    if u < rs[i].1 {
        assert(vad::in_run(rs, u));
        i + 1
    } else if u < rs[i + 1].0 {
        i + 1
    } else {
        lemma_between(speech, i + 1, j, u)
    }
}

/// Whether the spans are those of the runs, with a run from frame `a` up to frame `b` reaching
/// from `start(a)` to `end(b)`.
spec fn are_runs(
    speech: Seq<bool>,
    found: Seq<Span>,
    start: spec_fn(int) -> int,
    end: spec_fn(int) -> int,
) -> bool {
    &&& found.len() == vad::runs(speech).len()
    &&& forall|k: int| 0 <= k < found.len() ==> (#[trigger] found[k]).start == start(
        vad::runs(speech)[k].0,
    )
    &&& forall|k: int| 0 <= k < found.len() ==> (#[trigger] found[k]).end == end(
        vad::runs(speech)[k].1,
    )
    &&& forall|a: int, b: int|
        0 <= a <= b <= speech.len() ==> (#[trigger] start(a)) <= (#[trigger] start(b))
    &&& forall|a: int, b: int|
        0 <= a <= b <= speech.len() ==> (#[trigger] end(a)) <= (#[trigger] end(b))
    &&& forall|f: int| 0 <= f <= speech.len() ==> start(f) <= #[trigger] end(f)
    &&& forall|f: int| 0 <= f < speech.len() ==> start(f) == #[trigger] end(f)
}

/// Speech that goes on long enough is detected.
proof fn lemma_detected(
    speech: Seq<bool>,
    found: Seq<Span>,
    start: spec_fn(int) -> int,
    end: spec_fn(int) -> int,
    gap: i64,
    min: i64,
    x: int,
    w: int,
)
    requires
        are_runs(speech, found, start, end),
        0 <= x < w <= speech.len(),
        speech[x],
        speech[w - 1],
        goes_on(speech, start, gap as int, x, w),
        end(w) - start(x) >= min || min <= 0,
    ensures
        reaches(
            vad::long_enough(vad::bridged(found, gap as int), min as int),
            start(x),
            end(w),
        ),
{
    vad::law_runs_are_the_speech(speech);
    let rs = vad::runs(speech);
    let p = lemma_run_of(speech, x);
    let q = lemma_run_of(speech, w - 1);
    if q < p {
        assert(rs[q].1 < rs[p].0);
    }
    assert(0 <= rs[p].0 && 0 <= rs[q].0);
    assert(start_in_order(found)) by {
        assert forall|i: int, j: int| 0 <= i <= j < found.len() implies (#[trigger] found[i]).start
            <= (#[trigger] found[j]).start by {
            assert(0 <= rs[i].0 < rs[i].1 <= speech.len());
            assert(0 <= rs[j].0 < rs[j].1 <= speech.len());
            if i < j {
                assert(rs[i].1 < rs[j].0);
            }
            assert(start(rs[i].0) <= start(rs[j].0));
        }
    }
    assert(are_close(found, gap as int, p, q)) by {
        assert forall|k: int| p < k <= q implies #[trigger] gap_before(found, k) <= gap by {
            lemma_silence_between(speech, k);
            let u = rs[k - 1].1;
            let v = rs[k].0;
            assert(0 <= rs[k].0 < rs[k].1 <= speech.len());
            assert(0 <= rs[k - 1].0 < rs[k - 1].1 <= speech.len());
            if p < k - 1 {
                assert(rs[p].1 < rs[k - 1].0);
            }
            if k < q {
                assert(rs[k].1 < rs[q].0);
            }
            assert(x < rs[p].1 <= u);
            assert(v <= w);
            assert(start(v) - start(u) <= gap);
            assert(end(u) == start(u));
            assert(found[k].start == start(v) && found[k - 1].end == end(u));
        }
    }
    assert(found[p].start == start(rs[p].0) && start(rs[p].0) <= start(x));
    assert(found[q].end == end(rs[q].1) && end(w) <= end(rs[q].1));
    law_long_speech_is_kept(found, gap, min, p, q);
    let r = vad::long_enough(vad::bridged(found, gap as int), min as int);
    let m = choose|m: int|
        0 <= m < r.len() && (#[trigger] r[m]).start <= found[p].start && found[q].end <= r[m].end;
    assert(r[m].start <= start(x) && end(w) <= r[m].end);
}

/// What is detected starts and ends with speech that goes on and lasts.
proof fn lemma_sound(
    speech: Seq<bool>,
    found: Seq<Span>,
    start: spec_fn(int) -> int,
    end: spec_fn(int) -> int,
    gap: i64,
    min: i64,
    m: int,
) -> (frames: (int, int))
    requires
        are_runs(speech, found, start, end),
        gap < i64::MAX,
        0 <= m < vad::long_enough(vad::bridged(found, gap as int), min as int).len(),
    ensures
        0 <= frames.0 < frames.1 <= speech.len(),
        speech[frames.0],
        speech[frames.1 - 1],
        goes_on(speech, start, gap as int, frames.0, frames.1),
        vad::long_enough(vad::bridged(found, gap as int), min as int)[m].start == start(frames.0),
        vad::long_enough(vad::bridged(found, gap as int), min as int)[m].end == end(frames.1),
        end(frames.1) - start(frames.0) >= min,
{
    vad::law_runs_are_the_speech(speech);
    let rs = vad::runs(speech);
    let r = vad::long_enough(vad::bridged(found, gap as int), min as int);
    assert(are_in_order(found)) by {
        assert forall|i: int| 0 <= i < found.len() implies (#[trigger] found[i]).start
            <= found[i].end by {
            assert(0 <= rs[i].0 < rs[i].1 <= speech.len());
            assert(start(rs[i].0) <= start(rs[i].1));
            assert(start(rs[i].1) <= end(rs[i].1));
        }
        assert forall|i: int, j: int| 0 <= i < j < found.len() implies (#[trigger] found[i]).end
            <= (#[trigger] found[j]).start by {
            assert(0 <= rs[i].0 < rs[i].1 <= speech.len());
            assert(0 <= rs[j].0 < rs[j].1 <= speech.len());
            assert(rs[i].1 < rs[j].0);
            assert(end(rs[i].1) == start(rs[i].1));
            assert(start(rs[i].1) <= start(rs[j].0));
        }
    }
    law_kept_speech_was_there(found, gap, min, m);
    let (i, j) = choose|i: int, j: int|
        is_group(found, gap as int, r[m], i, j) && (#[trigger] found[j]).end - (
        #[trigger] found[i]).start >= min;
    let a = rs[i].0;
    let b = rs[j].1;
    assert(0 <= rs[i].0 < rs[i].1 <= speech.len());
    assert(0 <= rs[j].0 < rs[j].1 <= speech.len());
    if i < j {
        assert(rs[i].1 < rs[j].0);
    }
    assert(vad::in_run(rs, a));
    assert(vad::in_run(rs, b - 1));
    assert(goes_on(speech, start, gap as int, a, b)) by {
        assert forall|u: int, v: int|
            a <= u < v <= b && #[trigger] is_silent(speech, u, v) implies start(v) - start(u)
            <= gap by {
            assert(!speech[u]);
            let k = lemma_between(speech, i, j, u);
            assert(0 <= rs[k].0 < rs[k].1 <= speech.len());
            assert(0 <= rs[k - 1].0 < rs[k - 1].1 <= speech.len());
            if v > rs[k].0 {
                assert(vad::in_run(rs, rs[k].0));
                assert(!speech[rs[k].0]);
            }
            assert(gap_before(found, k) <= gap);
            assert(found[k].start == start(rs[k].0) && found[k - 1].end == end(rs[k - 1].1));
            assert(end(rs[k - 1].1) == start(rs[k - 1].1));
            assert(start(rs[k - 1].1) <= start(u));
            assert(start(v) <= start(rs[k].0));
        }
    }
    (a, b)
}

/// The millisecond in which the sample with which a frame of `frame_len` samples starts is heard,
/// with no frame starting behind the last sample.
pub open spec fn heard_at(frame_len: int, total: int, sample_rate: int) -> spec_fn(int) -> int {
    |frame: int|
        (if frame * frame_len <= total {
            frame * frame_len
        } else {
            total
        }) * 1000 / sample_rate
}

/// The spans of the runs of the energy-threshold detector.
proof fn lemma_energy_runs(
    speech: Seq<bool>,
    frame_len: int,
    total: int,
    sample_rate: int,
    found: Seq<Span>,
)
    requires
        frame_len >= 1,
        0 <= total,
        total * 1000 <= i64::MAX,
        sample_rate > 0,
        found == Seq::new(
            vad::runs(speech).len(),
            |i: int|
                Span {
                    start: vad::frame_time(
                        vad::runs(speech)[i].0,
                        frame_len,
                        total,
                        sample_rate,
                    ) as i64,
                    end: vad::frame_time(
                        vad::runs(speech)[i].1,
                        frame_len,
                        total,
                        sample_rate,
                    ) as i64,
                },
        ),
    ensures
        are_runs(
            speech,
            found,
            heard_at(frame_len, total, sample_rate),
            heard_at(frame_len, total, sample_rate),
        ),
{
    let t = heard_at(frame_len, total, sample_rate);
    let rs = vad::runs(speech);
    vad::law_runs_are_the_speech(speech);
    assert forall|f: int| 0 <= f implies 0 <= #[trigger] t(f) <= i64::MAX && t(f)
        == vad::frame_time(f, frame_len, total, sample_rate) by {
        assert(0 <= f * frame_len) by (nonlinear_arith)
            requires
                0 <= f,
                frame_len >= 1,
        ;
        let n = if f * frame_len <= total {
            f * frame_len
        } else {
            total
        };
        vstd::arithmetic::div_mod::lemma_div_is_ordered(0, n * 1000, sample_rate);
        vstd::arithmetic::div_mod::lemma_div_basics(sample_rate);
        vstd::arithmetic::div_mod::lemma_div_is_ordered_by_denominator(n * 1000, 1, sample_rate);
        assert(n * 1000 / 1 == n * 1000);
    }
    assert forall|a: int, b: int| 0 <= a <= b <= speech.len() implies (#[trigger] t(a)) <= (
    #[trigger] t(b)) by {
        assert(a * frame_len <= b * frame_len) by (nonlinear_arith)
            requires
                0 <= a <= b,
                frame_len >= 1,
        ;
        let n = |f: int|
            if f * frame_len <= total {
                f * frame_len
            } else {
                total
            };
        vstd::arithmetic::div_mod::lemma_div_is_ordered(n(a) * 1000, n(b) * 1000, sample_rate);
    }
    assert forall|k: int| 0 <= k < found.len() implies (#[trigger] found[k]).start == t(rs[k].0)
        && found[k].end == t(rs[k].1) by {
        assert(0 <= rs[k].0 < rs[k].1 <= speech.len());
        assert(t(rs[k].0) <= i64::MAX && t(rs[k].1) <= i64::MAX);
    }
}

/// Whatever speech goes on for long enough is detected by the energy threshold: from a frame with
/// speech to a frame with speech, with no silence between them longer than the merge gap and at
/// least the shortest span in all, one detected span covers the whole of it.
pub proof fn law_energy_finds_long_speech(
    speech: Seq<bool>,
    frame_len: int,
    total: int,
    sample_rate: int,
    smoothing: Smoothing,
    x: int,
    w: int,
)
    requires
        frame_len >= 1,
        0 <= total,
        total * 1000 <= i64::MAX,
        sample_rate > 0,
        0 <= x < w <= speech.len(),
        speech[x],
        speech[w - 1],
        goes_on(
            speech,
            heard_at(frame_len, total, sample_rate),
            smoothing.merge_gap_ms as int,
            x,
            w,
        ),
        heard_at(frame_len, total, sample_rate)(w) - heard_at(frame_len, total, sample_rate)(x)
            >= smoothing.min_speech_ms || smoothing.min_speech_ms <= 0,
    ensures
        reaches(
            vad::energy_speech(speech, frame_len, total, sample_rate, smoothing),
            heard_at(frame_len, total, sample_rate)(x),
            heard_at(frame_len, total, sample_rate)(w),
        ),
{
    let t = heard_at(frame_len, total, sample_rate);
    let rs = vad::runs(speech);
    let found = Seq::new(
        rs.len(),
        |i: int|
            Span {
                start: vad::frame_time(rs[i].0, frame_len, total, sample_rate) as i64,
                end: vad::frame_time(rs[i].1, frame_len, total, sample_rate) as i64,
            },
    );
    lemma_energy_runs(speech, frame_len, total, sample_rate, found);
    lemma_detected(
        speech,
        found,
        t,
        t,
        smoothing.merge_gap_ms,
        smoothing.min_speech_ms,
        x,
        w,
    );
}

/// Whatever the energy threshold detects starts with a frame with speech and ends with one, holds
/// no silence longer than the merge gap, and is no shorter than the shortest span.
pub proof fn law_energy_finds_speech_alone(
    speech: Seq<bool>,
    frame_len: int,
    total: int,
    sample_rate: int,
    smoothing: Smoothing,
    m: int,
) -> (frames: (int, int))
    requires
        frame_len >= 1,
        0 <= total,
        total * 1000 <= i64::MAX,
        sample_rate > 0,
        smoothing.merge_gap_ms < i64::MAX,
        0 <= m < vad::energy_speech(speech, frame_len, total, sample_rate, smoothing).len(),
    ensures
        0 <= frames.0 < frames.1 <= speech.len(),
        speech[frames.0],
        speech[frames.1 - 1],
        goes_on(
            speech,
            heard_at(frame_len, total, sample_rate),
            smoothing.merge_gap_ms as int,
            frames.0,
            frames.1,
        ),
        vad::energy_speech(speech, frame_len, total, sample_rate, smoothing)[m].start == heard_at(
            frame_len,
            total,
            sample_rate,
        )(frames.0),
        vad::energy_speech(speech, frame_len, total, sample_rate, smoothing)[m].end == heard_at(
            frame_len,
            total,
            sample_rate,
        )(frames.1),
        heard_at(frame_len, total, sample_rate)(frames.1) - heard_at(
            frame_len,
            total,
            sample_rate,
        )(frames.0) >= smoothing.min_speech_ms,
{
    let t = heard_at(frame_len, total, sample_rate);
    let rs = vad::runs(speech);
    let found = Seq::new(
        rs.len(),
        |i: int|
            Span {
                start: vad::frame_time(rs[i].0, frame_len, total, sample_rate) as i64,
                end: vad::frame_time(rs[i].1, frame_len, total, sample_rate) as i64,
            },
    );
    lemma_energy_runs(speech, frame_len, total, sample_rate, found);
    lemma_sound(speech, found, t, t, smoothing.merge_gap_ms, smoothing.min_speech_ms, m)
}

/// A frame of the energy-threshold detector holds as many whole samples as are heard in `frame_ms`
/// milliseconds, and never none.
pub proof fn law_frames_last_their_milliseconds(frame_ms: int, sample_rate: int)
    requires
        0 <= frame_ms,
        0 <= sample_rate,
        frame_ms * sample_rate <= i64::MAX,
    ensures
        frame_ms * sample_rate >= 1000 ==> vad::samples_per_frame(frame_ms, sample_rate) * 1000
            <= frame_ms * sample_rate < (vad::samples_per_frame(frame_ms, sample_rate) + 1) * 1000,
        frame_ms * sample_rate < 1000 ==> vad::samples_per_frame(frame_ms, sample_rate) == 1,
{
    assert(0 <= frame_ms * sample_rate) by (nonlinear_arith)
        requires
            0 <= frame_ms,
            0 <= sample_rate,
    ;
}

/// The start of each frame of the neural detector.
pub open spec fn neural_start() -> spec_fn(int) -> int {
    |frame: int| 16 * frame
}

/// Where speech that ends with the frame before this one ends, the last frame's with the audio.
pub open spec fn neural_end(frames: int, total: int) -> spec_fn(int) -> int {
    |frame: int|
        if frame == frames {
            total / 16
        } else {
            16 * frame
        }
}

/// The spans of the runs of the neural detector.
proof fn lemma_neural_runs(speech: Seq<bool>, total: int, found: Seq<Span>)
    requires
        0 <= total <= usize::MAX,
        speech.len() == total / NEURAL_FRAME as int,
        found == Seq::new(
            vad::runs(speech).len(),
            |i: int|
                Span {
                    start: (vad::runs(speech)[i].0 * 16) as i64,
                    end: if vad::runs(speech)[i].1 == speech.len() {
                        (total * 1000 / 16_000) as i64
                    } else {
                        (vad::runs(speech)[i].1 * 16) as i64
                    },
                },
        ),
    ensures
        are_runs(speech, found, neural_start(), neural_end(speech.len() as int, total)),
{
    let rs = vad::runs(speech);
    vad::law_runs_are_the_speech(speech);
    assert(total * 1000 / 16_000 == total / 16);
    assert forall|k: int| 0 <= k < found.len() implies (#[trigger] found[k]).start
        == neural_start()(rs[k].0) && found[k].end == neural_end(speech.len() as int, total)(
        rs[k].1,
    ) by {
        assert(0 <= rs[k].0 < rs[k].1 <= speech.len());
    }
}

/// Whatever speech goes on for long enough is detected by the neural detector, each of whose
/// frames lasts 16 ms: one detected span covers the whole of it.
pub proof fn law_neural_finds_long_speech(
    speech: Seq<bool>,
    total: int,
    smoothing: Smoothing,
    x: int,
    w: int,
)
    requires
        0 <= total <= usize::MAX,
        speech.len() == total / NEURAL_FRAME as int,
        0 <= x < w <= speech.len(),
        speech[x],
        speech[w - 1],
        goes_on(speech, neural_start(), smoothing.merge_gap_ms as int, x, w),
        neural_end(speech.len() as int, total)(w) - 16 * x >= smoothing.min_speech_ms
            || smoothing.min_speech_ms <= 0,
    ensures
        reaches(
            vad::neural_speech(speech, total, smoothing),
            16 * x,
            neural_end(speech.len() as int, total)(w),
        ),
{
    let rs = vad::runs(speech);
    let found = Seq::new(
        rs.len(),
        |i: int|
            Span {
                start: (rs[i].0 * 16) as i64,
                end: if rs[i].1 == speech.len() {
                    (total * 1000 / 16_000) as i64
                } else {
                    (rs[i].1 * 16) as i64
                },
            },
    );
    lemma_neural_runs(speech, total, found);
    lemma_detected(
        speech,
        found,
        neural_start(),
        neural_end(speech.len() as int, total),
        smoothing.merge_gap_ms,
        smoothing.min_speech_ms,
        x,
        w,
    );
}

/// Whatever the neural detector detects starts with a frame with speech and ends with one, holds
/// no silence longer than the merge gap, and is no shorter than the shortest span.
pub proof fn law_neural_finds_speech_alone(
    speech: Seq<bool>,
    total: int,
    smoothing: Smoothing,
    m: int,
) -> (frames: (int, int))
    requires
        0 <= total <= usize::MAX,
        speech.len() == total / NEURAL_FRAME as int,
        smoothing.merge_gap_ms < i64::MAX,
        0 <= m < vad::neural_speech(speech, total, smoothing).len(),
    ensures
        0 <= frames.0 < frames.1 <= speech.len(),
        speech[frames.0],
        speech[frames.1 - 1],
        goes_on(speech, neural_start(), smoothing.merge_gap_ms as int, frames.0, frames.1),
        vad::neural_speech(speech, total, smoothing)[m].start == 16 * frames.0,
        vad::neural_speech(speech, total, smoothing)[m].end == neural_end(
            speech.len() as int,
            total,
        )(frames.1),
        neural_end(speech.len() as int, total)(frames.1) - 16 * frames.0
            >= smoothing.min_speech_ms,
{
    let rs = vad::runs(speech);
    let found = Seq::new(
        rs.len(),
        |i: int|
            Span {
                start: (rs[i].0 * 16) as i64,
                end: if rs[i].1 == speech.len() {
                    (total * 1000 / 16_000) as i64
                } else {
                    (rs[i].1 * 16) as i64
                },
            },
    );
    lemma_neural_runs(speech, total, found);
    lemma_sound(
        speech,
        found,
        neural_start(),
        neural_end(speech.len() as int, total),
        smoothing.merge_gap_ms,
        smoothing.min_speech_ms,
        m,
    )
}

} // verus!
