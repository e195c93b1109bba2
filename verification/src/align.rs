//! The alignment engine.
//!
//! Both the reference (voice-activity spans, or a known-good subtitle's cues) and the
//! target subtitle are treated as sets of time [`Span`]s. Alignment finds the timing
//! correction that maximizes their overlap: a single global shift, piecewise shifts that
//! absorb ad-breaks and different cuts, and a scan over frame-rate ratios.
use vstd::prelude::*;

use crate::Span;

verus! {

// ---------------------------------------------------------------------------
// The reference as a set of times
// ---------------------------------------------------------------------------

/// Whether one of the spans covers the time `t`.
pub open spec fn any_covers(spans: Seq<Span>, t: int) -> bool {
    exists|i: int| 0 <= i < spans.len() && (#[trigger] spans[i]).covers(t)
}

/// Whether the two sets of spans cover the same times.
pub open spec fn same_times(a: Seq<Span>, b: Seq<Span>) -> bool {
    forall|t: int| #[trigger] any_covers(a, t) == any_covers(b, t)
}

/// Whether the spans are in order, none is empty, and no two of them overlap or touch.
pub open spec fn is_merged(spans: Seq<Span>) -> bool {
    &&& forall|i: int| 0 <= i < spans.len() ==> (#[trigger] spans[i]).start < spans[i].end
    &&& forall|i: int, j: int|
        0 <= i < j < spans.len() ==> (#[trigger] spans[i]).end < (#[trigger] spans[j]).start
}

/// The spans in order, none empty and no two overlapping or touching, that cover the times
/// that `spans` cover.
pub open spec fn merged(spans: Seq<Span>) -> Seq<Span> {
    choose|m: Seq<Span>| is_merged(m) && same_times(m, spans)
}

/// There is only one way to cover a set of times with merged spans.
pub proof fn law_merged_is_unique(a: Seq<Span>, b: Seq<Span>)
    requires
        is_merged(a),
        is_merged(b),
        same_times(a, b),
    ensures
        a == b,
    decreases a.len(),
{
    if a.len() == 0 {
        if b.len() > 0 {
            assert(b[0].covers(b[0].start as int));
            assert(any_covers(b, b[0].start as int));
            assert(any_covers(a, b[0].start as int));
        }
        assert(a =~= b);
    } else if b.len() == 0 {
        assert(a[0].covers(a[0].start as int));
        assert(any_covers(a, a[0].start as int));
        assert(any_covers(b, a[0].start as int));
    } else {
        lemma_first_span(a, b);
        lemma_first_span(b, a);
        assert(a[0] == b[0]);
        let x = a.drop_first();
        let y = b.drop_first();
        assert(is_merged(x)) by {
            assert forall|i: int| 0 <= i < x.len() implies (#[trigger] x[i]).start < x[i].end by {
                assert(x[i] == a[i + 1]);
            }
            assert forall|i: int, j: int| 0 <= i < j < x.len() implies (#[trigger] x[i]).end < (
            #[trigger] x[j]).start by {
                assert(x[i] == a[i + 1] && x[j] == a[j + 1]);
            }
        }
        assert(is_merged(y)) by {
            assert forall|i: int| 0 <= i < y.len() implies (#[trigger] y[i]).start < y[i].end by {
                assert(y[i] == b[i + 1]);
            }
            assert forall|i: int, j: int| 0 <= i < j < y.len() implies (#[trigger] y[i]).end < (
            #[trigger] y[j]).start by {
                assert(y[i] == b[i + 1] && y[j] == b[j + 1]);
            }
        }
        assert forall|t: int| #[trigger] any_covers(x, t) == any_covers(y, t) by {
            lemma_rest_covers(a, t);
            lemma_rest_covers(b, t);
            assert(any_covers(a, t) == any_covers(b, t));
        }
        law_merged_is_unique(x, y);
        assert(a =~= seq![a[0]] + x);
        assert(b =~= seq![b[0]] + y);
    }
}

/// The first span of `a` starts no earlier than the first of `b`, and ends no earlier if they
/// start together.
proof fn lemma_first_span(a: Seq<Span>, b: Seq<Span>)
    requires
        is_merged(a),
        is_merged(b),
        same_times(a, b),
        a.len() > 0,
        b.len() > 0,
    ensures
        b[0].start <= a[0].start,
        a[0].start == b[0].start ==> b[0].end <= a[0].end,
{
    let s = a[0].start as int;
    assert(a[0].covers(s));
    assert(any_covers(a, s));
    assert(any_covers(b, s));
    let i = choose|i: int| 0 <= i < b.len() && (#[trigger] b[i]).covers(s);
    if i > 0 {
        assert(b[0].end < b[i].start);
    }
    if a[0].start == b[0].start && a[0].end < b[0].end {
        let e = a[0].end as int;
        assert(b[0].covers(e));
        assert(any_covers(b, e));
        assert(any_covers(a, e));
        let k = choose|k: int| 0 <= k < a.len() && (#[trigger] a[k]).covers(e);
        if k > 0 {
            assert(a[0].end < a[k].start);
        }
    }
}

/// What the spans behind the first one cover.
proof fn lemma_rest_covers(a: Seq<Span>, t: int)
    requires
        is_merged(a),
        a.len() > 0,
    ensures
        any_covers(a.drop_first(), t) == (any_covers(a, t) && !a[0].covers(t)),
{
    let x = a.drop_first();
    if any_covers(x, t) {
        let i = choose|i: int| 0 <= i < x.len() && (#[trigger] x[i]).covers(t);
        assert(a[i + 1].covers(t));
        assert(a[0].end < a[i + 1].start);
    }
    if any_covers(a, t) && !a[0].covers(t) {
        let i = choose|i: int| 0 <= i < a.len() && (#[trigger] a[i]).covers(t);
        assert(x[i - 1].covers(t));
    }
}

/// Put a span that is not empty into spans sorted by their start.
fn insert_sorted(sorted: &mut Vec<Span>, span: Span)
    requires
        span.start < span.end,
        forall|i: int|
            0 <= i < old(sorted)@.len() ==> (#[trigger] old(sorted)@[i]).start
                < old(sorted)@[i].end,
        forall|i: int, j: int|
            0 <= i < j < old(sorted)@.len() ==> (#[trigger] old(sorted)@[i]).start <= (
            #[trigger] old(sorted)@[j]).start,
    ensures
        forall|i: int|
            0 <= i < final(sorted)@.len() ==> (#[trigger] final(sorted)@[i]).start
                < final(sorted)@[i].end,
        forall|i: int, j: int|
            0 <= i < j < final(sorted)@.len() ==> (#[trigger] final(sorted)@[i]).start <= (
            #[trigger] final(sorted)@[j]).start,
        forall|t: int| #[trigger]
            any_covers(final(sorted)@, t) == (any_covers(old(sorted)@, t) || span.covers(t)),
{
    let ghost before = sorted@;
    let mut k: usize = sorted.len();
    while k > 0 && sorted[k - 1].start > span.start
        invariant
            k <= sorted@.len(),
            sorted@ == before,
            forall|i: int| k <= i < sorted@.len() ==> span.start < (#[trigger] sorted@[i]).start,
        decreases k,
    {
        k -= 1;
    }
    sorted.insert(k, span);
    proof {
        let after = sorted@;
        assert forall|i: int| 0 <= i < after.len() implies #[trigger] after[i] == if i < k {
            before[i]
        } else if i == k {
            span
        } else {
            before[i - 1]
        } by {}
        if k > 0 {
            assert forall|i: int| 0 <= i < k implies (#[trigger] before[i]).start
                <= span.start by {
                if i < k - 1 {
                    assert(before[i].start <= before[k - 1].start);
                }
            }
        }
        assert forall|t: int| #[trigger]
            any_covers(after, t) == (any_covers(before, t) || span.covers(t)) by {
            if any_covers(after, t) {
                let i = choose|i: int| 0 <= i < after.len() && (#[trigger] after[i]).covers(t);
                if i < k {
                    assert(before[i].covers(t));
                } else if i > k {
                    assert(before[i - 1].covers(t));
                }
            }
            if any_covers(before, t) {
                let i = choose|i: int| 0 <= i < before.len() && (#[trigger] before[i]).covers(t);
                if i < k {
                    assert(after[i].covers(t));
                } else {
                    assert(after[i + 1].covers(t));
                }
            }
            if span.covers(t) {
                assert(after[k as int].covers(t));
            }
        }
    }
}

/// The spans that are not empty, sorted by their start.
fn sort_spans(spans: &[Span]) -> (r: Vec<Span>)
    ensures
        forall|i: int| 0 <= i < r@.len() ==> (#[trigger] r@[i]).start < r@[i].end,
        forall|i: int, j: int|
            0 <= i < j < r@.len() ==> (#[trigger] r@[i]).start <= (#[trigger] r@[j]).start,
        same_times(r@, spans@),
{
    let mut sorted: Vec<Span> = Vec::new();
    let mut i: usize = 0;
    while i < spans.len()
        invariant
            i <= spans@.len(),
            forall|k: int| 0 <= k < sorted@.len() ==> (#[trigger] sorted@[k]).start
                < sorted@[k].end,
            forall|k: int, j: int|
                0 <= k < j < sorted@.len() ==> (#[trigger] sorted@[k]).start <= (
                #[trigger] sorted@[j]).start,
            same_times(sorted@, spans@.take(i as int)),
        decreases spans.len() - i,
    {
        let span = spans[i];
        let ghost before = sorted@;
        if !span.is_empty() {
            insert_sorted(&mut sorted, span);
        }
        proof {
            let done = spans@.take(i as int);
            let next = spans@.take(i + 1);
            assert(next =~= done.push(span));
            assert forall|t: int| #[trigger] any_covers(sorted@, t) == any_covers(next, t) by {
                lemma_push_covers(done, span, t);
                assert(any_covers(before, t) == any_covers(done, t));
                assert(span.end <= span.start ==> !span.covers(t));
            }
        }
        i += 1;
    }
    assert(spans@.take(spans@.len() as int) =~= spans@);
    sorted
}

/// What one more span covers.
proof fn lemma_push_covers(a: Seq<Span>, s: Span, t: int)
    ensures
        any_covers(a.push(s), t) == (any_covers(a, t) || s.covers(t)),
{
    let b = a.push(s);
    if any_covers(b, t) {
        let i = choose|i: int| 0 <= i < b.len() && (#[trigger] b[i]).covers(t);
        if i < a.len() {
            assert(a[i].covers(t));
        }
    }
    if any_covers(a, t) {
        let i = choose|i: int| 0 <= i < a.len() && (#[trigger] a[i]).covers(t);
        assert(b[i].covers(t));
    }
    if s.covers(t) {
        assert(b[a.len() as int].covers(t));
    }
}

/// Merge spans into sorted, disjoint intervals (overlapping or touching spans are combined) so
/// overlap is measured against their union rather than double-counted where reference spans
/// overlap.
pub fn merge_spans(spans: &[Span]) -> (r: Vec<Span>)
    ensures
        is_merged(r@),
        same_times(r@, spans@),
        r@ == merged(spans@),
{
    let sorted = sort_spans(spans);
    let mut out: Vec<Span> = Vec::new();
    let mut i: usize = 0;
    while i < sorted.len()
        invariant
            i <= sorted@.len(),
            forall|k: int| 0 <= k < sorted@.len() ==> (#[trigger] sorted@[k]).start
                < sorted@[k].end,
            forall|k: int, j: int|
                0 <= k < j < sorted@.len() ==> (#[trigger] sorted@[k]).start <= (
                #[trigger] sorted@[j]).start,
            is_merged(out@),
            out@.len() > 0 ==> i > 0 && out@.last().start <= sorted@[i - 1].start,
            same_times(out@, sorted@.take(i as int)),
        decreases sorted.len() - i,
    {
        let span = sorted[i];
        let n: usize = out.len();
        let ghost before = out@;
        assert(i > 0 ==> sorted@[i - 1].start <= sorted@[i as int].start);
        if n > 0 && span.start <= out[n - 1].end {
            let last = out[n - 1];
            if last.end < span.end {
                out.set(n - 1, Span { start: last.start, end: span.end });
            }
            proof {
                lemma_extended(before, out@, span);
            }
        } else {
            out.push(span);
            proof {
                assert forall|k: int, j: int| 0 <= k < j < out@.len() implies (
                #[trigger] out@[k]).end < (#[trigger] out@[j]).start by {
                    if j == n {
                        if k < n - 1 {
                            assert(before[k].end < before[n - 1].start);
                        }
                        assert(before[n - 1].start < before[n - 1].end);
                    }
                }
                assert forall|t: int| #[trigger]
                    any_covers(out@, t) == (any_covers(before, t) || span.covers(t)) by {
                    lemma_push_covers(before, span, t);
                }
            }
        }
        proof {
            let done = sorted@.take(i as int);
            let next = sorted@.take(i + 1);
            assert(next =~= done.push(span));
            assert forall|t: int| #[trigger] any_covers(out@, t) == any_covers(next, t) by {
                lemma_push_covers(done, span, t);
                assert(any_covers(before, t) == any_covers(done, t));
            }
        }
        i += 1;
    }
    proof {
        assert(sorted@.take(sorted@.len() as int) =~= sorted@);
        assert forall|t: int| #[trigger] any_covers(out@, t) == any_covers(spans@, t) by {
            assert(any_covers(out@, t) == any_covers(sorted@, t));
            assert(any_covers(sorted@, t) == any_covers(spans@, t));
        }
        let m = merged(spans@);
        assert(is_merged(m) && same_times(m, spans@));
        assert forall|t: int| #[trigger] any_covers(out@, t) == any_covers(m, t) by {
            assert(any_covers(m, t) == any_covers(spans@, t));
        }
        law_merged_is_unique(out@, m);
    }
    out
}

/// Extending the last span to the end of one that starts within it.
proof fn lemma_extended(before: Seq<Span>, after: Seq<Span>, span: Span)
    requires
        is_merged(before),
        before.len() > 0,
        before.last().start <= span.start <= before.last().end,
        span.start < span.end,
        after == before || after == before.update(
            before.len() - 1,
            Span { start: before.last().start, end: span.end },
        ),
        after.last().end == before.last().end || after.last().end == span.end,
        after.last().end >= before.last().end && after.last().end >= span.end,
    ensures
        is_merged(after),
        after.last().start == before.last().start,
        forall|t: int| #[trigger]
            any_covers(after, t) == (any_covers(before, t) || span.covers(t)),
{
    let n = before.len() - 1;
    assert forall|k: int, j: int| 0 <= k < j < after.len() implies (#[trigger] after[k]).end < (
    #[trigger] after[j]).start by {
        assert(before[k].end < before[j].start);
    }
    assert forall|t: int| #[trigger]
        any_covers(after, t) == (any_covers(before, t) || span.covers(t)) by {
        if any_covers(after, t) {
            let k = choose|k: int| 0 <= k < after.len() && (#[trigger] after[k]).covers(t);
            if k == n && !span.covers(t) {
                assert(before[n].covers(t));
            } else if k < n {
                assert(before[k].covers(t));
            }
        }
        if any_covers(before, t) {
            let k = choose|k: int| 0 <= k < before.len() && (#[trigger] before[k]).covers(t);
            assert(after[k].covers(t));
        }
        if span.covers(t) {
            assert(after[n].covers(t));
        }
    }
}

// ---------------------------------------------------------------------------
// Overlap
// ---------------------------------------------------------------------------

/// How many milliseconds of `span` the reference spans cover, each counted on its own.
pub open spec fn covered(span: Span, reference: Seq<Span>) -> int
    decreases reference.len(),
{
    if reference.len() == 0 {
        0
    } else {
        covered(span, reference.drop_last()) + span.common(reference.last()).duration()
    }
}

/// How many milliseconds of the cues the reference covers, when each cue is shifted by its
/// offset.
pub open spec fn overlap_of(reference: Seq<Span>, cues: Seq<Span>, offsets: Seq<i64>) -> int
    decreases offsets.len(),
{
    if offsets.len() == 0 {
        0
    } else {
        let i = offsets.len() - 1;
        overlap_of(reference, cues, offsets.drop_last()) + covered(
            cues[i].moved(offsets[i] as int),
            reference,
        )
    }
}

/// The same offset for each of `n` cues.
pub open spec fn constant(n: nat, delta: i64) -> Seq<i64> {
    Seq::new(n, |i: int| delta)
}

/// Total overlap between the cues, all shifted by `delta`, and the reference.
pub open spec fn overlap_at(reference: Seq<Span>, cues: Seq<Span>, delta: i64) -> int {
    overlap_of(reference, cues, constant(cues.len(), delta))
}

/// The largest number of milliseconds that a span can cover.
pub const MOST: u128 = 18_446_744_073_709_551_615;

/// Disjoint spans cover of a span no more than there is of it.
proof fn lemma_covered_bound(span: Span, reference: Seq<Span>)
    requires
        is_merged(reference),
    ensures
        0 <= covered(span, reference),
        reference.len() == 0 || span.end <= span.start ==> covered(span, reference) == 0,
        reference.len() > 0 && span.start < span.end ==> covered(span, reference) <= {
            let e = if span.end <= reference.last().end {
                span.end
            } else {
                reference.last().end
            };
            if e <= span.start {
                0
            } else {
                e - span.start
            }
        },
    decreases reference.len(),
{
    if reference.len() > 0 {
        let rest = reference.drop_last();
        let r = reference.last();
        assert(r == reference[reference.len() - 1]);
        assert(is_merged(rest)) by {
            assert forall|i: int| 0 <= i < rest.len() implies (#[trigger] rest[i]).start
                < rest[i].end by {
                assert(rest[i] == reference[i]);
            }
            assert forall|i: int, j: int| 0 <= i < j < rest.len() implies (#[trigger] rest[i]).end
                < (#[trigger] rest[j]).start by {
                assert(rest[i] == reference[i] && rest[j] == reference[j]);
            }
        }
        lemma_covered_bound(span, rest);
        if rest.len() > 0 {
            assert(rest.last() == reference[reference.len() - 2]);
            assert(rest.last().end < r.start);
        }
    }
}

/// No more of a span is covered than a span can hold.
proof fn lemma_covered_most(span: Span, reference: Seq<Span>)
    requires
        is_merged(reference),
    ensures
        0 <= covered(span, reference) <= MOST,
{
    lemma_covered_bound(span, reference);
}

/// How many milliseconds of `span` the reference covers.
fn covered_by(span: Span, reference: &[Span]) -> (r: u128)
    requires
        is_merged(reference@),
    ensures
        r == covered(span, reference@),
        r <= MOST,
{
    let mut sum: u128 = 0;
    let mut i: usize = 0;
    let ghost all = reference@;
    while i < reference.len()
        invariant
            i <= reference@.len(),
            all == reference@,
            is_merged(all),
            sum == covered(span, all.take(i as int)),
            sum <= MOST,
        decreases reference.len() - i,
    {
        let more: i64 = span.overlap(&reference[i]);
        let ghost next = all.take(i + 1);
        proof {
            assert(next.drop_last() =~= all.take(i as int));
            assert(next.last() == all[i as int]);
            assert(is_merged(next)) by {
                assert forall|k: int| 0 <= k < next.len() implies (#[trigger] next[k]).start
                    < next[k].end by {
                    assert(next[k] == all[k]);
                }
                assert forall|k: int, j: int| 0 <= k < j < next.len() implies (
                #[trigger] next[k]).end < (#[trigger] next[j]).start by {
                    assert(next[k] == all[k] && next[j] == all[j]);
                }
            }
            lemma_covered_most(span, next);
        }
        sum = sum + more as u128;
        i += 1;
    }
    proof {
        assert(all.take(all.len() as int) =~= all);
    }
    sum
}

/// Total overlap (ms) between the `cues` shifted by `delta` and the `reference`, a set of
/// disjoint spans (see [`merge_spans`]).
pub fn total_overlap(reference: &[Span], cues: &[Span], delta: i64) -> (r: u128)
    requires
        is_merged(reference@),
    ensures
        r == overlap_at(reference@, cues@, delta),
        r <= cues@.len() * MOST,
{
    let mut sum: u128 = 0;
    let mut i: usize = 0;
    while i < cues.len()
        invariant
            i <= cues@.len(),
            is_merged(reference@),
            sum == overlap_of(reference@, cues@, constant(i as nat, delta)),
            sum <= i * MOST,
        decreases cues.len() - i,
    {
        let more: u128 = covered_by(cues[i].shifted(delta), reference);
        let ghost next = constant((i + 1) as nat, delta);
        proof {
            assert(next.drop_last() =~= constant(i as nat, delta));
            lemma_room(i, sum, more);
        }
        sum = sum + more;
        i += 1;
    }
    sum
}

/// A count of cues, each with no more overlap than a span can hold, is not too large.
proof fn lemma_room(i: usize, sum: u128, more: u128)
    requires
        i < usize::MAX,
        sum <= i * MOST,
        more <= MOST,
    ensures
        sum + more <= (i + 1) * MOST,
        sum + more + i64::MAX <= u128::MAX,
{
    assert((i + 1) * MOST == i * MOST + MOST) by (nonlinear_arith);
    assert((i + 1) * MOST <= u64::MAX * MOST) by (nonlinear_arith)
        requires
            i + 1 <= u64::MAX,
    ;
}

// ---------------------------------------------------------------------------
// One offset for all cues
// ---------------------------------------------------------------------------

/// The range of global offsets to search, in milliseconds.
#[derive(Clone, Copy, Debug)]
pub struct SearchRange {
    pub min_delta: i64,
    pub max_delta: i64,
    pub step: i64,
}

impl Default for SearchRange {
    fn default() -> (r: Self)
        ensures
            r.min_delta == -60_000,
            r.max_delta == 60_000,
            r.step == 20,
    {
        // 60 s to either side at 20 ms resolution: covers typical real-world offsets.
        SearchRange { min_delta: -60_000, max_delta: 60_000, step: 20 }
    }
}

impl SearchRange {
    /// The distance between two offsets, at least one millisecond.
    pub open spec fn stride(self) -> int {
        if self.step < 1 {
            1
        } else {
            self.step as int
        }
    }

    /// The `k`-th offset of the grid.
    pub open spec fn nth(self, k: int) -> int {
        self.min_delta + k * self.stride()
    }

    /// Whether `delta` is an offset that the search considers: no shift at all, or an offset of
    /// the grid from `min_delta` to `max_delta`.
    pub open spec fn offers(self, delta: i64) -> bool {
        delta == 0 || exists|k: int|
            0 <= k && #[trigger] self.nth(k) == delta && delta <= self.max_delta
    }
}

/// The size of a shift.
pub open spec fn size(delta: i64) -> int {
    if delta < 0 {
        -delta
    } else {
        delta as int
    }
}

/// Whether shifting all cues by `a` is preferred to shifting them by `b`: it gives more
/// overlap, or as much with a smaller shift, or as much with a shift as small that is not
/// later.
pub open spec fn preferred(reference: Seq<Span>, cues: Seq<Span>, a: i64, b: i64) -> bool {
    let x = overlap_at(reference, cues, a);
    let y = overlap_at(reference, cues, b);
    x > y || (x == y && (size(a) < size(b) || (size(a) == size(b) && a <= b)))
}

/// Whether `delta` is the offset to shift all cues by: the preferred one of those that the
/// search considers, with overlap measured against the union of the reference spans.
pub open spec fn is_best_offset(
    reference: Seq<Span>,
    cues: Seq<Span>,
    range: SearchRange,
    delta: i64,
) -> bool {
    &&& range.offers(delta)
    &&& forall|d: i64|
        range.offers(d) ==> #[trigger] preferred(merged(reference), cues, delta, d)
}

/// The size of a shift.
fn size_of_shift(delta: i64) -> (r: u64)
    ensures
        r == size(delta),
{
    if delta < 0 {
        (-(delta as i128)) as u64
    } else {
        delta as u64
    }
}

/// Find the single global offset (ms, to add to every cue) that best aligns the subtitle to
/// the reference activity.
///
/// Returns `0` when there is nothing to align (no cues or no reference) or when no offset
/// produces any overlap: it never shifts subtitles without evidence. Ties are broken toward
/// the offset closest to zero.
pub fn best_global_offset(reference: &[Span], cues: &[Span], range: SearchRange) -> (r: i64)
    ensures
        is_best_offset(reference@, cues@, range, r),
{
    let union = merge_spans(reference);
    best_offset_against(union.as_slice(), cues, range, Ghost(reference@)).0
}

/// The best offset for a merged reference, and its overlap.
fn best_offset_against(
    union: &[Span],
    cues: &[Span],
    range: SearchRange,
    Ghost(reference): Ghost<Seq<Span>>,
) -> (r: (i64, u128))
    requires
        is_merged(union@),
        union@ == merged(reference),
    ensures
        is_best_offset(reference, cues@, range, r.0),
        r.1 == overlap_at(union@, cues@, r.0),
        r.1 <= cues@.len() * MOST,
{
    let step: i64 = if range.step < 1 {
        1
    } else {
        range.step
    };
    // Seed with the no-op (delta 0): a candidate only wins with strictly more overlap, and
    // ties prefer the smaller absolute shift. With no overlap anywhere, the result stays at 0.
    let mut best: i64 = 0;
    let mut best_score: u128 = total_overlap(union, cues, 0);
    let ghost mut k: int = 0;
    let mut delta: i64 = range.min_delta;
    let mut past_end = false;
    while !past_end && delta <= range.max_delta
        invariant
            k >= 0,
            !past_end ==> delta == range.nth(k) && (best == 0 || best < delta),
            past_end ==> range.nth(k) > i64::MAX,
            is_merged(union@),
            step == range.stride(),
            range.offers(best),
            best_score == overlap_at(union@, cues@, best),
            best_score <= cues@.len() * MOST,
            preferred(union@, cues@, best, 0),
            forall|j: int, d: i64|
                0 <= j < k && d == #[trigger] range.nth(j) ==> #[trigger] preferred(
                    union@,
                    cues@,
                    best,
                    d,
                ),
        decreases i64::MAX - delta, if past_end { 0int } else { 1int },
    {
        let ghost was = best;
        let score: u128 = total_overlap(union, cues, delta);
        assert(range.nth(k) == delta);
        assert(range.offers(delta));
        if score > best_score || (score == best_score && size_of_shift(delta) < size_of_shift(best))
        {
            best_score = score;
            best = delta;
        }
        proof {
            assert forall|j: int, d: i64|
                0 <= j < k + 1 && d == #[trigger] range.nth(j) implies #[trigger] preferred(
                union@,
                cues@,
                best,
                d,
            ) by {
                if j < k {
                    assert(preferred(union@, cues@, was, d));
                }
            }
            lemma_next(range, k);
            k = k + 1;
        }
        // Checked add so a search range near i64::MAX can't overflow or loop forever.
        match delta.checked_add(step) {
            Some(next) => {
                delta = next;
            },
            None => {
                past_end = true;
            },
        }
    }
    proof {
        assert forall|d: i64| range.offers(d) implies #[trigger] preferred(
            union@,
            cues@,
            best,
            d,
        ) by {
            if d != 0 {
                let j = choose|j: int|
                    0 <= j && #[trigger] range.nth(j) == d && d <= range.max_delta;
                if j >= k {
                    lemma_nth_grows(range, k, j);
                }
                assert(d == range.nth(j));
            }
        }
    }
    (best, best_score)
}

/// One stride further on the grid.
proof fn lemma_next(range: SearchRange, k: int)
    ensures
        range.nth(k + 1) == range.nth(k) + range.stride(),
{
    let s = range.stride();
    assert((k + 1) * s == k * s + s) by (nonlinear_arith);
}

/// Later offsets of the grid are larger.
proof fn lemma_nth_grows(range: SearchRange, j: int, k: int)
    requires
        j <= k,
    ensures
        range.nth(j) <= range.nth(k),
        j < k ==> range.nth(j) < range.nth(k),
{
    let s = range.stride();
    assert(j * s <= k * s && (j < k ==> j * s < k * s)) by (nonlinear_arith)
        requires
            s >= 1,
            j <= k,
    ;
}

// ---------------------------------------------------------------------------
// An offset for each cue
// ---------------------------------------------------------------------------

/// How often the offset changes from one cue to the next.
pub open spec fn changes(offsets: Seq<i64>) -> int
    decreases offsets.len(),
{
    if offsets.len() <= 1 {
        0
    } else {
        let n = offsets.len();
        changes(offsets.drop_last()) + if offsets[n - 1] == offsets[n - 2] {
            0int
        } else {
            1int
        }
    }
}

/// How far the cues are shifted in all.
pub open spec fn total_shift(offsets: Seq<i64>) -> int
    decreases offsets.len(),
{
    if offsets.len() == 0 {
        0
    } else {
        total_shift(offsets.drop_last()) + size(offsets.last())
    }
}

/// What an assignment of offsets is worth: its overlap with the reference, less the penalty for
/// every change of the offset.
pub open spec fn worth(
    reference: Seq<Span>,
    cues: Seq<Span>,
    penalty: int,
    offsets: Seq<i64>,
) -> int {
    overlap_of(reference, cues, offsets) - penalty * changes(offsets)
}

/// Whether `offsets` gives each of `n` cues an offset that the search considers.
pub open spec fn is_assignment(range: SearchRange, n: nat, offsets: Seq<i64>) -> bool {
    offsets.len() == n && forall|i: int| 0 <= i < n ==> range.offers(#[trigger] offsets[i])
}

/// Whether `a` is at least as good as `b`: worth more, or worth as much with no larger shifts.
pub open spec fn as_good(
    reference: Seq<Span>,
    cues: Seq<Span>,
    penalty: int,
    a: Seq<i64>,
    b: Seq<i64>,
) -> bool {
    let x = worth(reference, cues, penalty, a);
    let y = worth(reference, cues, penalty, b);
    x > y || (x == y && total_shift(a) <= total_shift(b))
}

/// The penalty for a change of the offset; a negative one counts as none.
pub open spec fn penalty_of(split_penalty: i64) -> int {
    if split_penalty < 0 {
        0
    } else {
        split_penalty as int
    }
}

/// Whether `offsets` is a best assignment of offsets to the cues. The largest `split_penalty`
/// stands for an infinite one, with which all cues get one offset.
pub open spec fn is_best_assignment(
    reference: Seq<Span>,
    cues: Seq<Span>,
    range: SearchRange,
    split_penalty: i64,
    offsets: Seq<i64>,
) -> bool {
    if split_penalty == i64::MAX {
        exists|d: i64| #[trigger]
            is_best_offset(reference, cues, range, d) && offsets == constant(cues.len(), d)
    } else {
        &&& is_assignment(range, cues.len(), offsets)
        &&& forall|other: Seq<i64>|
            is_assignment(range, cues.len(), other) ==> #[trigger] as_good(
                merged(reference),
                cues,
                penalty_of(split_penalty),
                offsets,
                other,
            )
    }
}

/// The offsets that the search considers.
fn offered(range: SearchRange) -> (r: Vec<i64>)
    ensures
        r@.len() > 0,
        forall|i: int| 0 <= i < r@.len() ==> range.offers(#[trigger] r@[i]),
        forall|d: i64| #[trigger] range.offers(d) ==> r@.contains(d),
{
    let step: i64 = if range.step < 1 {
        1
    } else {
        range.step
    };
    let mut r: Vec<i64> = Vec::new();
    r.push(0);
    let ghost mut k: int = 0;
    let mut delta: i64 = range.min_delta;
    let mut past_end = false;
    while !past_end && delta <= range.max_delta
        invariant
            k >= 0,
            !past_end ==> delta == range.nth(k),
            past_end ==> range.nth(k) > i64::MAX,
            step == range.stride(),
            r@.len() == k + 1,
            r@[0] == 0,
            forall|i: int| 0 <= i < r@.len() ==> range.offers(#[trigger] r@[i]),
            forall|j: int| 0 <= j < k ==> r@[j + 1] == #[trigger] range.nth(j),
        decreases i64::MAX - delta, if past_end { 0int } else { 1int },
    {
        assert(range.nth(k) == delta);
        assert(range.offers(delta));
        r.push(delta);
        proof {
            lemma_next(range, k);
            k = k + 1;
        }
        match delta.checked_add(step) {
            Some(next) => {
                delta = next;
            },
            None => {
                past_end = true;
            },
        }
    }
    proof {
        assert forall|d: i64| #[trigger] range.offers(d) implies r@.contains(d) by {
            if d == 0 {
                assert(r@[0] == d);
            } else {
                let j = choose|j: int|
                    0 <= j && #[trigger] range.nth(j) == d && d <= range.max_delta;
                if j >= k {
                    lemma_nth_grows(range, k, j);
                }
                assert(r@[j + 1] == d);
            }
        }
    }
    r
}

/// What one more cue adds to an assignment.
proof fn lemma_push(
    reference: Seq<Span>,
    cues: Seq<Span>,
    penalty: int,
    offsets: Seq<i64>,
    delta: i64,
)
    ensures
        ({
            let next = offsets.push(delta);
            &&& worth(reference, cues, penalty, next) == worth(reference, cues, penalty, offsets)
                + covered(cues[offsets.len() as int].moved(delta as int), reference) - (
            if offsets.len() == 0 || offsets.last() == delta {
                0
            } else {
                penalty
            })
            &&& total_shift(next) == total_shift(offsets) + size(delta)
        }),
{
    let next = offsets.push(delta);
    let n = offsets.len();
    assert(next.drop_last() =~= offsets);
    assert(next[n as int] == delta);
    let c = changes(offsets);
    if n > 0 {
        assert(next[n - 1] == offsets.last());
    }
    assert(penalty * (c + 1) == penalty * c + penalty) by (nonlinear_arith);
    assert(penalty * (c + 0) == penalty * c);
}

/// Whether `path` is a best assignment to the first `n` cues of those that end in `last`, with
/// its worth and its shifts.
spec fn is_best_path(
    reference: Seq<Span>,
    cues: Seq<Span>,
    range: SearchRange,
    penalty: int,
    n: nat,
    last: i64,
    path: Seq<i64>,
    value: u128,
    shift: u128,
) -> bool {
    &&& n > 0
    &&& is_assignment(range, n, path)
    &&& path.last() == last
    &&& value == worth(reference, cues, penalty, path)
    &&& shift == total_shift(path)
    &&& value <= n * MOST
    &&& shift <= n * 0x8000_0000_0000_0000
    &&& forall|other: Seq<i64>|
        is_assignment(range, n, other) && other.last() == last ==> #[trigger] as_good(
            reference,
            cues,
            penalty,
            path,
            other,
        )
}

/// Whether the entries of a row are those of the best assignments to the first `n` cues, one
/// for each last offset.
spec fn is_row(
    reference: Seq<Span>,
    cues: Seq<Span>,
    range: SearchRange,
    penalty: int,
    n: nat,
    deltas: Seq<i64>,
    paths: Seq<Seq<i64>>,
    values: Seq<u128>,
    shifts: Seq<u128>,
) -> bool {
    &&& paths.len() == deltas.len()
    &&& values.len() == deltas.len()
    &&& shifts.len() == deltas.len()
    &&& forall|d: int|
        0 <= d < deltas.len() ==> is_best_path(
            reference,
            cues,
            range,
            penalty,
            n,
            #[trigger] deltas[d],
            paths[d],
            values[d],
            shifts[d],
        )
}

/// Whether entry `b` of a row is at least as good as every entry.
spec fn is_top(values: Seq<u128>, shifts: Seq<u128>, b: int) -> bool {
    &&& 0 <= b < values.len()
    &&& forall|d: int|
        0 <= d < values.len() ==> values[b] > #[trigger] values[d] || (values[b] == values[d]
            && shifts[b] <= shifts[d])
}

/// An entry of a row that is at least as good as every entry.
fn top_of(values: &Vec<u128>, shifts: &Vec<u128>) -> (b: usize)
    requires
        values@.len() > 0,
        values@.len() == shifts@.len(),
    ensures
        is_top(values@, shifts@, b as int),
        b < values@.len(),
{
    let mut b: usize = 0;
    let mut d: usize = 1;
    while d < values.len()
        invariant
            1 <= d <= values@.len(),
            values@.len() == shifts@.len(),
            b < d,
            forall|k: int|
                0 <= k < d ==> values@[b as int] > #[trigger] values@[k] || (values@[b as int]
                    == values@[k] && shifts@[b as int] <= shifts@[k]),
        decreases values.len() - d,
    {
        if values[d] > values[b] || (values[d] == values[b] && shifts[d] < shifts[b]) {
            b = d;
        }
        d += 1;
    }
    b
}

/// The row of the first cue.
fn first_row(
    union: &[Span],
    cues: &[Span],
    deltas: &Vec<i64>,
    range: SearchRange,
    Ghost(penalty): Ghost<int>,
) -> (r: (Vec<u128>, Vec<u128>, Ghost<Seq<Seq<i64>>>))
    requires
        is_merged(union@),
        cues@.len() > 0,
        forall|i: int| 0 <= i < deltas@.len() ==> range.offers(#[trigger] deltas@[i]),
    ensures
        is_row(union@, cues@, range, penalty, 1, deltas@, r.2@, r.0@, r.1@),
        forall|d: int| 0 <= d < deltas@.len() ==> (#[trigger] r.2@[d]) == seq![deltas@[d]],
{
    let mut values: Vec<u128> = Vec::new();
    let mut shifts: Vec<u128> = Vec::new();
    let ghost paths = Seq::new(deltas@.len(), |d: int| seq![deltas@[d]]);
    let mut d: usize = 0;
    while d < deltas.len()
        invariant
            d <= deltas@.len(),
            is_merged(union@),
            cues@.len() > 0,
            forall|i: int| 0 <= i < deltas@.len() ==> range.offers(#[trigger] deltas@[i]),
            values@.len() == d,
            shifts@.len() == d,
            paths == Seq::new(deltas@.len(), |d: int| seq![deltas@[d]]),
            forall|k: int|
                0 <= k < d ==> is_best_path(
                    union@,
                    cues@,
                    range,
                    penalty,
                    1,
                    #[trigger] deltas@[k],
                    paths[k],
                    values@[k],
                    shifts@[k],
                ),
        decreases deltas.len() - d,
    {
        let delta: i64 = deltas[d];
        let gain: u128 = covered_by(cues[0].shifted(delta), union);
        values.push(gain);
        shifts.push(size_of_shift(delta) as u128);
        proof {
            let empty = Seq::<i64>::empty();
            lemma_push(union@, cues@, penalty, empty, delta);
            assert(empty.push(delta) =~= seq![delta]);
            assert(penalty * changes(empty) == 0) by (nonlinear_arith)
                requires
                    changes(empty) == 0,
            ;
            assert forall|other: Seq<i64>|
                is_assignment(range, 1, other) && other.last()
                    == delta implies #[trigger] as_good(
                union@,
                cues@,
                penalty,
                paths[d as int],
                other,
            ) by {
                assert(other =~= seq![delta]);
            }
        }
        d += 1;
    }
    (values, shifts, Ghost(paths))
}

/// What the better of staying at an offset and of changing to it is worth.
proof fn lemma_entry_worth(
    reference: Seq<Span>,
    cues: Seq<Span>,
    range: SearchRange,
    penalty: int,
    n: nat,
    deltas: Seq<i64>,
    paths: Seq<Seq<i64>>,
    values: Seq<u128>,
    shifts: Seq<u128>,
    b: int,
    d: int,
    stays: bool,
)
    requires
        is_row(reference, cues, range, penalty, n, deltas, paths, values, shifts),
        0 <= b < deltas.len(),
        0 <= d < deltas.len(),
        0 <= penalty,
        range.offers(deltas[d]),
        !stays ==> values[b] > values[d] + penalty || (values[b] == values[d] + penalty && shifts[b]
            < shifts[d]),
    ensures
        ({
            let path = (if stays {
                paths[d]
            } else {
                paths[b]
            }).push(deltas[d]);
            let gain = covered(cues[n as int].moved(deltas[d] as int), reference);
            &&& is_assignment(range, n + 1, path)
            &&& worth(reference, cues, penalty, path) == gain + if stays {
                values[d] as int
            } else {
                values[b] - penalty
            }
            &&& total_shift(path) == size(deltas[d]) + if stays {
                shifts[d] as int
            } else {
                shifts[b] as int
            }
        }),
{
    let x = deltas[d];
    let before = if stays {
        paths[d]
    } else {
        paths[b]
    };
    let path = before.push(x);
    assert(is_best_path(reference, cues, range, penalty, n, deltas[d], paths[d], values[d], shifts[d]));
    assert(is_best_path(reference, cues, range, penalty, n, deltas[b], paths[b], values[b], shifts[b]));
    if !stays && deltas[b] == x {
        // The best assignment that ends in the same offset is no better.
        assert(as_good(reference, cues, penalty, paths[d], paths[b]));
    }
    lemma_push(reference, cues, penalty, before, x);
    assert forall|i: int| 0 <= i < n + 1 implies range.offers(#[trigger] path[i]) by {
        if i < n {
            assert(path[i] == before[i]);
        } else {
            assert(path[i] == deltas[d]);
        }
    }
}

/// The better of staying at an offset and of changing to it is the best.
proof fn lemma_entry(
    reference: Seq<Span>,
    cues: Seq<Span>,
    range: SearchRange,
    penalty: int,
    n: nat,
    deltas: Seq<i64>,
    paths: Seq<Seq<i64>>,
    values: Seq<u128>,
    shifts: Seq<u128>,
    b: int,
    d: int,
    stays: bool,
    value: u128,
    shift: u128,
)
    requires
        is_row(reference, cues, range, penalty, n, deltas, paths, values, shifts),
        is_top(values, shifts, b),
        0 <= d < deltas.len(),
        0 <= penalty,
        range.offers(deltas[d]),
        forall|x: i64| #[trigger] range.offers(x) ==> deltas.contains(x),
        stays == !(values[b] > values[d] + penalty || (values[b] == values[d] + penalty && shifts[b]
            < shifts[d])),
        value == covered(cues[n as int].moved(deltas[d] as int), reference) + if stays {
            values[d] as int
        } else {
            values[b] - penalty
        },
        shift == size(deltas[d]) + if stays {
            shifts[d] as int
        } else {
            shifts[b] as int
        },
        value <= (n + 1) * MOST,
        shift <= (n + 1) * 0x8000_0000_0000_0000,
    ensures
        is_best_path(
            reference,
            cues,
            range,
            penalty,
            n + 1,
            deltas[d],
            (if stays {
                paths[d]
            } else {
                paths[b]
            }).push(deltas[d]),
            value,
            shift,
        ),
{
    let x = deltas[d];
    let path = (if stays {
        paths[d]
    } else {
        paths[b]
    }).push(x);
    lemma_entry_worth(
        reference,
        cues,
        range,
        penalty,
        n,
        deltas,
        paths,
        values,
        shifts,
        b,
        d,
        stays,
    );
    assert forall|other: Seq<i64>|
        is_assignment(range, n + 1, other) && other.last() == x implies #[trigger] as_good(
        reference,
        cues,
        penalty,
        path,
        other,
    ) by {
        lemma_no_better(
            reference,
            cues,
            range,
            penalty,
            n,
            deltas,
            paths,
            values,
            shifts,
            b,
            d,
            value,
            shift,
            other,
        );
    }
}

/// No assignment that ends in an offset is better than both staying at it and changing to it.
proof fn lemma_no_better(
    reference: Seq<Span>,
    cues: Seq<Span>,
    range: SearchRange,
    penalty: int,
    n: nat,
    deltas: Seq<i64>,
    paths: Seq<Seq<i64>>,
    values: Seq<u128>,
    shifts: Seq<u128>,
    b: int,
    d: int,
    value: u128,
    shift: u128,
    other: Seq<i64>,
)
    requires
        is_row(reference, cues, range, penalty, n, deltas, paths, values, shifts),
        is_top(values, shifts, b),
        0 <= d < deltas.len(),
        0 <= penalty,
        forall|x: i64| #[trigger] range.offers(x) ==> deltas.contains(x),
        ({
            let gain = covered(cues[n as int].moved(deltas[d] as int), reference);
            let step = size(deltas[d]);
            let stay = values[d] + gain;
            let change = values[b] - penalty + gain;
            &&& value > stay || (value == stay && shift <= shifts[d] + step)
            &&& value > change || (value == change && shift <= shifts[b] + step)
        }),
        is_assignment(range, n + 1, other),
        other.last() == deltas[d],
    ensures
        value > worth(reference, cues, penalty, other) || (value == worth(
            reference,
            cues,
            penalty,
            other,
        ) && shift <= total_shift(other)),
{
    let x = deltas[d];
    let p = other.drop_last();
    assert(is_best_path(reference, cues, range, penalty, n, deltas[d], paths[d], values[d], shifts[d]));
    assert(p.push(x) =~= other);
    lemma_push(reference, cues, penalty, p, x);
    assert forall|i: int| 0 <= i < n implies range.offers(#[trigger] p[i]) by {
        assert(p[i] == other[i]);
    }
    assert(is_assignment(range, n, p));
    let u = p.last();
    assert(u == p[n - 1]);
    assert(range.offers(u));
    if u == x {
        assert(as_good(reference, cues, penalty, paths[d], p));
    } else {
        assert(deltas.contains(u));
        let e = choose|e: int| 0 <= e < deltas.len() && deltas[e] == u;
        assert(is_best_path(
            reference,
            cues,
            range,
            penalty,
            n,
            deltas[e],
            paths[e],
            values[e],
            shifts[e],
        ));
        assert(as_good(reference, cues, penalty, paths[e], p));
        assert(values[b] > values[e] || (values[b] == values[e] && shifts[b] <= shifts[e]));
    }
}

/// Whether each path of a row goes on from one of the row before.
spec fn goes_on(
    before: Seq<Seq<i64>>,
    after: Seq<Seq<i64>>,
    deltas: Seq<i64>,
    stays: Seq<bool>,
    from: int,
) -> bool {
    &&& 0 <= from < deltas.len()
    &&& stays.len() == deltas.len()
    &&& before.len() == deltas.len()
    &&& after.len() == deltas.len()
    &&& forall|d: int|
        0 <= d < deltas.len() ==> #[trigger] after[d] == (if stays[d] {
            before[d]
        } else {
            before[from]
        }).push(deltas[d])
}

/// The row of one more cue, with for each last offset whether the cue before stays at it, and
/// the last offset from which the others come.
fn next_row(
    union: &[Span],
    cues: &[Span],
    deltas: &Vec<i64>,
    range: SearchRange,
    penalty: u64,
    n: usize,
    values: &Vec<u128>,
    shifts: &Vec<u128>,
    Ghost(paths): Ghost<Seq<Seq<i64>>>,
) -> (r: (Vec<u128>, Vec<u128>, Vec<bool>, usize, Ghost<Seq<Seq<i64>>>))
    requires
        is_merged(union@),
        n < cues@.len(),
        deltas@.len() > 0,
        penalty <= i64::MAX,
        forall|i: int| 0 <= i < deltas@.len() ==> range.offers(#[trigger] deltas@[i]),
        forall|x: i64| #[trigger] range.offers(x) ==> deltas@.contains(x),
        is_row(
            union@,
            cues@,
            range,
            penalty as int,
            n as nat,
            deltas@,
            paths,
            values@,
            shifts@,
        ),
    ensures
        is_row(
            union@,
            cues@,
            range,
            penalty as int,
            (n + 1) as nat,
            deltas@,
            r.4@,
            r.0@,
            r.1@,
        ),
        goes_on(paths, r.4@, deltas@, r.2@, r.3 as int),
{
    let b: usize = top_of(values, shifts);
    let mut next_values: Vec<u128> = Vec::new();
    let mut next_shifts: Vec<u128> = Vec::new();
    let mut stays: Vec<bool> = Vec::new();
    let ghost mut next_paths: Seq<Seq<i64>> = seq![];
    let mut d: usize = 0;
    while d < deltas.len()
        invariant
            d <= deltas@.len(),
            is_merged(union@),
            n < cues@.len(),
            b < deltas@.len(),
            penalty <= i64::MAX,
            is_top(values@, shifts@, b as int),
            forall|i: int| 0 <= i < deltas@.len() ==> range.offers(#[trigger] deltas@[i]),
            forall|x: i64| #[trigger] range.offers(x) ==> deltas@.contains(x),
            is_row(
                union@,
                cues@,
                range,
                penalty as int,
                n as nat,
                deltas@,
                paths,
                values@,
                shifts@,
            ),
            next_values@.len() == d,
            next_shifts@.len() == d,
            stays@.len() == d,
            next_paths.len() == d,
            forall|k: int|
                0 <= k < d ==> is_best_path(
                    union@,
                    cues@,
                    range,
                    penalty as int,
                    (n + 1) as nat,
                    #[trigger] deltas@[k],
                    next_paths[k],
                    next_values@[k],
                    next_shifts@[k],
                ),
            forall|k: int|
                0 <= k < d ==> #[trigger] next_paths[k] == (if stays@[k] {
                    paths[k]
                } else {
                    paths[b as int]
                }).push(deltas@[k]),
        decreases deltas.len() - d,
    {
        let delta: i64 = deltas[d];
        let gain: u128 = covered_by(cues[n].shifted(delta), union);
        let step: u128 = size_of_shift(delta) as u128;
        proof {
            assert(is_best_path(
                union@,
                cues@,
                range,
                penalty as int,
                n as nat,
                deltas@[d as int],
                paths[d as int],
                values@[d as int],
                shifts@[d as int],
            ));
            assert(is_best_path(
                union@,
                cues@,
                range,
                penalty as int,
                n as nat,
                deltas@[b as int],
                paths[b as int],
                values@[b as int],
                shifts@[b as int],
            ));
            lemma_room(n, values@[d as int], gain);
            lemma_room(n, values@[b as int], gain);
            lemma_shift_room(n, shifts@[d as int], step);
            lemma_shift_room(n, shifts@[b as int], step);
        }
        let changed: u128 = values[d] + penalty as u128;
        let stay = !(values[b] > changed || (values[b] == changed && shifts[b] < shifts[d]));
        let value: u128 = if stay {
            values[d] + gain
        } else {
            values[b] - penalty as u128 + gain
        };
        let shift: u128 = if stay {
            shifts[d] + step
        } else {
            shifts[b] + step
        };
        proof {
            lemma_entry(
                union@,
                cues@,
                range,
                penalty as int,
                n as nat,
                deltas@,
                paths,
                values@,
                shifts@,
                b as int,
                d as int,
                stay,
                value,
                shift,
            );
            next_paths =
            next_paths.push(
                (if stay {
                    paths[d as int]
                } else {
                    paths[b as int]
                }).push(delta),
            );
        }
        next_values.push(value);
        next_shifts.push(shift);
        stays.push(stay);
        d += 1;
    }
    (next_values, next_shifts, stays, b, Ghost(next_paths))
}

/// A count of cues, each shifted by no more than 64 bits hold, is not too large.
proof fn lemma_shift_room(n: usize, sum: u128, more: u128)
    requires
        n < usize::MAX,
        sum <= n * 0x8000_0000_0000_0000,
        more <= 0x8000_0000_0000_0000,
    ensures
        sum + more <= (n + 1) * 0x8000_0000_0000_0000,
        sum + more <= u128::MAX,
{
}

/// Whether each row of paths goes on from the one before, and the first holds single offsets.
spec fn are_rows(
    rows: Seq<Seq<Seq<i64>>>,
    deltas: Seq<i64>,
    stays: Seq<Vec<bool>>,
    from: Seq<usize>,
) -> bool {
    &&& rows.len() > 0
    &&& stays.len() == rows.len() - 1
    &&& from.len() == rows.len() - 1
    &&& forall|d: int| 0 <= d < deltas.len() ==> (#[trigger] rows[0][d]) == seq![deltas[d]]
    &&& forall|i: int|
        0 <= i < rows.len() - 1 ==> goes_on(
            rows[i],
            #[trigger] rows[i + 1],
            deltas,
            stays[i]@,
            from[i] as int,
        )
}

/// The path that ends in offset `last` of the last row.
fn walk_back(
    deltas: &Vec<i64>,
    stays: &Vec<Vec<bool>>,
    from: &Vec<usize>,
    last: usize,
    Ghost(rows): Ghost<Seq<Seq<Seq<i64>>>>,
) -> (r: Vec<i64>)
    requires
        are_rows(rows, deltas@, stays@, from@),
        last < deltas@.len(),
    ensures
        r@ == rows.last()[last as int],
{
    let ghost path = rows.last()[last as int];
    // The offsets come out in reverse, from the last cue to the first.
    let mut reversed: Vec<i64> = Vec::new();
    let mut d: usize = last;
    let mut i: usize = stays.len();
    assert(path =~= rows[i as int][d as int] + reversed@.reverse());
    while i > 0
        invariant
            i < rows.len(),
            d < deltas@.len(),
            are_rows(rows, deltas@, stays@, from@),
            path == rows[i as int][d as int] + reversed@.reverse(),
        decreases i,
    {
        let ghost was = d;
        let ghost tail = reversed@;
        assert(goes_on(rows[i - 1], rows[i - 1 + 1], deltas@, stays@[i - 1]@, from@[i - 1] as int));
        reversed.push(deltas[d]);
        if !stays[i - 1][d] {
            d = from[i - 1];
        }
        i -= 1;
        proof {
            assert(rows[i + 1][was as int] == rows[i as int][d as int].push(deltas@[was as int]));
            assert(reversed@.reverse() =~= seq![deltas@[was as int]] + tail.reverse());
            assert(path =~= rows[i as int][d as int] + reversed@.reverse());
        }
    }
    let ghost tail = reversed@;
    reversed.push(deltas[d]);
    proof {
        assert(rows[0][d as int] == seq![deltas@[d as int]]);
        assert(reversed@.reverse() =~= seq![deltas@[d as int]] + tail.reverse());
        assert(path =~= reversed@.reverse());
    }
    let mut out: Vec<i64> = Vec::new();
    let mut k: usize = reversed.len();
    assert(reversed@.reverse().take(0) =~= out@);
    while k > 0
        invariant
            k <= reversed@.len(),
            out@ == reversed@.reverse().take(reversed@.len() - k),
        decreases k,
    {
        k -= 1;
        out.push(reversed[k]);
        assert(out@ =~= reversed@.reverse().take(reversed@.len() - k));
    }
    assert(out@ =~= path);
    out
}

/// The best entry of the last row is the best of all assignments.
proof fn lemma_top_is_best(
    reference: Seq<Span>,
    cues: Seq<Span>,
    range: SearchRange,
    penalty: int,
    n: nat,
    deltas: Seq<i64>,
    paths: Seq<Seq<i64>>,
    values: Seq<u128>,
    shifts: Seq<u128>,
    b: int,
    other: Seq<i64>,
)
    requires
        is_row(reference, cues, range, penalty, n, deltas, paths, values, shifts),
        is_top(values, shifts, b),
        n > 0,
        forall|x: i64| #[trigger] range.offers(x) ==> deltas.contains(x),
        is_assignment(range, n, other),
    ensures
        as_good(reference, cues, penalty, paths[b], other),
{
    let u = other.last();
    assert(u == other[other.len() - 1]);
    assert(range.offers(u));
    assert(deltas.contains(u));
    let e = choose|e: int| 0 <= e < deltas.len() && deltas[e] == u;
    assert(is_best_path(reference, cues, range, penalty, n, deltas[b], paths[b], values[b], shifts[b]));
    assert(is_best_path(reference, cues, range, penalty, n, deltas[e], paths[e], values[e], shifts[e]));
    assert(as_good(reference, cues, penalty, paths[e], other));
    assert(values[b] > values[e] || (values[b] == values[e] && shifts[b] <= shifts[e]));
}

/// The best assignment of offsets for a merged reference and a finite penalty, and its worth.
fn piecewise_offsets(union: &[Span], cues: &[Span], range: SearchRange, penalty: u64) -> (r: (
    Vec<i64>,
    u128,
))
    requires
        is_merged(union@),
        penalty <= i64::MAX,
        cues@.len() > 0,
    ensures
        is_assignment(range, cues@.len(), r.0@),
        forall|other: Seq<i64>|
            is_assignment(range, cues@.len(), other) ==> #[trigger] as_good(
                union@,
                cues@,
                penalty as int,
                r.0@,
                other,
            ),
        r.1 == worth(union@, cues@, penalty as int, r.0@),
{
    let deltas = offered(range);
    let (mut values, mut shifts, Ghost(first)) = first_row(
        union,
        cues,
        &deltas,
        range,
        Ghost(penalty as int),
    );
    let ghost mut rows: Seq<Seq<Seq<i64>>> = seq![first];
    let mut stays: Vec<Vec<bool>> = Vec::new();
    let mut from: Vec<usize> = Vec::new();
    let mut n: usize = 1;
    while n < cues.len()
        invariant
            1 <= n <= cues@.len(),
            is_merged(union@),
            deltas@.len() > 0,
            penalty <= i64::MAX,
            forall|i: int| 0 <= i < deltas@.len() ==> range.offers(#[trigger] deltas@[i]),
            forall|x: i64| #[trigger] range.offers(x) ==> deltas@.contains(x),
            rows.len() == n,
            are_rows(rows, deltas@, stays@, from@),
            is_row(
                union@,
                cues@,
                range,
                penalty as int,
                n as nat,
                deltas@,
                rows.last(),
                values@,
                shifts@,
            ),
        decreases cues.len() - n,
    {
        let (next_values, next_shifts, row_stays, row_from, Ghost(next_paths)) = next_row(
            union,
            cues,
            &deltas,
            range,
            penalty,
            n,
            &values,
            &shifts,
            Ghost(rows.last()),
        );
        let ghost before = rows;
        let ghost old_stays = stays@;
        let ghost old_from = from@;
        values = next_values;
        shifts = next_shifts;
        stays.push(row_stays);
        from.push(row_from);
        proof {
            rows = rows.push(next_paths);
            assert(rows.last() == next_paths);
            assert forall|i: int| 0 <= i < rows.len() - 1 implies goes_on(
                rows[i],
                #[trigger] rows[i + 1],
                deltas@,
                stays@[i]@,
                from@[i] as int,
            ) by {
                if i < before.len() - 1 {
                    assert(goes_on(
                        before[i],
                        before[i + 1],
                        deltas@,
                        old_stays[i]@,
                        old_from[i] as int,
                    ));
                }
            }
        }
        n += 1;
    }
    let b: usize = top_of(&values, &shifts);
    let out = walk_back(&deltas, &stays, &from, b, Ghost(rows));
    proof {
        assert(is_best_path(
            union@,
            cues@,
            range,
            penalty as int,
            n as nat,
            deltas@[b as int],
            out@,
            values@[b as int],
            shifts@[b as int],
        ));
        assert forall|other: Seq<i64>|
            is_assignment(range, cues@.len(), other) implies #[trigger] as_good(
            union@,
            cues@,
            penalty as int,
            out@,
            other,
        ) by {
            lemma_top_is_best(
                union@,
                cues@,
                range,
                penalty as int,
                n as nat,
                deltas@,
                rows.last(),
                values@,
                shifts@,
                b as int,
                other,
            );
        }
    }
    (out, values[b])
}

/// Offsets that are all the same never change.
proof fn lemma_constant_worth(reference: Seq<Span>, cues: Seq<Span>, penalty: int, delta: i64)
    ensures
        worth(reference, cues, penalty, constant(cues.len(), delta)) == overlap_at(
            reference,
            cues,
            delta,
        ),
{
    let o = constant(cues.len(), delta);
    lemma_constant_changes(cues.len(), delta);
    assert(penalty * changes(o) == 0) by (nonlinear_arith)
        requires
            changes(o) == 0,
    ;
}

proof fn lemma_constant_changes(n: nat, delta: i64)
    ensures
        changes(constant(n, delta)) == 0,
    decreases n,
{
    if n > 1 {
        lemma_constant_changes((n - 1) as nat, delta);
        assert(constant(n, delta).drop_last() =~= constant((n - 1) as nat, delta));
    }
}

/// Give each cue an offset (ms) so that the cues, shifted by their offsets, overlap most with
/// the reference, less `split_penalty` for each change of the offset from one cue to the next.
///
/// With a `split_penalty` of `i64::MAX`, which stands for an infinite one, all cues get the
/// offset of [`best_global_offset`]; a smaller one allows piecewise shifts. Of assignments
/// that are worth the same, one that shifts the cues least is taken.
pub fn align_offsets(
    reference: &[Span],
    cues: &[Span],
    range: SearchRange,
    split_penalty: i64,
) -> (r: Vec<i64>)
    ensures
        is_best_assignment(reference@, cues@, range, split_penalty, r@),
{
    let union = merge_spans(reference);
    best_offsets(union.as_slice(), cues, range, split_penalty, Ghost(reference@)).0
}

/// The best assignment of offsets for a merged reference, and its worth.
fn best_offsets(
    union: &[Span],
    cues: &[Span],
    range: SearchRange,
    split_penalty: i64,
    Ghost(reference): Ghost<Seq<Span>>,
) -> (r: (Vec<i64>, u128))
    requires
        is_merged(union@),
        union@ == merged(reference),
    ensures
        is_best_assignment(reference, cues@, range, split_penalty, r.0@),
        r.1 == worth(union@, cues@, penalty_of(split_penalty), r.0@),
{
    if split_penalty == i64::MAX {
        let (delta, score) = best_offset_against(union, cues, range, Ghost(reference));
        let mut out: Vec<i64> = Vec::new();
        let mut i: usize = 0;
        while i < cues.len()
            invariant
                i <= cues@.len(),
                out@ == constant(i as nat, delta),
            decreases cues.len() - i,
        {
            out.push(delta);
            assert(out@ =~= constant((i + 1) as nat, delta));
            i += 1;
        }
        proof {
            lemma_constant_worth(union@, cues@, penalty_of(split_penalty), delta);
        }
        (out, score)
    } else if cues.len() == 0 {
        let out: Vec<i64> = Vec::new();
        proof {
            let penalty = penalty_of(split_penalty);
            assert forall|other: Seq<i64>|
                is_assignment(range, 0, other) implies #[trigger] as_good(
                merged(reference),
                cues@,
                penalty,
                out@,
                other,
            ) by {
                assert(other =~= out@);
            }
            lemma_constant_worth(union@, cues@, penalty, 0);
            assert(out@ =~= constant(0, 0));
        }
        (out, 0)
    } else {
        let penalty: u64 = if split_penalty < 0 {
            0
        } else {
            split_penalty as u64
        };
        piecewise_offsets(union, cues, range, penalty)
    }
}

// ---------------------------------------------------------------------------
// Frame rates
// ---------------------------------------------------------------------------

/// A factor by which times are scaled: the ratio of two frame rates, both positive.
#[derive(Clone, Copy, Debug, PartialEq, Eq)]
pub struct FpsRatio {
    num: u32,
    den: u32,
}

impl FpsRatio {
    /// Both rates are positive.
    #[verifier::type_invariant]
    spec fn well_formed(self) -> bool {
        self.num > 0 && self.den > 0
    }

    /// The rate that times are multiplied by.
    pub closed spec fn num(self) -> int {
        self.num as int
    }

    /// The rate that times are divided by.
    pub closed spec fn den(self) -> int {
        self.den as int
    }

    /// The ratio of `num` to `den`; none if one of them is zero.
    pub fn new(num: u32, den: u32) -> (r: Option<FpsRatio>)
        ensures
            r is Some == (num > 0 && den > 0),
            r matches Some(f) ==> f.num() == num && f.den() == den,
    {
        if num > 0 && den > 0 {
            Some(FpsRatio { num, den })
        } else {
            None
        }
    }

    /// The ratio that leaves times as they are.
    pub fn unity() -> (r: FpsRatio)
        ensures
            r.num() == 1,
            r.den() == 1,
    {
        FpsRatio { num: 1, den: 1 }
    }
}

/// The integer nearest to `p / q`; of two that are equally near, the one further from zero.
pub open spec fn nearest(p: int, q: int) -> int {
    if p >= 0 {
        (2 * p + q) / (2 * q)
    } else {
        -((2 * -p + q) / (2 * q))
    }
}

/// The time `ms` scaled by `num / den`, to the nearest millisecond that 64 bits hold.
pub open spec fn scaled(ms: int, num: int, den: int) -> int {
    crate::saturated(nearest(ms * num, den))
}

/// The nearest integer is within a half.
pub proof fn law_nearest_is_within_a_half(p: int, q: int)
    requires
        q > 0,
    ensures
        -q <= 2 * (nearest(p, q) * q - p) <= q,
{
    let a = if p >= 0 {
        p
    } else {
        -p
    };
    let n = (2 * a + q) / (2 * q);
    vstd::arithmetic::div_mod::lemma_fundamental_div_mod(2 * a + q, 2 * q);
    assert(2 * q * n == 2 * (n * q)) by (nonlinear_arith);
    assert(-n * q == -(n * q)) by (nonlinear_arith);
}

/// Scaling by one leaves a time as it is.
pub proof fn law_unity_keeps_time(ms: int)
    requires
        i64::MIN <= ms <= i64::MAX,
    ensures
        scaled(ms, 1, 1) == ms,
{
    assert(ms * 1 == ms);
    law_nearest_is_within_a_half(ms, 1);
    let n = nearest(ms, 1);
    assert(n * 1 == n);
}

/// Scale a time by a frame-rate ratio, to the nearest millisecond.
pub fn scale_time(ms: i64, ratio: FpsRatio) -> (r: i64)
    ensures
        r == scaled(ms as int, ratio.num(), ratio.den()),
{
    proof {
        use_type_invariant(&ratio);
    }
    let num: i128 = ratio.num as i128;
    let den: i128 = ratio.den as i128;
    let t: i128 = ms as i128;
    assert(-0x8000_0000_0000_0000_0000_0000 <= t * num <= 0x8000_0000_0000_0000_0000_0000)
        by (nonlinear_arith)
        requires
            -0x8000_0000_0000_0000 <= t <= 0x8000_0000_0000_0000,
            0 < num <= 0x1_0000_0000,
    ;
    let p: i128 = t * num;
    let near: i128 = if p >= 0 {
        (2 * p + den) / (2 * den)
    } else {
        -((2 * -p + den) / (2 * den))
    };
    crate::saturate(near)
}

/// The frame-rate ratios that are scanned by default, as two rates in thousandths of a frame per
/// second: none at all, then every two of 23.976, 24, 25 and 29.97.
pub open spec fn common_ratios() -> Seq<(int, int)> {
    seq![
        (1, 1),
        (23976, 24000),
        (23976, 25000),
        (23976, 29970),
        (24000, 23976),
        (24000, 25000),
        (24000, 29970),
        (25000, 23976),
        (25000, 24000),
        (25000, 29970),
        (29970, 23976),
        (29970, 24000),
        (29970, 25000),
    ]
}

/// Whether the ratios are these, in this order.
pub open spec fn are_ratios(ratios: Seq<FpsRatio>, rates: Seq<(int, int)>) -> bool {
    ratios.len() == rates.len() && forall|i: int|
        0 <= i < rates.len() ==> (#[trigger] ratios[i]).num() == rates[i].0 && ratios[i].den()
            == rates[i].1
}

/// How the alignment is searched for.
#[derive(Clone, Debug)]
pub struct AlignParams {
    /// The offsets that are considered.
    pub range: SearchRange,
    /// What is charged, in milliseconds of overlap, for a change of the offset from one cue to
    /// the next; `i64::MAX` for a single global shift.
    pub split_penalty: i64,
    /// The frame-rate ratios that are tried, in order of preference; none at all means that
    /// times are not scaled.
    pub fps_ratios: Vec<FpsRatio>,
}

impl Default for AlignParams {
    fn default() -> (r: Self)
        ensures
            r.range.min_delta == -60_000,
            r.range.max_delta == 60_000,
            r.range.step == 20,
            r.split_penalty == i64::MAX,
            are_ratios(r.fps_ratios@, common_ratios()),
    {
        let rates: [u32; 4] = [23976, 24000, 25000, 29970];
        let mut fps_ratios: Vec<FpsRatio> = Vec::new();
        fps_ratios.push(FpsRatio::unity());
        let mut i: usize = 0;
        while i < 4
            invariant
                i <= 4,
                rates@ == seq![23976u32, 24000, 25000, 29970],
                fps_ratios@.len() == 1 + 3 * i,
                are_ratios(fps_ratios@, common_ratios().take(1 + 3 * i)),
            decreases 4 - i,
        {
            let mut j: usize = 0;
            while j < 4
                invariant
                    i < 4,
                    j <= 4,
                    rates@ == seq![23976u32, 24000, 25000, 29970],
                    fps_ratios@.len() == 1 + 3 * i + j - (if j > i {
                        1int
                    } else {
                        0int
                    }),
                    are_ratios(fps_ratios@, common_ratios().take(fps_ratios@.len() as int)),
                decreases 4 - j,
            {
                if i != j {
                    let ghost n = fps_ratios@.len() as int;
                    let ratio = FpsRatio { num: rates[i], den: rates[j] };
                    fps_ratios.push(ratio);
                    assert(ratio.num() == common_ratios()[n].0);
                    assert(ratio.den() == common_ratios()[n].1);
                }
                j += 1;
            }
            i += 1;
        }
        assert(common_ratios().take(13) =~= common_ratios());
        AlignParams { range: SearchRange::default(), split_penalty: i64::MAX, fps_ratios }
    }
}

/// The correction that was found: scale every time by `fps_ratio`, then add to each cue its
/// offset.
#[derive(Clone, Debug)]
pub struct Alignment {
    pub fps_ratio: FpsRatio,
    pub offsets: Vec<i64>,
    /// The overlap with the reference that the correction gives, less the penalties.
    pub score: u128,
}

/// The cues with their times scaled.
pub open spec fn scaled_spans(cues: Seq<Span>, ratio: FpsRatio) -> Seq<Span> {
    Seq::new(
        cues.len(),
        |i: int|
            Span {
                start: scaled(cues[i].start as int, ratio.num(), ratio.den()) as i64,
                end: scaled(cues[i].end as int, ratio.num(), ratio.den()) as i64,
            },
    )
}

/// What offsets are worth when times are scaled by `ratio` before.
pub open spec fn worth_at(
    reference: Seq<Span>,
    cues: Seq<Span>,
    params: AlignParams,
    ratio: FpsRatio,
    offsets: Seq<i64>,
) -> int {
    worth(
        merged(reference),
        scaled_spans(cues, ratio),
        penalty_of(params.split_penalty),
        offsets,
    )
}

/// Whether `offsets` is a best assignment when times are scaled by `ratio` before.
pub open spec fn is_best_at(
    reference: Seq<Span>,
    cues: Seq<Span>,
    params: AlignParams,
    ratio: FpsRatio,
    offsets: Seq<i64>,
) -> bool {
    is_best_assignment(
        reference,
        scaled_spans(cues, ratio),
        params.range,
        params.split_penalty,
        offsets,
    )
}

/// Whether `a` is a best alignment that scales by `ratio`.
pub open spec fn is_alignment_at(
    reference: Seq<Span>,
    cues: Seq<Span>,
    params: AlignParams,
    ratio: FpsRatio,
    a: Alignment,
) -> bool {
    &&& a.fps_ratio.num() == ratio.num()
    &&& a.fps_ratio.den() == ratio.den()
    &&& is_best_at(reference, cues, params, ratio, a.offsets@)
    &&& a.score == worth_at(reference, cues, params, ratio, a.offsets@)
}

/// Whether `a` is a best alignment of those that scale by one of the ratios: no other ratio
/// gives more, and none before its own gives as much.
pub open spec fn is_best_of(
    reference: Seq<Span>,
    cues: Seq<Span>,
    params: AlignParams,
    ratios: Seq<FpsRatio>,
    a: Alignment,
) -> bool {
    exists|k: int|
        0 <= k < ratios.len() && is_alignment_at(
            reference,
            cues,
            params,
            #[trigger] ratios[k],
            a,
        ) && forall|j: int, offsets: Seq<i64>|
            0 <= j < ratios.len() && #[trigger] is_best_at(
                reference,
                cues,
                params,
                ratios[j],
                offsets,
            ) ==> {
                let w = worth_at(reference, cues, params, ratios[j], offsets);
                w < a.score || (w == a.score && k <= j)
            }
}

/// Whether `a` is the alignment to apply: the best one over the ratios of `params`, or without
/// scaling if it names none.
pub open spec fn is_best_alignment(
    reference: Seq<Span>,
    cues: Seq<Span>,
    params: AlignParams,
    a: Alignment,
) -> bool {
    if params.fps_ratios@.len() == 0 {
        exists|unity: FpsRatio|
            unity.num() == 1 && unity.den() == 1 && #[trigger] is_alignment_at(
                reference,
                cues,
                params,
                unity,
                a,
            )
    } else {
        is_best_of(reference, cues, params, params.fps_ratios@, a)
    }
}

/// Every two best assignments are worth the same.
proof fn lemma_best_worth(
    reference: Seq<Span>,
    cues: Seq<Span>,
    range: SearchRange,
    split_penalty: i64,
    a: Seq<i64>,
    b: Seq<i64>,
)
    requires
        is_best_assignment(reference, cues, range, split_penalty, a),
        is_best_assignment(reference, cues, range, split_penalty, b),
    ensures
        worth(merged(reference), cues, penalty_of(split_penalty), a) == worth(
            merged(reference),
            cues,
            penalty_of(split_penalty),
            b,
        ),
{
    if split_penalty == i64::MAX {
        let x = choose|d: i64| #[trigger]
            is_best_offset(reference, cues, range, d) && a == constant(cues.len(), d);
        let y = choose|d: i64| #[trigger]
            is_best_offset(reference, cues, range, d) && b == constant(cues.len(), d);
        law_best_offset_is_unique(reference, cues, range, x, y);
    } else {
        let penalty = penalty_of(split_penalty);
        assert(as_good(merged(reference), cues, penalty, a, b));
        assert(as_good(merged(reference), cues, penalty, b, a));
    }
}

/// There is only one best offset.
pub proof fn law_best_offset_is_unique(
    reference: Seq<Span>,
    cues: Seq<Span>,
    range: SearchRange,
    a: i64,
    b: i64,
)
    requires
        is_best_offset(reference, cues, range, a),
        is_best_offset(reference, cues, range, b),
    ensures
        a == b,
{
    assert(preferred(merged(reference), cues, a, b));
    assert(preferred(merged(reference), cues, b, a));
}

/// The cues with their times scaled.
fn scale_spans(cues: &[Span], ratio: FpsRatio) -> (r: Vec<Span>)
    ensures
        r@ == scaled_spans(cues@, ratio),
{
    let mut r: Vec<Span> = Vec::new();
    let mut i: usize = 0;
    while i < cues.len()
        invariant
            i <= cues@.len(),
            r@ == scaled_spans(cues@, ratio).take(i as int),
        decreases cues.len() - i,
    {
        let span = Span::new(scale_time(cues[i].start, ratio), scale_time(cues[i].end, ratio));
        r.push(span);
        assert(r@ =~= scaled_spans(cues@, ratio).take(i + 1));
        i += 1;
    }
    assert(r@ =~= scaled_spans(cues@, ratio));
    r
}

/// The best alignment that scales times by `ratio`.
pub fn align_at(
    reference: &[Span],
    cues: &[Span],
    params: &AlignParams,
    ratio: FpsRatio,
) -> (r: Alignment)
    ensures
        is_alignment_at(reference@, cues@, *params, ratio, r),
{
    let union = merge_spans(reference);
    let spans = scale_spans(cues, ratio);
    let (offsets, score) = best_offsets(
        union.as_slice(),
        spans.as_slice(),
        params.range,
        params.split_penalty,
        Ghost(reference@),
    );
    Alignment { fps_ratio: ratio, offsets, score }
}

/// Of two alignments the one with the higher score; the first, if they score the same.
pub fn better_of(first: Alignment, second: Alignment) -> (r: Alignment)
    ensures
        r == if second.score > first.score {
            second
        } else {
            first
        },
{
    if second.score > first.score {
        second
    } else {
        first
    }
}

/// One more ratio tried.
proof fn lemma_one_more_ratio(
    reference: Seq<Span>,
    cues: Seq<Span>,
    params: AlignParams,
    ratios: Seq<FpsRatio>,
    ratio: FpsRatio,
    best: Alignment,
    next: Alignment,
    chosen: Alignment,
)
    requires
        is_best_of(reference, cues, params, ratios, best),
        is_alignment_at(reference, cues, params, ratio, next),
        chosen == if next.score > best.score {
            next
        } else {
            best
        },
    ensures
        is_best_of(reference, cues, params, ratios.push(ratio), chosen),
{
    let all = ratios.push(ratio);
    let n = ratios.len() as int;
    let k = choose|k: int|
        0 <= k < ratios.len() && is_alignment_at(
            reference,
            cues,
            params,
            #[trigger] ratios[k],
            best,
        ) && forall|j: int, offsets: Seq<i64>|
            0 <= j < ratios.len() && #[trigger] is_best_at(
                reference,
                cues,
                params,
                ratios[j],
                offsets,
            ) ==> {
                let w = worth_at(reference, cues, params, ratios[j], offsets);
                w < best.score || (w == best.score && k <= j)
            };
    let at = if next.score > best.score {
        n
    } else {
        k
    };
    assert(is_alignment_at(reference, cues, params, all[at], chosen));
    assert forall|j: int, offsets: Seq<i64>|
        0 <= j < all.len() && #[trigger] is_best_at(
            reference,
            cues,
            params,
            all[j],
            offsets,
        ) implies {
        let w = worth_at(reference, cues, params, all[j], offsets);
        w < chosen.score || (w == chosen.score && at <= j)
    } by {
        if j < n {
            assert(is_best_at(reference, cues, params, ratios[j], offsets));
        } else {
            lemma_best_worth(
                reference,
                scaled_spans(cues, ratio),
                params.range,
                params.split_penalty,
                offsets,
                next.offsets@,
            );
        }
    }
}

/// A search over the frame-rate ratios that is under way. It can be taken one ratio at a time,
/// so that a caller can say how far it is.
pub struct RatioSearch {
    tried: usize,
    best: Alignment,
}

impl RatioSearch {
    /// How many ratios have been tried.
    pub closed spec fn tried_count(self) -> int {
        self.tried as int
    }

    /// Whether the search is one for these inputs: it holds the best alignment of those that
    /// scale by a ratio that was tried.
    pub closed spec fn is_for(
        self,
        reference: Seq<Span>,
        cues: Seq<Span>,
        params: AlignParams,
    ) -> bool {
        let ratios = params.fps_ratios@;
        if ratios.len() == 0 {
            self.tried == 1 && is_best_alignment(reference, cues, params, self.best)
        } else {
            &&& 1 <= self.tried <= ratios.len()
            &&& is_best_of(reference, cues, params, ratios.take(self.tried as int), self.best)
        }
    }

    /// Try the first ratio, or align without scaling if `params` names none.
    pub fn start(reference: &[Span], cues: &[Span], params: &AlignParams) -> (r: RatioSearch)
        ensures
            r.is_for(reference@, cues@, *params),
            r.tried_count() == 1,
    {
        if params.fps_ratios.len() == 0 {
            let best = align_at(reference, cues, params, FpsRatio::unity());
            return RatioSearch { tried: 1, best };
        }
        let best = align_at(reference, cues, params, params.fps_ratios[0]);
        proof {
            let ratios = params.fps_ratios@.take(1);
            let ratio = params.fps_ratios@[0];
            assert(is_alignment_at(reference@, cues@, *params, ratios[0], best));
            assert forall|j: int, offsets: Seq<i64>|
                0 <= j < ratios.len() && #[trigger] is_best_at(
                    reference@,
                    cues@,
                    *params,
                    ratios[j],
                    offsets,
                ) implies {
                let w = worth_at(reference@, cues@, *params, ratios[j], offsets);
                w < best.score || (w == best.score && 0 <= j)
            } by {
                lemma_best_worth(
                    reference@,
                    scaled_spans(cues@, ratio),
                    params.range,
                    params.split_penalty,
                    offsets,
                    best.offsets@,
                );
            }
            assert(is_best_of(reference@, cues@, *params, ratios, best));
        }
        RatioSearch { tried: 1, best }
    }

    /// Whether every ratio has been tried.
    pub fn is_done(&self, params: &AlignParams) -> (r: bool)
        ensures
            r == (self.tried_count() >= params.fps_ratios@.len()),
    {
        self.tried >= params.fps_ratios.len()
    }

    /// How many ratios have been tried.
    pub fn tried(&self) -> (r: usize)
        ensures
            r == self.tried_count(),
    {
        self.tried
    }

    /// Try the next ratio. Its alignment is taken only if it scores strictly higher.
    pub fn step(self, reference: &[Span], cues: &[Span], params: &AlignParams) -> (r: RatioSearch)
        requires
            self.is_for(reference@, cues@, *params),
            self.tried_count() < params.fps_ratios@.len(),
        ensures
            r.is_for(reference@, cues@, *params),
            r.tried_count() == self.tried_count() + 1,
    {
        let ratio = params.fps_ratios[self.tried];
        let next = align_at(reference, cues, params, ratio);
        let tried = self.tried;
        assert(tried < params.fps_ratios.len());
        let ghost was = self.best;
        let ghost other = next;
        let best = better_of(self.best, next);
        proof {
            let ratios = params.fps_ratios@.take(tried as int);
            assert(params.fps_ratios@.take(tried + 1) =~= ratios.push(ratio));
            lemma_one_more_ratio(reference@, cues@, *params, ratios, ratio, was, other, best);
        }
        RatioSearch { tried: tried + 1, best }
    }

    /// The best alignment so far: the one to apply, once every ratio has been tried.
    pub fn finish(self) -> (r: Alignment)
        ensures
            forall|reference: Seq<Span>, cues: Seq<Span>, params: AlignParams| #[trigger]
                self.is_for(reference, cues, params) && self.tried_count()
                    >= params.fps_ratios@.len() ==> is_best_alignment(reference, cues, params, r),
    {
        proof {
            assert forall|reference: Seq<Span>, cues: Seq<Span>, params: AlignParams| #[trigger]
                self.is_for(reference, cues, params) && self.tried_count()
                    >= params.fps_ratios@.len() implies is_best_alignment(
                reference,
                cues,
                params,
                self.best,
            ) by {
                let ratios = params.fps_ratios@;
                assert(ratios.take(ratios.len() as int) =~= ratios);
            }
        }
        self.best
    }
}

/// The best alignment over the frame-rate ratios of `params`: each is tried in turn, and a
/// later one is taken only if it scores strictly higher.
pub fn best_alignment(reference: &[Span], cues: &[Span], params: &AlignParams) -> (r: Alignment)
    ensures
        is_best_alignment(reference@, cues@, *params, r),
{
    let mut search = RatioSearch::start(reference, cues, params);
    while !search.is_done(params)
        invariant
            search.is_for(reference@, cues@, *params),
        decreases params.fps_ratios@.len() - search.tried_count(),
    {
        search = search.step(reference, cues, params);
    }
    search.finish()
}

// ---------------------------------------------------------------------------
// Laws
// ---------------------------------------------------------------------------

/// Whether all spans start after `b`.
spec fn all_after(spans: Seq<Span>, b: int) -> bool {
    forall|i: int| 0 <= i < spans.len() ==> b < (#[trigger] spans[i]).start
}

/// Merged spans with one more span merged into them.
proof fn lemma_merge_one(m: Seq<Span>, s: Span) -> (r: Seq<Span>)
    requires
        is_merged(m),
        s.start < s.end,
    ensures
        is_merged(r),
        forall|t: int| #[trigger] any_covers(r, t) == (any_covers(m, t) || s.covers(t)),
        forall|b: int| #[trigger] all_after(m, b) && b < s.start ==> all_after(r, b),
    decreases m.len(),
{
    if m.len() == 0 {
        let r = seq![s];
        assert forall|t: int| #[trigger] any_covers(r, t) == (any_covers(m, t) || s.covers(t)) by {
            if s.covers(t) {
                assert(r[0].covers(t));
            }
        }
        return r;
    }
    let first = m[0];
    let rest = m.drop_first();
    assert(is_merged(rest)) by {
        assert forall|i: int| 0 <= i < rest.len() implies (#[trigger] rest[i]).start
            < rest[i].end by {
            assert(rest[i] == m[i + 1]);
        }
        assert forall|i: int, j: int| 0 <= i < j < rest.len() implies (#[trigger] rest[i]).end < (
        #[trigger] rest[j]).start by {
            assert(rest[i] == m[i + 1] && rest[j] == m[j + 1]);
        }
    }
    if s.end < first.start {
        let r = seq![s] + m;
        assert forall|i: int| 0 <= i < r.len() implies (#[trigger] r[i]).start < r[i].end by {
            if i > 0 {
                assert(r[i] == m[i - 1]);
            }
        }
        assert forall|i: int, j: int| 0 <= i < j < r.len() implies (#[trigger] r[i]).end < (
        #[trigger] r[j]).start by {
            assert(r[j] == m[j - 1]);
            if i > 0 {
                assert(r[i] == m[i - 1]);
            } else if j > 1 {
                assert(m[0].end < m[j - 1].start);
            }
        }
        assert forall|t: int| #[trigger] any_covers(r, t) == (any_covers(m, t) || s.covers(t)) by {
            lemma_rest_covers(r, t);
            assert(r.drop_first() =~= m);
            if s.covers(t) {
                assert(r[0].covers(t));
            }
            if any_covers(m, t) {
                let i = choose|i: int| 0 <= i < m.len() && (#[trigger] m[i]).covers(t);
                assert(r[i + 1].covers(t));
            }
        }
        assert forall|b: int| #[trigger] all_after(m, b) && b < s.start implies all_after(
            r,
            b,
        ) by {
            assert forall|i: int| 0 <= i < r.len() implies b < (#[trigger] r[i]).start by {
                if i > 0 {
                    assert(r[i] == m[i - 1]);
                }
            }
        }
        return r;
    }
    if first.end < s.start {
        let more = lemma_merge_one(rest, s);
        let r = seq![first] + more;
        assert forall|i: int| 0 <= i < rest.len() implies first.end < (#[trigger] rest[i]).start by {
            assert(rest[i] == m[i + 1]);
            assert(m[0].end < m[i + 1].start);
        }
        assert(all_after(rest, first.end as int));
        assert(all_after(more, first.end as int));
        assert forall|i: int| 0 <= i < r.len() implies (#[trigger] r[i]).start < r[i].end by {
            if i > 0 {
                assert(r[i] == more[i - 1]);
            }
        }
        assert forall|i: int, j: int| 0 <= i < j < r.len() implies (#[trigger] r[i]).end < (
        #[trigger] r[j]).start by {
            assert(r[j] == more[j - 1]);
            if i > 0 {
                assert(r[i] == more[i - 1]);
            }
        }
        assert forall|t: int| #[trigger] any_covers(r, t) == (any_covers(m, t) || s.covers(t)) by {
            lemma_rest_covers(r, t);
            lemma_rest_covers(m, t);
            assert(r.drop_first() =~= more);
            assert(any_covers(more, t) == (any_covers(rest, t) || s.covers(t)));
            if first.covers(t) {
                assert(r[0].covers(t));
                assert(m[0].covers(t));
            }
        }
        assert forall|b: int| #[trigger] all_after(m, b) && b < s.start implies all_after(
            r,
            b,
        ) by {
            assert forall|i: int| 0 <= i < r.len() implies b < (#[trigger] r[i]).start by {
                assert(b < m[0].start);
                assert(all_after(rest, b)) by {
                    assert forall|k: int| 0 <= k < rest.len() implies b < (
                    #[trigger] rest[k]).start by {
                        assert(rest[k] == m[k + 1]);
                    }
                }
                assert(all_after(more, b));
                if i > 0 {
                    assert(r[i] == more[i - 1]);
                }
            }
        }
        return r;
    }
    // The two touch: one span covers both.
    let both = Span {
        start: if first.start <= s.start {
            first.start
        } else {
            s.start
        },
        end: if first.end >= s.end {
            first.end
        } else {
            s.end
        },
    };
    let r = lemma_merge_one(rest, both);
    assert forall|t: int| #[trigger] any_covers(r, t) == (any_covers(m, t) || s.covers(t)) by {
        lemma_rest_covers(m, t);
        assert(any_covers(r, t) == (any_covers(rest, t) || both.covers(t)));
        if first.covers(t) {
            assert(m[0].covers(t));
        }
    }
    assert forall|b: int| #[trigger] all_after(m, b) && b < s.start implies all_after(r, b) by {
        assert(b < m[0].start);
        assert forall|i: int| 0 <= i < rest.len() implies b < (#[trigger] rest[i]).start by {
            assert(rest[i] == m[i + 1]);
        }
        assert(all_after(rest, b));
    }
    r
}

/// Every set of times that spans cover can be covered by merged spans.
pub proof fn law_merged_covers_the_same(spans: Seq<Span>)
    ensures
        is_merged(merged(spans)),
        same_times(merged(spans), spans),
{
    let m = lemma_merge_all(spans);
    assert(is_merged(m) && same_times(m, spans));
}

proof fn lemma_merge_all(spans: Seq<Span>) -> (r: Seq<Span>)
    ensures
        is_merged(r),
        same_times(r, spans),
    decreases spans.len(),
{
    if spans.len() == 0 {
        let r = Seq::<Span>::empty();
        assert(same_times(r, spans));
        r
    } else {
        let before = spans.drop_last();
        let s = spans.last();
        let m = lemma_merge_all(before);
        assert(before.push(s) =~= spans);
        if s.start < s.end {
            let r = lemma_merge_one(m, s);
            assert forall|t: int| #[trigger] any_covers(r, t) == any_covers(spans, t) by {
                lemma_push_covers(before, s, t);
                assert(any_covers(m, t) == any_covers(before, t));
            }
            r
        } else {
            assert forall|t: int| #[trigger] any_covers(m, t) == any_covers(spans, t) by {
                lemma_push_covers(before, s, t);
                assert(any_covers(m, t) == any_covers(before, t));
            }
            m
        }
    }
}

/// Only the times that the reference covers count: two references that cover the same times,
/// however they are split and repeated, have the same best offset.
pub proof fn law_same_times_same_offset(
    a: Seq<Span>,
    b: Seq<Span>,
    cues: Seq<Span>,
    range: SearchRange,
    delta: i64,
)
    requires
        same_times(a, b),
    ensures
        is_best_offset(a, cues, range, delta) == is_best_offset(b, cues, range, delta),
{
    law_merged_covers_the_same(a);
    law_merged_covers_the_same(b);
    let x = merged(a);
    let y = merged(b);
    assert forall|t: int| #[trigger] any_covers(x, t) == any_covers(y, t) by {
        assert(any_covers(x, t) == any_covers(a, t));
        assert(any_covers(a, t) == any_covers(b, t));
        assert(any_covers(y, t) == any_covers(b, t));
    }
    law_merged_is_unique(x, y);
}

/// Without evidence nothing is shifted: if no offset that is considered gives any overlap, the
/// best offset is zero.
pub proof fn law_no_overlap_no_shift(
    reference: Seq<Span>,
    cues: Seq<Span>,
    range: SearchRange,
    delta: i64,
)
    requires
        is_best_offset(reference, cues, range, delta),
        forall|d: i64| range.offers(d) ==> #[trigger] overlap_at(merged(reference), cues, d) == 0,
    ensures
        delta == 0,
{
    assert(preferred(merged(reference), cues, delta, 0));
    assert(overlap_at(merged(reference), cues, delta) == 0);
    assert(overlap_at(merged(reference), cues, 0) == 0);
}

/// Nothing is shifted when there are no cues or there is no reference.
pub proof fn law_nothing_to_align(
    reference: Seq<Span>,
    cues: Seq<Span>,
    range: SearchRange,
    delta: i64,
)
    requires
        reference.len() == 0 || cues.len() == 0,
        is_best_offset(reference, cues, range, delta),
    ensures
        delta == 0,
{
    let m = merged(reference);
    if reference.len() == 0 {
        law_merged_covers_the_same(reference);
        if m.len() > 0 {
            assert(m[0].covers(m[0].start as int));
            assert(any_covers(m, m[0].start as int));
            assert(any_covers(reference, m[0].start as int));
        }
    }
    assert forall|d: i64| range.offers(d) implies #[trigger] overlap_at(m, cues, d) == 0 by {
        lemma_no_overlap(m, cues, constant(cues.len(), d));
    }
    law_no_overlap_no_shift(reference, cues, range, delta);
}

/// Without a reference there is no overlap.
proof fn lemma_no_overlap(reference: Seq<Span>, cues: Seq<Span>, offsets: Seq<i64>)
    requires
        reference.len() == 0 || offsets.len() == 0,
    ensures
        overlap_of(reference, cues, offsets) == 0,
    decreases offsets.len(),
{
    if offsets.len() > 0 {
        lemma_no_overlap(reference, cues, offsets.drop_last());
    }
}

/// Piecewise shifts are worth at least as much as any single shift: one offset for all cues
/// pays no penalty, so its overlap is never more than what the best assignment is worth.
pub proof fn law_piecewise_is_no_worse(
    reference: Seq<Span>,
    cues: Seq<Span>,
    range: SearchRange,
    split_penalty: i64,
    offsets: Seq<i64>,
    delta: i64,
)
    requires
        is_best_assignment(reference, cues, range, split_penalty, offsets),
        range.offers(delta),
    ensures
        worth(merged(reference), cues, penalty_of(split_penalty), offsets) >= overlap_at(
            merged(reference),
            cues,
            delta,
        ),
{
    let penalty = penalty_of(split_penalty);
    let m = merged(reference);
    lemma_constant_worth(m, cues, penalty, delta);
    if split_penalty == i64::MAX {
        let d = choose|d: i64| #[trigger]
            is_best_offset(reference, cues, range, d) && offsets == constant(cues.len(), d);
        assert(preferred(m, cues, d, delta));
        lemma_constant_worth(m, cues, penalty, d);
    } else {
        let other = constant(cues.len(), delta);
        assert(is_assignment(range, cues.len(), other));
        assert(as_good(m, cues, penalty, offsets, other));
    }
}

/// Without evidence no cue is shifted: if no assignment gives any overlap, the best one leaves
/// every cue where it is.
pub proof fn law_no_overlap_no_offsets(
    reference: Seq<Span>,
    cues: Seq<Span>,
    range: SearchRange,
    split_penalty: i64,
    offsets: Seq<i64>,
)
    requires
        is_best_assignment(reference, cues, range, split_penalty, offsets),
        forall|o: Seq<i64>|
            is_assignment(range, cues.len(), o) ==> #[trigger] overlap_of(
                merged(reference),
                cues,
                o,
            ) == 0,
    ensures
        offsets == constant(cues.len(), 0),
{
    let m = merged(reference);
    let penalty = penalty_of(split_penalty);
    let zeros = constant(cues.len(), 0);
    if split_penalty == i64::MAX {
        let d = choose|d: i64| #[trigger]
            is_best_offset(reference, cues, range, d) && offsets == constant(cues.len(), d);
        assert forall|x: i64| range.offers(x) implies #[trigger] overlap_at(m, cues, x) == 0 by {
            assert(is_assignment(range, cues.len(), constant(cues.len(), x)));
        }
        law_no_overlap_no_shift(reference, cues, range, d);
    } else {
        assert(is_assignment(range, cues.len(), zeros));
        assert(as_good(m, cues, penalty, offsets, zeros));
        lemma_constant_worth(m, cues, penalty, 0);
        lemma_changes_range(offsets);
        let c = changes(offsets);
        assert(penalty * c >= 0) by (nonlinear_arith)
            requires
                penalty >= 0,
                c >= 0,
        ;
        lemma_no_shift_total(cues.len());
        lemma_zero_total(offsets);
        assert(offsets =~= zeros);
    }
}

proof fn lemma_changes_range(offsets: Seq<i64>)
    ensures
        changes(offsets) >= 0,
    decreases offsets.len(),
{
    if offsets.len() > 1 {
        lemma_changes_range(offsets.drop_last());
    }
}

proof fn lemma_no_shift_total(n: nat)
    ensures
        total_shift(constant(n, 0)) == 0,
    decreases n,
{
    if n > 0 {
        lemma_no_shift_total((n - 1) as nat);
        assert(constant(n, 0).drop_last() =~= constant((n - 1) as nat, 0));
    }
}

/// Shifts that add up to nothing are nothing.
proof fn lemma_zero_total(offsets: Seq<i64>)
    ensures
        total_shift(offsets) >= 0,
        total_shift(offsets) == 0 ==> forall|i: int| 0 <= i < offsets.len() ==> offsets[i] == 0,
    decreases offsets.len(),
{
    if offsets.len() > 0 {
        let p = offsets.drop_last();
        lemma_zero_total(p);
        if total_shift(offsets) == 0 {
            assert forall|i: int| 0 <= i < offsets.len() implies offsets[i] == 0 by {
                if i < p.len() {
                    assert(p[i] == offsets[i]);
                }
            }
        }
    }
}

} // verus!
