//! What the engine maximizes, counted in milliseconds: the moments at which a cue is shown while
//! the reference is active.
//!
//! The laws here speak of moments in time and of the cues as a correction places them, so they say
//! what every correction that the search chooses has to satisfy.
use vstd::prelude::*;
use vstd::set_lib::{lemma_int_range, lemma_len_subset, lemma_set_disjoint_lens};

use crate::align;
use crate::align::{AlignParams, Alignment, FpsRatio, SearchRange};
use crate::cue::SubtitleView;
use crate::Span;

verus! {

// ---------------------------------------------------------------------------
// Moments
// ---------------------------------------------------------------------------

/// The moments from `start` until `end` at which the reference is active.
pub open spec fn moments(reference: Seq<Span>, start: int, end: int) -> Set<int> {
    Set::new(
        |t: int|
            start <= t < end && exists|j: int|
                0 <= j < reference.len() && (#[trigger] reference[j]).start <= t < reference[j].end,
    )
}

/// How many moments of all the intervals the reference is active, each interval on its own.
pub open spec fn shared(reference: Seq<Span>, intervals: Seq<(int, int)>) -> int
    decreases intervals.len(),
{
    if intervals.len() == 0 {
        0
    } else {
        shared(reference, intervals.drop_last()) + moments(
            reference,
            intervals.last().0,
            intervals.last().1,
        ).len()
    }
}

/// `n`, kept within 64 bits.
pub open spec fn kept(n: int) -> int {
    if n > 0x7fff_ffff_ffff_ffff {
        0x7fff_ffff_ffff_ffff
    } else if n < -0x8000_0000_0000_0000 {
        -0x8000_0000_0000_0000
    } else {
        n
    }
}

/// Whether the times of the reference are so far from the ends of 64 bits that no time between two
/// of them is too long to count.
pub open spec fn is_countable(reference: Seq<Span>) -> bool {
    forall|j: int|
        0 <= j < reference.len() ==> -0x3fff_ffff_ffff_ffff <= (#[trigger] reference[j]).start
            && reference[j].end <= 0x3fff_ffff_ffff_ffff
}

/// How often the offset changes from one cue to the next.
pub open spec fn breaks(offsets: Seq<i64>) -> Set<int> {
    Set::new(|i: int| 0 < i < offsets.len() && offsets[i - 1] != offsets[i])
}

/// The distance between two offsets of the grid, at least one millisecond.
pub open spec fn grid_step(range: SearchRange) -> int {
    if range.step >= 1 {
        range.step as int
    } else {
        1
    }
}

/// Whether `d` is no shift at all, or lies a whole number of steps behind the smallest offset and
/// no further than the largest one.
pub open spec fn on_grid(range: SearchRange, d: i64) -> bool {
    d == 0 || (range.min_delta <= d <= range.max_delta && (d - range.min_delta) % grid_step(range)
        == 0)
}

// ---------------------------------------------------------------------------
// Counting
// ---------------------------------------------------------------------------

proof fn lemma_moments_same(a: Seq<Span>, b: Seq<Span>, start: int, end: int)
    requires
        align::same_times(a, b),
    ensures
        moments(a, start, end) == moments(b, start, end),
{
    assert forall|t: int| moments(a, start, end).contains(t) == moments(b, start, end).contains(
        t,
    ) by {
        assert(align::any_covers(a, t) == align::any_covers(b, t));
        if moments(a, start, end).contains(t) {
            let j = choose|j: int| 0 <= j < a.len() && (#[trigger] a[j]).start <= t < a[j].end;
            assert(a[j].covers(t));
            assert(align::any_covers(b, t));
            let k = choose|k: int| 0 <= k < b.len() && (#[trigger] b[k]).covers(t);
            assert(b[k].start <= t < b[k].end);
        }
        if moments(b, start, end).contains(t) {
            let j = choose|j: int| 0 <= j < b.len() && (#[trigger] b[j]).start <= t < b[j].end;
            assert(b[j].covers(t));
            assert(align::any_covers(a, t));
            let k = choose|k: int| 0 <= k < a.len() && (#[trigger] a[k]).covers(t);
            assert(a[k].start <= t < a[k].end);
        }
    }
    assert(moments(a, start, end) =~= moments(b, start, end));
}

/// What a span has in common with disjoint spans is the number of moments.
proof fn lemma_covered_counts(span: Span, reference: Seq<Span>)
    requires
        align::is_merged(reference),
        is_countable(reference),
    ensures
        moments(reference, span.start as int, span.end as int).finite(),
        align::covered(span, reference) == moments(
            reference,
            span.start as int,
            span.end as int,
        ).len(),
    decreases reference.len(),
{
    let all = moments(reference, span.start as int, span.end as int);
    if reference.len() == 0 {
        assert(all =~= Set::empty());
    } else {
        let rest = reference.drop_last();
        let last = reference.last();
        assert(last == reference[reference.len() - 1]);
        assert forall|i: int| 0 <= i < rest.len() implies (#[trigger] rest[i]).start
            < rest[i].end by {
            assert(rest[i] == reference[i]);
        }
        assert forall|i: int, j: int| 0 <= i < j < rest.len() implies (#[trigger] rest[i]).end < (
        #[trigger] rest[j]).start by {
            assert(rest[i] == reference[i] && rest[j] == reference[j]);
        }
        assert forall|j: int| 0 <= j < rest.len() implies -0x3fff_ffff_ffff_ffff <= (
        #[trigger] rest[j]).start && rest[j].end <= 0x3fff_ffff_ffff_ffff by {
            assert(rest[j] == reference[j]);
        }
        lemma_covered_counts(span, rest);
        let before = moments(rest, span.start as int, span.end as int);
        let c = span.common(last);
        let lo = c.start as int;
        let hi = if c.end <= c.start {
            lo
        } else {
            c.end as int
        };
        let here = vstd::set_lib::set_int_range(lo, hi);
        lemma_int_range(lo, hi);
        assert(c.duration() == hi - lo);
        assert forall|t: int| #[trigger] all.contains(t) == (before + here).contains(t) by {
            if all.contains(t) {
                let j = choose|j: int|
                    0 <= j < reference.len() && (#[trigger] reference[j]).start <= t
                        < reference[j].end;
                if j < rest.len() {
                    assert(rest[j].start <= t < rest[j].end);
                }
            }
            if before.contains(t) {
                let j = choose|j: int|
                    0 <= j < rest.len() && (#[trigger] rest[j]).start <= t < rest[j].end;
                assert(reference[j].start <= t < reference[j].end);
            }
            if here.contains(t) {
                assert(reference[reference.len() - 1].start <= t
                    < reference[reference.len() - 1].end);
            }
        }
        assert(all =~= before + here);
        assert(before.disjoint(here)) by {
            assert forall|t: int| before.contains(t) implies !here.contains(t) by {
                let j = choose|j: int|
                    0 <= j < rest.len() && (#[trigger] rest[j]).start <= t < rest[j].end;
                assert(reference[j].end < reference[reference.len() - 1].start);
            }
        }
        lemma_set_disjoint_lens(before, here);
    }
}

/// The union of a reference that can be counted can be counted.
proof fn lemma_union_countable(reference: Seq<Span>)
    requires
        is_countable(reference),
    ensures
        align::is_merged(align::merged(reference)),
        align::same_times(align::merged(reference), reference),
        is_countable(align::merged(reference)),
{
    align::law_merged_covers_the_same(reference);
    let m = align::merged(reference);
    assert forall|j: int| 0 <= j < m.len() implies -0x3fff_ffff_ffff_ffff <= (
    #[trigger] m[j]).start && m[j].end <= 0x3fff_ffff_ffff_ffff by {
        let first = m[j].start as int;
        let last = m[j].end - 1;
        assert(m[j].covers(first) && m[j].covers(last));
        assert(align::any_covers(m, first) && align::any_covers(m, last));
        assert(align::any_covers(reference, first) && align::any_covers(reference, last));
        let x = choose|x: int| 0 <= x < reference.len() && (#[trigger] reference[x]).covers(first);
        let y = choose|y: int| 0 <= y < reference.len() && (#[trigger] reference[y]).covers(last);
        assert(reference[x].start <= first && last < reference[y].end);
    }
}

/// How many milliseconds of a span the union of the reference covers.
proof fn lemma_union_counts(span: Span, reference: Seq<Span>)
    requires
        is_countable(reference),
    ensures
        align::covered(span, align::merged(reference)) == moments(
            reference,
            span.start as int,
            span.end as int,
        ).len(),
{
    lemma_union_countable(reference);
    lemma_covered_counts(span, align::merged(reference));
    lemma_moments_same(align::merged(reference), reference, span.start as int, span.end as int);
}

/// The intervals of the spans, each moved by its offset and kept within 64 bits.
pub open spec fn moved_by(spans: Seq<Span>, offsets: Seq<i64>) -> Seq<(int, int)> {
    Seq::new(
        offsets.len(),
        |i: int| (kept(spans[i].start + offsets[i]), kept(spans[i].end + offsets[i])),
    )
}

/// The overlap of the cues is the number of moments.
pub proof fn lemma_overlap_counts(reference: Seq<Span>, cues: Seq<Span>, offsets: Seq<i64>)
    requires
        is_countable(reference),
    ensures
        align::overlap_of(align::merged(reference), cues, offsets) == shared(
            reference,
            moved_by(cues, offsets),
        ),
    decreases offsets.len(),
{
    let all = moved_by(cues, offsets);
    if offsets.len() > 0 {
        let i = offsets.len() - 1;
        let before = offsets.drop_last();
        lemma_overlap_counts(reference, cues, before);
        assert(all.drop_last() =~= moved_by(cues, before));
        let span = cues[i].moved(offsets[i] as int);
        assert(all.last() == (span.start as int, span.end as int));
        lemma_union_counts(span, reference);
    }
}

/// The changes of the offset, counted.
pub proof fn lemma_changes_count(offsets: Seq<i64>)
    ensures
        breaks(offsets).finite(),
        align::changes(offsets) == breaks(offsets).len(),
    decreases offsets.len(),
{
    let all = breaks(offsets);
    if offsets.len() <= 1 {
        assert(all =~= Set::empty());
    } else {
        let n = offsets.len();
        let rest = offsets.drop_last();
        lemma_changes_count(rest);
        let before = breaks(rest);
        if offsets[n - 1] == offsets[n - 2] {
            assert(all =~= before);
        } else {
            assert(all =~= before.insert(n - 1));
            assert(!before.contains(n - 1));
        }
    }
}

/// What the search considers is the grid.
pub proof fn lemma_grid(range: SearchRange, d: i64)
    ensures
        range.offers(d) == on_grid(range, d),
{
    let step = grid_step(range);
    if range.offers(d) && d != 0 {
        let k = choose|k: int| 0 <= k && #[trigger] range.nth(k) == d && d <= range.max_delta;
        vstd::arithmetic::div_mod::lemma_mod_multiples_basic(k, step);
        assert(k * step >= 0) by (nonlinear_arith)
            requires
                k >= 0,
                step >= 1,
        ;
    }
    if on_grid(range, d) && d != 0 {
        let k = (d - range.min_delta) / step;
        vstd::arithmetic::div_mod::lemma_fundamental_div_mod(d - range.min_delta, step);
        assert(step * k == k * step) by (nonlinear_arith);
        assert(k >= 0) by (nonlinear_arith)
            requires
                k * step >= 0,
                step >= 1,
        ;
        assert(range.nth(k) == d);
    }
}

// ---------------------------------------------------------------------------
// Laws
// ---------------------------------------------------------------------------

/// The offset that is chosen for all cues makes them share the most moments with the reference; of
/// several, the smallest shift is chosen, and of two as small the earlier one. It is on the grid.
pub proof fn law_best_offset_shares_most(
    reference: Seq<Span>,
    cues: Seq<Span>,
    range: SearchRange,
    delta: i64,
    d: i64,
)
    requires
        is_countable(reference),
        align::is_best_offset(reference, cues, range, delta),
        on_grid(range, d),
    ensures
        on_grid(range, delta),
        ({
            let chosen = shared(reference, moved_by(cues, Seq::new(cues.len(), |i: int| delta)));
            let other = shared(reference, moved_by(cues, Seq::new(cues.len(), |i: int| d)));
            let size = |x: i64|
                if x < 0 {
                    -x
                } else {
                    x as int
                };
            chosen > other || (chosen == other && (size(delta) < size(d) || (size(delta) == size(d)
                && delta <= d)))
        }),
{
    lemma_grid(range, delta);
    lemma_grid(range, d);
    lemma_overlap_counts(reference, cues, align::constant(cues.len(), delta));
    lemma_overlap_counts(reference, cues, align::constant(cues.len(), d));
    assert(Seq::new(cues.len(), |i: int| delta) =~= align::constant(cues.len(), delta));
    assert(Seq::new(cues.len(), |i: int| d) =~= align::constant(cues.len(), d));
    assert(align::preferred(align::merged(reference), cues, delta, d));
}

/// Piecewise shifts share the most moments with the reference, when every change of the offset from
/// one cue to the next is charged the split penalty itself, in milliseconds (nothing, if it is
/// negative). No other assignment of offsets on the grid is worth more.
pub proof fn law_charge_is_the_split_penalty(
    reference: Seq<Span>,
    cues: Seq<Span>,
    range: SearchRange,
    split_penalty: i64,
    offsets: Seq<i64>,
    other: Seq<i64>,
)
    requires
        is_countable(reference),
        split_penalty < i64::MAX,
        align::is_best_assignment(reference, cues, range, split_penalty, offsets),
        other.len() == cues.len(),
        forall|i: int| 0 <= i < other.len() ==> on_grid(range, #[trigger] other[i]),
    ensures
        offsets.len() == cues.len(),
        forall|i: int| 0 <= i < offsets.len() ==> on_grid(range, #[trigger] offsets[i]),
        breaks(offsets).finite(),
        breaks(other).finite(),
        split_penalty >= 0 ==> shared(reference, moved_by(cues, offsets)) - split_penalty * breaks(
            offsets,
        ).len() >= shared(reference, moved_by(cues, other)) - split_penalty * breaks(other).len(),
        split_penalty < 0 ==> shared(reference, moved_by(cues, offsets)) >= shared(
            reference,
            moved_by(cues, other),
        ),
{
    assert forall|i: int| 0 <= i < offsets.len() implies on_grid(range, #[trigger] offsets[i]) by {
        assert(range.offers(offsets[i]));
        lemma_grid(range, offsets[i]);
    }
    assert forall|i: int| 0 <= i < other.len() implies range.offers(#[trigger] other[i]) by {
        lemma_grid(range, other[i]);
    }
    assert(align::is_assignment(range, cues.len(), other));
    let penalty = align::penalty_of(split_penalty);
    assert(align::as_good(align::merged(reference), cues, penalty, offsets, other));
    lemma_overlap_counts(reference, cues, offsets);
    lemma_overlap_counts(reference, cues, other);
    lemma_changes_count(offsets);
    lemma_changes_count(other);
    if split_penalty < 0 {
        assert(penalty * align::changes(offsets) == 0) by (nonlinear_arith)
            requires
                penalty == 0,
        ;
        assert(penalty * align::changes(other) == 0) by (nonlinear_arith)
            requires
                penalty == 0,
        ;
    }
}

/// With an infinite penalty, the largest one, all cues get one offset.
pub proof fn law_infinite_penalty_never_changes(
    reference: Seq<Span>,
    cues: Seq<Span>,
    range: SearchRange,
    offsets: Seq<i64>,
)
    requires
        align::is_best_assignment(reference, cues, range, i64::MAX, offsets),
    ensures
        offsets.len() == cues.len(),
        forall|i: int, j: int|
            0 <= i < offsets.len() && 0 <= j < offsets.len() ==> #[trigger] offsets[i]
                == #[trigger] offsets[j],
        offsets.len() > 0 ==> align::is_best_offset(reference, cues, range, offsets[0]),
{
}

/// Where the cues of a subtitle stand.
pub open spec fn intervals(sub: SubtitleView) -> Seq<(int, int)> {
    Seq::new(sub.cues.len(), |i: int| (sub.cues[i].start_ms, sub.cues[i].end_ms))
}

/// Whether the spans are those of the cues.
pub open spec fn are_cue_spans(sub: SubtitleView, cues: Seq<Span>) -> bool {
    cues.len() == sub.cues.len() && forall|i: int|
        0 <= i < cues.len() ==> (#[trigger] cues[i]).start == sub.cues[i].start_ms && cues[i].end
            == sub.cues[i].end_ms
}

/// What an alignment is worth: the moments that the cues share with the reference where it places
/// them, less the split penalty for every change of the offset. An infinite penalty allows no
/// change, so nothing is charged.
pub open spec fn value_of(
    reference: Seq<Span>,
    sub: SubtitleView,
    split_penalty: i64,
    a: Alignment,
) -> int {
    shared(reference, intervals(sub.aligned(a))) - (if 0 <= split_penalty < i64::MAX {
        split_penalty as int
    } else {
        0
    }) * breaks(a.offsets@).len()
}

/// Whether the search considers the alignment: it scales by one of the ratios (by none at all, if
/// there are none), gives each cue an offset on the grid, and the same to all of them if the
/// penalty is infinite.
pub open spec fn is_candidate(params: AlignParams, n: nat, b: Alignment) -> bool {
    &&& if params.fps_ratios@.len() == 0 {
        b.fps_ratio.num() == 1 && b.fps_ratio.den() == 1
    } else {
        exists|k: int|
            0 <= k < params.fps_ratios@.len() && (#[trigger] params.fps_ratios@[k]).num()
                == b.fps_ratio.num() && params.fps_ratios@[k].den() == b.fps_ratio.den()
    }
    &&& b.offsets@.len() == n
    &&& forall|i: int| 0 <= i < n ==> on_grid(params.range, #[trigger] b.offsets@[i])
    &&& params.split_penalty == i64::MAX ==> forall|i: int, j: int|
        0 <= i < n && 0 <= j < n ==> #[trigger] b.offsets@[i] == #[trigger] b.offsets@[j]
}

/// Where an alignment places the cues is where the search counts them.
proof fn lemma_placed(sub: SubtitleView, cues: Seq<Span>, a: Alignment, ratio: FpsRatio)
    requires
        are_cue_spans(sub, cues),
        a.offsets@.len() == cues.len(),
        a.fps_ratio.num() == ratio.num(),
        a.fps_ratio.den() == ratio.den(),
    ensures
        intervals(sub.aligned(a)) == moved_by(align::scaled_spans(cues, ratio), a.offsets@),
{
    let x = intervals(sub.aligned(a));
    let y = moved_by(align::scaled_spans(cues, ratio), a.offsets@);
    assert forall|i: int| 0 <= i < x.len() implies #[trigger] x[i] == y[i] by {
        assert(cues[i].start == sub.cues[i].start_ms && cues[i].end == sub.cues[i].end_ms);
    }
    assert(x =~= y);
}

/// What an alignment is worth in moments is what the search counts.
pub proof fn lemma_value(
    reference: Seq<Span>,
    sub: SubtitleView,
    cues: Seq<Span>,
    params: AlignParams,
    ratio: FpsRatio,
    a: Alignment,
)
    requires
        is_countable(reference),
        are_cue_spans(sub, cues),
        a.offsets@.len() == cues.len(),
        a.fps_ratio.num() == ratio.num(),
        a.fps_ratio.den() == ratio.den(),
        params.split_penalty == i64::MAX ==> forall|i: int, j: int|
            0 <= i < cues.len() && 0 <= j < cues.len() ==> #[trigger] a.offsets@[i]
                == #[trigger] a.offsets@[j],
    ensures
        align::worth_at(reference, cues, params, ratio, a.offsets@) == value_of(
            reference,
            sub,
            params.split_penalty,
            a,
        ),
{
    lemma_placed(sub, cues, a, ratio);
    lemma_overlap_counts(reference, align::scaled_spans(cues, ratio), a.offsets@);
    lemma_changes_count(a.offsets@);
    let penalty = align::penalty_of(params.split_penalty);
    if params.split_penalty < 0 || params.split_penalty == i64::MAX {
        if params.split_penalty == i64::MAX {
            assert(breaks(a.offsets@) =~= Set::empty());
            assert(penalty * 0 == 0);
        } else {
            assert(penalty * align::changes(a.offsets@) == 0) by (nonlinear_arith)
                requires
                    penalty == 0,
            ;
        }
        assert(0 * breaks(a.offsets@).len() == 0);
    }
}

// ---------------------------------------------------------------------------
// There is a best assignment
// ---------------------------------------------------------------------------

/// No span shares more moments than it has.
proof fn lemma_overlap_bound(reference: Seq<Span>, cues: Seq<Span>, offsets: Seq<i64>)
    requires
        is_countable(reference),
    ensures
        0 <= align::overlap_of(align::merged(reference), cues, offsets) <= offsets.len()
            * 0x1_0000_0000_0000_0000,
    decreases offsets.len(),
{
    if offsets.len() > 0 {
        let i = offsets.len() - 1;
        lemma_overlap_bound(reference, cues, offsets.drop_last());
        let span = cues[i].moved(offsets[i] as int);
        lemma_union_counts(span, reference);
        let lo = span.start as int;
        let hi = if span.end <= span.start {
            lo
        } else {
            span.end as int
        };
        lemma_int_range(lo, hi);
        lemma_len_subset(
            moments(reference, span.start as int, span.end as int),
            vstd::set_lib::set_int_range(lo, hi),
        );
        assert(offsets.len() * 0x1_0000_0000_0000_0000 == (offsets.len() - 1)
            * 0x1_0000_0000_0000_0000 + 0x1_0000_0000_0000_0000) by (nonlinear_arith);
    }
}

/// A best offset, from any that is considered.
proof fn lemma_best_offset_from(
    reference: Seq<Span>,
    cues: Seq<Span>,
    range: SearchRange,
    d: i64,
) -> (best: i64)
    requires
        is_countable(reference),
        range.offers(d),
    ensures
        align::is_best_offset(reference, cues, range, best),
    decreases
            cues.len() * 0x1_0000_0000_0000_0000 - align::overlap_at(
                align::merged(reference),
                cues,
                d,
            ),
            align::size(d),
            d + 0x8000_0000_0000_0000,
{
    let m = align::merged(reference);
    if align::is_best_offset(reference, cues, range, d) {
        d
    } else {
        let e = choose|e: i64| range.offers(e) && !#[trigger] align::preferred(m, cues, d, e);
        lemma_overlap_bound(reference, cues, align::constant(cues.len(), d));
        lemma_overlap_bound(reference, cues, align::constant(cues.len(), e));
        lemma_best_offset_from(reference, cues, range, e)
    }
}

proof fn lemma_total_shift_range(offsets: Seq<i64>)
    ensures
        0 <= align::total_shift(offsets),
    decreases offsets.len(),
{
    if offsets.len() > 0 {
        lemma_total_shift_range(offsets.drop_last());
    }
}

/// A best assignment, from any.
proof fn lemma_best_assignment_from(
    reference: Seq<Span>,
    cues: Seq<Span>,
    range: SearchRange,
    split_penalty: i64,
    offsets: Seq<i64>,
) -> (best: Seq<i64>)
    requires
        is_countable(reference),
        split_penalty < i64::MAX,
        align::is_assignment(range, cues.len(), offsets),
    ensures
        align::is_best_assignment(reference, cues, range, split_penalty, best),
    decreases
            cues.len() * 0x1_0000_0000_0000_0000 - align::worth(
                align::merged(reference),
                cues,
                align::penalty_of(split_penalty),
                offsets,
            ),
            align::total_shift(offsets),
{
    let m = align::merged(reference);
    let p = align::penalty_of(split_penalty);
    if align::is_best_assignment(reference, cues, range, split_penalty, offsets) {
        offsets
    } else {
        let other = choose|other: Seq<i64>|
            align::is_assignment(range, cues.len(), other) && !#[trigger] align::as_good(
                m,
                cues,
                p,
                offsets,
                other,
            );
        lemma_worth_bound(reference, cues, p, offsets);
        lemma_worth_bound(reference, cues, p, other);
        lemma_total_shift_range(other);
        lemma_best_assignment_from(reference, cues, range, split_penalty, other)
    }
}

proof fn lemma_worth_bound(reference: Seq<Span>, cues: Seq<Span>, p: int, offsets: Seq<i64>)
    requires
        is_countable(reference),
        p >= 0,
    ensures
        align::worth(align::merged(reference), cues, p, offsets) <= offsets.len()
            * 0x1_0000_0000_0000_0000,
{
    lemma_overlap_bound(reference, cues, offsets);
    lemma_changes_count(offsets);
    assert(p * align::changes(offsets) >= 0) by (nonlinear_arith)
        requires
            p >= 0,
            align::changes(offsets) >= 0,
    ;
}

/// There is a best assignment.
pub proof fn lemma_best_exists(
    reference: Seq<Span>,
    cues: Seq<Span>,
    range: SearchRange,
    split_penalty: i64,
) -> (best: Seq<i64>)
    requires
        is_countable(reference),
    ensures
        align::is_best_assignment(reference, cues, range, split_penalty, best),
{
    if split_penalty == i64::MAX {
        let d = lemma_best_offset_from(reference, cues, range, 0);
        align::constant(cues.len(), d)
    } else {
        let none = align::constant(cues.len(), 0);
        assert forall|i: int| 0 <= i < cues.len() implies range.offers(#[trigger] none[i]) by {}
        lemma_best_assignment_from(reference, cues, range, split_penalty, none)
    }
}

/// A best assignment is worth no less than any other on the grid.
pub proof fn lemma_best_is_best(
    reference: Seq<Span>,
    cues: Seq<Span>,
    range: SearchRange,
    split_penalty: i64,
    best: Seq<i64>,
    other: Seq<i64>,
)
    requires
        align::is_best_assignment(reference, cues, range, split_penalty, best),
        other.len() == cues.len(),
        forall|i: int| 0 <= i < other.len() ==> on_grid(range, #[trigger] other[i]),
        split_penalty == i64::MAX ==> forall|i: int, j: int|
            0 <= i < other.len() && 0 <= j < other.len() ==> #[trigger] other[i]
                == #[trigger] other[j],
    ensures
        align::worth(align::merged(reference), cues, align::penalty_of(split_penalty), best)
            >= align::worth(
            align::merged(reference),
            cues,
            align::penalty_of(split_penalty),
            other,
        ),
{
    let m = align::merged(reference);
    let p = align::penalty_of(split_penalty);
    if split_penalty == i64::MAX {
        let d = choose|d: i64| #[trigger]
            align::is_best_offset(reference, cues, range, d) && best == align::constant(
                cues.len(),
                d,
            );
        if cues.len() > 0 {
            let e = other[0];
            lemma_grid(range, e);
            assert(other =~= align::constant(cues.len(), e));
            assert(align::preferred(m, cues, d, e));
        } else {
            assert(other =~= best);
        }
        lemma_changes_count(best);
        lemma_changes_count(other);
        assert(breaks(best) =~= Set::empty());
        assert(breaks(other) =~= Set::empty());
    } else {
        assert forall|i: int| 0 <= i < other.len() implies range.offers(#[trigger] other[i]) by {
            lemma_grid(range, other[i]);
        }
        assert(align::is_assignment(range, cues.len(), other));
        assert(align::as_good(m, cues, p, best, other));
    }
}

/// A best assignment is on the grid.
proof fn lemma_best_on_grid(
    reference: Seq<Span>,
    cues: Seq<Span>,
    range: SearchRange,
    split_penalty: i64,
    best: Seq<i64>,
)
    requires
        align::is_best_assignment(reference, cues, range, split_penalty, best),
    ensures
        best.len() == cues.len(),
        forall|i: int| 0 <= i < best.len() ==> on_grid(range, #[trigger] best[i]),
        split_penalty == i64::MAX ==> forall|i: int, j: int|
            0 <= i < best.len() && 0 <= j < best.len() ==> #[trigger] best[i] == #[trigger] best[j],
{
    assert forall|i: int| 0 <= i < best.len() implies on_grid(range, #[trigger] best[i]) by {
        assert(range.offers(best[i]));
        lemma_grid(range, best[i]);
    }
}

/// Frame-rate drift and shifts are corrected as well as the search can: no correction that it
/// considers, with whichever of the frame-rate ratios and whichever offsets, would place the cues
/// so that they share more moments with the reference (less the split penalty for every change of
/// the offset) than the one that is chosen. What that one is worth is its score.
pub proof fn law_no_correction_is_worth_more(
    reference: Seq<Span>,
    sub: SubtitleView,
    cues: Seq<Span>,
    params: AlignParams,
    a: Alignment,
    b: Alignment,
)
    requires
        is_countable(reference),
        are_cue_spans(sub, cues),
        align::is_best_alignment(reference, cues, params, a),
        is_candidate(params, cues.len(), b),
    ensures
        is_candidate(params, cues.len(), a),
        a.score == value_of(reference, sub, params.split_penalty, a),
        a.score >= value_of(reference, sub, params.split_penalty, b),
{
    let ratios = params.fps_ratios@;
    let (ratio, other) = if ratios.len() == 0 {
        let unity = choose|unity: FpsRatio|
            unity.num() == 1 && unity.den() == 1 && #[trigger] align::is_alignment_at(
                reference,
                cues,
                params,
                unity,
                a,
            );
        (unity, unity)
    } else {
        let k = choose|k: int|
            0 <= k < ratios.len() && align::is_alignment_at(
                reference,
                cues,
                params,
                #[trigger] ratios[k],
                a,
            ) && forall|j: int, offsets: Seq<i64>|
                0 <= j < ratios.len() && #[trigger] align::is_best_at(
                    reference,
                    cues,
                    params,
                    ratios[j],
                    offsets,
                ) ==> {
                    let w = align::worth_at(reference, cues, params, ratios[j], offsets);
                    w < a.score || (w == a.score && k <= j)
                };
        let j = choose|j: int|
            0 <= j < ratios.len() && (#[trigger] ratios[j]).num() == b.fps_ratio.num()
                && ratios[j].den() == b.fps_ratio.den();
        let best = lemma_best_exists(
            reference,
            align::scaled_spans(cues, ratios[j]),
            params.range,
            params.split_penalty,
        );
        assert(align::is_best_at(reference, cues, params, ratios[j], best));
        lemma_best_is_best(
            reference,
            align::scaled_spans(cues, ratios[j]),
            params.range,
            params.split_penalty,
            best,
            b.offsets@,
        );
        assert(ratios[k].num() == a.fps_ratio.num() && ratios[k].den() == a.fps_ratio.den());
        (ratios[k], ratios[j])
    };
    let scaled = align::scaled_spans(cues, ratio);
    lemma_best_on_grid(reference, scaled, params.range, params.split_penalty, a.offsets@);
    lemma_value(reference, sub, cues, params, ratio, a);
    lemma_value(reference, sub, cues, params, other, b);
    if ratios.len() == 0 {
        lemma_best_is_best(
            reference,
            scaled,
            params.range,
            params.split_penalty,
            a.offsets@,
            b.offsets@,
        );
    }
}

} // verus!
