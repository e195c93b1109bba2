//! What the engine is for: a subtitle that is late (or early) by one amount is put back where it
//! belongs.
use vstd::prelude::*;

use crate::align;
use crate::align::{AlignParams, Alignment, FpsRatio, SearchRange};
use crate::cue::SubtitleView;
use crate::Span;

verus! {

/// The spans, all later by `shift`.
pub open spec fn late_by(spans: Seq<Span>, shift: int) -> Seq<Span> {
    Seq::new(spans.len(), |i: int| spans[i].moved(shift))
}

/// Whether the spans are an activity signal that can be found again when it is late by `shift`:
/// there is a span, the spans are in order and apart, and their times and durations, late or
/// not, fit 64 bits.
pub open spec fn is_signal(spans: Seq<Span>, shift: int) -> bool {
    &&& spans.len() > 0
    &&& align::is_merged(spans)
    &&& forall|i: int|
        0 <= i < spans.len() ==> {
            let s = #[trigger] spans[i];
            &&& s.end - s.start <= i64::MAX
            &&& i64::MIN <= s.start + shift
            &&& s.end + shift <= i64::MAX
        }
}

// ---------------------------------------------------------------------------
// How much can be covered
// ---------------------------------------------------------------------------

/// Whether the spans are in order and do not overlap; they may touch or be empty.
spec fn in_order(spans: Seq<Span>) -> bool {
    &&& forall|i: int| 0 <= i < spans.len() ==> (#[trigger] spans[i]).start <= spans[i].end
    &&& forall|i: int, j: int|
        0 <= i < j < spans.len() ==> (#[trigger] spans[i]).end <= (#[trigger] spans[j]).start
}

/// The later of two times.
spec fn later(a: int, b: int) -> int {
    if a >= b {
        a
    } else {
        b
    }
}

/// The earlier of two times.
spec fn earlier(a: int, b: int) -> int {
    if a <= b {
        a
    } else {
        b
    }
}

proof fn lemma_in_order_take(spans: Seq<Span>)
    requires
        in_order(spans),
        spans.len() > 0,
    ensures
        in_order(spans.drop_last()),
{
    let rest = spans.drop_last();
    assert forall|i: int| 0 <= i < rest.len() implies (#[trigger] rest[i]).start
        <= rest[i].end by {
        assert(rest[i] == spans[i]);
    }
    assert forall|i: int, j: int| 0 <= i < j < rest.len() implies (#[trigger] rest[i]).end <= (
    #[trigger] rest[j]).start by {
        assert(rest[i] == spans[i] && rest[j] == spans[j]);
    }
}

proof fn lemma_merged_in_order(spans: Seq<Span>)
    requires
        align::is_merged(spans),
    ensures
        in_order(spans),
{
}

/// Spans in order cover of a span no more than there is of it between the start of the first and
/// the end of the last.
proof fn lemma_covered_within(span: Span, spans: Seq<Span>)
    requires
        in_order(spans),
    ensures
        0 <= align::covered(span, spans),
        spans.len() == 0 ==> align::covered(span, spans) == 0,
        spans.len() > 0 ==> align::covered(span, spans) <= later(
            0,
            earlier(span.end as int, spans.last().end as int) - later(
                span.start as int,
                spans[0].start as int,
            ),
        ),
    decreases spans.len(),
{
    if spans.len() > 0 {
        let rest = spans.drop_last();
        let last = spans.last();
        assert(last == spans[spans.len() - 1]);
        lemma_in_order_take(spans);
        lemma_covered_within(span, rest);
        if rest.len() > 0 {
            assert(rest.last() == spans[spans.len() - 2]);
            assert(rest[0] == spans[0]);
            assert(spans[spans.len() - 2].end <= last.start);
            assert(spans[0].start <= spans[0].end);
            assert(spans[0].end <= last.start);
        }
    }
}

/// A span that is one of the spans is covered.
proof fn lemma_covered_itself(spans: Seq<Span>, k: int)
    requires
        in_order(spans),
        0 <= k < spans.len(),
    ensures
        align::covered(spans[k], spans) >= spans[k].duration(),
    decreases spans.len(),
{
    let span = spans[k];
    let rest = spans.drop_last();
    lemma_in_order_take(spans);
    lemma_covered_within(span, rest);
    if k == spans.len() - 1 {
        assert(span.common(span) == span);
    } else {
        assert(rest[k] == span);
        lemma_covered_itself(rest, k);
    }
}

// ---------------------------------------------------------------------------
// One shift
// ---------------------------------------------------------------------------

/// Moving a span by any amount makes it no longer.
proof fn lemma_moved_no_longer(span: Span, delta: int)
    requires
        span.start <= span.end,
    ensures
        span.moved(delta).start <= span.moved(delta).end,
        span.moved(delta).end - span.moved(delta).start <= span.end - span.start,
{
}

/// Where a cue of the late signal is when it is moved by `delta`.
proof fn lemma_late_moved(spans: Seq<Span>, shift: int, delta: int, i: int)
    requires
        is_signal(spans, shift),
        0 <= i < spans.len(),
    ensures
        late_by(spans, shift)[i].moved(delta) == spans[i].moved(shift + delta),
        delta == -shift ==> late_by(spans, shift)[i].moved(delta) == spans[i],
{
    let s = spans[i];
    assert(s.start < s.end);
}

/// No more of a moved cue is covered than there is of the span that it came from; less of the
/// last one, if it is moved later, and of the first one, if it is moved earlier.
proof fn lemma_covered_moved(spans: Seq<Span>, i: int, e: int)
    requires
        align::is_merged(spans),
        0 <= i < spans.len(),
        spans[i].end - spans[i].start <= i64::MAX,
    ensures
        align::covered(spans[i].moved(e), spans) <= spans[i].duration(),
        e > 0 && i == spans.len() - 1 ==> align::covered(spans[i].moved(e), spans)
            < spans[i].duration(),
        e < 0 && i == 0 ==> align::covered(spans[i].moved(e), spans) < spans[i].duration(),
{
    lemma_merged_in_order(spans);
    let s = spans[i];
    assert(s.start < s.end);
    lemma_moved_no_longer(s, e);
    lemma_covered_within(s.moved(e), spans);
}

/// The overlap of the late signal when it is moved back is not reached by any other shift.
proof fn lemma_less_overlap(spans: Seq<Span>, shift: int, delta: i64, n: nat)
    requires
        is_signal(spans, shift),
        n <= spans.len(),
        i64::MIN <= -shift <= i64::MAX,
    ensures
        ({
            let cues = late_by(spans, shift);
            let back = align::overlap_of(spans, cues, align::constant(n, (-shift) as i64));
            let other = align::overlap_of(spans, cues, align::constant(n, delta));
            &&& other <= back
            &&& delta < -shift && n > 0 ==> other < back
            &&& delta > -shift && n == spans.len() ==> other < back
        }),
    decreases n,
{
    if n > 0 {
        let m = (n - 1) as nat;
        let i = n - 1;
        let cues = late_by(spans, shift);
        let b = (-shift) as i64;
        assert(align::constant(n, b).drop_last() =~= align::constant(m, b));
        assert(align::constant(n, delta).drop_last() =~= align::constant(m, delta));
        lemma_less_overlap(spans, shift, delta, m);
        assert(spans[i].end - spans[i].start <= i64::MAX);
        lemma_late_moved(spans, shift, -shift, i);
        lemma_late_moved(spans, shift, delta as int, i);
        lemma_merged_in_order(spans);
        lemma_covered_itself(spans, i);
        lemma_covered_moved(spans, i, shift + delta);
    }
}

/// A signal is its own union.
proof fn lemma_own_union(spans: Seq<Span>)
    requires
        align::is_merged(spans),
    ensures
        align::merged(spans) == spans,
{
    align::law_merged_covers_the_same(spans);
    let m = align::merged(spans);
    assert forall|t: int| #[trigger] align::any_covers(m, t) == align::any_covers(spans, t) by {}
    align::law_merged_is_unique(m, spans);
}

/// The best offset of a late signal moves it back.
proof fn lemma_back_is_best(spans: Seq<Span>, shift: int, range: SearchRange)
    requires
        is_signal(spans, shift),
        i64::MIN <= -shift <= i64::MAX,
        range.offers((-shift) as i64),
    ensures
        align::is_best_offset(spans, late_by(spans, shift), range, (-shift) as i64),
{
    let cues = late_by(spans, shift);
    let b = (-shift) as i64;
    lemma_own_union(spans);
    assert forall|d: i64| range.offers(d) implies #[trigger] align::preferred(
        align::merged(spans),
        cues,
        b,
        d,
    ) by {
        lemma_less_overlap(spans, shift, d, spans.len());
    }
}

/// A known shift is recovered: if the cues are the reference activity, all late by one amount
/// (early, if it is negative), and the search considers the shift that undoes it, then that
/// shift, and no other, is the best offset.
pub proof fn law_known_shift_is_recovered(
    reference: Seq<Span>,
    shift: int,
    range: SearchRange,
    delta: i64,
)
    requires
        is_signal(reference, shift),
        i64::MIN <= -shift <= i64::MAX,
        range.offers((-shift) as i64),
        align::is_best_offset(reference, late_by(reference, shift), range, delta),
    ensures
        delta == -shift,
{
    let cues = late_by(reference, shift);
    lemma_back_is_best(reference, shift, range);
    align::law_best_offset_is_unique(reference, cues, range, delta, (-shift) as i64);
}

// ---------------------------------------------------------------------------
// Frame rates
// ---------------------------------------------------------------------------

/// How long the spans last in all.
spec fn total_duration(spans: Seq<Span>) -> int
    decreases spans.len(),
{
    if spans.len() == 0 {
        0
    } else {
        total_duration(spans.drop_last()) + spans.last().duration()
    }
}

/// The cues that have an offset, moved by it.
spec fn shifted(cues: Seq<Span>, offsets: Seq<i64>) -> Seq<Span> {
    Seq::new(offsets.len(), |i: int| cues[i].moved(offsets[i] as int))
}

/// The overlap with the last reference span, counted on its own.
proof fn lemma_overlap_by_last(reference: Seq<Span>, cues: Seq<Span>, offsets: Seq<i64>)
    requires
        reference.len() > 0,
    ensures
        align::overlap_of(reference, cues, offsets) == align::overlap_of(
            reference.drop_last(),
            cues,
            offsets,
        ) + align::covered(reference.last(), shifted(cues, offsets)),
    decreases offsets.len(),
{
    if offsets.len() > 0 {
        let i = offsets.len() - 1;
        let before = offsets.drop_last();
        let all = shifted(cues, offsets);
        lemma_overlap_by_last(reference, cues, before);
        assert(all.drop_last() =~= shifted(cues, before));
        let cue = cues[i].moved(offsets[i] as int);
        assert(all.last() == cue);
        assert(cue.common(reference.last()) == reference.last().common(cue));
    }
}

/// Cues in order have no more overlap than the reference lasts.
proof fn lemma_overlap_within(reference: Seq<Span>, cues: Seq<Span>, offsets: Seq<i64>)
    requires
        in_order(shifted(cues, offsets)),
        forall|i: int|
            0 <= i < reference.len() ==> (#[trigger] reference[i]).start < reference[i].end
                && reference[i].end - reference[i].start <= i64::MAX,
    ensures
        align::overlap_of(reference, cues, offsets) <= total_duration(reference),
    decreases reference.len(),
{
    if reference.len() == 0 {
        assert(reference =~= seq![]);
        lemma_no_reference(cues, offsets);
    } else {
        let rest = reference.drop_last();
        assert forall|i: int| 0 <= i < rest.len() implies (#[trigger] rest[i]).start < rest[i].end
            && rest[i].end - rest[i].start <= i64::MAX by {
            assert(rest[i] == reference[i]);
        }
        let last = reference.last();
        assert(last == reference[reference.len() - 1]);
        lemma_overlap_within(rest, cues, offsets);
        lemma_overlap_by_last(reference, cues, offsets);
        lemma_covered_within(last, shifted(cues, offsets));
    }
}

/// Without a reference there is no overlap.
proof fn lemma_no_reference(cues: Seq<Span>, offsets: Seq<i64>)
    ensures
        align::overlap_of(seq![], cues, offsets) == 0,
    decreases offsets.len(),
{
    if offsets.len() > 0 {
        lemma_no_reference(cues, offsets.drop_last());
    }
}

/// A late signal that is moved back overlaps with all of the reference.
proof fn lemma_all_overlap(spans: Seq<Span>, shift: int, n: nat)
    requires
        is_signal(spans, shift),
        n <= spans.len(),
        i64::MIN <= -shift <= i64::MAX,
    ensures
        align::overlap_of(
            spans,
            late_by(spans, shift),
            align::constant(n, (-shift) as i64),
        ) >= total_duration(spans.take(n as int)),
    decreases n,
{
    let b = (-shift) as i64;
    if n > 0 {
        let m = (n - 1) as nat;
        assert(align::constant(n, b).drop_last() =~= align::constant(m, b));
        assert(spans.take(n as int).drop_last() =~= spans.take(m as int));
        assert(spans.take(n as int).last() == spans[n - 1]);
        lemma_all_overlap(spans, shift, m);
        lemma_late_moved(spans, shift, -shift, n - 1);
        lemma_merged_in_order(spans);
        lemma_covered_itself(spans, n - 1);
    }
}

/// Of two numbers the larger one has no smaller nearest integer.
proof fn lemma_nearest_grows(p: int, r: int, q: int)
    requires
        p <= r,
        q > 0,
    ensures
        align::nearest(p, q) <= align::nearest(r, q),
{
    let m = align::nearest(p, q);
    let n = align::nearest(r, q);
    align::law_nearest_is_within_a_half(p, q);
    align::law_nearest_is_within_a_half(r, q);
    if p < r && m > n {
        assert(m * q >= n * q + q) by (nonlinear_arith)
            requires
                m >= n + 1,
                q > 0,
        ;
    }
}

/// Scaling keeps the order of times.
proof fn lemma_scaled_grows(a: int, b: int, num: int, den: int)
    requires
        a <= b,
        num > 0,
        den > 0,
    ensures
        align::scaled(a, num, den) <= align::scaled(b, num, den),
        i64::MIN <= align::scaled(a, num, den) <= i64::MAX,
        i64::MIN <= align::scaled(b, num, den) <= i64::MAX,
{
    assert(a * num <= b * num) by (nonlinear_arith)
        requires
            a <= b,
            num > 0,
    ;
    lemma_nearest_grows(a * num, b * num, den);
}

/// A late signal stays in order when it is scaled and moved.
proof fn lemma_scaled_in_order(spans: Seq<Span>, shift: int, ratio: FpsRatio, delta: i64)
    requires
        is_signal(spans, shift),
        ratio.num() > 0,
        ratio.den() > 0,
    ensures
        in_order(
            shifted(
                align::scaled_spans(late_by(spans, shift), ratio),
                align::constant(spans.len(), delta),
            ),
        ),
{
    let late = late_by(spans, shift);
    let all = shifted(align::scaled_spans(late, ratio), align::constant(spans.len(), delta));
    assert forall|i: int| 0 <= i < all.len() implies (#[trigger] all[i]).start <= all[i].end by {
        assert(spans[i].start < spans[i].end);
        assert(late[i] == spans[i].moved(shift));
        lemma_scaled_grows(
            late[i].start as int,
            late[i].end as int,
            ratio.num(),
            ratio.den(),
        );
    }
    assert forall|i: int, j: int| 0 <= i < j < all.len() implies (#[trigger] all[i]).end <= (
    #[trigger] all[j]).start by {
        assert(spans[i].end < spans[j].start);
        assert(late[i] == spans[i].moved(shift) && late[j] == spans[j].moved(shift));
        lemma_scaled_grows(
            late[i].end as int,
            late[j].start as int,
            ratio.num(),
            ratio.den(),
        );
    }
}

/// Scaling by one leaves spans as they are.
proof fn lemma_unity_spans(cues: Seq<Span>, ratio: FpsRatio)
    requires
        ratio.num() == 1,
        ratio.den() == 1,
    ensures
        align::scaled_spans(cues, ratio) == cues,
{
    assert forall|i: int| 0 <= i < cues.len() implies #[trigger] align::scaled_spans(cues, ratio)[i]
        == cues[i] by {
        align::law_unity_keeps_time(cues[i].start as int);
        align::law_unity_keeps_time(cues[i].end as int);
    }
    assert(align::scaled_spans(cues, ratio) =~= cues);
}

/// What a single offset is worth is its overlap.
proof fn lemma_one_offset_worth(
    reference: Seq<Span>,
    cues: Seq<Span>,
    params: AlignParams,
    ratio: FpsRatio,
    delta: i64,
)
    ensures
        align::worth_at(reference, cues, params, ratio, align::constant(cues.len(), delta))
            == align::overlap_of(
            align::merged(reference),
            align::scaled_spans(cues, ratio),
            align::constant(cues.len(), delta),
        ),
{
    lemma_no_changes(cues.len(), delta);
    let penalty = align::penalty_of(params.split_penalty);
    assert(penalty * 0 == 0);
}

proof fn lemma_no_changes(n: nat, delta: i64)
    ensures
        align::changes(align::constant(n, delta)) == 0,
    decreases n,
{
    if n > 1 {
        let m = (n - 1) as nat;
        assert(align::constant(n, delta).drop_last() =~= align::constant(m, delta));
        lemma_no_changes(m, delta);
    }
}

/// Whether `params` asks for a single global shift and prefers to leave the frame rate as it is.
pub open spec fn is_plain(params: AlignParams) -> bool {
    let ratios = params.fps_ratios@;
    &&& params.split_penalty == i64::MAX
    &&& ratios.len() > 0 ==> ratios[0].num() == 1 && ratios[0].den() == 1
    &&& forall|i: int|
        0 <= i < ratios.len() ==> (#[trigger] ratios[i]).num() > 0 && ratios[i].den() > 0
}

/// No ratio scores more than the reference lasts.
proof fn lemma_score_within(
    spans: Seq<Span>,
    shift: int,
    params: AlignParams,
    ratio: FpsRatio,
    a: Alignment,
)
    requires
        is_signal(spans, shift),
        params.split_penalty == i64::MAX,
        ratio.num() > 0,
        ratio.den() > 0,
        align::is_alignment_at(spans, late_by(spans, shift), params, ratio, a),
    ensures
        a.score <= total_duration(spans),
{
    let cues = late_by(spans, shift);
    let scaled = align::scaled_spans(cues, ratio);
    let d = choose|d: i64| #[trigger]
        align::is_best_offset(spans, scaled, params.range, d) && a.offsets@ == align::constant(
            scaled.len(),
            d,
        );
    lemma_own_union(spans);
    lemma_one_offset_worth(spans, cues, params, ratio, d);
    lemma_scaled_in_order(spans, shift, ratio, d);
    assert forall|i: int| 0 <= i < spans.len() implies (#[trigger] spans[i]).start < spans[i].end
        && spans[i].end - spans[i].start <= i64::MAX by {}
    lemma_overlap_within(spans, scaled, align::constant(scaled.len(), d));
}

/// The alignment to apply to a late signal leaves the frame rate as it is and moves every cue
/// back.
proof fn lemma_known_alignment(
    spans: Seq<Span>,
    shift: int,
    params: AlignParams,
    a: Alignment,
)
    requires
        is_signal(spans, shift),
        i64::MIN <= -shift <= i64::MAX,
        is_plain(params),
        params.range.offers((-shift) as i64),
        align::is_best_alignment(spans, late_by(spans, shift), params, a),
    ensures
        a.fps_ratio.num() == 1,
        a.fps_ratio.den() == 1,
        a.offsets@ == align::constant(spans.len(), (-shift) as i64),
{
    let cues = late_by(spans, shift);
    let ratios = params.fps_ratios@;
    let b = (-shift) as i64;
    let back = align::constant(cues.len(), b);
    lemma_back_is_best(spans, shift, params.range);
    lemma_own_union(spans);
    let unity = if ratios.len() == 0 {
        choose|unity: FpsRatio|
            unity.num() == 1 && unity.den() == 1 && #[trigger] align::is_alignment_at(
                spans,
                cues,
                params,
                unity,
                a,
            )
    } else {
        ratios[0]
    };
    lemma_unity_spans(cues, unity);
    if ratios.len() > 0 {
        let k = choose|k: int|
            0 <= k < ratios.len() && align::is_alignment_at(
                spans,
                cues,
                params,
                #[trigger] ratios[k],
                a,
            ) && forall|j: int, offsets: Seq<i64>|
                0 <= j < ratios.len() && #[trigger] align::is_best_at(
                    spans,
                    cues,
                    params,
                    ratios[j],
                    offsets,
                ) ==> {
                    let w = align::worth_at(spans, cues, params, ratios[j], offsets);
                    w < a.score || (w == a.score && k <= j)
                };
        lemma_one_offset_worth(spans, cues, params, unity, b);
        lemma_all_overlap(spans, shift, spans.len());
        assert(spans.take(spans.len() as int) =~= spans);
        assert(align::is_best_at(spans, cues, params, ratios[0], back));
        lemma_score_within(spans, shift, params, ratios[k], a);
        assert(k == 0);
    }
    let d = choose|d: i64| #[trigger]
        align::is_best_offset(spans, cues, params.range, d) && a.offsets@ == align::constant(
            cues.len(),
            d,
        );
    align::law_best_offset_is_unique(spans, cues, params.range, d, b);
}

/// Whether the cues stand where the spans are.
pub open spec fn stands_at(sub: SubtitleView, spans: Seq<Span>) -> bool {
    sub.cues.len() == spans.len() && forall|i: int|
        0 <= i < spans.len() ==> (#[trigger] sub.cues[i]).start_ms == spans[i].start
            && sub.cues[i].end_ms == spans[i].end
}

/// A subtitle that is late by one amount is put back: if its cues stand where the reference
/// activity is, all late by one amount (early, if it is negative), and the search considers the
/// shift that undoes it, then every alignment that a search for a single global shift can
/// choose makes the cues stand exactly where the activity is. No frame-rate ratio is preferred
/// to that.
pub proof fn law_late_subtitle_is_put_back(
    sub: SubtitleView,
    reference: Seq<Span>,
    shift: int,
    params: AlignParams,
    a: Alignment,
)
    requires
        is_signal(reference, shift),
        i64::MIN <= -shift <= i64::MAX,
        is_plain(params),
        params.range.offers((-shift) as i64),
        stands_at(sub, late_by(reference, shift)),
        align::is_best_alignment(reference, late_by(reference, shift), params, a),
    ensures
        stands_at(sub.aligned(a), reference),
{
    let late = late_by(reference, shift);
    let after = sub.aligned(a);
    lemma_known_alignment(reference, shift, params, a);
    assert forall|i: int| 0 <= i < reference.len() implies (#[trigger] after.cues[i]).start_ms
        == reference[i].start && after.cues[i].end_ms == reference[i].end by {
        assert(sub.cues[i].start_ms == late[i].start && sub.cues[i].end_ms == late[i].end);
        align::law_unity_keeps_time(late[i].start as int);
        align::law_unity_keeps_time(late[i].end as int);
        assert(reference[i].start < reference[i].end);
        assert(late[i] == reference[i].moved(shift));
    }
}

} // verus!
