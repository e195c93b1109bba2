//! What re-timing does to the cues of a subtitle, in milliseconds, and what is taken by default.
use vstd::prelude::*;

use crate::align;
use crate::align::{AlignParams, Alignment, FpsRatio, SearchRange};
use crate::cue;
use crate::cue::{CueView, Format, SubtitleView};
use crate::front;
use crate::times;
use crate::Span;

verus! {

// ---------------------------------------------------------------------------
// Applying an alignment
// ---------------------------------------------------------------------------

/// The offset of a cue; none at all behind the last offset.
pub open spec fn offset_of(a: Alignment, i: int) -> int {
    if i < a.offsets@.len() {
        a.offsets@[i] as int
    } else {
        0
    }
}

/// Whether a time times `num / den` is far from the ends of 64 bits.
pub open spec fn scales_within(ms: int, num: int, den: int) -> bool {
    -0x3fff_ffff_ffff_ffff * den <= ms * num <= 0x3fff_ffff_ffff_ffff * den
}

/// Whether `after` is `before` times `num / den`, to the nearest millisecond and away from zero
/// where two are as near, with `offset` added.
pub open spec fn is_placed(before: int, num: int, den: int, offset: int, after: int) -> bool {
    let r = after - offset;
    &&& -den <= 2 * (r * den - before * num) <= den
    &&& 2 * (r * den - before * num) == den ==> before * num >= 0
    &&& 2 * (r * den - before * num) == -den ==> before * num < 0
}

proof fn lemma_placed(before: int, num: int, den: int, offset: int)
    requires
        num > 0,
        den > 0,
        scales_within(before, num, den),
        -0x3fff_ffff_ffff_ffff <= offset <= 0x3fff_ffff_ffff_ffff,
    ensures
        is_placed(
            before,
            num,
            den,
            offset,
            crate::saturated(align::scaled(before, num, den) + offset),
        ),
{
    let p = before * num;
    let n = align::nearest(p, den);
    align::law_nearest_is_within_a_half(p, den);
    assert(-0x4000_0000_0000_0000 <= n <= 0x4000_0000_0000_0000) by (nonlinear_arith)
        requires
            den > 0,
            -den <= 2 * (n * den - p) <= den,
            -0x3fff_ffff_ffff_ffff * den <= p <= 0x3fff_ffff_ffff_ffff * den,
    ;
    assert(align::scaled(before, num, den) == n);
    // Of two that are as near, the one further from zero.
    let a = if p >= 0 {
        p
    } else {
        -p
    };
    let m = (2 * a + den) / (2 * den);
    vstd::arithmetic::div_mod::lemma_fundamental_div_mod(2 * a + den, 2 * den);
    assert(2 * den * m == 2 * (m * den)) by (nonlinear_arith);
    assert(0 <= (2 * a + den) % (2 * den) < 2 * den);
    assert(-m * den == -(m * den)) by (nonlinear_arith);
}

/// An alignment moves times and nothing else: every cue keeps its place and its payload, and each
/// of its two times is scaled by the frame-rate ratio, to the nearest millisecond, and then moved
/// by the offset of the cue.
pub proof fn law_alignment_moves_each_time(sub: SubtitleView, a: Alignment, i: int)
    requires
        a.fps_ratio.num() > 0,
        a.fps_ratio.den() > 0,
        0 <= i < sub.cues.len(),
        scales_within(sub.cues[i].start_ms, a.fps_ratio.num(), a.fps_ratio.den()),
        scales_within(sub.cues[i].end_ms, a.fps_ratio.num(), a.fps_ratio.den()),
        -0x3fff_ffff_ffff_ffff <= offset_of(a, i) <= 0x3fff_ffff_ffff_ffff,
    ensures
        ({
            let out = sub.aligned(a);
            let num = a.fps_ratio.num();
            let den = a.fps_ratio.den();
            &&& out.format == sub.format
            &&& out.header == sub.header
            &&& out.cues.len() == sub.cues.len()
            &&& out.cues[i].payload == sub.cues[i].payload
            &&& is_placed(sub.cues[i].start_ms, num, den, offset_of(a, i), out.cues[i].start_ms)
            &&& is_placed(sub.cues[i].end_ms, num, den, offset_of(a, i), out.cues[i].end_ms)
            &&& num == den ==> out.cues[i].start_ms == sub.cues[i].start_ms + offset_of(a, i)
                && out.cues[i].end_ms == sub.cues[i].end_ms + offset_of(a, i)
        }),
{
    let num = a.fps_ratio.num();
    let den = a.fps_ratio.den();
    let out = sub.aligned(a);
    lemma_placed(sub.cues[i].start_ms, num, den, offset_of(a, i));
    lemma_placed(sub.cues[i].end_ms, num, den, offset_of(a, i));
    if num == den {
        lemma_same_rate(sub.cues[i].start_ms, den, out.cues[i].start_ms - offset_of(a, i));
        lemma_same_rate(sub.cues[i].end_ms, den, out.cues[i].end_ms - offset_of(a, i));
    }
}

proof fn lemma_same_rate(before: int, den: int, r: int)
    requires
        den > 0,
        -den <= 2 * (r * den - before * den) <= den,
    ensures
        r == before,
{
    assert(r == before) by (nonlinear_arith)
        requires
            den > 0,
            -den <= 2 * (r * den - before * den) <= den,
    ;
}

/// A shift moves both times of every cue by the same amount, and nothing else; a time that would
/// leave 64 bits stops at their end.
pub proof fn law_shift_moves_each_time(sub: SubtitleView, delta: int, i: int)
    requires
        0 <= i < sub.cues.len(),
    ensures
        ({
            let out = sub.moved(delta);
            &&& out.format == sub.format
            &&& out.header == sub.header
            &&& out.cues.len() == sub.cues.len()
            &&& out.cues[i].payload == sub.cues[i].payload
            &&& out.cues[i].start_ms == times::kept(sub.cues[i].start_ms + delta)
            &&& out.cues[i].end_ms == times::kept(sub.cues[i].end_ms + delta)
        }),
{
}

/// A span that is moved starts and ends later by the same amount.
pub proof fn law_moved_span(span: Span, delta: int)
    ensures
        span.moved(delta).start == times::kept(span.start + delta),
        span.moved(delta).end == times::kept(span.end + delta),
{
}

/// A span lasts as many milliseconds as it covers, and two spans overlap for as many as both
/// cover.
pub proof fn law_spans_last_what_they_cover(a: Span, b: Span)
    requires
        -0x3fff_ffff_ffff_ffff <= a.start <= 0x3fff_ffff_ffff_ffff,
        -0x3fff_ffff_ffff_ffff <= a.end <= 0x3fff_ffff_ffff_ffff,
    ensures
        vstd::set_lib::set_int_range(a.start as int, a.end as int).finite(),
        a.start <= a.end ==> a.duration() == vstd::set_lib::set_int_range(
            a.start as int,
            a.end as int,
        ).len(),
        a.end < a.start ==> a.duration() == 0,
        a.common(b).duration() == times::moments(seq![b], a.start as int, a.end as int).len(),
{
    if a.start <= a.end {
        vstd::set_lib::lemma_int_range(a.start as int, a.end as int);
    } else {
        assert(vstd::set_lib::set_int_range(a.start as int, a.end as int) =~= Set::empty());
    }
    let c = a.common(b);
    let both = times::moments(seq![b], a.start as int, a.end as int);
    let one = seq![b];
    assert forall|t: int| both.contains(t) == (c.start <= t < c.end) by {
        if a.start <= t < a.end && b.start <= t < b.end {
            assert(one[0].start <= t < one[0].end);
        }
    }
    if c.start <= c.end {
        vstd::set_lib::lemma_int_range(c.start as int, c.end as int);
        assert(both =~= vstd::set_lib::set_int_range(c.start as int, c.end as int));
    } else {
        assert(both =~= Set::empty());
    }
}

// ---------------------------------------------------------------------------
// Ties
// ---------------------------------------------------------------------------

/// How far the cues are moved in all.
pub open spec fn moved_in_all(offsets: Seq<i64>) -> int
    decreases offsets.len(),
{
    if offsets.len() == 0 {
        0
    } else {
        moved_in_all(offsets.drop_last()) + (if offsets.last() >= 0 {
            offsets.last() as int
        } else {
            -offsets.last()
        })
    }
}

proof fn lemma_moved_in_all(offsets: Seq<i64>)
    ensures
        moved_in_all(offsets) == align::total_shift(offsets),
    decreases offsets.len(),
{
    if offsets.len() > 0 {
        lemma_moved_in_all(offsets.drop_last());
    }
}

/// Of piecewise shifts that are worth the same, the ones that move the cues least in all are
/// chosen.
pub proof fn law_piecewise_shifts_are_small(
    reference: Seq<Span>,
    cues: Seq<Span>,
    range: SearchRange,
    split_penalty: i64,
    offsets: Seq<i64>,
    other: Seq<i64>,
)
    requires
        times::is_countable(reference),
        0 <= split_penalty < i64::MAX,
        align::is_best_assignment(reference, cues, range, split_penalty, offsets),
        other.len() == cues.len(),
        forall|i: int| 0 <= i < other.len() ==> times::on_grid(range, #[trigger] other[i]),
        times::shared(reference, times::moved_by(cues, offsets)) - split_penalty * times::breaks(
            offsets,
        ).len() == times::shared(reference, times::moved_by(cues, other)) - split_penalty
            * times::breaks(other).len(),
    ensures
        moved_in_all(offsets) <= moved_in_all(other),
{
    assert forall|i: int| 0 <= i < other.len() implies range.offers(#[trigger] other[i]) by {
        times::lemma_grid(range, other[i]);
    }
    assert(align::is_assignment(range, cues.len(), other));
    assert(align::as_good(
        align::merged(reference),
        cues,
        align::penalty_of(split_penalty),
        offsets,
        other,
    ));
    times::lemma_overlap_counts(reference, cues, offsets);
    times::lemma_overlap_counts(reference, cues, other);
    times::lemma_changes_count(offsets);
    times::lemma_changes_count(other);
    lemma_moved_in_all(offsets);
    lemma_moved_in_all(other);
}

/// Times are not scaled without evidence: an alignment that scales by a ratio is chosen only if
/// every candidate with a ratio that is listed before it is worth less.
pub proof fn law_earlier_ratios_are_preferred(
    reference: Seq<Span>,
    sub: SubtitleView,
    cues: Seq<Span>,
    params: AlignParams,
    a: Alignment,
    b: Alignment,
    j: int,
)
    requires
        times::is_countable(reference),
        times::are_cue_spans(sub, cues),
        align::is_best_alignment(reference, cues, params, a),
        times::is_candidate(params, cues.len(), b),
        0 <= j < params.fps_ratios@.len(),
        params.fps_ratios@[j].num() == b.fps_ratio.num(),
        params.fps_ratios@[j].den() == b.fps_ratio.den(),
        forall|k: int|
            0 <= k <= j ==> (#[trigger] params.fps_ratios@[k]).num() != a.fps_ratio.num()
                || params.fps_ratios@[k].den() != a.fps_ratio.den(),
    ensures
        times::value_of(reference, sub, params.split_penalty, b) < a.score,
{
    let ratios = params.fps_ratios@;
    let k = choose|k: int|
        0 <= k < ratios.len() && align::is_alignment_at(
            reference,
            cues,
            params,
            #[trigger] ratios[k],
            a,
        ) && forall|j: int, offsets: Seq<i64>|
            0 <= j < ratios.len() && #[trigger] align::is_best_at(
                reference,
                cues,
                params,
                ratios[j],
                offsets,
            ) ==> {
                let w = align::worth_at(reference, cues, params, ratios[j], offsets);
                w < a.score || (w == a.score && k <= j)
            };
    let best = times::lemma_best_exists(
        reference,
        align::scaled_spans(cues, ratios[j]),
        params.range,
        params.split_penalty,
    );
    assert(align::is_best_at(reference, cues, params, ratios[j], best));
    assert(k > j);
    times::lemma_best_is_best(
        reference,
        align::scaled_spans(cues, ratios[j]),
        params.range,
        params.split_penalty,
        best,
        b.offsets@,
    );
    times::lemma_value(reference, sub, cues, params, ratios[j], b);
}

// ---------------------------------------------------------------------------
// Defaults
// ---------------------------------------------------------------------------

/// Whether `rate` is one of the common frame rates, in thousandths of a frame per second.
pub open spec fn is_common_rate(rate: int) -> bool {
    rate == 23976 || rate == 24000 || rate == 25000 || rate == 29970
}

/// Whether one of the ratios corrects from the rate `to` to the rate `from`.
pub open spec fn is_scanned(ratios: Seq<FpsRatio>, from: int, to: int) -> bool {
    exists|k: int|
        0 <= k < ratios.len() && (#[trigger] ratios[k]).num() * to == from * ratios[k].den()
}

/// Every drift between two of the common frame rates is scanned by default, no drift is tried
/// first, and nothing else is tried.
pub proof fn law_common_drifts_are_scanned(ratios: Seq<FpsRatio>, from: int, to: int, k: int)
    requires
        align::are_ratios(ratios, align::common_ratios()),
        is_common_rate(from),
        is_common_rate(to),
        0 <= k < ratios.len(),
    ensures
        is_scanned(ratios, from, to),
        ratios.len() == 13,
        ratios[0].num() == ratios[0].den(),
        k > 0 ==> is_common_rate(ratios[k].num()) && is_common_rate(ratios[k].den())
            && ratios[k].num() != ratios[k].den(),
{
    let rates = align::common_ratios();
    assert(ratios[k].num() == rates[k].0 && ratios[k].den() == rates[k].1);
    assert(forall|j: int|
        0 <= j < 13 ==> (#[trigger] ratios[j]).num() == rates[j].0 && ratios[j].den()
            == rates[j].1);
    let j: int = if from == to {
        0
    } else {
        let row: int = if from == 23976 {
            0
        } else if from == 24000 {
            1
        } else if from == 25000 {
            2
        } else {
            3
        };
        let column: int = if to == 23976 {
            0
        } else if to == 24000 {
            1
        } else if to == 25000 {
            2
        } else {
            3
        };
        1 + 3 * row + (if column > row {
            column - 1
        } else {
            column
        })
    };
    assert(ratios[j].num() == rates[j].0 && ratios[j].den() == rates[j].1);
    assert(ratios[j].num() * to == from * ratios[j].den());
}

// ---------------------------------------------------------------------------
// The credit
// ---------------------------------------------------------------------------

/// The credit comes after the latest end by the gap that is given, plays for as long as is given,
/// and says what is given; without cues it comes that long after the start.
pub proof fn law_credit_plays_as_given(
    sub: SubtitleView,
    t: Seq<char>,
    gap: int,
    duration: int,
    latest: int,
)
    requires
        0 <= gap <= 0x1fff_ffff_ffff_ffff,
        0 <= duration <= 0x1fff_ffff_ffff_ffff,
        -0x3fff_ffff_ffff_ffff <= latest <= 0x3fff_ffff_ffff_ffff,
        forall|i: int| 0 <= i < sub.cues.len() ==> (#[trigger] sub.cues[i]).end_ms <= latest,
        if sub.cues.len() == 0 {
            latest == 0
        } else {
            exists|i: int| 0 <= i < sub.cues.len() && (#[trigger] sub.cues[i]).end_ms == latest
        },
    ensures
        ({
            let out = sub.credited(t, gap, duration);
            &&& out.format == sub.format
            &&& out.header == sub.header
            &&& out.cues.drop_last() == sub.cues
            &&& out.cues.last().start_ms == latest + gap
            &&& out.cues.last().end_ms == latest + gap + duration
            &&& sub.format == Format::SubRip || sub.format == Format::MicroDvd
                ==> out.cues.last().payload == t
        }),
{
    lemma_latest(sub.cues, latest);
    assert(sub.credited(t, gap, duration).cues.drop_last() =~= sub.cues);
}

proof fn lemma_latest(cues: Seq<CueView>, latest: int)
    requires
        forall|i: int| 0 <= i < cues.len() ==> (#[trigger] cues[i]).end_ms <= latest,
        if cues.len() == 0 {
            latest == 0
        } else {
            exists|i: int| 0 <= i < cues.len() && (#[trigger] cues[i]).end_ms == latest
        },
    ensures
        cue::last_end(cues) == latest,
{
    if cues.len() > 0 {
        let i = choose|i: int| 0 <= i < cues.len() && (#[trigger] cues[i]).end_ms == latest;
        cue::lemma_last_end(cues, i);
        lemma_last_end_within(cues, latest);
    }
}

proof fn lemma_last_end_within(cues: Seq<CueView>, latest: int)
    requires
        cues.len() > 0,
        forall|i: int| 0 <= i < cues.len() ==> (#[trigger] cues[i]).end_ms <= latest,
    ensures
        cue::last_end(cues) <= latest,
    decreases cues.len(),
{
    assert(cues.last() == cues[cues.len() - 1]);
    if cues.len() > 1 {
        let before = cues.drop_last();
        assert forall|i: int| 0 <= i < before.len() implies (#[trigger] before[i]).end_ms
            <= latest by {
            assert(before[i] == cues[i]);
        }
        lemma_last_end_within(before, latest);
    }
}

// ---------------------------------------------------------------------------
// Formats and names
// ---------------------------------------------------------------------------

/// Whether two characters are the same but for the case of an ASCII letter.
pub open spec fn same_letter(a: char, b: char) -> bool {
    a == b || ('a' <= a <= 'z' && b as int == a as int - 32) || ('a' <= b <= 'z' && a as int
        == b as int - 32)
}

/// Whether two texts are the same but for the case of ASCII letters.
pub open spec fn same_letters(s: Seq<char>, t: Seq<char>) -> bool {
    s.len() == t.len() && forall|i: int| 0 <= i < s.len() ==> same_letter(#[trigger] s[i], t[i])
}

pub proof fn lemma_same_letters(s: Seq<char>, t: Seq<char>)
    requires
        forall|i: int| 0 <= i < t.len() ==> 'a' <= #[trigger] t[i] <= 'z',
    ensures
        same_letters(s, t) == (crate::chars::lowered(s) == t),
{
    let l = crate::chars::lowered(s);
    if same_letters(s, t) {
        assert forall|i: int| 0 <= i < l.len() implies l[i] == t[i] by {
            assert(same_letter(s[i], t[i]));
            assert('a' <= t[i] <= 'z');
        }
        assert(l =~= t);
    }
    if l == t {
        assert forall|i: int| 0 <= i < s.len() implies same_letter(#[trigger] s[i], t[i]) by {
            assert(l[i] == t[i]);
            assert('a' <= t[i] <= 'z');
        }
    }
}

/// The format goes by the extension, in any mixture of cases, and no other extension stands for
/// one.
pub proof fn law_extensions_stand_for_formats(ext: Seq<char>)
    ensures
        (cue::format_of(ext) == Some(Format::SubRip)) == same_letters(ext, seq!['s', 'r', 't']),
        (cue::format_of(ext) == Some(Format::WebVtt)) == same_letters(ext, seq!['v', 't', 't']),
        (cue::format_of(ext) == Some(Format::MicroDvd)) == same_letters(ext, seq!['s', 'u', 'b']),
        (cue::format_of(ext) == Some(Format::Ass)) == (same_letters(ext, seq!['a', 's', 's'])
            || same_letters(ext, seq!['s', 's', 'a'])),
{
    lemma_same_letters(ext, seq!['s', 'r', 't']);
    lemma_same_letters(ext, seq!['v', 't', 't']);
    lemma_same_letters(ext, seq!['s', 'u', 'b']);
    lemma_same_letters(ext, seq!['a', 's', 's']);
    lemma_same_letters(ext, seq!['s', 's', 'a']);
    let l = crate::chars::lowered(ext);
    assert(seq!['s', 'r', 't'][1] == 'r');
    assert(seq!['v', 't', 't'][1] == 't');
    assert(seq!['s', 'u', 'b'][1] == 'u');
    assert(seq!['a', 's', 's'][0] == 'a' && seq!['a', 's', 's'][1] == 's');
    assert(seq!['s', 's', 'a'][0] == 's' && seq!['s', 's', 'a'][1] == 's');
}

/// Whether `c` separates the parts of a path.
pub open spec fn parts_path(c: char) -> bool {
    c == '/' || c == '\\' || c == ':'
}

/// A name is saved as it is, if it has no part of a path in it and no white space around it and is
/// not made of dots alone; whatever path stands before it, and whatever white space around it,
/// makes no difference.
pub proof fn law_plain_names_are_kept(path: Seq<char>, c: char, name: Seq<char>)
    requires
        parts_path(c),
        name.len() > 0,
        forall|i: int| 0 <= i < name.len() ==> !parts_path(#[trigger] name[i]),
        exists|i: int| 0 <= i < name.len() && #[trigger] name[i] != '.',
        !crate::chars::is_space(name[0]),
        !crate::chars::is_space(name.last()),
    ensures
        front::safe_name(name) == name,
        front::safe_name(path + seq![c] + name) == name,
        front::safe_name(path + seq![c] + seq![' '] + name) == name,
        front::safe_name(path + seq![c]) == "subtitle.srt"@,
{
    let i = choose|i: int| 0 <= i < name.len() && #[trigger] name[i] != '.';
    assert(!front::all_dots(name));
    let empty = Seq::<char>::empty();
    crate::chars::lemma_trim_tight(name);
    lemma_name_alone(name);
    lemma_name_behind(path, c, name);
    let spaced = seq![' '] + name;
    assert forall|j: int| 0 <= j < spaced.len() implies !parts_path(#[trigger] spaced[j]) by {
        if j > 0 {
            assert(spaced[j] == name[j - 1]);
        }
    }
    lemma_name_behind(path, c, spaced);
    assert(path + seq![c] + seq![' '] + name =~= path + seq![c] + spaced);
    assert(spaced.drop_first() =~= name);
    assert(crate::chars::is_space(spaced[0]));
    assert(crate::chars::trim_start(spaced) == crate::chars::trim_start(name));
    lemma_name_behind(path, c, empty);
    assert(path + seq![c] + empty =~= path + seq![c]);
    assert(crate::chars::trim(empty) =~= empty);
}

proof fn lemma_name_alone(name: Seq<char>)
    requires
        forall|i: int| 0 <= i < name.len() ==> !parts_path(#[trigger] name[i]),
    ensures
        front::base_name(name) == name,
{
    assert forall|j: int| 0 <= j < name.len() implies !front::is_separator(#[trigger] name[j]) by {
        assert(!parts_path(name[j]));
    }
    front::lemma_base_name(name, 0);
    assert(name.skip(0) =~= name);
}

proof fn lemma_name_behind(path: Seq<char>, c: char, name: Seq<char>)
    requires
        parts_path(c),
        forall|i: int| 0 <= i < name.len() ==> !parts_path(#[trigger] name[i]),
    ensures
        front::base_name(path + seq![c] + name) == name,
{
    let n = path.len() as int + 1;
    let a = path + seq![c] + name;
    assert(a[n - 1] == c);
    assert forall|j: int| n <= j < a.len() implies !front::is_separator(#[trigger] a[j]) by {
        assert(a[j] == name[j - n]);
        assert(!parts_path(name[j - n]));
    }
    front::lemma_base_name(a, n);
    assert(a.skip(n) =~= name);
}

} // verus!
