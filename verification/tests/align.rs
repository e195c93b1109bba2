//! The alignment engine.

use subomatic::align::{
    align_at, better_of, merge_spans, scale_time, total_overlap, FpsRatio, RatioSearch,
};
use subomatic::{
    align_offsets, best_alignment, best_global_offset, AlignParams, SearchRange, Span,
};

fn spans<const N: usize>(intervals: [(i64, i64); N]) -> Vec<Span> {
    intervals.iter().map(|&(a, b)| Span::new(a, b)).collect()
}

#[test]
fn recovers_a_known_global_shift() {
    let reference = spans([(1_000, 2_000), (5_000, 6_000), (9_000, 10_000)]);
    let shift = 1_500;
    let cues: Vec<Span> = reference.iter().map(|s| s.shifted(shift)).collect();

    let delta = best_global_offset(&reference, &cues, SearchRange::default());

    // The cues are 1.5 s late, so the correction must be about -1.5 s.
    assert!(
        (delta + shift).abs() <= SearchRange::default().step,
        "expected ~{}, got {delta}",
        -shift
    );
}

#[test]
fn empty_inputs_are_a_no_op() {
    assert_eq!(
        best_global_offset(&[], &spans([(0, 1)]), SearchRange::default()),
        0
    );
    assert_eq!(
        best_global_offset(&spans([(0, 1)]), &[], SearchRange::default()),
        0
    );
}

#[test]
fn no_overlap_anywhere_returns_zero() {
    // The cue can never reach the reference within the search window, so the
    // engine must report "no shift" rather than parking at `min_delta`.
    let reference = spans([(0, 1_000)]);
    let cues = spans([(500_000, 501_000)]);
    assert_eq!(
        best_global_offset(&reference, &cues, SearchRange::default()),
        0
    );
}

#[test]
fn duplicate_reference_spans_do_not_bias_result() {
    let reference = spans([(1_000, 2_000), (1_000, 2_000)]);
    let cues = spans([(1_000, 2_000)]);
    assert_eq!(
        best_global_offset(&reference, &cues, SearchRange::default()),
        0
    );
}

#[test]
fn merge_spans_unions_overlapping_intervals() {
    let merged = merge_spans(&spans([(0, 100), (50, 150), (200, 250)]));
    assert_eq!(merged, spans([(0, 150), (200, 250)]));
}

#[test]
fn search_range_near_i64_max_terminates() {
    // The loop's checked increment must stop instead of overflowing or hanging.
    let range = SearchRange {
        min_delta: i64::MAX - 50,
        max_delta: i64::MAX,
        step: 100,
    };
    let _ = best_global_offset(&spans([(0, 1_000)]), &spans([(0, 1_000)]), range);
}

#[test]
fn merging_sorts_drops_empty_spans_and_joins_touching_ones() {
    let merged = merge_spans(&spans([(9, 9), (5, 7), (0, 2), (2, 3), (7, 6), (6, 8)]));
    assert_eq!(merged, spans([(0, 3), (5, 8)]));
    assert!(merge_spans(&[]).is_empty());
}

#[test]
fn overlap_is_the_sum_over_the_cues() {
    let reference = spans([(0, 10), (20, 30)]);
    let cues = spans([(5, 25), (28, 40)]);
    assert_eq!(total_overlap(&reference, &cues, 0), 5 + 5 + 2);
    assert_eq!(total_overlap(&reference, &cues, -8), 10 + 10);
    let all = spans([(i64::MIN, i64::MAX)]);
    assert_eq!(total_overlap(&all, &all, 0), i64::MAX as u128);
}

#[test]
fn ties_go_to_the_smallest_shift_and_then_to_the_earlier() {
    let range = SearchRange {
        min_delta: -10,
        max_delta: 10,
        step: 5,
    };
    // Every shift by at most 10 keeps the cue inside the reference.
    assert_eq!(best_global_offset(&spans([(0, 100)]), &spans([(40, 50)]), range), 0);
    // Both neighbours are as far away.
    assert_eq!(
        best_global_offset(&spans([(0, 5), (15, 20)]), &spans([(5, 15)]), range),
        -5
    );
    // Zero is tried even where the grid leaves it out.
    let off_grid = SearchRange {
        min_delta: 3,
        max_delta: 10,
        step: 0,
    };
    assert_eq!(best_global_offset(&spans([(0, 100)]), &spans([(40, 50)]), off_grid), 0);
    assert_eq!(best_global_offset(&spans([(14, 20)]), &spans([(10, 16)]), off_grid), 4);
}

#[test]
fn references_that_cover_the_same_times_align_alike() {
    let cues = spans([(3_000, 4_000), (8_000, 9_000)]);
    let one = spans([(1_000, 2_000), (6_000, 7_000)]);
    let other = spans([(6_500, 7_000), (1_000, 1_500), (6_000, 6_500), (1_500, 2_000), (1_200, 1_300)]);
    let range = SearchRange::default();
    assert_eq!(best_global_offset(&one, &cues, range), -2_000);
    assert_eq!(best_global_offset(&other, &cues, range), -2_000);
}

#[test]
fn a_finite_penalty_allows_piecewise_shifts() {
    let range = SearchRange {
        min_delta: -5_000,
        max_delta: 5_000,
        step: 500,
    };
    // The second half of the cues is late by another two seconds.
    let reference = spans([(1_000, 2_000), (3_000, 4_000), (10_000, 11_000), (13_000, 14_000)]);
    let cues = spans([(2_000, 3_000), (4_000, 5_000), (13_000, 14_000), (16_000, 17_000)]);
    assert_eq!(
        align_offsets(&reference, &cues, range, 7),
        vec![-1_000, -1_000, -3_000, -3_000]
    );
    // A change that costs more than it brings is not made.
    assert_eq!(align_offsets(&reference, &cues, range, 2_001), vec![-3_000; 4]);
    // An infinite penalty gives the global offset.
    let global = best_global_offset(&reference, &cues, range);
    assert_eq!(align_offsets(&reference, &cues, range, i64::MAX), vec![global; 4]);
    // A negative penalty counts as none.
    assert_eq!(
        align_offsets(&reference, &cues, range, -7),
        align_offsets(&reference, &cues, range, 0)
    );
}

#[test]
fn cues_without_evidence_stay_where_they_are() {
    let range = SearchRange::default();
    let cues = spans([(500_000, 501_000), (600_000, 601_000)]);
    assert_eq!(align_offsets(&spans([(0, 1_000)]), &cues, range, 7), vec![0, 0]);
    assert_eq!(align_offsets(&[], &cues, range, 7), vec![0, 0]);
    assert_eq!(align_offsets(&[], &cues, range, i64::MAX), vec![0, 0]);
    assert!(align_offsets(&spans([(0, 1_000)]), &[], range, 7).is_empty());
}

#[test]
fn scaling_goes_to_the_nearest_millisecond() {
    let ratio = FpsRatio::new(25_000, 23_976).unwrap();
    assert_eq!(scale_time(23_976, ratio), 25_000);
    assert_eq!(scale_time(1_000, ratio), 1_043); // 1042.709...
    assert_eq!(scale_time(-1_000, ratio), -1_043);
    let half = FpsRatio::new(1, 2).unwrap();
    assert_eq!(scale_time(3, half), 2);
    assert_eq!(scale_time(-3, half), -2);
    assert_eq!(scale_time(i64::MAX, FpsRatio::new(u32::MAX, 1).unwrap()), i64::MAX);
    assert_eq!(scale_time(i64::MIN, FpsRatio::unity()), i64::MIN);
    assert_eq!(FpsRatio::new(0, 1), None);
    assert_eq!(FpsRatio::new(1, 0), None);
}

#[test]
fn default_parameters_scan_the_common_frame_rates() {
    let params = AlignParams::default();
    assert_eq!(params.split_penalty, i64::MAX);
    assert_eq!(params.fps_ratios.len(), 13);
    assert_eq!(params.fps_ratios[0], FpsRatio::unity());
    assert!(params.fps_ratios.contains(&FpsRatio::new(25_000, 23_976).unwrap()));
    assert!(params.fps_ratios.contains(&FpsRatio::new(24_000, 29_970).unwrap()));
}

#[test]
fn frame_rate_drift_is_found() {
    // The subtitle runs at 25 frames per second, the film at 23.976.
    let film: Vec<Span> = (0..40)
        .map(|i| Span::new(25_000 * (i + 1), 25_000 * (i + 1) + 1_000))
        .collect();
    let cues: Vec<Span> = (0..40)
        .map(|i| Span::new(23_976 * (i + 1), 23_976 * (i + 1) + 959))
        .collect();
    let params = AlignParams {
        range: SearchRange {
            min_delta: -2_000,
            max_delta: 2_000,
            step: 500,
        },
        ..AlignParams::default()
    };
    let found = best_alignment(&film, &cues, &params);
    assert_eq!(found.fps_ratio, FpsRatio::new(25_000, 23_976).unwrap());
    assert_eq!(found.offsets, vec![0; 40]);
    assert_eq!(found.score, 40_000);
}

#[test]
fn equal_scores_keep_the_first_ratio() {
    let reference = spans([(1_000, 2_000)]);
    let cues = spans([(4_000, 5_000)]);
    let found = best_alignment(&reference, &cues, &AlignParams::default());
    assert_eq!(found.fps_ratio, FpsRatio::unity());
    assert_eq!(found.offsets, vec![-3_000]);
    assert_eq!(found.score, 1_000);
    let none = AlignParams {
        fps_ratios: Vec::new(),
        ..AlignParams::default()
    };
    let unscaled = best_alignment(&reference, &cues, &none);
    assert_eq!(unscaled.offsets, vec![-3_000]);
    assert_eq!(unscaled.fps_ratio, FpsRatio::unity());
    let double = FpsRatio::new(2, 1).unwrap();
    let second = align_at(&reference, &cues, &none, double);
    assert_eq!(second.offsets, vec![-7_000]);
    assert_eq!(second.score, 1_000);
    assert_eq!(better_of(unscaled, second).fps_ratio, FpsRatio::unity());
}

#[test]
fn a_search_can_be_taken_one_ratio_at_a_time() {
    let reference = spans([(1_000, 2_000), (7_000, 9_000)]);
    let cues = spans([(3_000, 4_000), (9_000, 11_000)]);
    let params = AlignParams {
        range: SearchRange {
            min_delta: -3_000,
            max_delta: 3_000,
            step: 500,
        },
        ..AlignParams::default()
    };
    let mut search = RatioSearch::start(&reference, &cues, &params);
    let mut tried = vec![search.tried()];
    while !search.is_done(&params) {
        search = search.step(&reference, &cues, &params);
        tried.push(search.tried());
    }
    assert_eq!(tried, (1..=13).collect::<Vec<usize>>());
    let found = search.finish();
    let whole = best_alignment(&reference, &cues, &params);
    assert_eq!(found.fps_ratio, whole.fps_ratio);
    assert_eq!(found.offsets, whole.offsets);
    assert_eq!(found.score, whole.score);
}

#[test]
fn a_known_shift_is_undone_exactly() {
    let reference = spans([(1_000, 2_000), (5_000, 6_000), (9_000, 10_000)]);
    for shift in [-60_000, -1_500, 0, 20, 1_480, 60_000] {
        let cues: Vec<Span> = reference.iter().map(|s| s.shifted(shift)).collect();
        assert_eq!(best_global_offset(&reference, &cues, SearchRange::default()), -shift);
    }
}
