//! End-to-end tests of the public sync API: parse SRT, sync to a reference
//! activity signal, and confirm the cues move while payloads stay intact.

use subomatic::{srt, sync, AlignParams, Span};

#[test]
fn sync_corrects_a_global_shift_end_to_end() {
    // The subtitle is 3 s late relative to the reference activity.
    let late = "1\n00:00:04,000 --> 00:00:05,000\nHi\n\n2\n00:00:08,000 --> 00:00:09,000\nBye\n";
    let sub = srt::parse(late).unwrap();
    let reference = vec![Span::new(1_000, 2_000), Span::new(5_000, 6_000)];

    let synced = sync(&sub, &reference, &AlignParams::default());

    // Cues should land within one search step of the reference positions.
    assert!((synced.cues[0].start_ms - 1_000).abs() <= 20);
    assert!((synced.cues[1].start_ms - 5_000).abs() <= 20);
    // Payloads are preserved.
    assert_eq!(synced.cues[0].payload, "Hi");
    assert_eq!(synced.cues[1].payload, "Bye");
}

#[test]
fn sync_without_a_reference_changes_nothing() {
    let sub = srt::parse("00:00:04,000 --> 00:00:05,000\nHi\n").unwrap();
    assert_eq!(sync(&sub, &[], &AlignParams::default()), sub);
}

#[test]
fn sync_absorbs_a_break_with_a_finite_penalty() {
    let text = "00:00:01,000 --> 00:00:02,000\na\n\n00:00:20,000 --> 00:00:21,000\nb\n";
    let sub = srt::parse(text).unwrap();
    let reference = vec![Span::new(1_000, 2_000), Span::new(10_000, 11_000)];
    let params = AlignParams {
        split_penalty: 7,
        ..AlignParams::default()
    };
    let synced = sync(&sub, &reference, &params);
    assert_eq!(synced.cues[0].start_ms, 1_000);
    assert_eq!(synced.cues[1].start_ms, 10_000);
    assert_eq!(synced.cues[1].end_ms, 11_000);
}

#[test]
fn a_late_subtitle_is_put_back_exactly() {
    let text = "1\n00:00:04,000 --> 00:00:05,000\nHi\n\n2\n00:00:08,000 --> 00:00:09,000\nBye\n";
    let sub = srt::parse(text).unwrap();
    let reference = vec![Span::new(1_000, 2_000), Span::new(5_000, 6_000)];
    let synced = sync(&sub, &reference, &AlignParams::default());
    assert_eq!(synced.spans(), reference);
}
