//! The subtitle model.

use subomatic::align::FpsRatio;
use subomatic::cue::ParseError;
use subomatic::srt::SrtError;
use subomatic::{Alignment, Cue, Format, Span, Subtitle};

#[test]
fn format_from_extension_is_case_insensitive() {
    assert_eq!(Format::from_extension("srt"), Some(Format::SubRip));
    assert_eq!(Format::from_extension("VTT"), Some(Format::WebVtt));
    assert_eq!(Format::from_extension("sub"), Some(Format::MicroDvd));
    assert_eq!(Format::from_extension("Ass"), Some(Format::Ass));
    assert_eq!(Format::from_extension("ssa"), Some(Format::Ass));
    assert_eq!(Format::from_extension("txt"), None);
    assert_eq!(Format::from_extension(""), None);
}

#[test]
fn parse_dispatches_by_format_and_wraps_errors() {
    let sub = Subtitle::parse(
        Format::SubRip,
        "00:00:01,000 --> 00:00:02,000\nHi\n",
        false,
        &[],
    )
    .expect("valid SRT");
    assert_eq!(sub.format, Format::SubRip);
    assert_eq!(sub.cues.len(), 1);

    // A format-specific failure surfaces as the matching ParseError variant.
    let err = Subtitle::parse(Format::SubRip, "00:00:01,000 --> nope\nHi\n", false, &[])
        .expect_err("bad timestamp");
    assert!(matches!(err, ParseError::Srt(_)));
    // Parse then serialize round-trips through the shared dispatch.
    assert_eq!(
        Subtitle::parse(sub.format, &sub.serialize(&[]), false, &[]).unwrap(),
        sub
    );
}

#[test]
fn shift_all_saturates_instead_of_overflowing() {
    let mut sub = Subtitle {
        format: Format::SubRip,
        header: String::new(),
        cues: vec![Cue::new(i64::MAX - 10, i64::MAX - 5, "x")],
    };
    sub.shift_all(1_000); // would overflow without saturation
    assert_eq!(sub.cues[0].start_ms, i64::MAX);
    assert_eq!(sub.cues[0].end_ms, i64::MAX);
}

#[test]
fn apply_alignment_scales_then_offsets_and_keeps_payload() {
    let mut sub = Subtitle {
        format: Format::SubRip,
        header: String::new(),
        cues: vec![Cue::new(1_000, 2_000, "a"), Cue::new(10_000, 11_000, "b")],
    };
    let alignment = Alignment {
        fps_ratio: FpsRatio::new(2, 1).unwrap(),
        offsets: vec![100, -100],
        score: 0,
    };
    sub.apply_alignment(&alignment);
    assert_eq!(sub.cues[0].start_ms, 2_100);
    assert_eq!(sub.cues[0].end_ms, 4_100);
    assert_eq!(sub.cues[1].start_ms, 19_900);
    assert_eq!(sub.cues[1].end_ms, 21_900);
    assert_eq!(sub.cues[0].payload, "a");
    assert_eq!(sub.cues[1].payload, "b");
}

#[test]
fn cues_without_an_offset_are_only_scaled() {
    let mut sub = Subtitle {
        format: Format::WebVtt,
        header: "WEBVTT".to_string(),
        cues: vec![Cue::new(3, 5, "a"), Cue::new(-3, i64::MAX, "b")],
    };
    sub.apply_alignment(&Alignment {
        fps_ratio: FpsRatio::new(3, 2).unwrap(),
        offsets: vec![1],
        score: 0,
    });
    // Halves are rounded away from zero.
    assert_eq!(sub.cues[0], Cue::new(6, 9, "a"));
    assert_eq!(sub.cues[1], Cue::new(-5, i64::MAX, "b"));
    assert_eq!(sub.header, "WEBVTT");
}

#[test]
fn each_format_is_dispatched_to_its_own_parser() {
    let vtt = Subtitle::parse(Format::WebVtt, "x", false, &[]).unwrap_err();
    assert_eq!(vtt.message(), "not a WebVTT file (missing WEBVTT signature)");
    let ass = Subtitle::parse(Format::Ass, "Dialogue: x", false, &[]).unwrap_err();
    assert!(matches!(ass, ParseError::Ass(_)));
    assert_eq!(ass.message(), "ASS file has no [Events] Format: line");
    let sub = Subtitle::parse(Format::MicroDvd, "{1}{1}25\n{5}{6}a", true, &[(200, 240)]).unwrap();
    assert_eq!(sub.serialize(&[(5, 6)]), "{1}{1}25\n{5}{6}a\n");
    let srt: ParseError = SrtError::MissingTiming(3).into();
    assert_eq!(srt.message(), "subtitle block 3 has no timing line");
}

#[test]
fn serialize_as_converts_first() {
    let sub = Subtitle::parse(
        Format::SubRip,
        "00:00:01,000 --> 00:00:02,000\n<b>a</b> & b\n",
        false,
        &[],
    )
    .unwrap();
    assert_eq!(
        sub.serialize_as(Format::WebVtt, &[]),
        "WEBVTT\n\n00:00:01.000 --> 00:00:02.000\n<b>a</b> & b\n\n"
    );
    assert_eq!(sub.serialize_as(Format::MicroDvd, &[(25, 50)]), "{25}{50}a & b\n");
    assert_eq!(sub.serialize_as(Format::SubRip, &[]), sub.serialize(&[]));
}

#[test]
fn the_credit_follows_the_latest_end() {
    let mut sub = Subtitle {
        format: Format::WebVtt,
        header: String::new(),
        cues: vec![Cue::new(0, 9_000, "a"), Cue::new(1_000, 2_000, "b")],
    };
    sub.append_credit("x & y", 1_000, 3_000);
    assert_eq!(sub.cues[2], Cue::new(10_000, 13_000, "x &amp; y"));
    let mut none = Subtitle {
        format: Format::SubRip,
        header: String::new(),
        cues: Vec::new(),
    };
    none.append_credit("c", 5, i64::MAX);
    assert_eq!(none.cues, vec![Cue::new(5, i64::MAX, "c")]);
}

#[test]
fn spans_measure_time() {
    let span = Span::new(i64::MIN, i64::MAX);
    assert_eq!(span.len(), i64::MAX);
    assert_eq!(Span::new(5, 5).len(), 0);
    assert!(Span::new(5, 4).is_empty());
    assert_eq!(Span::new(0, 10).overlap(&Span::new(5, 20)), 5);
    assert_eq!(Span::new(0, 5).overlap(&Span::new(5, 20)), 0);
    assert_eq!(Span::new(1, 2).shifted(-3), Span::new(-2, -1));
    let sub = Subtitle {
        format: Format::SubRip,
        header: String::new(),
        cues: vec![Cue::new(1, 2, "a")],
    };
    assert_eq!(sub.spans(), vec![Span::new(1, 2)]);
}

#[test]
fn a_shift_is_undone_by_its_opposite() {
    let mut sub = Subtitle {
        format: Format::SubRip,
        header: String::new(),
        cues: vec![Cue::new(1_000, 2_000, "a"), Cue::new(-5, 5, "b")],
    };
    let before = sub.clone();
    sub.shift_all(-1_234);
    assert_eq!(sub.cues[0].start_ms, -234);
    sub.shift_all(1_234);
    assert_eq!(sub, before);
}
