//! WebVTT.

use subomatic::vtt::{parse, serialize, VttError};
use subomatic::{Cue, Format, Subtitle};

#[test]
fn vtt_parses_cues_and_round_trips() {
    let input = "WEBVTT\n\n00:00:01.000 --> 00:00:02.000\nHello\n\n\
                 00:00:05.500 --> 00:00:06.250 position:50%\nWorld\nline2\n";
    let sub = parse(input).unwrap();
    assert_eq!(sub.format, Format::WebVtt);
    assert_eq!(sub.cues.len(), 2);
    assert_eq!(sub.cues[0].start_ms, 1_000);
    assert_eq!(sub.cues[0].end_ms, 2_000);
    assert_eq!(sub.cues[0].payload, "Hello");
    assert_eq!(sub.cues[1].start_ms, 5_500);
    assert_eq!(sub.cues[1].payload, "World\nline2");

    let reparsed = parse(&serialize(&sub)).unwrap();
    assert_eq!(reparsed.cues, sub.cues);
}

#[test]
fn accepts_short_timestamps_and_requires_signature() {
    let sub = parse("WEBVTT\n\n01:02.500 --> 01:03.000\nHi\n").unwrap();
    assert_eq!(sub.cues[0].start_ms, 62_500);
    assert!(parse("nope\n\n00:00:01.000 --> 00:00:02.000\nHi").is_err());
}

#[test]
fn preserves_style_block_in_header() {
    let input = "WEBVTT\n\nSTYLE\n::cue { color: yellow }\n\n00:00:01.000 --> 00:00:02.000\nHi\n";
    let sub = parse(input).unwrap();
    assert!(sub.header.contains("STYLE"));
    assert!(serialize(&sub).contains("::cue { color: yellow }"));
}

#[test]
fn vtt_treats_whitespace_only_lines_as_separators() {
    // The "blank" lines between blocks contain spaces.
    let input =
        "WEBVTT\n \n00:00:01.000 --> 00:00:02.000\nA\n  \n00:00:03.000 --> 00:00:04.000\nB\n";
    let sub = parse(input).unwrap();
    assert_eq!(sub.cues.len(), 2);
    assert_eq!(sub.cues[0].payload, "A");
    assert_eq!(sub.cues[1].payload, "B");
}

#[test]
fn vtt_output_is_canonical() {
    let sub = Subtitle {
        format: Format::WebVtt,
        header: String::new(),
        cues: vec![Cue::new(-1, 3_661_001, "A")],
    };
    assert_eq!(
        serialize(&sub),
        "WEBVTT\n\n00:00:00.000 --> 01:01:01.001\nA\n\n"
    );
}

#[test]
fn vtt_folds_notes_between_cues_into_the_preamble() {
    let input = "WEBVTT - title \n\nid\n00:01.000 --> 00:02.000\nA\n\nNOTE one\ntwo  \n\n\
                 00:03.000 --> 00:04.000\nB\n";
    let sub = parse(input).unwrap();
    assert_eq!(sub.header, "WEBVTT - title \n\nNOTE one\ntwo  ");
    assert_eq!(sub.cues[0], Cue::new(1_000, 2_000, "A"));
    let again = parse(&serialize(&sub)).unwrap();
    // Only white space at the very end of the header is lost.
    assert_eq!(again.header, "WEBVTT - title \n\nNOTE one\ntwo");
    assert_eq!(again.cues, sub.cues);
}

#[test]
fn vtt_retimed_cues_read_back_from_zero() {
    let mut sub = parse("WEBVTT\n\n00:01.000 --> 00:02.000\nA\n").unwrap();
    sub.shift_all(-1_500);
    let again = parse(&serialize(&sub)).unwrap();
    assert_eq!(again.header, "WEBVTT");
    assert_eq!(again.cues, vec![Cue::new(0, 500, "A")]);
}

#[test]
fn vtt_errors_say_what_is_wrong() {
    let missing = parse("").unwrap_err();
    assert_eq!(missing, VttError::MissingHeader);
    assert_eq!(
        missing.message(),
        "not a WebVTT file (missing WEBVTT signature)"
    );
    let bad = parse("WEBVTT\n\n1.000 --> 00:02.000\nA\n").unwrap_err();
    assert_eq!(bad, VttError::BadTimestamp("1.000".to_string()));
    assert_eq!(bad.message(), "bad WebVTT timestamp: \"1.000\"");
    assert!(parse("WEBVTT\n\n00:01.000 --> 1:2:3:4.000\nA\n").is_err());
    assert!(parse("WEBVTT\n\n00:-1.000 --> 00:02.000\nA\n").is_err());
}

#[test]
fn the_signature_line_is_preserved_where_a_cue_follows_at_once() {
    let sub = parse("WEBVTT - t\n00:01.000 --> 00:02.000\nHi\n\nNOTE foo\n").unwrap();
    assert_eq!(sub.header, "WEBVTT - t\n\nNOTE foo");
    assert_eq!(sub.cues, vec![Cue::new(1_000, 2_000, "Hi")]);
    let text = serialize(&sub);
    assert_eq!(
        text,
        "WEBVTT - t\n\nNOTE foo\n\n00:00:01.000 --> 00:00:02.000\nHi\n\n"
    );
    assert_eq!(parse(&text).unwrap(), sub);

    // What stands between it and the timing line is still an identifier.
    let sub = parse("WEBVTT\nid\n00:01.000 --> 00:02.000\nHi\n").unwrap();
    assert_eq!(sub.header, "WEBVTT");
    assert_eq!(sub.cues, vec![Cue::new(1_000, 2_000, "Hi")]);

    // A signature line with an arrow is a timing line without a start.
    assert_eq!(
        parse("WEBVTT --> 00:02.000\nHi\n"),
        Err(VttError::BadTimestamp("WEBVTT".to_string()))
    );
}
