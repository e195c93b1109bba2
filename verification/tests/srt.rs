//! SubRip.

use subomatic::srt::{parse, serialize, SrtError};
use subomatic::{Cue, Format, Subtitle};

#[test]
fn srt_parses_cues_and_round_trips() {
    let input = "1\n00:00:01,000 --> 00:00:02,000\nHello\n\n\
                 2\n00:00:05,500 --> 00:00:06,250\nWorld\nsecond line\n";

    let sub = parse(input).unwrap();
    assert_eq!(sub.cues.len(), 2);
    assert_eq!(sub.cues[0].start_ms, 1000);
    assert_eq!(sub.cues[0].end_ms, 2000);
    assert_eq!(sub.cues[0].payload, "Hello");
    assert_eq!(sub.cues[1].start_ms, 5500);
    assert_eq!(sub.cues[1].end_ms, 6250);
    assert_eq!(sub.cues[1].payload, "World\nsecond line");

    // Parsing our own output must reproduce the same cues.
    let reparsed = parse(&serialize(&sub)).unwrap();
    assert_eq!(reparsed.cues, sub.cues);
}

#[test]
fn accepts_index_less_and_dot_decimal_input() {
    let sub = parse("00:00:01.000 --> 00:00:02.000\nNo index here\n").unwrap();
    assert_eq!(sub.cues.len(), 1);
    assert_eq!(sub.cues[0].start_ms, 1000);
    assert_eq!(sub.cues[0].end_ms, 2000);
    assert_eq!(sub.cues[0].payload, "No index here");
}

#[test]
fn srt_treats_whitespace_only_lines_as_separators() {
    // The "blank" line between the two cues contains spaces.
    let input = "00:00:01,000 --> 00:00:02,000\nA\n   \n00:00:03,000 --> 00:00:04,000\nB\n";
    let sub = parse(input).unwrap();
    assert_eq!(sub.cues.len(), 2);
    assert_eq!(sub.cues[0].payload, "A");
    assert_eq!(sub.cues[1].payload, "B");
}

#[test]
fn strips_leading_bom() {
    let sub = parse("\u{feff}00:00:01,000 --> 00:00:02,000\nHi\n").unwrap();
    assert_eq!(sub.cues.len(), 1);
    assert_eq!(sub.cues[0].start_ms, 1000);
}

#[test]
fn rejects_overflowing_timestamp() {
    // An hours field this large overflows i64 milliseconds.
    let input = "9999999999999:00:00,000 --> 9999999999999:00:01,000\nX\n";
    assert!(parse(input).is_err());
}

#[test]
fn rejects_negative_timestamp_field() {
    assert!(parse("00:-5:00,000 --> 00:00:01,000\nX\n").is_err());
}

#[test]
fn srt_output_is_canonical() {
    let sub = Subtitle {
        format: Format::SubRip,
        header: String::new(),
        cues: vec![
            Cue::new(-5, 3_661_001, "A\nB"),
            Cue::new(360_000_000, 360_000_001, ""),
        ],
    };
    assert_eq!(
        serialize(&sub),
        "1\n00:00:00,000 --> 01:01:01,001\nA\nB\n\n\
         2\n100:00:00,000 --> 100:00:00,001\n\n\n"
    );
}

#[test]
fn srt_reads_back_what_it_wrote_for_retimed_cues() {
    let mut sub = parse("1\n00:00:01,000 --> 00:00:02,000\nA\nB\n\n00:00:03,000 --> 00:00:04,000\n")
        .unwrap();
    sub.shift_all(-1_500);
    let again = parse(&serialize(&sub)).unwrap();
    assert_eq!(again.cues[0], Cue::new(0, 500, "A\nB"));
    assert_eq!(again.cues[1], Cue::new(1_500, 2_500, ""));
}

#[test]
fn srt_ignores_position_coordinates() {
    let sub = parse("00:00:01,000 --> 00:00:02,000 X1:40 X2:600\nHi\n").unwrap();
    assert_eq!(sub.cues[0], Cue::new(1_000, 2_000, "Hi"));
}

#[test]
fn srt_errors_name_the_block_and_the_text() {
    let missing = parse("00:00:01,000 --> 00:00:02,000\nA\n\nno timing\nhere\nat all\n");
    assert_eq!(missing, Err(SrtError::MissingTiming(2)));
    assert_eq!(
        missing.unwrap_err().message(),
        "subtitle block 2 has no timing line"
    );
    let bad = parse("00:00:01,000 --> no\"pe\nHi\n").unwrap_err();
    assert_eq!(bad, SrtError::BadTimestamp("no\"pe".to_string()));
    assert_eq!(bad.message(), "bad SRT timestamp: \"no\\\"pe\"");
}
