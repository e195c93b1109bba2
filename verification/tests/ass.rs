//! Advanced SubStation Alpha.

use subomatic::ass::{
    clean_text, default_header, dialogue_line, event_plain_text, format_time, is_event,
    parse, parse_columns, parse_time, rewrite_event, serialize, AssError, Columns,
};
use subomatic::chars::to_chars;
use subomatic::{Cue, Format, Subtitle};

const SAMPLE: &str = "\
[Script Info]
Title: Demo
ScriptType: v4.00+

[V4+ Styles]
Format: Name, Fontname, Fontsize
Style: Default,Arial,20

[Events]
Format: Layer, Start, End, Style, Name, MarginL, MarginR, MarginV, Effect, Text
Dialogue: 0,0:00:01.00,0:00:02.00,Default,,0,0,0,,Hello, world
Comment: 0,0:00:03.00,0:00:04.50,Default,,0,0,0,,note
";

#[test]
fn parses_dialogue_timing_and_preserves_text_with_commas() {
    let sub = parse(SAMPLE).unwrap();
    assert_eq!(sub.format, Format::Ass);
    assert_eq!(sub.cues.len(), 2);
    assert_eq!(sub.cues[0].start_ms, 1_000);
    assert_eq!(sub.cues[0].end_ms, 2_000);
    // The Text field ("Hello, world") contains a comma and must survive.
    assert!(sub.cues[0].payload.ends_with("Hello, world"));
    assert_eq!(sub.cues[1].start_ms, 3_000);
    assert_eq!(sub.cues[1].end_ms, 4_500);
}

#[test]
fn round_trip_preserves_header_and_fields() {
    let sub = parse(SAMPLE).unwrap();
    let out = serialize(&sub);
    assert!(out.contains("[Script Info]"));
    assert!(out.contains("Style: Default,Arial,20"));
    assert!(out.contains("Dialogue: 0,0:00:01.00,0:00:02.00,Default,,0,0,0,,Hello, world"));
    let reparsed = parse(&out).unwrap();
    assert_eq!(reparsed.cues, sub.cues);
}

#[test]
fn serialize_after_shift_rewrites_only_timing() {
    let mut sub = parse(SAMPLE).unwrap();
    sub.shift_all(500);
    let out = serialize(&sub);
    // First cue moves 1.0->1.5 s and 2.0->2.5 s; everything else stays.
    assert!(out.contains("Dialogue: 0,0:00:01.50,0:00:02.50,Default,,0,0,0,,Hello, world"));
}

#[test]
fn missing_events_format_errors() {
    let bad = "[Events]\nDialogue: 0,0:00:01.00,0:00:02.00,Default,,0,0,0,,Hi\n";
    assert_eq!(parse(bad).unwrap_err(), AssError::MissingEventsFormat);
}

#[test]
fn non_ascii_lines_do_not_panic() {
    // A non-event line with multibyte chars must not panic the prefix check.
    let input = "[Script Info]\nTitle: éàü\n\n[Events]\n\
                 Format: Layer, Start, End, Text\nDialogue: 0,0:00:01.00,0:00:02.00,héllo\n";
    let sub = parse(input).unwrap();
    assert_eq!(sub.cues.len(), 1);
    assert_eq!(sub.cues[0].start_ms, 1_000);
}

#[test]
fn rejects_non_two_digit_centiseconds() {
    let bad = "[Events]\nFormat: Layer, Start, End, Text\n\
               Dialogue: 0,0:00:01.234,0:00:02.00,x\n";
    assert!(matches!(parse(bad).unwrap_err(), AssError::BadTiming(_)));
}

#[test]
fn whole_sample_is_written_verbatim() {
    assert_eq!(serialize(&parse(SAMPLE).unwrap()), SAMPLE);
}

#[test]
fn retimed_events_keep_every_other_field() {
    let mut sub = parse(SAMPLE).unwrap();
    sub.shift_all(-1_504);
    let again = parse(&serialize(&sub)).unwrap();
    assert_eq!(again.header, sub.header);
    assert_eq!(
        again.cues[0],
        Cue::new(
            0,
            490,
            "Dialogue: 0,0:00:00.00,0:00:00.49,Default,,0,0,0,,Hello, world"
        )
    );
    assert_eq!(again.cues[1].start_ms, 1_490);
    assert_eq!(again.cues[1].end_ms, 2_990);
}

#[test]
fn lines_after_the_events_are_left_out() {
    let input = "[Events]\nFormat: Start, End, Text\nDialogue: 0:00:01.00,0:00:02.00,a\n\
                 [Fonts]\nDialogue: 0:00:03.00,0:00:04.00,b\n";
    let sub = parse(input).unwrap();
    assert_eq!(sub.header, "[Events]\nFormat: Start, End, Text");
    assert_eq!(sub.cues.len(), 2);
    assert!(!serialize(&sub).contains("[Fonts]"));
}

#[test]
fn text_without_events_is_all_header() {
    let sub = parse("[Script Info]\nTitle: x\n\n").unwrap();
    assert_eq!(sub.header, "[Script Info]\nTitle: x\n");
    assert!(sub.cues.is_empty());
    assert_eq!(serialize(&sub), "[Script Info]\nTitle: x\n\n");
    assert_eq!(parse(&serialize(&sub)).unwrap(), sub);
}

#[test]
fn ass_times_are_centiseconds() {
    assert_eq!(format_time(3_661_239), "1:01:01.23");
    assert_eq!(format_time(-10), "0:00:00.00");
    assert_eq!(parse_time(&to_chars(" 1:01:01.23 ")), Some(3_661_230));
    assert_eq!(parse_time(&to_chars("0:00:01")), None);
    assert_eq!(parse_time(&to_chars("0:00:01.2x")), None);
    assert_eq!(parse_time(&to_chars("0:00:00:01.20")), None);
    assert_eq!(parse_time(&to_chars("0:-1:01.20")), None);
}

#[test]
fn columns_are_found_by_name() {
    assert_eq!(
        parse_columns(&to_chars("  FORMAT: layer , END,start")),
        Some(Columns {
            start: 2,
            end: 1,
            count: 3
        })
    );
    assert_eq!(parse_columns(&to_chars("Format: Name, Fontname")), None);
    assert_eq!(parse_columns(&to_chars("Start, End")), None);
    assert!(is_event(&to_chars(" comment:x")));
    assert!(!is_event(&to_chars("Commentary")));
}

#[test]
fn malformed_events_are_emitted_unchanged() {
    let cols = Some(Columns {
        start: 1,
        end: 2,
        count: 4,
    });
    assert_eq!(rewrite_event("no colon", cols, 0, 0), "no colon");
    assert_eq!(rewrite_event("Dialogue: 0,x", cols, 0, 0), "Dialogue: 0,x");
    assert_eq!(rewrite_event("Dialogue: 0,a,b,c,d", None, 0, 0), "Dialogue: 0,a,b,c,d");
    assert_eq!(
        rewrite_event("Dialogue: 0,a,b,c,d", cols, 1_000, 2_000),
        "Dialogue: 0,0:00:01.00,0:00:02.00,c,d"
    );
}

#[test]
fn display_text_drops_overrides_and_decodes_escapes() {
    assert_eq!(
        clean_text(&to_chars("{\\i1}a{b{c}d}e\\Nf\\ng\\hh\\x}\\")),
        "ae\nf\ng h\\x}\\"
    );
    let header = "[Events]\nFormat: Layer, Start, End, Text";
    let line = "Dialogue: 0,0:00:01.00,0:00:02.00,one, two";
    assert_eq!(event_plain_text(header, line), "one, two");
    assert_eq!(event_plain_text("no format", "a\\Nb"), "a\nb");
}

#[test]
fn dialogue_lines_display_their_text() {
    let text = "Line one, still one\nLine \\two";
    let line = dialogue_line(text);
    assert_eq!(
        line,
        "Dialogue: 0,0:00:00.00,0:00:00.00,Default,,0,0,0,,Line one, still one\\NLine \\two"
    );
    assert_eq!(event_plain_text(&default_header(), &line), text);
    let sub = Subtitle {
        format: Format::Ass,
        header: default_header(),
        cues: vec![Cue::new(1_239, 2_000, &line)],
    };
    let again = parse(&serialize(&sub)).unwrap();
    assert_eq!(again.header, default_header());
    assert_eq!(again.cues[0].start_ms, 1_230);
    assert_eq!(event_plain_text(&again.header, &again.cues[0].payload), text);
}

#[test]
fn ass_errors_say_what_is_wrong() {
    assert_eq!(
        AssError::MissingEventsFormat.message(),
        "ASS file has no [Events] Format: line"
    );
    let bad = parse("Format: Start, End, Text\nDialogue: x,0:00:02.00,y\n").unwrap_err();
    assert_eq!(bad, AssError::BadTiming("Dialogue: x,0:00:02.00,y".to_string()));
    assert_eq!(
        bad.message(),
        "bad ASS dialogue timing: \"Dialogue: x,0:00:02.00,y\""
    );
}
