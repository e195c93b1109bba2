//! Conversion between formats.

use subomatic::convert::{escape_vtt, plain_text, strip_braces, strip_html, to_format};
use subomatic::{Cue, Format, Subtitle};

/// Parse text; MicroDVD runs at 25 frames per second.
fn parse(format: Format, text: &str) -> Subtitle {
    let times: Vec<(i64, i64)> = subomatic::microdvd::frames(text, false)
        .into_iter()
        .map(|(a, b)| (a * 40, b * 40))
        .collect();
    Subtitle::parse(format, text, false, &times).unwrap()
}

#[test]
fn srt_to_vtt_keeps_inline_markup() {
    let sub = parse(
        Format::SubRip,
        "1\n00:00:01,000 --> 00:00:02,000\n<i>Hi</i>\n",
    );
    let out = to_format(&sub, Format::WebVtt);
    assert_eq!(out.format, Format::WebVtt);
    assert_eq!(out.cues[0].payload, "<i>Hi</i>"); // markup preserved
                                                  // Re-serializes to valid VTT with the same timing.
    let text = out.serialize(&[]);
    assert!(text.starts_with("WEBVTT"));
    assert!(text.contains("<i>Hi</i>"));
}

#[test]
fn ass_to_srt_flattens_to_plain_text() {
    let ass = "[Events]\n\
               Format: Layer, Start, End, Style, Name, MarginL, MarginR, MarginV, Effect, Text\n\
               Dialogue: 0,0:00:01.00,0:00:02.00,Default,,0,0,0,,{\\i1}Hello{\\i0}\\Nworld\n";
    let sub = parse(Format::Ass, ass);
    let out = to_format(&sub, Format::SubRip);
    assert_eq!(out.format, Format::SubRip);
    // Override tags gone; the hard break became a newline.
    assert_eq!(out.cues[0].payload, "Hello\nworld");
    assert_eq!(out.cues[0].start_ms, 1_000);
}

#[test]
fn srt_to_ass_synthesizes_a_valid_dialogue_that_reparses() {
    let sub = parse(
        Format::SubRip,
        "1\n00:00:01,000 --> 00:00:02,000\nLine one\nLine two\n",
    );
    let out = to_format(&sub, Format::Ass);
    let text = out.serialize(&[]);
    assert!(text.contains("[Events]"));
    // Real timing was written, and the newline became an ASS hard break.
    assert!(text.contains("Dialogue: 0,0:00:01.00,0:00:02.00,Default,,0,0,0,,Line one\\NLine two"));
    // The synthesized ASS round-trips back through the parser.
    let reparsed = parse(Format::Ass, &text);
    assert_eq!(reparsed.cues.len(), 1);
    assert_eq!(reparsed.cues[0].start_ms, 1_000);
    assert_eq!(reparsed.cues[0].end_ms, 2_000);
}

#[test]
fn microdvd_to_srt_strips_style_codes() {
    let sub = parse(Format::MicroDvd, "{25}{50}{y:i}Hello|world\n");
    let out = to_format(&sub, Format::SubRip);
    assert_eq!(out.cues[0].payload, "Hello\nworld");
}

#[test]
fn flatten_into_vtt_escapes_specials() {
    let sub = parse(Format::MicroDvd, "{25}{50}5 < 10 & up\n");
    let out = to_format(&sub, Format::WebVtt);
    assert_eq!(out.cues[0].payload, "5 &lt; 10 &amp; up");
}

#[test]
fn same_format_is_an_identity_clone() {
    let sub = parse(
        Format::SubRip,
        "1\n00:00:01,000 --> 00:00:02,000\n<i>Hi</i>\n",
    );
    assert_eq!(to_format(&sub, Format::SubRip), sub);
}

#[test]
fn conversion_keeps_timing_and_drops_the_header() {
    let sub = Subtitle {
        format: Format::WebVtt,
        header: "WEBVTT\n\nSTYLE".to_string(),
        cues: vec![Cue::new(-3, 7, "<b>a</b>"), Cue::new(9, 8, "b")],
    };
    for target in [Format::SubRip, Format::MicroDvd, Format::Ass] {
        let out = to_format(&sub, target);
        assert_eq!(out.format, target);
        assert_eq!(out.spans(), sub.spans());
        assert!(!out.header.contains("STYLE"));
    }
}

#[test]
fn markup_and_entities_are_stripped() {
    assert_eq!(
        strip_html("<i>a</i> > b &lt;c&gt; &amp;lt; &nbsp;d <unclosed"),
        "a > b <c> &lt;  d "
    );
    assert_eq!(strip_braces("{y:i}a{b{c}d}e}f"), "ae}f");
}

#[test]
fn escaped_text_displays_as_itself() {
    for text in ["a < b & c > d", "&nbsp;&amp;lt;<i>", "&&<<>>", "", "plain"] {
        let escaped = escape_vtt(text);
        assert!(!escaped.contains('<') && !escaped.contains('>'));
        assert_eq!(strip_html(&escaped), text);
    }
}

#[test]
fn flattened_text_is_the_same_on_both_sides() {
    let text = "{\\i1}1 < 2{\\i0}\\N& more, please";
    let ass = format!("Format: Start, End, Text\nDialogue: 0:00:01.00,0:00:02.00,{text}\n");
    let sub = parse(Format::Ass, &ass);
    let shown = plain_text(Format::Ass, &sub.header, &sub.cues[0].payload);
    assert_eq!(shown, "1 < 2\n& more, please");
    let vtt = to_format(&sub, Format::WebVtt);
    assert_eq!(plain_text(Format::WebVtt, &vtt.header, &vtt.cues[0].payload), shown);
    let back = to_format(&vtt, Format::Ass);
    assert_eq!(plain_text(Format::Ass, &back.header, &back.cues[0].payload), shown);
}
