//! MicroDVD. The conversion between frames and milliseconds is the caller's, so it is made
//! here.

use subomatic::microdvd;
use subomatic::{Cue, Format, Subtitle};

const DEFAULT_FPS: f64 = 23.976;

fn sane_fps(fps: f64) -> f64 {
    if fps.is_finite() && fps > 0.0 {
        fps
    } else {
        DEFAULT_FPS
    }
}

fn usable(rate: Option<String>) -> Option<f64> {
    rate?.parse::<f64>().ok().filter(|r| r.is_finite() && *r > 0.0)
}

fn fps_from_header(header: &str) -> Option<f64> {
    usable(microdvd::header_rate(header))
}

fn parse(input: &str, fps: f64) -> Subtitle {
    let declared = usable(microdvd::declared_rate(input));
    let rate = declared.unwrap_or(sane_fps(fps));
    let to_ms = |frame: i64| (frame as f64 * 1000.0 / rate).round() as i64;
    let times: Vec<(i64, i64)> = microdvd::frames(input, declared.is_some())
        .into_iter()
        .map(|(a, b)| (to_ms(a), to_ms(b)))
        .collect();
    microdvd::parse(input, declared.is_some(), &times)
}

fn serialize(sub: &Subtitle, fps: f64) -> String {
    let rate = fps_from_header(&sub.header).unwrap_or(sane_fps(fps));
    let to_frame = |ms: i64| (ms.max(0) as f64 * rate / 1000.0).round() as u64;
    let frames: Vec<(u64, u64)> = sub
        .cues
        .iter()
        .map(|c| (to_frame(c.start_ms), to_frame(c.end_ms)))
        .collect();
    microdvd::serialize(sub, &frames)
}

#[test]
fn parses_frames_to_ms_and_round_trips() {
    let fps = 25.0;
    let input = "{25}{50}Hello\n{75}{100}World|second line\n";
    let sub = parse(input, fps);
    assert_eq!(sub.format, Format::MicroDvd);
    assert_eq!(sub.cues.len(), 2);
    // 25 frames / 25 fps = 1.0 s.
    assert_eq!(sub.cues[0].start_ms, 1_000);
    assert_eq!(sub.cues[0].end_ms, 2_000);
    assert_eq!(sub.cues[0].payload, "Hello");
    assert_eq!(sub.cues[1].payload, "World\nsecond line");

    let out = serialize(&sub, fps);
    assert!(out.contains("{25}{50}Hello"));
    assert!(out.contains("{75}{100}World|second line"));
}

#[test]
fn consumes_leading_fps_declaration_line() {
    let sub = parse("{1}{1}25.000\n{25}{50}Hi\n", DEFAULT_FPS);
    assert_eq!(sub.cues.len(), 1);
    assert_eq!(sub.cues[0].start_ms, 1_000); // 25 frames @ 25 fps
}

#[test]
fn round_trips_declared_fps() {
    // The declared 25 fps must drive serialization, not the (different) fallback.
    let sub = parse("{1}{1}25.000\n{25}{50}Hi\n", DEFAULT_FPS);
    assert_eq!(sub.cues[0].start_ms, 1_000);
    let out = serialize(&sub, DEFAULT_FPS);
    assert!(out.contains("{1}{1}25.000"), "declaration lost: {out}");
    assert!(
        out.contains("{25}{50}Hi"),
        "wrong frames (must use declared fps): {out}"
    );
}

#[test]
fn frame_one_record_after_a_cue_is_not_a_declaration() {
    let sub = parse("{25}{50}Hi\n{1}{1}123\n", 25.0);
    assert_eq!(sub.cues.len(), 2);
    assert_eq!(sub.cues[1].payload, "123");
}

#[test]
fn non_finite_fps_falls_back_to_default() {
    let sub = parse("{24}{48}Hi\n", f64::INFINITY);
    assert!(sub.cues[0].start_ms > 0);
}

#[test]
fn header_fps_only_from_a_one_one_record() {
    assert_eq!(fps_from_header("{1}{1}25"), Some(25.0));
    assert_eq!(fps_from_header("{5}{9}30"), None);
    assert_eq!(fps_from_header("garbage"), None);
}

#[test]
fn only_the_first_record_can_declare_the_rate() {
    assert_eq!(microdvd::declared_rate("x\n {1}{1} 25 \n"), Some("25".to_string()));
    assert_eq!(microdvd::declared_rate("{2}{2}25\n{1}{1}25\n"), None);
    assert_eq!(microdvd::declared_rate(""), None);
    // A first record that is no rate is a cue, and so is the declaration behind it.
    let sub = parse("{1}{1}Title\n{1}{1}25\n", 25.0);
    assert_eq!(sub.header, "");
    assert_eq!(sub.cues, vec![Cue::new(40, 40, "Title"), Cue::new(40, 40, "25")]);
    // Behind a declaration the same shape is a cue as well.
    let sub = parse("{1}{1}25\n{1}{1}30\n", 10.0);
    assert_eq!(sub.header, "{1}{1}25");
    assert_eq!(sub.cues, vec![Cue::new(40, 40, "30")]);
}

#[test]
fn lines_that_are_no_records_are_skipped() {
    let input = "{a}{2}x\n{-1}{2}x\n{1}2}x\n{1}{2\n  { 3 }{ 4 } kept |as is  \n";
    assert_eq!(microdvd::frames(input, false), vec![(3, 4)]);
    let sub = microdvd::parse(input, false, &[(30, 40)]);
    assert_eq!(sub.cues, vec![Cue::new(30, 40, " kept \nas is")]);
}

#[test]
fn written_records_read_back_with_their_frames() {
    let mut sub = parse("\u{feff}  {1}{1}25 \r\n{25}{50}a|b|\r\n{75}{100}\r\n", DEFAULT_FPS);
    sub.shift_all(-1_500);
    let out = serialize(&sub, DEFAULT_FPS);
    assert_eq!(out, "  {1}{1}25 \n{0}{13}a|b|\n{38}{63}\n");
    assert_eq!(microdvd::frames(&out, true), vec![(0, 13), (38, 63)]);
    let again = parse(&out, DEFAULT_FPS);
    assert_eq!(again.header, sub.header);
    assert_eq!(again.cues[0].payload, "a\nb\n");
    assert_eq!(again.cues[1].payload, "");
}
