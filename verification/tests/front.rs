//! What the front-ends share.

use std::path::Path;

use subomatic::front::{
    check_sample_rate, detect_format, extension_message, input_format, params_with,
    resolve_out_format, safe_filename, sync_with_credit, CREDIT_TEXT,
};
use subomatic::vad::{
    detector_named, energy_spans, frame_len, neural_spans, Detector, Smoothing, NEURAL_FRAME,
};
use subomatic::{sync, AlignParams, Format, Span, Subtitle};

const A_CUE: &str = "1\n00:00:04,000 --> 00:00:05,000\nHi\n";
const REF: &str = "1\n00:00:01,000 --> 00:00:02,000\nHi\n";

fn path_format(path: &str) -> Result<Format, String> {
    detect_format(Path::new(path).extension().and_then(|e| e.to_str()))
}

fn read(text: &str, format: &str) -> Result<Subtitle, String> {
    let format = input_format(format)?;
    Subtitle::parse(format, text, false, &[]).map_err(|e| e.message())
}

fn check_fps(fps: f64) -> Result<(), String> {
    if fps.is_finite() && fps > 0.0 {
        Ok(())
    } else {
        Err(format!("fps must be positive and finite, got {fps}"))
    }
}

/// Align to a reference subtitle, with the attribution of the web app or without it.
fn to_reference(
    input: &str,
    format: &str,
    reference: &str,
    reference_format: &str,
    fps: f64,
    out_format: &str,
    credit: bool,
) -> Result<String, String> {
    check_fps(fps)?;
    let subtitle = read(input, format)?;
    let out = resolve_out_format(out_format, subtitle.format)?;
    let reference = read(reference, reference_format)?.spans();
    let params = AlignParams::default();
    let synced = if credit {
        sync_with_credit(&subtitle, &reference, &params)
    } else {
        sync(&subtitle, &reference, &params)
    };
    Ok(synced.serialize_as(out, &[]))
}

fn detect_speech(vad: &str, samples: &[f32], sample_rate: u32) -> Vec<Span> {
    match detector_named(vad) {
        Detector::Energy => {
            let len = frame_len(20, sample_rate);
            let energies: Vec<f32> = samples
                .chunks(len as usize)
                .map(|f| (f.iter().map(|s| s * s).sum::<f32>() / f.len() as f32).sqrt())
                .collect();
            let mean = energies.iter().sum::<f32>() / energies.len() as f32;
            let speech: Vec<bool> = energies.iter().map(|&e| e > mean * 1.5).collect();
            energy_spans(&speech, len, samples.len() as i64, sample_rate, Smoothing::default())
        }
        Detector::Earshot => {
            // The signals below are at 16 kHz already.
            let mut detector = earshot::Detector::default();
            let speech: Vec<bool> = samples
                .chunks_exact(NEURAL_FRAME)
                .map(|frame| detector.predict_f32(frame) > 0.5)
                .collect();
            neural_spans(&speech, samples.len(), Smoothing::default())
        }
    }
}

/// Align to the speech in audio, with the attribution of the web app.
fn to_audio(
    input: &str,
    samples: &[f32],
    sample_rate: u32,
    fps: f64,
    vad: &str,
) -> Result<String, String> {
    check_fps(fps)?;
    check_sample_rate(sample_rate)?;
    let subtitle = read(input, "srt")?;
    let out = resolve_out_format("", subtitle.format)?;
    let spans = detect_speech(vad, samples, sample_rate);
    let synced = sync_with_credit(&subtitle, &spans, &AlignParams::default());
    Ok(synced.serialize_as(out, &[]))
}

#[test]
fn detects_format_by_extension() {
    assert_eq!(path_format("a.srt").unwrap(), Format::SubRip);
    assert_eq!(path_format("a.VTT").unwrap(), Format::WebVtt);
    assert_eq!(path_format("a.sub").unwrap(), Format::MicroDvd);
    assert_eq!(path_format("a.ass").unwrap(), Format::Ass);
    assert!(path_format("a.txt").is_err());
    assert!(path_format("noext").is_err());
}

#[test]
fn safe_filename_strips_paths_and_traversal() {
    assert_eq!(safe_filename("movie.srt"), "movie.srt");
    assert_eq!(safe_filename("../../etc/passwd"), "passwd");
    assert_eq!(safe_filename("/abs/path/x.ass"), "x.ass");
    assert_eq!(safe_filename("sub\\dir\\y.vtt"), "y.vtt");
    assert_eq!(safe_filename("C:\\dir\\z.srt"), "z.srt");
    assert_eq!(safe_filename("C:movie.srt"), "movie.srt");
    assert_eq!(safe_filename(""), "subtitle.srt");
    assert_eq!(safe_filename(".."), "subtitle.srt");
    assert_eq!(safe_filename("..."), "subtitle.srt");
}

#[test]
fn parse_then_serialize_round_trips_srt() {
    let text = "1\n00:00:01,000 --> 00:00:02,000\nHi\n";
    let sub = Subtitle::parse(Format::SubRip, text, false, &[]).unwrap();
    let out = sub.serialize(&[]);
    let reparsed = Subtitle::parse(Format::SubRip, &out, false, &[]).unwrap();
    assert_eq!(reparsed.cues, sub.cues);
}

#[test]
fn lib_sub_to_sub_shifts_to_reference() {
    let out = to_reference(A_CUE, "srt", REF, "srt", 25.0, "", true).unwrap();
    assert!(out.contains("00:00:01,000 --> 00:00:02,000"), "got {out}");
}

#[test]
fn lib_audio_mode_detects_and_shifts() {
    let sr = 8_000u32;
    let mut samples = vec![0.0f32; sr as usize * 2];
    for s in samples.iter_mut().skip(sr as usize / 2).take(sr as usize) {
        *s = 0.5;
    }
    let late = "1\n00:00:05,000 --> 00:00:06,000\nHi\n";
    // Energy VAD: the synthetic tone is loud, not speech-shaped, so earshot
    // wouldn't flag it.
    let out = to_audio(late, &samples, sr, 25.0, "energy").unwrap();
    // The loud region is ~0.5-1.5 s; the 1 s cue should land there.
    assert!(out.contains("00:00:00,500"), "got {out}");
}

#[test]
fn lib_output_format_can_differ_from_input() {
    // Sub-to-sub with an SRT input but VTT requested out: VTT signature, no
    // SRT cue indices, timing still corrected to the reference.
    let out = to_reference(A_CUE, "srt", REF, "srt", 25.0, "vtt", true).unwrap();
    assert!(out.starts_with("WEBVTT"), "expected VTT output, got {out}");
    assert!(out.contains("00:00:01.000 --> 00:00:02.000"), "got {out}");
}

#[test]
fn unknown_input_and_output_formats_error() {
    // Text without an event line is a valid (empty) ASS file; its reference is not SRT.
    assert!(to_reference("x", "ass", "y", "srt", 25.0, "", true).is_err());
    // A valid input but an unrecognized output format is rejected too.
    assert!(to_reference(A_CUE, "srt", REF, "srt", 25.0, "xyz", true).is_err());
}

#[test]
fn lib_rejects_bad_fps_and_sample_rate() {
    assert!(to_reference(A_CUE, "srt", REF, "srt", f64::NAN, "", true).is_err());
    assert!(to_reference(A_CUE, "srt", REF, "srt", 0.0, "", true).is_err());
    assert!(to_audio(A_CUE, &[0.1, 0.2], 0, 25.0, "energy").is_err());
}

#[test]
fn output_carries_the_attribution_credit() {
    // The web output appends the credit just after the last cue.
    let out = to_reference(A_CUE, "srt", REF, "srt", 25.0, "", true).unwrap();
    assert!(out.contains(CREDIT_TEXT), "credit missing: {out}");
    // It plays after the (shifted) dialogue, not over it: last cue ends at
    // 00:00:02,000, so the credit runs 00:00:03,000 -> 00:00:06,000.
    assert!(out.contains("00:00:03,000 --> 00:00:06,000"), "got {out}");
}

#[test]
fn native_output_has_no_attribution_credit() {
    // The native app matches the CLI: no "Synced with subomatic.github.io".
    let out = to_reference(A_CUE, "srt", REF, "srt", 25.0, "", false).unwrap();
    assert!(
        !out.contains("subomatic.github.io"),
        "credit must NOT be appended natively: {out}"
    );
}

#[test]
fn earshot_is_the_default_vad() {
    // A short, near-silent clip: earshot (the default) finds no speech, so the
    // subtitle is returned unshifted rather than chasing loudness. The point is
    // that an empty `vad` selects earshot without panicking.
    let sr = 16_000u32;
    let samples = vec![0.0f32; sr as usize];
    let out = to_audio(A_CUE, &samples, sr, 25.0, "").unwrap();
    assert!(out.contains("00:00:04,000 --> 00:00:05,000"), "got {out}");
}

#[test]
fn safe_names_are_trimmed_before_they_are_judged() {
    assert_eq!(safe_filename("a/ b.srt "), "b.srt");
    assert_eq!(safe_filename("a/ .. "), "subtitle.srt");
    assert_eq!(safe_filename("dir/"), "subtitle.srt");
    assert_eq!(safe_filename(".hidden"), ".hidden");
}

#[test]
fn unknown_formats_are_named_in_the_message() {
    assert_eq!(
        path_format("a.t\"xt").unwrap_err(),
        "unsupported subtitle extension Some(\"t\\\"xt\") \
         (expected .srt, .vtt, .sub, .ass, or .ssa)"
    );
    assert_eq!(path_format("noext").unwrap_err(), extension_message(None));
    assert_eq!(
        resolve_out_format("x\ny", Format::Ass).unwrap_err(),
        "unsupported output format: \"x\\ny\""
    );
    assert_eq!(resolve_out_format("", Format::Ass), Ok(Format::Ass));
    assert_eq!(resolve_out_format("SRT", Format::Ass), Ok(Format::SubRip));
    assert_eq!(
        input_format("doc").unwrap_err(),
        "unsupported subtitle format: \"doc\""
    );
    assert_eq!(
        check_sample_rate(0).unwrap_err(),
        "sample_rate must be greater than 0"
    );
}

#[test]
fn parameters_take_the_penalty_that_is_given() {
    assert_eq!(params_with(None).split_penalty, i64::MAX);
    let params = params_with(Some(7));
    assert_eq!(params.split_penalty, 7);
    assert_eq!(params.range.min_delta, -60_000);
    assert_eq!(params.fps_ratios.len(), 13);
}

#[test]
fn a_safe_name_is_its_own_safe_name() {
    for name in ["a/ b c.srt ", "..", "", "C:\\x\\.y", "\u{3000}z\u{3000}"] {
        let safe = safe_filename(name);
        assert_eq!(safe, safe.trim());
        assert_eq!(safe_filename(&safe), safe);
    }
}
