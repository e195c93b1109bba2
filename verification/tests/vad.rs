//! Voice-activity detection. What is not a whole number, the energies and the resampling, is
//! computed here as a front-end does.

use subomatic::vad::{
    detector_named, energy_spans, frame_len, merge_and_filter, neural_spans, Detector, Smoothing,
    NEURAL_FRAME,
};
use subomatic::Span;

fn energy_detect(samples: &[f32], sample_rate: u32) -> Vec<Span> {
    if samples.is_empty() || sample_rate == 0 {
        return Vec::new();
    }
    let len = frame_len(20, sample_rate);
    let energies: Vec<f32> = samples
        .chunks(len as usize)
        .map(|frame| {
            let sum_sq: f32 = frame
                .iter()
                .map(|&s| if s.is_finite() { s * s } else { 0.0 })
                .sum();
            (sum_sq / frame.len() as f32).sqrt()
        })
        .collect();
    let mean = energies.iter().sum::<f32>() / energies.len() as f32;
    let speech: Vec<bool> = energies.iter().map(|&e| e > mean * 1.5).collect();
    energy_spans(
        &speech,
        len,
        samples.len() as i64,
        sample_rate,
        Smoothing::default(),
    )
}

/// The signal at 16 kHz, by linear interpolation, with every sample in `[-1.0, 1.0]`.
fn resample_to_16k(samples: &[f32], sample_rate: u32) -> Vec<f32> {
    let sanitize = |s: f32| if s.is_finite() { s.clamp(-1.0, 1.0) } else { 0.0 };
    if sample_rate == 16_000 {
        return samples.iter().map(|&s| sanitize(s)).collect();
    }
    let source = f64::from(sample_rate);
    let count = (samples.len() as f64 * 16_000.0 / source).floor() as usize;
    (0..count)
        .map(|j| {
            let pos = j as f64 * source / 16_000.0;
            let i = pos.floor() as usize;
            let a = samples.get(i).copied().map(sanitize).unwrap_or(0.0);
            let b = samples.get(i + 1).copied().map(sanitize).unwrap_or(a);
            a + (b - a) * (pos - i as f64) as f32
        })
        .collect()
}

fn earshot_detect(samples: &[f32], sample_rate: u32) -> Vec<Span> {
    if samples.is_empty() || sample_rate == 0 {
        return Vec::new();
    }
    let audio = resample_to_16k(samples, sample_rate);
    let mut detector = earshot::Detector::default();
    let speech: Vec<bool> = audio
        .chunks_exact(NEURAL_FRAME)
        .map(|frame| detector.predict_f32(frame) > 0.5)
        .collect();
    neural_spans(&speech, audio.len(), Smoothing::default())
}

fn loud_region(sr: u32) -> Vec<f32> {
    let mut samples = vec![0.0f32; sr as usize * 2]; // 2 s of silence
                                                     // A loud region from 0.5 s to 1.5 s.
    for sample in samples.iter_mut().skip(sr as usize / 2).take(sr as usize) {
        *sample = 0.5;
    }
    samples
}

#[test]
fn vad_empty_or_zero_rate_yields_no_spans() {
    assert!(energy_detect(&[], 8_000).is_empty());
    assert!(energy_detect(&[0.1, 0.2], 0).is_empty());
    assert!(earshot_detect(&[], 16_000).is_empty());
    assert!(earshot_detect(&[0.1, 0.2], 0).is_empty());
}

#[test]
fn detects_a_loud_region_against_silence() {
    let sr = 8_000u32;
    let spans = energy_detect(&loud_region(sr), sr);
    assert!(!spans.is_empty(), "no speech detected");
    let covered: i64 = spans.iter().map(Span::len).sum();
    assert!(
        (800..=1200).contains(&covered),
        "covered {covered} ms, spans {spans:?}"
    );
    assert!((400..=600).contains(&spans[0].start));
}

#[test]
fn tolerates_non_finite_samples() {
    let sr = 8_000u32;
    let mut samples = loud_region(sr);
    samples[100] = f32::NAN;
    samples[200] = f32::INFINITY;
    // NaN/inf must not poison the mean/threshold and suppress all output.
    assert!(!energy_detect(&samples, sr).is_empty());
}

#[test]
fn extreme_sample_rate_does_not_panic() {
    let _ = energy_detect(&[0.1, 0.2, 0.3], u32::MAX);
}

#[test]
fn silence_is_not_speech() {
    // One second of digital silence must not be flagged as voice.
    let silence = vec![0.0f32; 16_000];
    assert!(earshot_detect(&silence, 16_000).is_empty());
}

#[test]
fn tolerates_out_of_range_and_non_finite_without_panicking() {
    // earshot debug-asserts inputs are in [-1, 1]; sanitizing must keep it
    // happy on NaN/inf/overshoot, and the result must be valid (ordered) spans.
    let mut s = vec![0.0f32; 16_000];
    s[10] = f32::NAN;
    s[20] = 5.0;
    s[30] = f32::NEG_INFINITY;
    let spans = earshot_detect(&s, 44_100);
    assert!(spans.iter().all(|sp| sp.end >= sp.start));
}

#[test]
fn frames_hold_at_least_one_sample() {
    assert_eq!(frame_len(20, 8_000), 160);
    assert_eq!(frame_len(20, 44_100), 882);
    assert_eq!(frame_len(0, 8_000), 1);
    assert_eq!(frame_len(1, 999), 1);
    assert_eq!(frame_len(u32::MAX, u32::MAX), i64::MAX / 1000);
}

#[test]
fn runs_of_speech_frames_become_spans() {
    let raw = Smoothing {
        min_speech_ms: 0,
        merge_gap_ms: -1,
    };
    let speech = [false, true, true, false, true];
    // Frames of 20 ms at 8 kHz; the last frame holds only 80 samples.
    assert_eq!(
        energy_spans(&speech, 160, 4 * 160 + 80, 8_000, raw),
        vec![Span::new(20, 60), Span::new(80, 90)]
    );
    assert!(energy_spans(&[], 160, 0, 8_000, raw).is_empty());
    assert!(energy_spans(&[false, false], 160, 320, 8_000, raw).is_empty());
}

#[test]
fn an_open_run_lasts_to_the_end_of_the_audio() {
    let raw = Smoothing {
        min_speech_ms: 0,
        merge_gap_ms: -1,
    };
    // Three whole frames of 256 samples and 100 samples more.
    assert_eq!(
        neural_spans(&[true, false, true], 868, raw),
        vec![Span::new(0, 16), Span::new(32, 54)]
    );
    assert_eq!(
        neural_spans(&[true, true, false], 868, raw),
        vec![Span::new(0, 32)]
    );
}

#[test]
fn gaps_are_bridged_and_short_spans_dropped() {
    let spans = [
        Span::new(0, 50),
        Span::new(250, 400),
        Span::new(601, 640),
        Span::new(900, 1_000),
    ];
    assert_eq!(
        merge_and_filter(&spans, 200, 100),
        vec![Span::new(0, 400), Span::new(900, 1_000)]
    );
    assert_eq!(merge_and_filter(&spans, -1, 0), spans.to_vec());
    // A span inside the one before does not shorten it.
    assert_eq!(
        merge_and_filter(&[Span::new(0, 100), Span::new(10, 20)], 0, 0),
        vec![Span::new(0, 100)]
    );
    assert_eq!(
        merge_and_filter(&[Span::new(0, i64::MIN), Span::new(i64::MAX, i64::MAX)], 5, 0),
        vec![Span::new(0, i64::MIN), Span::new(i64::MAX, i64::MAX)]
    );
}

#[test]
fn only_the_name_energy_selects_the_energy_detector() {
    assert_eq!(detector_named("energy"), Detector::Energy);
    assert_eq!(detector_named("Energy"), Detector::Earshot);
    assert_eq!(detector_named(""), Detector::Earshot);
    assert_eq!(detector_named("earshot"), Detector::Earshot);
}

#[test]
fn detected_spans_are_in_order_and_within_the_audio() {
    let speech = [true, false, true, true, false, false, true, true];
    for gap in [-1, 0, 16, 40, i64::MAX] {
        let smoothing = Smoothing {
            min_speech_ms: 10,
            merge_gap_ms: gap,
        };
        let energy = energy_spans(&speech, 160, 1_200, 8_000, smoothing);
        let neural = neural_spans(&speech, 8 * 256 + 200, smoothing);
        for (spans, end) in [(energy, 150), (neural, 140)] {
            assert!(!spans.is_empty());
            assert!(spans.iter().all(|s| 0 <= s.start && s.start <= s.end && s.end <= end));
            assert!(spans.windows(2).all(|w| w[0].end <= w[1].start));
        }
    }
}

#[test]
fn kept_spans_are_further_apart_than_the_gap() {
    let spans = [
        Span::new(0, 300),
        Span::new(500, 700),
        Span::new(901, 920),
        Span::new(1_200, 1_400),
    ];
    let kept = merge_and_filter(&spans, 200, 100);
    assert_eq!(kept, vec![Span::new(0, 700), Span::new(1_200, 1_400)]);
    assert!(kept.windows(2).all(|w| w[1].start - w[0].end > 200));
}
