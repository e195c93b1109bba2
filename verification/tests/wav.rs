//! WAV files.

use subomatic::wav::{decode, decode_samples, Encoding, Pcm, WavError};

fn make_wav(channels: u16, sample_rate: u32, bits: u16, format: u16, data: &[u8]) -> Vec<u8> {
    let mut v = Vec::new();
    v.extend_from_slice(b"RIFF");
    v.extend_from_slice(&((4 + 24 + 8 + data.len()) as u32).to_le_bytes());
    v.extend_from_slice(b"WAVE");
    v.extend_from_slice(b"fmt ");
    v.extend_from_slice(&16u32.to_le_bytes());
    v.extend_from_slice(&format.to_le_bytes());
    v.extend_from_slice(&channels.to_le_bytes());
    v.extend_from_slice(&sample_rate.to_le_bytes());
    let byte_rate = sample_rate * u32::from(channels) * u32::from(bits / 8);
    v.extend_from_slice(&byte_rate.to_le_bytes());
    v.extend_from_slice(&(channels * (bits / 8)).to_le_bytes());
    v.extend_from_slice(&bits.to_le_bytes());
    v.extend_from_slice(b"data");
    v.extend_from_slice(&(data.len() as u32).to_le_bytes());
    v.extend_from_slice(data);
    v
}

/// A float kept in `[-1.0, 1.0]`; one that is not finite is silence.
fn sanitized(s: f32) -> f32 {
    if s.is_finite() {
        s.clamp(-1.0, 1.0)
    } else {
        0.0
    }
}

/// The mono signal in `[-1.0, 1.0]`, as a front-end makes it.
fn mono(pcm: &Pcm) -> Vec<f32> {
    let scaled: Vec<f32> = pcm
        .samples
        .iter()
        .map(|&s| match pcm.encoding {
            Encoding::Int8 => s as f32 / 128.0,
            Encoding::Int16 => s as f32 / 32_768.0,
            Encoding::Int24 => s as f32 / 8_388_608.0,
            Encoding::Int32 => s as f32 / 2_147_483_648.0,
            Encoding::Float32 => sanitized(f32::from_bits(s as u32)),
        })
        .collect();
    scaled
        .chunks_exact(pcm.channels as usize)
        .map(|frame| frame.iter().sum::<f32>() / frame.len() as f32)
        .collect()
}

#[test]
fn decodes_16bit_mono() {
    let mut data = Vec::new();
    data.extend_from_slice(&0i16.to_le_bytes());
    data.extend_from_slice(&16_384i16.to_le_bytes()); // = 0.5
    let pcm = decode(&make_wav(1, 8_000, 16, 1, &data)).unwrap();
    assert_eq!(pcm.sample_rate, 8_000);
    let samples = mono(&pcm);
    assert_eq!(samples.len(), 2);
    assert!(samples[0].abs() < 1e-6);
    assert!((samples[1] - 0.5).abs() < 1e-3);
}

#[test]
fn downmixes_stereo_to_mono() {
    let mut data = Vec::new();
    data.extend_from_slice(&16_384i16.to_le_bytes()); // L = 0.5
    data.extend_from_slice(&(-16_384i16).to_le_bytes()); // R = -0.5
    let pcm = decode(&make_wav(2, 8_000, 16, 1, &data)).unwrap();
    let samples = mono(&pcm);
    assert_eq!(samples.len(), 1);
    assert!(samples[0].abs() < 1e-3); // averages to ~0
}

#[test]
fn rejects_non_wav() {
    assert_eq!(
        decode(b"not a wav file!!").unwrap_err(),
        WavError::NotRiffWave
    );
}

#[test]
fn rejects_truncated_sample_data() {
    // 16-bit PCM but an odd number of data bytes.
    let wav = make_wav(1, 8_000, 16, 1, [0u8, 0u8, 0u8].as_slice());
    assert_eq!(decode(&wav).unwrap_err(), WavError::Truncated);
}

#[test]
fn rejects_zero_channels() {
    let wav = make_wav(0, 8_000, 16, 1, [0u8, 0u8].as_slice());
    assert!(matches!(
        decode(&wav).unwrap_err(),
        WavError::Unsupported(_)
    ));
}

#[test]
fn every_encoding_is_read_as_whole_numbers() {
    assert_eq!(decode_samples(&[0, 128, 255], 1, 8), Ok(vec![-128, 0, 127]));
    assert_eq!(
        decode_samples(&[0xff, 0x7f, 0x00, 0x80], 1, 16),
        Ok(vec![32_767, -32_768])
    );
    assert_eq!(
        decode_samples(&[1, 2, 3, 0xff, 0xff, 0xff, 0, 0, 0x80], 1, 24),
        Ok(vec![0x030201, -1, -8_388_608])
    );
    assert_eq!(
        decode_samples(&[0, 0, 0, 0x80, 0xfe, 0xff, 0xff, 0xff], 1, 32),
        Ok(vec![i64::from(i32::MIN), -2])
    );
    assert_eq!(
        decode_samples(&0.25f32.to_le_bytes(), 3, 32),
        Ok(vec![i64::from(0.25f32.to_bits())])
    );
    assert_eq!(decode_samples(&[], 1, 24), Ok(Vec::new()));
}

#[test]
fn samples_of_other_formats_and_cut_samples_are_refused() {
    assert_eq!(
        decode_samples(&[0; 8], 3, 64),
        Err(WavError::Unsupported("format 3, 64-bit".to_string()))
    );
    assert_eq!(
        decode_samples(&[0], 2, 16),
        Err(WavError::Unsupported("format 2, 16-bit".to_string()))
    );
    assert_eq!(decode_samples(&[0], 1, 16), Err(WavError::Truncated));
    assert_eq!(decode_samples(&[0; 4], 1, 24), Err(WavError::Truncated));
    assert_eq!(decode_samples(&[0; 7], 3, 32), Err(WavError::Truncated));
}

#[test]
fn floats_and_24_bit_files_decode() {
    let pcm = decode(&make_wav(1, 44_100, 32, 3, &(-0.5f32).to_le_bytes())).unwrap();
    assert_eq!(mono(&pcm), vec![-0.5]);
    let pcm = decode(&make_wav(1, 44_100, 24, 1, &[0, 0, 0x40])).unwrap();
    assert_eq!(mono(&pcm), vec![0.5]);
    assert_eq!(pcm.encoding, Encoding::Int24);
}

#[test]
fn chunks_are_word_aligned_and_the_last_one_counts() {
    let mut wav = make_wav(1, 8_000, 8, 1, &[1, 2, 3]);
    wav.push(0); // the pad byte of the odd data chunk
    wav.extend_from_slice(b"LIST");
    wav.extend_from_slice(&1u32.to_le_bytes());
    wav.extend_from_slice(&[9, 0]);
    wav.extend_from_slice(b"data");
    wav.extend_from_slice(&2u32.to_le_bytes());
    wav.extend_from_slice(&[129, 127]);
    wav.extend_from_slice(b"rest");
    let pcm = decode(&wav).unwrap();
    assert_eq!(pcm.samples, vec![1, -1]);
    // Without the bytes that it promises, a chunk is truncated.
    wav.extend_from_slice(&5u32.to_le_bytes());
    assert_eq!(decode(&wav), Err(WavError::Truncated));
}

#[test]
fn missing_chunks_and_short_headers_are_refused() {
    let wav = make_wav(1, 8_000, 8, 1, &[1, 2]);
    assert_eq!(decode(&wav[..12]), Err(WavError::MissingChunk("fmt ")));
    let no_data = decode(&wav[..36]).unwrap_err();
    assert_eq!(no_data, WavError::MissingChunk("data"));
    assert_eq!(no_data.message(), "WAV is missing the \"data\" chunk");
    let mut short = wav[..12].to_vec();
    short.extend_from_slice(b"fmt \x02\0\0\0\x01\0data\0\0\0\0");
    assert_eq!(decode(&short), Err(WavError::Truncated));
    assert_eq!(decode(&[]), Err(WavError::NotRiffWave));
}

#[test]
fn samples_must_be_whole_frames() {
    let wav = make_wav(2, 8_000, 8, 1, &[1, 2, 3]);
    assert_eq!(decode(&wav), Err(WavError::Truncated));
    assert_eq!(decode(&make_wav(2, 8_000, 8, 1, &[1, 2])).unwrap().samples.len(), 2);
}

#[test]
fn wav_errors_say_what_is_wrong() {
    let unsupported = decode(&make_wav(1, 8_000, 12, 7, &[])).unwrap_err();
    assert_eq!(
        unsupported,
        WavError::Unsupported("format 7, 12-bit".to_string())
    );
    assert_eq!(
        unsupported.message(),
        "unsupported WAV format (format 7, 12-bit)"
    );
    let silent = decode(&make_wav(0, 8_000, 12, 7, &[])).unwrap_err();
    assert_eq!(silent.message(), "unsupported WAV format (0 channels)");
    assert_eq!(WavError::NotRiffWave.message(), "not a RIFF/WAVE file");
    assert_eq!(WavError::Truncated.message(), "truncated WAV file");
}
