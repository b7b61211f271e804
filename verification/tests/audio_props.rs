use std::io::Cursor;

use fluent_diary::recorder::{RecorderError, RecorderState, SupportedConfig, pick_voice_config,
    find_device_index};
use fluent_diary::transcription::{check_normalized, NormalizeOutcome, TranscriptionError};
use fluent_diary::wav::{decode_samples_i16, encode_wav, parse_wav, WavWriter};
use rubato::{
    Resampler, SincFixedIn, SincInterpolationParameters, SincInterpolationType, WindowFunction,
};

fn sine_i16(sample_rate: u32, freq: f32, seconds: f32) -> Vec<i16> {
    let n = (sample_rate as f32 * seconds) as usize;
    (0..n)
        .map(|i| {
            let t = i as f32 / sample_rate as f32;
            ((t * freq * 2.0 * std::f32::consts::PI).sin() * 0.5 * 32767.0) as i16
        })
        .collect()
}

#[test]
fn encoded_wav_parses_back() {
    let samples = sine_i16(16000, 440.0, 0.25);
    let bytes = encode_wav(&samples, 16000, 1);
    let f = parse_wav(&bytes).expect("the encoder's output must parse");
    assert_eq!(f.audio_format, 1);
    assert_eq!(f.channels, 1);
    assert_eq!(f.sample_rate, 16000);
    assert_eq!(f.bits_per_sample, 16);
    assert_eq!(f.data_start, 44);
    assert_eq!(f.data_len, samples.len() * 2);
    let decoded = decode_samples_i16(&bytes, f.data_start, f.data_len);
    assert_eq!(decoded, samples);
}

#[test]
fn encoded_wav_is_readable_by_hound() {
    let samples = sine_i16(16000, 440.0, 0.1);
    let bytes = encode_wav(&samples, 16000, 1);
    let mut reader = hound::WavReader::new(Cursor::new(&bytes)).expect("hound must accept it");
    let spec = reader.spec();
    assert_eq!(spec.channels, 1);
    assert_eq!(spec.sample_rate, 16000);
    assert_eq!(spec.bits_per_sample, 16);
    assert_eq!(spec.sample_format, hound::SampleFormat::Int);
    let read: Vec<i16> = reader.samples::<i16>().map(|s| s.unwrap()).collect();
    assert_eq!(read, samples);
}

#[test]
fn hound_written_wav_parses() {
    let spec = hound::WavSpec {
        channels: 2,
        sample_rate: 22050,
        bits_per_sample: 16,
        sample_format: hound::SampleFormat::Int,
    };
    let mut buf: Vec<u8> = Vec::new();
    {
        let mut writer = hound::WavWriter::new(Cursor::new(&mut buf), spec).unwrap();
        for i in 0..1000i32 {
            writer.write_sample((i % 128) as i16).unwrap();
        }
        writer.finalize().unwrap();
    }
    let f = parse_wav(&buf).expect("hound output must parse");
    assert_eq!(f.audio_format, 1);
    assert_eq!(f.channels, 2);
    assert_eq!(f.sample_rate, 22050);
    assert_eq!(f.bits_per_sample, 16);
    let decoded = decode_samples_i16(&buf, f.data_start, f.data_len);
    assert_eq!(decoded.len(), 1000);
    assert_eq!(decoded[129], 1);
}

#[test]
fn normalize_is_noop_on_target_format() {
    let samples = sine_i16(16000, 440.0, 0.1);
    let bytes = encode_wav(&samples, 16000, 1);
    let before = bytes.clone();
    match check_normalized(bytes) {
        Ok(NormalizeOutcome::AlreadyNormalized(out)) => {
            assert_eq!(out, before, "normalizing a 16 kHz mono 16-bit file must be byte-for-byte identical");
        }
        _ => panic!("a 16 kHz mono 16-bit file must take the fast path"),
    }
}

#[test]
fn normalize_requests_conversion_otherwise() {
    let samples = sine_i16(44100, 440.0, 0.05);
    let bytes = encode_wav(&samples, 44100, 2);
    match check_normalized(bytes) {
        Ok(NormalizeOutcome::NeedsConversion(_, f)) => {
            assert_eq!(f.sample_rate, 44100);
            assert_eq!(f.channels, 2);
        }
        _ => panic!("a 44.1 kHz stereo file must be converted"),
    }
}

#[test]
fn normalize_rejects_malformed_input() {
    let garbage = vec![0u8, 1, 2, 3, 4, 5];
    match check_normalized(garbage) {
        Err(TranscriptionError::AudioReadError { .. }) => {}
        _ => panic!("garbage must be rejected as an audio read error"),
    }
}

#[test]
fn writer_duration_is_samples_per_channel_per_rate() {
    let mut w = WavWriter::new(16000, 1);
    let block = vec![0i16; 16000];
    assert!(w.write_samples(&block));
    assert_eq!(w.samples_written(), 16000);
    assert_eq!(w.duration_millis(), 1000);

    let mut w2 = WavWriter::new(44100, 2);
    let block2 = vec![0i16; 44100 * 2];
    assert!(w2.write_samples(&block2));
    assert_eq!(w2.duration_millis(), 1000);

    let mut w3 = WavWriter::new(16000, 1);
    let block3 = vec![0i16; 8000];
    assert!(w3.write_samples(&block3));
    assert_eq!(w3.duration_millis(), 500);
}

#[test]
fn writer_finalize_yields_playable_file() {
    let mut w = WavWriter::new(16000, 1);
    let samples = sine_i16(16000, 200.0, 0.05);
    assert!(w.write_samples(&samples));
    let bytes = w.finalize();
    let f = parse_wav(&bytes).unwrap();
    assert_eq!(f.sample_rate, 16000);
    assert_eq!(decode_samples_i16(&bytes, f.data_start, f.data_len), samples);
}

#[test]
fn recorder_state_machine() {
    let mut rec = RecorderState::new();
    assert!(!rec.is_recording());

    // stopping with no recording active fails
    match rec.stop_recording() {
        Err(RecorderError::NotRecording) => {}
        _ => panic!("stop without an active recording must fail with NotRecording"),
    }

    assert!(rec.start_recording(16000, 1, "take1.wav".to_string()).is_ok());
    assert!(rec.is_recording());

    // starting while active fails
    match rec.start_recording(16000, 1, "take2.wav".to_string()) {
        Err(RecorderError::AlreadyRecording) => {}
        _ => panic!("start during an active recording must fail with AlreadyRecording"),
    }

    let block = vec![100i16; 8000];
    assert!(rec.append_samples(&block).is_ok());

    let (result, bytes) = rec.stop_recording().expect("stop of an active recording succeeds");
    assert_eq!(result.file_path, "take1.wav");
    assert_eq!(result.sample_rate, 16000);
    assert_eq!(result.channels, 1);
    assert_eq!(result.duration_millis, 500);
    let f = parse_wav(&bytes).unwrap();
    assert_eq!(f.data_len, 16000);

    // after a successful stop the recorder is idle and can start again
    assert!(!rec.is_recording());
    assert!(rec.start_recording(44100, 2, "take3.wav".to_string()).is_ok());
}

#[test]
fn samples_while_idle_are_discarded() {
    let mut rec = RecorderState::new();
    let block = vec![1i16; 100];
    assert!(rec.append_samples(&block).is_ok());
    assert!(rec.start_recording(16000, 1, "t.wav".to_string()).is_ok());
    assert!(rec.append_samples(&block).is_ok());
    let (result, _) = rec.stop_recording().unwrap();
    // only the block that arrived while recording was kept
    assert_eq!(result.duration_millis, 100 * 1000 / 16000);
}

#[test]
fn voice_config_prefers_16k_mono() {
    let configs = vec![
        SupportedConfig { channels: 2, min_sample_rate: 44100, max_sample_rate: 48000 },
        SupportedConfig { channels: 1, min_sample_rate: 16000, max_sample_rate: 48000 },
        SupportedConfig { channels: 1, min_sample_rate: 16000, max_sample_rate: 16000 },
    ];
    assert_eq!(pick_voice_config(&configs), Some(1));
    let none = vec![SupportedConfig { channels: 2, min_sample_rate: 8000, max_sample_rate: 48000 }];
    assert_eq!(pick_voice_config(&none), None);
}

#[test]
fn device_lookup_by_name() {
    let names = vec!["default".to_string(), "USB Mic".to_string()];
    assert_eq!(find_device_index(&names, "USB Mic"), Some(1));
    assert_eq!(find_device_index(&names, "missing"), None);
}

/// Resample a mono clip with the same band-limited sinc interpolator the
/// normalizer uses: fixed chunks of 1024 input samples, the final
/// partial chunk padded with zeros.
fn resample(samples: &[f32], from_rate: u32, to_rate: u32) -> Vec<f32> {
    let ratio = to_rate as f64 / from_rate as f64;
    let chunk_size = 1024;
    let params = SincInterpolationParameters {
        sinc_len: 64,
        f_cutoff: 0.95,
        interpolation: SincInterpolationType::Linear,
        oversampling_factor: 128,
        window: WindowFunction::BlackmanHarris2,
    };
    let mut resampler = SincFixedIn::<f32>::new(ratio, 8.0, params, chunk_size, 1).unwrap();
    let mut out = Vec::new();
    let mut pos = 0;
    while pos < samples.len() {
        let end = (pos + chunk_size).min(samples.len());
        let mut chunk: Vec<f32> = samples[pos..end].to_vec();
        if chunk.len() < chunk_size {
            chunk.resize(chunk_size, 0.0);
        }
        let waves_in = vec![chunk];
        let waves_out = resampler.process(&waves_in, None).unwrap();
        out.extend_from_slice(&waves_out[0]);
        pos += chunk_size;
    }
    out
}

fn dominant_frequency(samples: &[f32], rate: u32) -> f32 {
    // count positive-going zero crossings over the middle of the clip
    let start = samples.len() / 4;
    let end = samples.len() * 3 / 4;
    let mut crossings = 0u32;
    for i in start + 1..end {
        if samples[i - 1] <= 0.0 && samples[i] > 0.0 {
            crossings += 1;
        }
    }
    let window_seconds = (end - start) as f32 / rate as f32;
    crossings as f32 / window_seconds
}

#[test]
fn resampling_preserves_tone_frequency() {
    let rate_a = 44100u32;
    let rate_b = 16000u32;
    let freq = 440.0f32;
    let seconds = 2.0f32;
    let n = (rate_a as f32 * seconds) as usize;
    let tone: Vec<f32> = (0..n)
        .map(|i| (i as f32 / rate_a as f32 * freq * 2.0 * std::f32::consts::PI).sin() * 0.5)
        .collect();

    let down = resample(&tone, rate_a, rate_b);
    let back = resample(&down, rate_b, rate_a);

    let f_down = dominant_frequency(&down, rate_b);
    let f_back = dominant_frequency(&back, rate_a);

    assert!((f_down - freq).abs() < freq * 0.02, "downsampled tone drifted: {}", f_down);
    assert!((f_back - freq).abs() < freq * 0.02, "round-tripped tone drifted: {}", f_back);
}
