use melodia::analysis::{
    analyze_frequencies, get_fundamental_frequency, is_sample_below_threshold,
    split_and_process_wav_chunk, segment_notes, AnalysisError, Chunk,
};
use melodia::notes::Pitch;

const SAMPLE_RATE: usize = 44100;

/// One second of little-endian 16-bit samples per synthesized second: a sine
/// at the given frequency (Hz) and amplitude, lasting `seconds`.
fn sine_bytes(frequency_hz: f64, seconds: usize, amplitude: f64) -> Vec<u8> {
    let total = SAMPLE_RATE * seconds;
    let mut bytes = Vec::with_capacity(total * 2);
    for i in 0..total {
        let angle = 2.0 * std::f64::consts::PI * frequency_hz * (i as f64) / SAMPLE_RATE as f64;
        let sample = (angle.sin() * amplitude) as i16;
        bytes.extend_from_slice(&sample.to_le_bytes());
    }
    bytes
}

/// The magnitude spectrum of a frame, one magnitude per sample, computed
/// with rustfft exactly as the enclosing application does.
fn spectrum(samples: &Vec<i32>) -> Vec<u64> {
    let mut planner = rustfft::FftPlanner::<f64>::new();
    let fft = planner.plan_fft_forward(samples.len());
    let mut buf: Vec<rustfft::num_complex::Complex<f64>> = samples
        .iter()
        .map(|s| rustfft::num_complex::Complex::new(*s as f64, 0.0))
        .collect();
    fft.process(&mut buf);
    buf.iter().map(|c| c.norm() as u64).collect()
}

/// The full pipeline over raw bytes, as the enclosing application runs it:
/// decode frames, gate each frame, estimate the dominant frequency of the
/// loud ones, then resolve and segment.
fn analyze(bytes: &Vec<u8>) -> Result<Chunk, AnalysisError> {
    let frames = split_and_process_wav_chunk(bytes, SAMPLE_RATE as u32, 1, 16)?;
    let mut frequencies: Vec<u64> = Vec::new();
    for frame in &frames {
        if is_sample_below_threshold(frame) {
            frequencies.push(0);
        } else {
            frequencies.push(get_fundamental_frequency(&spectrum(frame), SAMPLE_RATE as u32).unwrap());
        }
    }
    analyze_frequencies(&frequencies)
}

#[test]
fn analysis_test_generated_notes() {
    // a sustained tone at each catalog pitch from A1 through B7 comes back
    // as exactly one note under that pitch's name
    let notes = Pitch::all_notes();
    let mut item = notes.iter_forward("A1").unwrap();
    while let Some(note) = item.next() {
        if note.name() == "C8" {
            break;
        }
        let wav = sine_bytes(note.frequency() as f64 / 1000.0, 1, i16::MAX as f64);
        let chunk = analyze(&wav).unwrap();
        assert_eq!(1, chunk.notes.len());
        assert_eq!(note.name(), chunk.notes[0].pitch.name());
        assert_eq!(0, chunk.notes[0].start);
        assert_eq!(1000, chunk.notes[0].end);
    }
}

#[test]
fn test_single_tone_round_trip() {
    // four seconds of A4 at its reference frequency: one note, full span
    let wav = sine_bytes(440.0, 4, i16::MAX as f64);
    let chunk = analyze(&wav).unwrap();
    assert_eq!(1, chunk.notes.len());
    assert_eq!("A4", chunk.notes[0].pitch.name());
    assert_eq!(0, chunk.notes[0].start);
    assert_eq!(4000, chunk.notes[0].end);
}

#[test]
fn test_melody_round_trip() {
    // a melody of whole-second notes comes back with the same names in
    // order and with start/end at the cumulative durations
    let melody = [("C4", 1usize), ("E4", 2), ("D4", 1), ("C4", 3), ("G4", 1)];
    let notes = Pitch::all_notes();
    let mut wav: Vec<u8> = Vec::new();
    for (name, seconds) in melody {
        let f = notes.get(name).unwrap().frequency() as f64 / 1000.0;
        wav.extend_from_slice(&sine_bytes(f, seconds, i16::MAX as f64));
    }
    let chunk = analyze(&wav).unwrap();
    assert_eq!(melody.len(), chunk.notes.len());
    let mut cursor: u64 = 0;
    for i in 0..melody.len() {
        assert_eq!(melody[i].0, chunk.notes[i].pitch.name());
        assert_eq!(cursor, chunk.notes[i].start);
        cursor += melody[i].1 as u64 * 1000;
        assert_eq!(cursor, chunk.notes[i].end);
    }
}

#[test]
fn test_quiet_frame_resolves_to_silence() {
    // a clear 440 Hz sine whose RMS sits below the 60 dB gate must come
    // back as the silence sentinel, whatever its spectrum holds
    let wav = sine_bytes(440.0, 1, 900.0);
    let frames = split_and_process_wav_chunk(&wav, SAMPLE_RATE as u32, 1, 16).unwrap();
    assert!(is_sample_below_threshold(&frames[0]));
    let chunk = analyze(&wav).unwrap();
    assert_eq!(1, chunk.notes.len());
    assert_eq!("S", chunk.notes[0].pitch.name());
}

#[test]
fn test_loud_frame_passes_threshold() {
    let wav = sine_bytes(440.0, 1, 2000.0);
    let frames = split_and_process_wav_chunk(&wav, SAMPLE_RATE as u32, 1, 16).unwrap();
    assert!(!is_sample_below_threshold(&frames[0]));
}

#[test]
fn test_threshold_boundary() {
    // an rms of one thousand lies on the threshold and is not below it
    let at_gate: Vec<i32> = vec![1000; 4];
    assert!(!is_sample_below_threshold(&at_gate));
    let below_gate: Vec<i32> = vec![999; 4];
    assert!(is_sample_below_threshold(&below_gate));
    // an empty frame has no mean and is not silent
    let empty: Vec<i32> = Vec::new();
    assert!(!is_sample_below_threshold(&empty));
}

#[test]
fn test_decode_errors() {
    // odd length: not aligned to the sample width
    let odd = vec![0u8; 3];
    assert_eq!(
        Err(AnalysisError::DecodeError),
        split_and_process_wav_chunk(&odd, SAMPLE_RATE as u32, 1, 16)
    );
    // aligned but shorter than one frame: no full frame at all
    let short = vec![0u8; 1000];
    assert_eq!(
        Err(AnalysisError::DecodeError),
        split_and_process_wav_chunk(&short, SAMPLE_RATE as u32, 1, 16)
    );
}

#[test]
fn test_decode_drops_trailing_partial_frame() {
    // two full frames plus half a frame: the tail is dropped silently
    let bytes = vec![0u8; SAMPLE_RATE * 2 * 2 + SAMPLE_RATE];
    let frames = split_and_process_wav_chunk(&bytes, SAMPLE_RATE as u32, 1, 16).unwrap();
    assert_eq!(2, frames.len());
    assert_eq!(SAMPLE_RATE, frames[0].len());
}

#[test]
fn test_decode_sample_values() {
    // little-endian signed 16-bit decoding, checked on a tiny rate
    let bytes: Vec<u8> = vec![0x01, 0x00, 0xFF, 0xFF, 0x00, 0x80, 0xFF, 0x7F];
    let frames = split_and_process_wav_chunk(&bytes, 4, 1, 16).unwrap();
    assert_eq!(1, frames.len());
    assert_eq!(vec![1, -1, -32768, 32767], frames[0]);
}

#[test]
fn test_fundamental_frequency_picks_largest_bin() {
    // bins 0..3 are the non-redundant half; the largest magnitude sits at
    // bin 2, and the bin width is one hertz
    let spectrum: Vec<u64> = vec![5, 80, 900, 80, 5, 1];
    assert_eq!(Some(2000), get_fundamental_frequency(&spectrum, 6));
    // the earliest of equal magnitudes wins
    let tie: Vec<u64> = vec![7, 9, 9, 0, 0, 0];
    assert_eq!(Some(1000), get_fundamental_frequency(&tie, 6));
    // an empty spectrum has no estimate
    let empty: Vec<u64> = Vec::new();
    assert_eq!(None, get_fundamental_frequency(&empty, 6));
}

#[test]
fn test_analyze_frequencies_errors_on_empty() {
    let no_frames: Vec<u64> = Vec::new();
    assert!(matches!(analyze_frequencies(&no_frames), Err(AnalysisError::EmptyFrameSequence)));
}

#[test]
fn test_segment_merges_runs_by_name() {
    let notes = Pitch::all_notes();
    let a4 = notes.get("A4").unwrap().clone();
    let mut a4_detuned = notes.get("A4").unwrap().clone();
    a4_detuned.frequency = 441_000;
    let c3 = notes.get("C3").unwrap().clone();
    let pitches = vec![a4, a4_detuned, c3];
    let segmented = segment_notes(&pitches, 1000).unwrap();
    // measured-frequency differences do not break a run
    assert_eq!(2, segmented.len());
    assert_eq!("A4", segmented[0].pitch.name());
    assert_eq!(0, segmented[0].start);
    assert_eq!(2000, segmented[0].end);
    assert_eq!("C3", segmented[1].pitch.name());
    assert_eq!(2000, segmented[1].start);
    assert_eq!(3000, segmented[1].end);
}

#[test]
fn test_segment_rejects_empty() {
    let pitches: Vec<Pitch> = Vec::new();
    assert!(matches!(segment_notes(&pitches, 1000), Err(AnalysisError::EmptyFrameSequence)));
}

#[test]
fn test_unresolvable_frequency_falls_back_to_silence() {
    // 20 kHz lies above the whole catalog: the resolver finds no bracket
    // and the frame falls back to the silence sentinel
    let frequencies: Vec<u64> = vec![440_000, 20_000_000];
    let chunk = analyze_frequencies(&frequencies).unwrap();
    assert_eq!(2, chunk.notes.len());
    assert_eq!("A4", chunk.notes[0].pitch.name());
    assert_eq!("S", chunk.notes[1].pitch.name());
}

#[test]
fn test_resolver_seed_chains_between_frames() {
    // after a first frame resolves to A5, the second frame's walk is seeded
    // from A5 rather than from the default A4
    let frequencies: Vec<u64> = vec![880_000, 874_000];
    let chunk = analyze_frequencies(&frequencies).unwrap();
    assert_eq!(1, chunk.notes.len());
    assert_eq!("A5", chunk.notes[0].pitch.name());
    assert_eq!(0, chunk.notes[0].start);
    assert_eq!(2000, chunk.notes[0].end);
}

#[test]
fn test_chunk_from_str() {
    // divisors split the second: 4 gives a quarter second, 2 a half
    let melody = Chunk::from_str("C4 4\nC4 4\n# a remark\n\nD4 2");
    assert_eq!(3, melody.notes.len());
    assert_eq!("C4", melody.notes[0].pitch.name());
    assert_eq!(261626, melody.notes[0].pitch.frequency());
    assert_eq!(0, melody.notes[0].start);
    assert_eq!(250, melody.notes[0].end);
    assert_eq!("C4", melody.notes[1].pitch.name());
    assert_eq!(250, melody.notes[1].start);
    assert_eq!(500, melody.notes[1].end);
    assert_eq!("D4", melody.notes[2].pitch.name());
    assert_eq!(500, melody.notes[2].start);
    assert_eq!(1000, melody.notes[2].end);
}

#[test]
fn test_chunk_from_str_empty_script() {
    let melody = Chunk::from_str("# only remarks\n\n# nothing else\n");
    assert_eq!(0, melody.notes.len());
}
