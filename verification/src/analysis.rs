//! The analysis pipeline over decoded audio: the frame decoder, the
//! silence gate, the dominant-bin frequency estimate over a magnitude
//! spectrum, the seed-chained resolution of per-frame frequencies to
//! pitches, and the segmentation of per-frame pitches into note events.
//!
//! The Fourier transform itself works on floating-point values and lives
//! with the enclosing application; this module states everything about the
//! integer magnitudes it is handed.

use vstd::prelude::*;
use vstd::arithmetic::div_mod::{lemma_fundamental_div_mod, lemma_div_multiples_vanish, lemma_div_is_ordered};
use vstd::arithmetic::mul::lemma_mul_inequality;
use vstd::string::StrSliceExecFns;
use crate::seqdata::{SeqData, has_key, last_key_idx};
use crate::notes::{Pitch, PhiNote, is_silence, is_catalog, spec_guess, spec_seed_name, lemma_guess_in_range, lemma_catalog_get, lemma_a4_in_catalog, spec_semitone_name};
use crate::tuning::{tuning_freq, tuning_count};

verus! {

/// Sum of the squares of the samples, as an unbounded integer.
pub open spec fn sum_squares(s: Seq<i32>) -> int
    decreases s.len(),
{
    if s.len() == 0 {
        0
    } else {
        sum_squares(s.drop_last()) + s.last() * s.last()
    }
}

/// A frame is silent when its root-mean-square amplitude, in decibels
/// (`20*log10(rms)`), falls below the 60 dB threshold. That comparison
/// amounts to `rms < 1000`, hence to `sum of squares < 1000000 * count`,
/// which needs no fractional arithmetic. An empty frame has no mean and
/// never counts as silent.
pub open spec fn spec_below_threshold(s: Seq<i32>) -> bool {
    sum_squares(s) < 1000000 * s.len()
}

/// The amplitude gate of the frequency estimator.
pub fn is_sample_below_threshold(samples: &Vec<i32>) -> (r: bool)
    ensures
        r == spec_below_threshold(samples@),
{
    let mut sum: u128 = 0;
    let mut i: usize = 0;
    while i < samples.len()
        invariant
            i <= samples@.len(),
            sum == sum_squares(samples@.subrange(0, i as int)),
            sum <= i * 0x4000_0000_0000_0000u128,
        decreases samples@.len() - i,
    {
        let x: i64 = samples[i] as i64;
        proof {
            assert(0 <= x * x <= 0x4000_0000_0000_0000i64) by (nonlinear_arith)
                requires
                    -0x8000_0000 <= x <= 0x7FFF_FFFF,
            ;
            assert(samples@.subrange(0, i + 1 as int).drop_last() =~= samples@.subrange(
                0,
                i as int,
            ));
        }
        let sq: i64 = x * x;
        sum = sum + (sq as u128);
        i = i + 1;
    }
    proof {
        assert(samples@.subrange(0, samples@.len() as int) =~= samples@);
    }
    sum < 1000000u128 * (samples.len() as u128)
}

/// What can go wrong while analyzing a buffer.
#[derive(Clone, Copy, Debug, PartialEq, Eq, Structural)]
pub enum AnalysisError {
    /// The byte buffer is not aligned to the sample width, or yields not a
    /// single full frame.
    DecodeError,
    /// Segmentation was invoked with no frames at all.
    EmptyFrameSequence,
}

/// The signed 16-bit little-endian sample starting at byte `2 * k`.
pub open spec fn spec_sample_at(b: Seq<u8>, k: int) -> i32 {
    let v = b[2 * k] + 256 * b[2 * k + 1];
    if v >= 32768 {
        (v - 65536) as i32
    } else {
        v as i32
    }
}

/// How many bytes one frame spans: one second of 16-bit samples.
pub open spec fn spec_frame_bytes(sample_rate: u32) -> int {
    2 * sample_rate
}

/// How many full frames a buffer yields; a trailing partial frame is
/// dropped.
pub open spec fn spec_frame_count(len: int, sample_rate: u32) -> int {
    len / spec_frame_bytes(sample_rate)
}

/// Splits a raw buffer of interleaved little-endian signed 16-bit samples
/// into one-second frames of decoded samples. A buffer whose length is not
/// aligned to the sample width, or that yields not a single full frame, is
/// refused; a trailing partial frame is dropped silently. The channel count
/// does not enter the frame size, matching the single-channel layout the
/// analysis assumes.
pub fn split_and_process_wav_chunk(
    wav_chunk: &Vec<u8>,
    sample_rate: u32,
    channels: u16,
    bits_per_sample: u16,
) -> (r: Result<Vec<Vec<i32>>, AnalysisError>)
    requires
        sample_rate >= 1,
        bits_per_sample == 16,
    ensures
        wav_chunk@.len() % 2 != 0 ==> r == Err::<Vec<Vec<i32>>, AnalysisError>(
            AnalysisError::DecodeError,
        ),
        wav_chunk@.len() % 2 == 0 && spec_frame_count(wav_chunk@.len() as int, sample_rate) == 0
            ==> r == Err::<Vec<Vec<i32>>, AnalysisError>(AnalysisError::DecodeError),
        wav_chunk@.len() % 2 == 0 && spec_frame_count(wav_chunk@.len() as int, sample_rate) > 0
            ==> (r matches Ok(frames) && frames@.len() == spec_frame_count(
            wav_chunk@.len() as int,
            sample_rate,
        ) && (forall|i: int|
            0 <= i < frames@.len() ==> (#[trigger] frames@[i])@.len() == sample_rate) && (forall|
            i: int,
            j: int,
        |
            0 <= i < frames@.len() && 0 <= j < sample_rate ==> (#[trigger] frames@[i]@[j])
                == spec_sample_at(wav_chunk@, i * sample_rate + j))),
{
    let n: usize = wav_chunk.len();
    if n % 2 != 0 {
        return Err(AnalysisError::DecodeError);
    }
    let fb: u64 = (sample_rate as u64) * 2;
    let count: u64 = (n as u64) / fb;
    proof {
        assert(count == spec_frame_count(n as int, sample_rate));
    }
    if count == 0 {
        return Err(AnalysisError::DecodeError);
    }
    proof {
        lemma_fundamental_div_mod(n as int, fb as int);
    }
    let mut frames: Vec<Vec<i32>> = Vec::new();
    let mut i: u64 = 0;
    while i < count
        invariant
            sample_rate >= 1,
            fb == 2 * sample_rate,
            n == wav_chunk@.len(),
            count == spec_frame_count(n as int, sample_rate),
            count * fb <= n,
            i <= count,
            frames@.len() == i,
            forall|a: int| 0 <= a < i ==> (#[trigger] frames@[a])@.len() == sample_rate,
            forall|a: int, j: int|
                0 <= a < i && 0 <= j < sample_rate ==> (#[trigger] frames@[a]@[j])
                    == spec_sample_at(wav_chunk@, a * sample_rate + j),
        decreases count - i,
    {
        proof {
            lemma_mul_inequality(i + 1 as int, count as int, fb as int);
        }
        let mut frame: Vec<i32> = Vec::new();
        let mut j: u64 = 0;
        while j < sample_rate as u64
            invariant
                sample_rate >= 1,
                fb == 2 * sample_rate,
                n == wav_chunk@.len(),
                i < count,
                (i + 1) * fb <= count * fb <= n,
                j <= sample_rate,
                frame@.len() == j,
                forall|jj: int|
                    0 <= jj < j ==> (#[trigger] frame@[jj]) == spec_sample_at(
                        wav_chunk@,
                        i * sample_rate + jj,
                    ),
            decreases sample_rate - j,
        {
            proof {
                assert(i * fb + 2 * j + 1 < (i + 1) * fb) by (nonlinear_arith)
                    requires
                        fb == 2 * sample_rate,
                        0 <= j < sample_rate,
                        0 <= i,
                ;
            }
            let base: usize = (i * fb + 2 * j) as usize;
            let lo: u16 = wav_chunk[base] as u16;
            let hi: u16 = wav_chunk[base + 1] as u16;
            let v: u16 = lo + 256 * hi;
            let sample: i32 = if v >= 32768 {
                (v as i32) - 65536
            } else {
                v as i32
            };
            proof {
                assert(i * fb + 2 * j == 2 * (i * sample_rate + j)) by (nonlinear_arith)
                    requires
                        fb == 2 * sample_rate,
                ;
            }
            frame.push(sample);
            j = j + 1;
        }
        frames.push(frame);
        i = i + 1;
    }
    Ok(frames)
}

/// The position of the largest value, the earliest position on a tie.
pub open spec fn first_max_idx(s: Seq<u64>) -> int
    decreases s.len(),
{
    if s.len() <= 1 {
        0
    } else {
        let r = first_max_idx(s.drop_last());
        if s.last() > s[r] {
            s.len() - 1
        } else {
            r
        }
    }
}

/// The frequency in millihertz of the dominant bin of a magnitude spectrum:
/// the position of the largest magnitude among the first half of the bins
/// (the non-redundant half for real input), times the bin width
/// `sample_rate / len` — taken as the exact product `idx * sample_rate`
/// in millihertz divided by `len`, rounded down.
pub open spec fn spec_dominant_freq_mhz(s: Seq<u64>, sample_rate: u32) -> int {
    first_max_idx(s.subrange(0, s.len() as int / 2)) * (sample_rate * 1000) / (s.len() as int)
}

/// The fundamental-frequency estimate of a frame, from its magnitude
/// spectrum (one magnitude per sample of the frame): the frequency of the
/// single bin with the largest magnitude. Yields nothing only for an empty
/// spectrum; a one-bin spectrum has no non-redundant half and is not an
/// input.
pub fn get_fundamental_frequency(spectrum: &Vec<u64>, sample_rate: u32) -> (r: Option<u64>)
    requires
        spectrum@.len() != 1,
    ensures
        r is Some <==> spectrum@.len() >= 2,
        r matches Some(f) ==> f == spec_dominant_freq_mhz(spectrum@, sample_rate),
{
    let n: usize = spectrum.len();
    if n == 0 {
        return None;
    }
    let half: usize = n / 2;
    let ghost firsthalf = spectrum@.subrange(0, half as int);
    let mut best: usize = 0;
    let mut t: usize = 1;
    while t < half
        invariant
            1 <= half,
            half == spectrum@.len() as int / 2,
            firsthalf == spectrum@.subrange(0, half as int),
            half <= spectrum@.len(),
            1 <= t <= half,
            best < t,
            best == first_max_idx(firsthalf.subrange(0, t as int)),
        decreases half - t,
    {
        if spectrum[t] > spectrum[best] {
            best = t;
        }
        proof {
            assert(firsthalf.subrange(0, t + 1 as int).drop_last() =~= firsthalf.subrange(
                0,
                t as int,
            ));
            assert(firsthalf.subrange(0, t + 1 as int).last() == spectrum@[t as int]);
        }
        t = t + 1;
    }
    proof {
        assert(firsthalf.subrange(0, half as int) =~= firsthalf);
    }
    proof {
        assert((best as int) * ((sample_rate as int) * 1000) <= 0xFFFFFFFFFFFFFFFFint * (
        0xFFFFFFFFint * 1000)) by (nonlinear_arith)
            requires
                0 <= best <= 0xFFFFFFFFFFFFFFFFint,
                0 <= sample_rate <= 0xFFFFFFFFint,
        ;
    }
    let num: u128 = (best as u128) * ((sample_rate as u128) * 1000);
    let fq: u128 = num / (n as u128);
    proof {
        let k = (sample_rate * 1000) as int;
        lemma_mul_inequality(best as int, n as int, k);
        lemma_div_is_ordered(best as int * k, n as int * k, n as int);
        lemma_div_multiples_vanish(k, n as int);
    }
    Some(fq as u64)
}

/// The seed entry in force after one frame is handled: a successful
/// resolution moves the seed to the resolved entry; a silent frame and a
/// failed resolution leave it.
pub open spec fn seed_after(values: Seq<Pitch>, seed: int, f: u64) -> int {
    if f == 0 {
        seed
    } else {
        match spec_guess(values, seed, f) {
            Some(k) => k,
            None => seed,
        }
    }
}

/// The seed entry in force when frame `j` is resolved: A4 before the first
/// frame, then chained through the frames before `j`.
pub open spec fn seed_at(values: Seq<Pitch>, keys: Seq<Seq<char>>, freqs: Seq<u64>, j: int) -> int
    decreases j,
{
    if j <= 0 {
        last_key_idx(keys, "A4"@)
    } else {
        seed_after(values, seed_at(values, keys, freqs, j - 1), freqs[j - 1])
    }
}

/// How frame `j`'s pitch follows from its frequency: a silent frame (no
/// frequency) resolves to the silence sentinel, as does a frequency that
/// the resolver cannot bracket; any other frequency resolves to the catalog
/// entry the walk lands on, annotated with the measured frequency.
pub open spec fn resolved_pitch_ok(
    values: Seq<Pitch>,
    keys: Seq<Seq<char>>,
    freqs: Seq<u64>,
    j: int,
    p: Pitch,
) -> bool {
    if freqs[j] == 0 {
        is_silence(p)
    } else {
        match spec_guess(values, seed_at(values, keys, freqs, j), freqs[j]) {
            None => is_silence(p),
            Some(k) => p == (Pitch { frequency: freqs[j], ..values[k] }),
        }
    }
}

/// The per-frame pitches that the resolver assigns to a frequency sequence.
pub open spec fn resolved_seq_ok(
    values: Seq<Pitch>,
    keys: Seq<Seq<char>>,
    freqs: Seq<u64>,
    pitches: Seq<Pitch>,
) -> bool {
    &&& pitches.len() == freqs.len()
    &&& forall|j: int|
        0 <= j < freqs.len() ==> resolved_pitch_ok(values, keys, freqs, j, #[trigger] pitches[j])
}

/// A frame with no measured frequency — in particular one that the silence
/// gate stopped before any spectral analysis — always resolves to the
/// silence sentinel, whatever its spectrum would have held.
pub proof fn lemma_silent_frame_is_silence(
    values: Seq<Pitch>,
    keys: Seq<Seq<char>>,
    freqs: Seq<u64>,
    pitches: Seq<Pitch>,
    j: int,
)
    requires
        resolved_seq_ok(values, keys, freqs, pitches),
        0 <= j < freqs.len(),
        freqs[j] == 0,
    ensures
        is_silence(pitches[j]),
{
}

/// Maps each frame's measured frequency to a pitch: zero (a silent frame)
/// to the silence sentinel, any other frequency to the nearest catalog
/// entry found by the directional walk, seeded from the previous frame's
/// resolved pitch (A4 before the first resolution); an unresolvable
/// frequency falls back to the silence sentinel.
pub fn resolve_frequencies(notes: &SeqData<Pitch>, frequencies: &Vec<u64>) -> (r: Vec<Pitch>)
    requires
        is_catalog(*notes),
    ensures
        resolved_seq_ok(notes.spec_values(), notes.spec_keys(), frequencies@, r@),
{
    let ghost vals = notes.spec_values();
    let ghost keys = notes.spec_keys();
    let ghost freqs = frequencies@;
    proof {
        lemma_a4_in_catalog(*notes);
    }
    let mut pitches: Vec<Pitch> = Vec::new();
    let mut last_guess: Option<Pitch> = None;
    let mut j: usize = 0;
    while j < frequencies.len()
        invariant
            is_catalog(*notes),
            vals == notes.spec_values(),
            keys == notes.spec_keys(),
            freqs == frequencies@,
            j <= freqs.len(),
            pitches@.len() == j,
            forall|jj: int|
                0 <= jj < j ==> resolved_pitch_ok(vals, keys, freqs, jj, #[trigger] pitches@[jj]),
            has_key(keys, spec_seed_name(last_guess)),
            last_key_idx(keys, spec_seed_name(last_guess)) == seed_at(vals, keys, freqs, j as int),
            0 <= seed_at(vals, keys, freqs, j as int) < vals.len(),
        decreases freqs.len() - j,
    {
        let f = frequencies[j];
        let ghost seed = seed_at(vals, keys, freqs, j as int);
        if f == 0 {
            pitches.push(Pitch::silence());
        } else {
            let lg: Option<Pitch> = match &last_guess {
                Some(p) => Some(p.clone()),
                None => None,
            };
            proof {
                assert(spec_seed_name(lg) == spec_seed_name(last_guess));
                lemma_guess_in_range(vals, seed, f);
            }
            match Pitch::guess(notes, f, lg) {
                Some(p) => {
                    proof {
                        let k = spec_guess(vals, seed, f).unwrap();
                        lemma_catalog_get(*notes, k);
                        assert(p.name@ == vals[k].name@);
                    }
                    pitches.push(p.clone());
                    last_guess = Some(p);
                },
                None => {
                    pitches.push(Pitch::silence());
                },
            }
        }
        j = j + 1;
    }
    pitches
}

/// One frame lasts a second.
pub open spec fn spec_frame_ms() -> u64 {
    1000
}

/// The notes left to emit once segmentation has consumed frames before `j`:
/// the open note carries `cur` from `start`; a frame with a different pitch
/// name closes it at that frame's boundary and opens a new one; the last
/// note closes at the end of the final frame.
pub open spec fn seg_rec(pitches: Seq<Pitch>, dur: u64, j: int, start: int, cur: Pitch) -> Seq<
    PhiNote,
>
    decreases pitches.len() - j,
{
    if j >= pitches.len() {
        seq![PhiNote { pitch: cur, start: start as u64, end: (pitches.len() * dur) as u64 }]
    } else if pitches[j].name@ != cur.name@ {
        seq![PhiNote { pitch: cur, start: start as u64, end: (j * dur) as u64 }] + seg_rec(
            pitches,
            dur,
            j + 1,
            j * dur,
            pitches[j],
        )
    } else {
        seg_rec(pitches, dur, j + 1, start, cur)
    }
}

/// The merged note sequence for a non-empty run of per-frame pitches, each
/// frame spanning `dur` milliseconds: consecutive frames with the same
/// pitch name become one note carrying the first frame's resolved pitch.
pub open spec fn spec_segment(pitches: Seq<Pitch>, dur: u64) -> Seq<PhiNote> {
    seg_rec(pitches, dur, 1, 0, pitches[0])
}

/// Merges consecutive frames with the same pitch name into single note
/// events. Pitches are compared by name alone, so measured-frequency
/// differences do not break a run. An empty frame sequence is refused.
pub fn segment_notes(pitches: &Vec<Pitch>, dur: u64) -> (r: Result<Vec<PhiNote>, AnalysisError>)
    requires
        pitches@.len() * dur <= u64::MAX,
    ensures
        pitches@.len() == 0 <==> r == Err::<Vec<PhiNote>, AnalysisError>(
            AnalysisError::EmptyFrameSequence,
        ),
        pitches@.len() > 0 ==> (r matches Ok(notes) && notes@ == spec_segment(pitches@, dur)),
{
    if pitches.len() == 0 {
        return Err(AnalysisError::EmptyFrameSequence);
    }
    let ghost ps = pitches@;
    let mut result: Vec<PhiNote> = Vec::new();
    let mut current = PhiNote { pitch: pitches[0].clone(), start: 0, end: 0 };
    let mut time_cursor: u64 = dur;
    let mut j: usize = 1;
    while j < pitches.len()
        invariant
            ps == pitches@,
            ps.len() * dur <= u64::MAX,
            1 <= j <= ps.len(),
            time_cursor == j * dur,
            current.start <= time_cursor,
            result@ + seg_rec(ps, dur, j as int, current.start as int, current.pitch)
                == spec_segment(ps, dur),
        decreases ps.len() - j,
    {
        proof {
            lemma_mul_inequality(j + 1 as int, ps.len() as int, dur as int);
            assert((j + 1) * (dur as int) == j * (dur as int) + dur) by (nonlinear_arith);
        }
        if current.pitch != pitches[j] {
            let opened = PhiNote { pitch: pitches[j].clone(), start: time_cursor, end: 0 };
            current.end = time_cursor;
            let ghost closed = seg_rec(ps, dur, j as int, current.start as int, current.pitch);
            result.push(current);
            proof {
                assert(result@ + seg_rec(ps, dur, j + 1 as int, j * dur, ps[j as int])
                    =~= spec_segment(ps, dur)) by {
                    assert(closed =~= seq![
                        PhiNote {
                            pitch: current.pitch,
                            start: current.start,
                            end: (j * dur) as u64,
                        },
                    ] + seg_rec(ps, dur, j + 1 as int, j * dur, ps[j as int]));
                }
            }
            current = opened;
        }
        j = j + 1;
        time_cursor = time_cursor + dur;
    }
    current.end = time_cursor;
    result.push(current);
    proof {
        assert(result@ =~= spec_segment(ps, dur));
    }
    Ok(result)
}

/// The notes of a segmentation tile the analyzed span without gaps: the
/// first note starts at zero, each note ends where the next begins, every
/// note is non-empty, and the last note ends at the total duration.
pub proof fn lemma_segment_contiguous(pitches: Seq<Pitch>, dur: u64)
    requires
        pitches.len() >= 1,
        pitches.len() * dur <= u64::MAX,
        dur >= 1,
    ensures
        ({
            let notes = spec_segment(pitches, dur);
            &&& notes.len() >= 1
            &&& notes[0].start == 0
            &&& notes[notes.len() - 1].end == pitches.len() * dur
            &&& forall|i: int| 0 <= i < notes.len() ==> (#[trigger] notes[i]).start < notes[i].end
            &&& forall|i: int|
                0 <= i < notes.len() - 1 ==> (#[trigger] notes[i]).end == notes[i + 1].start
        }),
{
    lemma_seg_rec_contiguous(pitches, dur, 1, 0, pitches[0]);
}

/// The tiling invariant of `seg_rec`: starting from a cursor below the next
/// boundary, the emitted notes run back-to-back from `start` to the end of
/// the final frame.
proof fn lemma_seg_rec_contiguous(pitches: Seq<Pitch>, dur: u64, j: int, start: int, cur: Pitch)
    requires
        pitches.len() * dur <= u64::MAX,
        dur >= 1,
        1 <= j <= pitches.len(),
        0 <= start <= (j - 1) * dur,
    ensures
        ({
            let notes = seg_rec(pitches, dur, j, start, cur);
            &&& notes.len() >= 1
            &&& notes[0].start == start
            &&& notes[notes.len() - 1].end == pitches.len() * dur
            &&& forall|i: int| 0 <= i < notes.len() ==> (#[trigger] notes[i]).start < notes[i].end
            &&& forall|i: int|
                0 <= i < notes.len() - 1 ==> (#[trigger] notes[i]).end == notes[i + 1].start
        }),
    decreases pitches.len() - j,
{
    lemma_mul_inequality(j as int, pitches.len() as int, dur as int);
    lemma_mul_inequality(j - 1 as int, pitches.len() as int, dur as int);
    assert((j - 1) * dur == j * dur - dur) by (nonlinear_arith);
    if j >= pitches.len() {
        assert(start < pitches.len() * dur);
    } else if pitches[j].name@ != cur.name@ {
        lemma_seg_rec_contiguous(pitches, dur, j + 1, j * dur, pitches[j]);
        let head = PhiNote { pitch: cur, start: start as u64, end: (j * dur) as u64 };
        let tail = seg_rec(pitches, dur, j + 1, j * dur, pitches[j]);
        assert(seg_rec(pitches, dur, j, start, cur) == seq![head] + tail);
        assert(start < j * dur);
    } else {
        lemma_seg_rec_contiguous(pitches, dur, j + 1, start, cur);
    }
}


/// The first position of `c` in `t`, or the length of `t` when `c` is
/// absent.
pub open spec fn first_idx_of(t: Seq<char>, c: char) -> nat
    decreases t.len(),
{
    if t.len() == 0 {
        0
    } else if t[0] == c {
        0
    } else {
        1 + first_idx_of(t.drop_first(), c)
    }
}

/// `first_idx_of` is pinned down by a scan: a position below the length
/// holding `c`, with no `c` before it, is the first one; a scan that saw no
/// `c` at all puts the first position at the length.
proof fn lemma_first_idx_of(t: Seq<char>, c: char, e: int)
    requires
        0 <= e <= t.len(),
        forall|q: int| 0 <= q < e ==> t[q] != c,
        e < t.len() ==> t[e] == c,
    ensures
        first_idx_of(t, c) == e,
    decreases t.len(),
{
    if t.len() > 0 && t[0] != c {
        lemma_first_idx_of(t.drop_first(), c, e - 1);
    }
}

/// A line the melody parser passes over: empty, or a comment.
pub open spec fn is_skipped(l: Seq<char>) -> bool {
    l.len() == 0 || l[0] == '#'
}

/// A decimal digit.
pub open spec fn is_digit(c: char) -> bool {
    48 <= c as int <= 57
}

/// The value of a string of decimal digits.
pub open spec fn digits_val(t: Seq<char>) -> int
    decreases t.len(),
{
    if t.len() == 0 {
        0
    } else {
        digits_val(t.drop_last()) * 10 + (t.last() as int - 48)
    }
}

/// The pitch name of a melody line: everything before the first space.
pub open spec fn line_name(l: Seq<char>) -> Seq<char> {
    l.subrange(0, first_idx_of(l, ' ') as int)
}

/// The duration field of a melody line: the run after the first space, up
/// to the next space or the end of the line.
pub open spec fn line_tok2(l: Seq<char>) -> Seq<char> {
    let sp = first_idx_of(l, ' ') as int;
    let rest = l.subrange(sp + 1, l.len() as int);
    rest.subrange(0, first_idx_of(rest, ' ') as int)
}

/// A melody line that names a note: a catalog pitch name, one space, and a
/// decimal duration divisor of at most ten digits, at least one.
pub open spec fn wf_note_line(l: Seq<char>) -> bool {
    &&& !is_skipped(l)
    &&& first_idx_of(l, ' ') < l.len()
    &&& 1 <= line_tok2(l).len() <= 10
    &&& forall|q: int| 0 <= q < line_tok2(l).len() ==> is_digit(#[trigger] line_tok2(l)[q])
    &&& digits_val(line_tok2(l)) >= 1
    &&& exists|i: int|
        0 <= i < tuning_count() && #[trigger] spec_semitone_name(i + 9) == line_name(l)
}

/// A well-formed melody script: line by line, each line is either passed
/// over or names a note.
pub open spec fn melody_wf(s: Seq<char>) -> bool
    decreases s.len(),
{
    if s.len() == 0 {
        true
    } else {
        let e = first_idx_of(s, '\n') as int;
        let line = s.subrange(0, e);
        let rest = if e >= s.len() {
            Seq::<char>::empty()
        } else {
            s.subrange(e + 1, s.len() as int)
        };
        (is_skipped(line) || wf_note_line(line)) && melody_wf(rest)
    }
}

/// What a melody script denotes: for each note line in order, the pitch
/// name and the duration in milliseconds, a whole second divided by the
/// line's divisor and rounded down.
pub open spec fn spec_melody(s: Seq<char>) -> Seq<(Seq<char>, int)>
    decreases s.len(),
{
    if s.len() == 0 {
        seq![]
    } else {
        let e = first_idx_of(s, '\n') as int;
        let line = s.subrange(0, e);
        let rest = if e >= s.len() {
            Seq::<char>::empty()
        } else {
            s.subrange(e + 1, s.len() as int)
        };
        if is_skipped(line) {
            spec_melody(rest)
        } else {
            seq![(line_name(line), 1000int / digits_val(line_tok2(line)))] + spec_melody(rest)
        }
    }
}

/// Where the `k`-th note of a melody starts: the durations before it,
/// summed.
pub open spec fn melody_cursor(m: Seq<(Seq<char>, int)>, k: int) -> int
    decreases k,
{
    if k <= 0 {
        0
    } else {
        melody_cursor(m, k - 1) + m[k - 1].1
    }
}


/// Powers of ten, for bounding parsed numbers.
pub open spec fn ten_pow(k: nat) -> int
    decreases k,
{
    if k == 0 {
        1
    } else {
        10 * ten_pow((k - 1) as nat)
    }
}

proof fn lemma_ten_pow_mono(a: nat, b: nat)
    requires
        a <= b,
    ensures
        0 < ten_pow(a) <= ten_pow(b),
    decreases b,
{
    if b > 0 {
        if a == b {
            lemma_ten_pow_mono((a - 1) as nat, (b - 1) as nat);
        } else {
            lemma_ten_pow_mono(a, (b - 1) as nat);
        }
    }
}

/// A string of `k` decimal digits denotes a value below the `k`-th power
/// of ten.
proof fn lemma_digits_val_bound(t: Seq<char>)
    requires
        forall|q: int| 0 <= q < t.len() ==> is_digit(#[trigger] t[q]),
    ensures
        0 <= digits_val(t) < ten_pow(t.len()),
    decreases t.len(),
{
    if t.len() > 0 {
        lemma_digits_val_bound(t.drop_last());
    }
}

/// Scans `[from, to)` for the first occurrence of `target`.
fn scan_to(string: &str, from: usize, to: usize, target: char) -> (e: usize)
    requires
        from <= to <= string@.len(),
    ensures
        from <= e <= to,
        e - from == first_idx_of(string@.subrange(from as int, to as int), target),
        e < to ==> string@[e as int] == target,
        forall|q: int| from <= q < e ==> string@[q] != target,
{
    let mut e = from;
    while e < to
        invariant
            from <= e <= to <= string@.len(),
            forall|q: int| from <= q < e ==> string@[q] != target,
        decreases to - e,
    {
        if string.get_char(e) == target {
            proof {
                let t = string@.subrange(from as int, to as int);
                assert forall|q: int| 0 <= q < e - from implies t[q] != target by {
                    assert(t[q] == string@[from + q]);
                }
                lemma_first_idx_of(t, target, e - from);
            }
            return e;
        }
        e = e + 1;
    }
    proof {
        let t = string@.subrange(from as int, to as int);
        assert forall|q: int| 0 <= q < to - from implies t[q] != target by {
            assert(t[q] == string@[from + q]);
        }
        lemma_first_idx_of(t, target, to - from);
    }
    to
}

/// Reads the decimal number written in `[from, to)`.
fn parse_digits(string: &str, from: usize, to: usize) -> (v: u64)
    requires
        from <= to <= string@.len(),
        1 <= to - from <= 10,
        forall|q: int| from <= q < to ==> is_digit(#[trigger] string@[q]),
    ensures
        v == digits_val(string@.subrange(from as int, to as int)),
{
    let mut v: u64 = 0;
    let mut d = from;
    while d < to
        invariant
            from <= d <= to <= string@.len(),
            to - from <= 10,
            forall|q: int| from <= q < to ==> is_digit(#[trigger] string@[q]),
            v == digits_val(string@.subrange(from as int, d as int)),
            v < ten_pow((d - from) as nat),
        decreases to - d,
    {
        let c = string.get_char(d);
        proof {
            assert(is_digit(string@[d as int]));
            assert(48 <= c as u32 <= 57);
        }
        let digit: u32 = (c as u32) - 48;
        proof {
            assert(string@.subrange(from as int, d + 1 as int).drop_last() =~= string@.subrange(
                from as int,
                d as int,
            ));
            assert(string@.subrange(from as int, d + 1 as int).last() == string@[d as int]);
            let k = (d - from) as nat;
            lemma_ten_pow_mono((k + 1) as nat, 10);
            assert(ten_pow(0) == 1);
            assert(ten_pow(1) == 10);
            assert(ten_pow(2) == 100);
            assert(ten_pow(3) == 1000);
            assert(ten_pow(4) == 10000);
            assert(ten_pow(5) == 100000);
            assert(ten_pow(6) == 1000000);
            assert(ten_pow(7) == 10000000);
            assert(ten_pow(8) == 100000000);
            assert(ten_pow(9) == 1000000000);
            assert(ten_pow(10) == 10000000000);
            assert(ten_pow((k + 1) as nat) == 10 * ten_pow(k));
            assert(v * 10 + digit < ten_pow((k + 1) as nat));
        }
        v = v * 10 + (digit as u64);
        d = d + 1;
    }
    v
}

/// The ordered note events covering one analyzed buffer.
pub struct Chunk {
    pub notes: Vec<PhiNote>,
}


impl Chunk {
    /// Parses a melody script: one note per line as `NAME DIVISOR`, where
    /// the note carries the catalog pitch called NAME and lasts a whole
    /// second divided by DIVISOR, in whole milliseconds rounded down; empty
    /// lines and lines opening with `#` are passed over. The notes run
    /// back-to-back from time zero.
    pub fn from_str(string: &str) -> (r: Chunk)
        requires
            melody_wf(string@),
            spec_melody(string@).len() * 1000 <= u64::MAX,
        ensures
            r.notes@.len() == spec_melody(string@).len(),
            forall|k: int|
                0 <= k < spec_melody(string@).len() ==> {
                    let m = spec_melody(string@);
                    let note = #[trigger] r.notes@[k];
                    &&& note.pitch.name@ == m[k].0
                    &&& note.pitch.cents == 0
                    &&& (exists|i: int|
                        0 <= i < tuning_count() && #[trigger] spec_semitone_name(i + 9) == m[k].0
                            && note.pitch.frequency == tuning_freq(i) && note.pitch.midi == i + 21)
                    &&& note.start == melody_cursor(m, k)
                    &&& note.end == melody_cursor(m, k) + m[k].1
                },
    {
        let ghost m = spec_melody(string@);
        let n = string.unicode_len();
        proof {
            assert(string@.subrange(0, n as int) =~= string@);
            assert(m.subrange(0, m.len() as int) =~= m);
        }
        let mut notes: Vec<PhiNote> = Vec::new();
        let mut cursor: u64 = 0;
        let mut pos: usize = 0;
        let ghost mut k: int = 0;
        while pos < n
            invariant
                m == spec_melody(string@),
                n == string@.len(),
                pos <= n,
                notes@.len() == k,
                0 <= k <= m.len(),
                m.len() * 1000 <= u64::MAX,
                cursor == melody_cursor(m, k),
                cursor <= k * 1000,
                melody_wf(string@.subrange(pos as int, n as int)),
                spec_melody(string@.subrange(pos as int, n as int)) == m.subrange(
                    k,
                    m.len() as int,
                ),
                forall|q: int|
                    0 <= q < k ==> {
                        let note = #[trigger] notes@[q];
                        &&& note.pitch.name@ == m[q].0
                        &&& note.pitch.cents == 0
                        &&& (exists|i: int|
                            0 <= i < tuning_count() && #[trigger] spec_semitone_name(i + 9)
                                == m[q].0 && note.pitch.frequency == tuning_freq(i)
                                && note.pitch.midi == i + 21)
                        &&& note.start == melody_cursor(m, q)
                        &&& note.end == melody_cursor(m, q) + m[q].1
                    },
            decreases n - pos,
        {
            let ghost suffix = string@.subrange(pos as int, n as int);
            let e = scan_to(string, pos, n, '\n');
            let ghost erel = e - pos;
            let ghost line = suffix.subrange(0, erel as int);
            let ghost rest = if erel >= suffix.len() {
                Seq::<char>::empty()
            } else {
                suffix.subrange(erel + 1, suffix.len() as int)
            };
            proof {
                assert(suffix.len() == n - pos);
                assert(erel == first_idx_of(suffix, '\n')) by {
                    assert forall|q: int| 0 <= q < erel implies suffix[q] != '\n' by {
                        assert(suffix[q] == string@[pos + q]);
                    }
                    if e < n {
                        assert(suffix[erel as int] == string@[e as int]);
                    }
                    lemma_first_idx_of(suffix, '\n', erel);
                }
                assert(line =~= string@.subrange(pos as int, e as int));
                if e < n {
                    assert(rest =~= string@.subrange(e + 1, n as int));
                }
                // one unfolding of the two recursive definitions at `suffix`
                assert(melody_wf(suffix) == ((is_skipped(line) || wf_note_line(line))
                    && melody_wf(rest)));
                assert(spec_melody(suffix) == if is_skipped(line) {
                    spec_melody(rest)
                } else {
                    seq![(line_name(line), 1000int / digits_val(line_tok2(line)))] + spec_melody(
                        rest,
                    )
                });
            }
            let skipped = pos == e || string.get_char(pos) == '#';
            proof {
                if pos < e {
                    assert(line[0] == string@[pos as int]);
                }
                assert(skipped == is_skipped(line));
            }
            if !skipped {
                proof {
                    assert(wf_note_line(line));
                }
                let sp = scan_to(string, pos, e, ' ');
                let ghost linesp = first_idx_of(line, ' ') as int;
                proof {
                    assert(string@.subrange(pos as int, e as int) == line);
                    assert(sp - pos == linesp);
                    assert(linesp < line.len());
                }
                let name = string.substring_char(pos, sp);
                proof {
                    assert(name@ =~= line_name(line));
                }
                let d_end = scan_to(string, sp + 1, e, ' ');
                let ghost tok = line_tok2(line);
                proof {
                    let linerest = line.subrange(linesp + 1, line.len() as int);
                    assert(linerest =~= string@.subrange(sp + 1, e as int));
                    assert(d_end - (sp + 1) == first_idx_of(linerest, ' '));
                    assert(tok == linerest.subrange(0, first_idx_of(linerest, ' ') as int));
                    assert(tok =~= string@.subrange(sp + 1, d_end as int));
                    assert forall|q: int| sp + 1 <= q < d_end implies is_digit(
                        #[trigger] string@[q],
                    ) by {
                        assert(tok[q - (sp + 1)] == string@[q]);
                    }
                }
                let val = parse_digits(string, sp + 1, d_end);
                proof {
                    assert(val == digits_val(tok));
                    vstd::arithmetic::div_mod::lemma_div_nonincreasing(1000int, val as int);
                }
                let duration: u64 = 1000 / val;
                let p = match Pitch::from_str(name) {
                    Some(p) => p,
                    None => {
                        proof {
                            assert(false);
                        }
                        return Chunk { notes: Vec::new() };
                    },
                };
                proof {
                    assert(m.subrange(k, m.len() as int)[0] == (line_name(line), 1000int
                        / digits_val(line_tok2(line))));
                    assert(m[k] == (line_name(line), 1000int / digits_val(line_tok2(line))));
                    assert(k < m.len());
                    lemma_mul_inequality(k + 1, m.len() as int, 1000int);
                    assert((k + 1) * 1000 == k * 1000 + 1000) by (nonlinear_arith);
                    assert(duration as int == m[k].1);
                }
                let note = PhiNote { pitch: p, start: cursor, end: cursor + duration };
                let ghost gnote = note;
                let ghost prenotes = notes@;
                notes.push(note);
                cursor = cursor + duration;
                proof {
                    assert(m.subrange(k, m.len() as int).drop_first() =~= m.subrange(
                        k + 1,
                        m.len() as int,
                    ));
                    let ghost q0 = k;
                    k = k + 1;
                    assert(spec_melody(rest) == m.subrange(k, m.len() as int));
                    let i = choose|i: int|
                        0 <= i < tuning_count() && #[trigger] spec_semitone_name(i + 9) == name@
                            && gnote.pitch.name@ == name@ && gnote.pitch.frequency == tuning_freq(
                            i,
                        ) && gnote.pitch.cents == 0 && gnote.pitch.midi == i + 21;
                    assert(spec_semitone_name(i + 9) == m[q0].0);
                    assert(notes@[q0] == gnote);
                    assert(gnote.start == melody_cursor(m, q0));
                    assert(gnote.end == melody_cursor(m, q0) + m[q0].1);
                    assert forall|q: int| 0 <= q < k implies {
                        let nq = #[trigger] notes@[q];
                        &&& nq.pitch.name@ == m[q].0
                        &&& nq.pitch.cents == 0
                        &&& (exists|i: int|
                            0 <= i < tuning_count() && #[trigger] spec_semitone_name(i + 9)
                                == m[q].0 && nq.pitch.frequency == tuning_freq(i) && nq.pitch.midi
                                == i + 21)
                        &&& nq.start == melody_cursor(m, q)
                        &&& nq.end == melody_cursor(m, q) + m[q].1
                    } by {
                        if q < q0 {
                            assert(notes@[q] == prenotes[q]);
                        } else {
                            assert(notes@[q] == gnote);
                            assert(spec_semitone_name(i + 9) == m[q].0 && notes@[q].pitch.frequency
                                == tuning_freq(i) && notes@[q].pitch.midi == i + 21);
                        }
                    }
                }
            }
            if e == n {
                pos = n;
                proof {
                    assert(string@.subrange(pos as int, n as int) =~= rest);
                }
            } else {
                pos = e + 1;
                proof {
                    assert(string@.subrange(pos as int, n as int) =~= rest);
                }
            }
        }
        proof {
            assert(string@.subrange(pos as int, n as int) =~= Seq::<char>::empty());
            assert(k == m.len());
        }
        Chunk { notes }
    }
}

/// Turns the per-frame frequency sequence of a buffer into its merged note
/// events: each frequency is resolved against the pitch catalog (silent
/// frames and unresolvable frequencies give the silence sentinel, with the
/// seed chained from frame to frame), and consecutive frames with the same
/// pitch name merge into one note of a second per frame. An empty frequency
/// sequence is refused.
pub fn analyze_frequencies(frequencies: &Vec<u64>) -> (r: Result<Chunk, AnalysisError>)
    requires
        frequencies@.len() * 1000 <= u64::MAX,
    ensures
        frequencies@.len() == 0 <==> r == Err::<Chunk, AnalysisError>(
            AnalysisError::EmptyFrameSequence,
        ),
        frequencies@.len() > 0 ==> (r matches Ok(c) && exists|
            cat: SeqData<Pitch>,
            pitches: Seq<Pitch>,
        |
            is_catalog(cat) && #[trigger] resolved_seq_ok(
                cat.spec_values(),
                cat.spec_keys(),
                frequencies@,
                pitches,
            ) && c.notes@ == spec_segment(pitches, spec_frame_ms())),
{
    let all_notes = Pitch::all_notes();
    let pitches = resolve_frequencies(&all_notes, frequencies);
    match segment_notes(&pitches, 1000) {
        Ok(notes) => {
            proof {
                assert(resolved_seq_ok(
                    all_notes.spec_values(),
                    all_notes.spec_keys(),
                    frequencies@,
                    pitches@,
                ));
            }
            Ok(Chunk { notes })
        },
        Err(e) => Err(e),
    }
}

} // verus!
