//! Named pitches: the catalog of chromatic pitches built from the tuning
//! table, and the resolver that maps a measured frequency to the nearest
//! catalog entry by a directional walk from a seed entry.

use vstd::prelude::*;
use vstd::string::StringExecFns;
use vstd::arithmetic::div_mod::lemma_fundamental_div_mod_converse;
use crate::seqdata::{SeqData, has_key, last_key_idx, lemma_last_key_idx};
use crate::tuning::{tuning_freq, tuning_count, std_tuning, lemma_tuning_sorted};

verus! {

/// The name of the chromatic step `i` within an octave, in the fixed order
/// C, C#, D, D#, E, F, F#, G, G#, A, A#, B.
pub open spec fn spec_note_cycle(i: int) -> Seq<char> {
    if i == 0 {
        "C"@
    } else if i == 1 {
        "C#"@
    } else if i == 2 {
        "D"@
    } else if i == 3 {
        "D#"@
    } else if i == 4 {
        "E"@
    } else if i == 5 {
        "F"@
    } else if i == 6 {
        "F#"@
    } else if i == 7 {
        "G"@
    } else if i == 8 {
        "G#"@
    } else if i == 9 {
        "A"@
    } else if i == 10 {
        "A#"@
    } else if i == 11 {
        "B"@
    } else {
        Seq::empty()
    }
}

fn note_name(i: usize) -> (r: &'static str)
    requires
        i < 12,
    ensures
        r@ == spec_note_cycle(i as int),
{
    match i {
        0 => "C",
        1 => "C#",
        2 => "D",
        3 => "D#",
        4 => "E",
        5 => "F",
        6 => "F#",
        7 => "G",
        8 => "G#",
        9 => "A",
        10 => "A#",
        _ => "B",
    }
}

/// The digit character naming octave `o`.
pub open spec fn spec_octave_digit(o: int) -> char {
    if o == 0 {
        '0'
    } else if o == 1 {
        '1'
    } else if o == 2 {
        '2'
    } else if o == 3 {
        '3'
    } else if o == 4 {
        '4'
    } else if o == 5 {
        '5'
    } else if o == 6 {
        '6'
    } else if o == 7 {
        '7'
    } else if o == 8 {
        '8'
    } else if o == 9 {
        '9'
    } else {
        ' '
    }
}

fn octave_digit(o: usize) -> (r: &'static str)
    requires
        o < 10,
    ensures
        r@ == seq![spec_octave_digit(o as int)],
{
    proof {
        reveal_strlit("0");
        reveal_strlit("1");
        reveal_strlit("2");
        reveal_strlit("3");
        reveal_strlit("4");
        reveal_strlit("5");
        reveal_strlit("6");
        reveal_strlit("7");
        reveal_strlit("8");
        reveal_strlit("9");
    }
    let r = match o {
        0 => "0",
        1 => "1",
        2 => "2",
        3 => "3",
        4 => "4",
        5 => "5",
        6 => "6",
        7 => "7",
        8 => "8",
        _ => "9",
    };
    proof {
        assert(r@ =~= seq![spec_octave_digit(o as int)]);
    }
    r
}

/// The full name of the pitch `s` semitones above C0: its chromatic step
/// name followed by its octave digit.
pub open spec fn spec_semitone_name(s: int) -> Seq<char> {
    spec_note_cycle(s % 12).push(spec_octave_digit(s / 12))
}

/// Builds the name of chromatic step `i` of octave `octave`.
fn semitone_name(i: usize, octave: usize) -> (r: String)
    requires
        i < 12,
        octave < 10,
    ensures
        r@ == spec_semitone_name((i + 12 * octave) as int),
{
    let mut name = note_name(i).to_owned();
    name.append(octave_digit(octave));
    proof {
        let s = (i + 12 * octave) as int;
        lemma_fundamental_div_mod_converse(s, 12, octave as int, i as int);
        assert(name@ =~= spec_semitone_name(s));
    }
    name
}

/// A pitch: a name, a frequency in millihertz, an offset in cents from the
/// reference frequency, and a MIDI number. A catalog entry carries its
/// reference frequency and zero cents; a resolved pitch carries the measured
/// frequency instead.
pub struct Pitch {
    pub name: String,
    pub frequency: u64,
    pub cents: i64,
    pub midi: usize,
}

impl PartialEq for Pitch {
    /// Two pitches are the same pitch when they carry the same name; the
    /// measured frequency and cents do not tell pitches apart.
    fn eq(&self, other: &Pitch) -> (r: bool) {
        self.name == other.name
    }
}

impl vstd::std_specs::cmp::PartialEqSpecImpl for Pitch {
    open spec fn obeys_eq_spec() -> bool {
        true
    }

    open spec fn eq_spec(&self, other: &Pitch) -> bool {
        self.name@ == other.name@
    }
}

impl Clone for Pitch {
    fn clone(&self) -> (r: Pitch)
        ensures
            r == *self,
    {
        Pitch {
            name: self.name.clone(),
            frequency: self.frequency,
            cents: self.cents,
            midi: self.midi,
        }
    }
}

/// Whether a pitch is the silence sentinel: the reserved name "S", which
/// names no catalog entry, with no frequency and no MIDI number.
pub open spec fn is_silence(p: Pitch) -> bool {
    p.name@ == "S"@ && p.frequency == 0 && p.cents == 0 && p.midi == 0
}

impl Pitch {
    pub fn new(name: &str, frequency: u64, midi: usize) -> (r: Pitch)
        ensures
            r.name@ == name@,
            r.frequency == frequency,
            r.cents == 0,
            r.midi == midi,
    {
        Pitch { name: name.to_owned(), frequency, cents: 0, midi }
    }

    /// The silence sentinel: produced for a silent or unresolvable frame,
    /// never present in the catalog.
    pub fn silence() -> (r: Pitch)
        ensures
            is_silence(r),
    {
        Pitch { name: "S".to_owned(), frequency: 0, cents: 0, midi: 0 }
    }

    /// The frequency in millihertz: the reference frequency of a catalog
    /// entry, or the measured frequency of a resolved pitch.
    pub fn frequency(&self) -> (r: u64)
        ensures
            r == self.frequency,
    {
        self.frequency
    }

    pub fn name(&self) -> (r: &str)
        ensures
            r@ == self.name@,
    {
        self.name.as_str()
    }

    pub fn cents(&self) -> (r: i64)
        ensures
            r == self.cents,
    {
        self.cents
    }

    pub fn midi(&self) -> (r: usize)
        ensures
            r == self.midi,
    {
        self.midi
    }
}

/// Entry `i` of the pitch catalog: the pitch `i + 9` semitones above C0
/// (the catalog starts at A0), carrying the tuning table's frequency, zero
/// cents, and a MIDI number twelve above its semitone index.
pub open spec fn catalog_entry_ok(p: Pitch, i: int) -> bool {
    &&& p.name@ == spec_semitone_name(i + 9)
    &&& p.frequency == tuning_freq(i)
    &&& p.cents == 0
    &&& p.midi == i + 21
}

/// The shape of the catalog that `all_notes` builds: one entry per tuning
/// table position, in ascending frequency order, each keyed by its name.
pub open spec fn is_catalog(c: SeqData<Pitch>) -> bool {
    &&& c.wf()
    &&& c.spec_keys().len() == tuning_count()
    &&& c.spec_values().len() == tuning_count()
    &&& forall|i: int|
        0 <= i < tuning_count() ==> catalog_entry_ok(#[trigger] c.spec_values()[i], i)
    &&& forall|i: int|
        0 <= i < tuning_count() ==> #[trigger] c.spec_keys()[i] == c.spec_values()[i].name@
}

impl Pitch {
    /// Builds the pitch catalog from the tuning table: the twelve chromatic
    /// steps of each octave from 0 through 9, skipping the steps below A0,
    /// each under its full name, with MIDI number twelve above the semitone
    /// index.
    pub fn all_notes() -> (r: SeqData<Pitch>)
        ensures
            is_catalog(r),
    {
        let freqs = std_tuning();
        let mut notes: SeqData<Pitch> = SeqData::new();
        let mut octave: usize = 0;
        while octave < 10
            invariant
                octave <= 10,
                freqs@.len() == tuning_count(),
                forall|k: int| 0 <= k < tuning_count() ==> freqs@[k] == tuning_freq(k),
                notes.wf(),
                notes.spec_values().len() == if octave == 0 {
                    0int
                } else {
                    12 * octave - 9
                },
                notes.spec_keys().len() == notes.spec_values().len(),
                forall|k: int|
                    0 <= k < notes.spec_values().len() ==> catalog_entry_ok(
                        #[trigger] notes.spec_values()[k],
                        k,
                    ),
                forall|k: int|
                    0 <= k < notes.spec_keys().len() ==> #[trigger] notes.spec_keys()[k]
                        == notes.spec_values()[k].name@,
            decreases 10 - octave,
        {
            let mut i: usize = 0;
            while i < 12
                invariant
                    octave < 10,
                    i <= 12,
                    freqs@.len() == tuning_count(),
                    forall|k: int| 0 <= k < tuning_count() ==> freqs@[k] == tuning_freq(k),
                    notes.wf(),
                    notes.spec_values().len() == if 12 * octave + i <= 9 {
                        0int
                    } else {
                        12 * octave + i - 9
                    },
                    notes.spec_keys().len() == notes.spec_values().len(),
                    forall|k: int|
                        0 <= k < notes.spec_values().len() ==> catalog_entry_ok(
                            #[trigger] notes.spec_values()[k],
                            k,
                        ),
                    forall|k: int|
                        0 <= k < notes.spec_keys().len() ==> #[trigger] notes.spec_keys()[k]
                            == notes.spec_values()[k].name@,
                decreases 12 - i,
            {
                let semitones_above_reference = i + 12 * octave;
                if semitones_above_reference >= 9 {
                    let fullname = semitone_name(i, octave);
                    let midi = semitones_above_reference + 12;
                    let note = Pitch::new(
                        fullname.as_str(),
                        freqs[semitones_above_reference - 9],
                        midi,
                    );
                    notes.add(fullname.as_str(), note);
                }
                i = i + 1;
            }
            octave = octave + 1;
        }
        notes
    }
}


/// The twelve chromatic step names are pairwise distinct.
proof fn lemma_cycle_names_distinct()
    ensures
        forall|a: int, b: int|
            0 <= a < 12 && 0 <= b < 12 && a != b ==> spec_note_cycle(a) != spec_note_cycle(b),
{
    reveal_strlit("C");
    reveal_strlit("C#");
    reveal_strlit("D");
    reveal_strlit("D#");
    reveal_strlit("E");
    reveal_strlit("F");
    reveal_strlit("F#");
    reveal_strlit("G");
    reveal_strlit("G#");
    reveal_strlit("A");
    reveal_strlit("A#");
    reveal_strlit("B");
    assert forall|a: int, b: int|
        0 <= a < 12 && 0 <= b < 12 && a != b implies spec_note_cycle(a) != spec_note_cycle(b) by {
        if spec_note_cycle(a) == spec_note_cycle(b) {
            assert(spec_note_cycle(a)[0] == spec_note_cycle(b)[0]);
            assert(spec_note_cycle(a).len() == spec_note_cycle(b).len());
            assert(false);
        }
    }
}

/// Distinct semitones carry distinct names: the octave digit separates
/// octaves, and the step name separates steps within an octave.
pub proof fn lemma_semitone_name_injective(s1: int, s2: int)
    requires
        0 <= s1 < 120,
        0 <= s2 < 120,
        s1 != s2,
    ensures
        spec_semitone_name(s1) != spec_semitone_name(s2),
{
    lemma_cycle_names_distinct();
    let c1 = spec_note_cycle(s1 % 12);
    let d1 = spec_octave_digit(s1 / 12);
    let c2 = spec_note_cycle(s2 % 12);
    let d2 = spec_octave_digit(s2 / 12);
    let n1 = spec_semitone_name(s1);
    let n2 = spec_semitone_name(s2);
    if s1 / 12 != s2 / 12 {
        assert(d1 != d2);
        assert(n1.last() == d1);
        assert(n2.last() == d2);
        if n1 == n2 {
            assert(n1.len() == n2.len());
            assert(false);
        }
    } else {
        assert(s1 % 12 != s2 % 12) by {
            vstd::arithmetic::div_mod::lemma_fundamental_div_mod(s1, 12);
            vstd::arithmetic::div_mod::lemma_fundamental_div_mod(s2, 12);
        }
        assert(c1 != c2);
        if n1 == n2 {
            assert(n1.len() == c1.len() + 1);
            assert(n2.len() == c2.len() + 1);
            assert(c1.len() == c2.len());
            assert forall|idx: int| 0 <= idx < c1.len() implies c1[idx] == c2[idx] by {
                assert(n1[idx] == c1[idx]);
                assert(n2[idx] == c2[idx]);
            }
            assert(c1 =~= c2);
            assert(false);
        }
    }
}

/// In the catalog each name keys exactly its own entry: fetching a catalog
/// name finds the entry whose reference frequency is the literal tuning
/// table value for that name's semitone.
pub proof fn lemma_catalog_get(c: SeqData<Pitch>, i: int)
    requires
        is_catalog(c),
        0 <= i < tuning_count(),
    ensures
        has_key(c.spec_keys(), spec_semitone_name(i + 9)),
        last_key_idx(c.spec_keys(), spec_semitone_name(i + 9)) == i,
        c.spec_values()[i].name@ == spec_semitone_name(i + 9),
        c.spec_values()[i].frequency == tuning_freq(i),
{
    let keys = c.spec_keys();
    let k = spec_semitone_name(i + 9);
    assert(catalog_entry_ok(c.spec_values()[i], i));
    assert(keys[i] == k);
    lemma_last_key_idx(keys, k);
    let li = last_key_idx(keys, k);
    assert(has_key(keys, k));
    if li != i {
        assert(catalog_entry_ok(c.spec_values()[li], li));
        assert(keys[li] == spec_semitone_name(li + 9));
        lemma_semitone_name_injective(li + 9, i + 9);
        assert(false);
    }
}

/// The walks that `iter_forward` and `iter_backward` return on a catalog
/// start at the named entry and are strictly monotone by frequency: the
/// forward walk strictly ascends and the backward walk strictly descends.
pub proof fn lemma_catalog_walks_monotone(c: SeqData<Pitch>, i: int)
    requires
        is_catalog(c),
        0 <= i < tuning_count(),
    ensures
        ({
            let fwd = c.spec_values().subrange(
                last_key_idx(c.spec_keys(), spec_semitone_name(i + 9)),
                c.spec_values().len() as int,
            );
            &&& fwd.len() > 0
            &&& fwd[0].name@ == spec_semitone_name(i + 9)
            &&& forall|a: int, b: int|
                0 <= a < b < fwd.len() ==> #[trigger] fwd[a].frequency < #[trigger] fwd[b].frequency
        }),
        ({
            let bwd = c.spec_values().subrange(
                0,
                last_key_idx(c.spec_keys(), spec_semitone_name(i + 9)) + 1,
            ).reverse();
            &&& bwd.len() > 0
            &&& bwd[0].name@ == spec_semitone_name(i + 9)
            &&& forall|a: int, b: int|
                0 <= a < b < bwd.len() ==> #[trigger] bwd[a].frequency > #[trigger] bwd[b].frequency
        }),
{
    lemma_catalog_get(c, i);
    lemma_tuning_sorted();
    let vals = c.spec_values();
    let fwd = vals.subrange(i, vals.len() as int);
    assert(fwd[0].name@ == spec_semitone_name(i + 9));
    assert forall|a: int, b: int|
        0 <= a < b < fwd.len() implies #[trigger] fwd[a].frequency
        < #[trigger] fwd[b].frequency by {
        assert(catalog_entry_ok(vals[i + a], i + a));
        assert(catalog_entry_ok(vals[i + b], i + b));
    }
    let bwd = vals.subrange(0, i + 1).reverse();
    assert(bwd[0] == vals[i]);
    assert forall|a: int, b: int|
        0 <= a < b < bwd.len() implies #[trigger] bwd[a].frequency
        > #[trigger] bwd[b].frequency by {
        assert(bwd[a] == vals[i - a]);
        assert(bwd[b] == vals[i - b]);
        assert(catalog_entry_ok(vals[i - a], i - a));
        assert(catalog_entry_ok(vals[i - b], i - b));
    }
}


/// The distance between two frequencies in millihertz.
pub open spec fn freq_dist(a: u64, b: u64) -> int {
    if a >= b {
        a - b
    } else {
        b - a
    }
}

/// Of two bracketing entries, the one whose frequency is nearer to the
/// measured one; on a tie the entry seen later in the walk wins.
pub open spec fn nearer_idx(values: Seq<Pitch>, last: int, cur: int, freq: u64) -> int {
    if freq_dist(values[last].frequency, freq) < freq_dist(values[cur].frequency, freq) {
        last
    } else {
        cur
    }
}

/// The resolver's forward walk from position `i`, with `last` the position
/// walked over just before: the first entry whose frequency lies above the
/// measured one closes the bracket, and the nearer of the two bracketing
/// entries is the result; walking off the end of the catalog yields nothing.
pub open spec fn walk_up(values: Seq<Pitch>, i: int, last: int, freq: u64) -> Option<int>
    decreases values.len() - i,
{
    if i < 0 || i >= values.len() {
        None
    } else if freq < values[i].frequency {
        Some(nearer_idx(values, last, i, freq))
    } else {
        walk_up(values, i + 1, i, freq)
    }
}

/// The resolver's backward walk from position `i`: the first entry whose
/// frequency lies below the measured one closes the bracket; walking off
/// the start of the catalog yields nothing.
pub open spec fn walk_down(values: Seq<Pitch>, i: int, last: int, freq: u64) -> Option<int>
    decreases i + 1,
{
    if i < 0 {
        None
    } else if freq > values[i].frequency {
        Some(nearer_idx(values, last, i, freq))
    } else {
        walk_down(values, i - 1, i, freq)
    }
}

/// Where the resolver lands for a measured frequency, walking from the seed
/// entry at position `seed`: below the seed's reference frequency the walk
/// goes backward, otherwise forward, starting at the seed itself.
pub open spec fn spec_guess(values: Seq<Pitch>, seed: int, freq: u64) -> Option<int> {
    if freq < values[seed].frequency {
        walk_down(values, seed, seed, freq)
    } else {
        walk_up(values, seed, seed, freq)
    }
}

/// The name of the seed entry: the previously resolved pitch, or A4 when
/// none was passed.
pub open spec fn spec_seed_name(last_guess: Option<Pitch>) -> Seq<char> {
    match last_guess {
        Some(p) => p.name@,
        None => "A4"@,
    }
}

impl Pitch {
    /// Resolves a measured frequency to the catalog entry whose reference
    /// frequency is nearest, by a directional walk from the seed entry (the
    /// previously resolved pitch, or A4): the returned pitch is that entry
    /// annotated with the measured frequency, or nothing when the walk
    /// reaches the catalog boundary without bracketing the frequency.
    pub fn guess(notes: &SeqData<Pitch>, frequency: u64, last_guess: Option<Pitch>) -> (r: Option<
        Pitch,
    >)
        requires
            notes.wf(),
            has_key(notes.spec_keys(), spec_seed_name(last_guess)),
        ensures
            ({
                let seed = last_key_idx(notes.spec_keys(), spec_seed_name(last_guess));
                match spec_guess(notes.spec_values(), seed, frequency) {
                    None => r is None,
                    Some(k) => r matches Some(p) && p == (Pitch {
                        frequency,
                        ..notes.spec_values()[k]
                    }),
                }
            }),
    {
        let seed_name: String = match &last_guess {
            Some(p) => p.name.clone(),
            None => "A4".to_owned(),
        };
        let ghost vals = notes.spec_values();
        let ghost seed = last_key_idx(notes.spec_keys(), spec_seed_name(last_guess));
        proof {
            assert(seed_name@ == spec_seed_name(last_guess));
            lemma_last_key_idx(notes.spec_keys(), spec_seed_name(last_guess));
        }
        let reference = match notes.get(seed_name.as_str()) {
            Some(p) => p,
            None => {
                proof {
                    assert(false);
                }
                return None;
            },
        };
        if frequency < reference.frequency {
            let mut it = match notes.iter_backward(seed_name.as_str()) {
                Some(it) => it,
                None => {
                    proof {
                        assert(false);
                    }
                    return None;
                },
            };
            let mut last_note: &Pitch = reference;
            let ghost mut cur: int = seed;
            let ghost mut last_i: int = seed;
            loop
                invariant
                    notes.wf(),
                    vals == notes.spec_values(),
                    seed == last_key_idx(notes.spec_keys(), spec_seed_name(last_guess)),
                    -1 <= cur <= seed < vals.len(),
                    0 <= last_i < vals.len(),
                    it.full_values() == vals,
                    it.remaining() == vals.subrange(0, cur + 1).reverse(),
                    *last_note == vals[last_i],
                    spec_guess(vals, seed, frequency) == walk_down(vals, cur, last_i, frequency),
                decreases cur + 1,
            {
                match it.next() {
                    None => {
                        proof {
                            assert(vals.subrange(0, cur + 1).reverse().len() == 0);
                        }
                        return None;
                    },
                    Some(note) => {
                        proof {
                            assert(vals.subrange(0, cur + 1).reverse()[0] == vals[cur]);
                        }
                        if frequency > note.frequency {
                            let dist_last = if last_note.frequency >= frequency {
                                last_note.frequency - frequency
                            } else {
                                frequency - last_note.frequency
                            };
                            let dist_note = if note.frequency >= frequency {
                                note.frequency - frequency
                            } else {
                                frequency - note.frequency
                            };
                            let mut note_res: Pitch = if dist_last < dist_note {
                                last_note.clone()
                            } else {
                                note.clone()
                            };
                            note_res.frequency = frequency;
                            return Some(note_res);
                        }
                        last_note = note;
                        proof {
                            last_i = cur;
                            cur = cur - 1;
                            assert(it.remaining() =~= vals.subrange(0, cur + 1).reverse());
                        }
                    },
                }
            }
        } else {
            let mut it = match notes.iter_forward(seed_name.as_str()) {
                Some(it) => it,
                None => {
                    proof {
                        assert(false);
                    }
                    return None;
                },
            };
            let mut last_note: &Pitch = reference;
            let ghost mut cur: int = seed;
            let ghost mut last_i: int = seed;
            loop
                invariant
                    notes.wf(),
                    vals == notes.spec_values(),
                    seed == last_key_idx(notes.spec_keys(), spec_seed_name(last_guess)),
                    0 <= seed <= cur <= vals.len(),
                    0 <= last_i < vals.len(),
                    it.full_values() == vals,
                    it.remaining() == vals.subrange(cur, vals.len() as int),
                    *last_note == vals[last_i],
                    spec_guess(vals, seed, frequency) == walk_up(vals, cur, last_i, frequency),
                decreases vals.len() - cur,
            {
                match it.next() {
                    None => {
                        proof {
                            assert(vals.subrange(cur, vals.len() as int).len() == 0);
                        }
                        return None;
                    },
                    Some(note) => {
                        proof {
                            assert(vals.subrange(cur, vals.len() as int)[0] == vals[cur]);
                        }
                        if frequency < note.frequency {
                            let dist_last = if last_note.frequency >= frequency {
                                last_note.frequency - frequency
                            } else {
                                frequency - last_note.frequency
                            };
                            let dist_note = if note.frequency >= frequency {
                                note.frequency - frequency
                            } else {
                                frequency - note.frequency
                            };
                            let mut note_res: Pitch = if dist_last < dist_note {
                                last_note.clone()
                            } else {
                                note.clone()
                            };
                            note_res.frequency = frequency;
                            return Some(note_res);
                        }
                        last_note = note;
                        proof {
                            last_i = cur;
                            cur = cur + 1;
                            assert(it.remaining() =~= vals.subrange(cur, vals.len() as int));
                        }
                    },
                }
            }
        }
    }
}


/// Climbing step for `lemma_guess_exact_any_seed`: while the walk has not
/// yet passed the matching entry, it keeps climbing, and one step above the
/// matching entry it brackets and lands on it.
proof fn lemma_walk_up_exact(values: Seq<Pitch>, m: int, last: int, i: int, f: u64)
    requires
        forall|a: int, b: int|
            0 <= a < b < values.len() ==> #[trigger] values[a].frequency
                < #[trigger] values[b].frequency,
        0 <= m <= i,
        i + 1 < values.len(),
        f == values[i].frequency,
    ensures
        walk_up(values, m, last, f) == Some(i),
    decreases i - m,
{
    assert(values[m].frequency <= f);
    if m == i {
        assert(f < values[i + 1].frequency);
        assert(freq_dist(values[i].frequency, f) == 0);
        assert(freq_dist(values[i + 1].frequency, f) > 0);
        assert(walk_up(values, i + 1, i, f) == Some(i));
    } else {
        lemma_walk_up_exact(values, m + 1, m, i, f);
    }
}

/// Descending step for `lemma_guess_exact_any_seed`, toward a matching
/// entry below the walk.
proof fn lemma_walk_down_exact(values: Seq<Pitch>, m: int, last: int, i: int, f: u64)
    requires
        forall|a: int, b: int|
            0 <= a < b < values.len() ==> #[trigger] values[a].frequency
                < #[trigger] values[b].frequency,
        i <= m < values.len(),
        1 <= i,
        f == values[i].frequency,
    ensures
        walk_down(values, m, last, f) == Some(i),
    decreases m - i,
{
    assert(values[m].frequency >= f);
    if m == i {
        assert(f > values[i - 1].frequency);
        assert(freq_dist(values[i].frequency, f) == 0);
        assert(freq_dist(values[i - 1].frequency, f) > 0);
        assert(walk_down(values, i - 1, i, f) == Some(i));
    } else {
        lemma_walk_down_exact(values, m - 1, m, i, f);
    }
}

/// Continuity of the resolver: a frequency that exactly equals a catalog
/// entry's reference frequency resolves to that entry from any seed, so the
/// walk's starting point never changes where an exact frequency lands. The
/// two boundary entries need the walk to reach a bracketing neighbour: from
/// a seed at or below the entry the entry must not be the topmost one, and
/// from a seed above it not the lowest one.
pub proof fn lemma_guess_exact_any_seed(c: SeqData<Pitch>, i: int, seed: int)
    requires
        is_catalog(c),
        0 <= i < tuning_count(),
        0 <= seed < tuning_count(),
        seed <= i ==> i + 1 < tuning_count(),
        seed > i ==> i >= 1,
    ensures
        spec_guess(c.spec_values(), seed, tuning_freq(i)) == Some(i),
{
    lemma_tuning_sorted();
    let vals = c.spec_values();
    let f = tuning_freq(i);
    assert forall|a: int, b: int|
        0 <= a < b < vals.len() implies #[trigger] vals[a].frequency
        < #[trigger] vals[b].frequency by {
        assert(catalog_entry_ok(vals[a], a));
        assert(catalog_entry_ok(vals[b], b));
    }
    assert(catalog_entry_ok(vals[i], i));
    assert(catalog_entry_ok(vals[seed], seed));
    if seed <= i {
        assert(!(f < vals[seed].frequency));
        lemma_walk_up_exact(vals, seed, seed, i, f);
    } else {
        assert(f < vals[seed].frequency);
        lemma_walk_down_exact(vals, seed, seed, i, f);
    }
}

/// A note event: a pitch sounding from `start` to `end`, in milliseconds
/// since the start of the analyzed buffer.
pub struct PhiNote {
    pub pitch: Pitch,
    pub start: u64,
    pub end: u64,
}

impl Clone for PhiNote {
    fn clone(&self) -> (r: PhiNote)
        ensures
            r == *self,
    {
        PhiNote { pitch: self.pitch.clone(), start: self.start, end: self.end }
    }
}

impl PhiNote {
    /// Shifts the note by an offset in milliseconds.
    pub fn time_offset(&mut self, value: u64)
        requires
            old(self).start + value <= u64::MAX,
            old(self).end + value <= u64::MAX,
        ensures
            final(self).pitch == old(self).pitch,
            final(self).start == old(self).start + value,
            final(self).end == old(self).end + value,
    {
        self.start = self.start + value;
        self.end = self.end + value;
    }
}

/// A landing position of the forward walk lies inside the catalog.
pub proof fn lemma_walk_up_in_range(values: Seq<Pitch>, i: int, last: int, freq: u64)
    requires
        0 <= last < values.len(),
    ensures
        walk_up(values, i, last, freq) matches Some(k) ==> 0 <= k < values.len(),
    decreases values.len() - i,
{
    if 0 <= i && i < values.len() && !(freq < values[i].frequency) {
        lemma_walk_up_in_range(values, i + 1, i, freq);
    }
}

/// A landing position of the backward walk lies inside the catalog.
pub proof fn lemma_walk_down_in_range(values: Seq<Pitch>, i: int, last: int, freq: u64)
    requires
        0 <= last < values.len(),
        i < values.len(),
    ensures
        walk_down(values, i, last, freq) matches Some(k) ==> 0 <= k < values.len(),
    decreases i + 1,
{
    if 0 <= i && !(freq > values[i].frequency) {
        lemma_walk_down_in_range(values, i - 1, i, freq);
    }
}

/// A landing position of the resolver lies inside the catalog.
pub proof fn lemma_guess_in_range(values: Seq<Pitch>, seed: int, freq: u64)
    requires
        0 <= seed < values.len(),
    ensures
        spec_guess(values, seed, freq) matches Some(k) ==> 0 <= k < values.len(),
{
    lemma_walk_up_in_range(values, seed, seed, freq);
    lemma_walk_down_in_range(values, seed, seed, freq);
}

/// The name "A4" is the catalog name of tuning entry 48, so the default
/// seed is present in any catalog.
pub proof fn lemma_a4_in_catalog(c: SeqData<Pitch>)
    requires
        is_catalog(c),
    ensures
        has_key(c.spec_keys(), "A4"@),
        last_key_idx(c.spec_keys(), "A4"@) == 48,
{
    reveal_strlit("A");
    reveal_strlit("A4");
    assert(spec_semitone_name(57) =~= "A4"@);
    lemma_catalog_get(c, 48);
}


impl Pitch {
    /// Looks a pitch up by name in a freshly built catalog: the catalog
    /// entry for that name, or nothing when no catalog entry carries it.
    pub fn from_str(name: &str) -> (r: Option<Pitch>)
        ensures
            r is Some <==> (exists|i: int|
                0 <= i < tuning_count() && #[trigger] spec_semitone_name(i + 9) == name@),
            r matches Some(p) ==> exists|i: int|
                0 <= i < tuning_count() && #[trigger] spec_semitone_name(i + 9) == name@
                    && p.name@ == name@ && p.frequency == tuning_freq(i) && p.cents == 0 && p.midi
                    == i + 21,
    {
        let notes = Pitch::all_notes();
        proof {
            lemma_last_key_idx(notes.spec_keys(), name@);
        }
        let r = match notes.get(name) {
            Some(p) => Some(p.clone()),
            None => None,
        };
        proof {
            if has_key(notes.spec_keys(), name@) {
                let li = last_key_idx(notes.spec_keys(), name@);
                assert(catalog_entry_ok(notes.spec_values()[li], li));
            }
            if exists|i: int|
                0 <= i < tuning_count() && #[trigger] spec_semitone_name(i + 9) == name@ {
                let i = choose|i: int|
                    0 <= i < tuning_count() && #[trigger] spec_semitone_name(i + 9) == name@;
                assert(notes.spec_keys()[i] == name@);
            }
        }
        r
    }
}

} // verus!
