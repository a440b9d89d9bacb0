use melodia::notes::Pitch;

#[test]
fn notes_test_generated_notes() {
    let notes = Pitch::all_notes();
    assert_eq!(27.5, notes.get("A0").unwrap().frequency() as f64 / 1000.0);
    assert_eq!(55.0, notes.get("A1").unwrap().frequency() as f64 / 1000.0);
    assert_eq!(110.0, notes.get("A2").unwrap().frequency() as f64 / 1000.0);
    assert_eq!(220.0, notes.get("A3").unwrap().frequency() as f64 / 1000.0);
    assert_eq!(440.0, notes.get("A4").unwrap().frequency() as f64 / 1000.0);
    assert_eq!(880.0, notes.get("A5").unwrap().frequency() as f64 / 1000.0);
    assert_eq!(1760.0, notes.get("A6").unwrap().frequency() as f64 / 1000.0);
    assert_eq!(3520.0, notes.get("A7").unwrap().frequency() as f64 / 1000.0);
}

#[test]
fn test_guess() {
    let dataset = [
        ("C2", "A5", 874.0),
        ("B5", "A5", 874.0),
        ("A2", "A5", 880.0),
        ("A4", "A4", 440.0),
    ];
    let notes = Pitch::all_notes();

    for data in dataset {
        let frequency_mhz = (data.2 * 1000.0) as u64;
        let guessed = Pitch::guess(&notes, frequency_mhz, notes.get(data.0).cloned());
        assert_eq!(data.1, guessed.unwrap().name());
    }
}

#[test]
fn test_catalog_table_values() {
    // a few entries away from the A column, against the published table
    let notes = Pitch::all_notes();
    assert_eq!(261626, notes.get("C4").unwrap().frequency());
    assert_eq!(32703, notes.get("C1").unwrap().frequency());
    assert_eq!(15804264, notes.get("B9").unwrap().frequency());
    assert_eq!(987767, notes.get("B5").unwrap().frequency());
    assert!(notes.get("H3").is_none());
}

#[test]
fn test_catalog_midi_numbers() {
    let notes = Pitch::all_notes();
    assert_eq!(21, notes.get("A0").unwrap().midi());
    assert_eq!(69, notes.get("A4").unwrap().midi());
    assert_eq!(60, notes.get("C4").unwrap().midi());
}

#[test]
fn test_iterate_forward_monotone() {
    // the walk starts at the named entry and strictly ascends by frequency
    let notes = Pitch::all_notes();
    let mut it = notes.iter_forward("C4").unwrap();
    let first = it.next().unwrap();
    assert_eq!("C4", first.name());
    let mut prev = first.frequency();
    let mut count = 1;
    while let Some(p) = it.next() {
        assert!(p.frequency() > prev);
        prev = p.frequency();
        count += 1;
    }
    assert_eq!(count, 72); // C4 sits at catalog position 39 of 111
    assert!(notes.iter_forward("C42").is_none());
}

#[test]
fn test_iterate_backward_monotone() {
    // the walk starts at the named entry and strictly descends by frequency
    let notes = Pitch::all_notes();
    let mut it = notes.iter_backward("C4").unwrap();
    let first = it.next().unwrap();
    assert_eq!("C4", first.name());
    let mut prev = first.frequency();
    let mut count = 1;
    while let Some(p) = it.next() {
        assert!(p.frequency() < prev);
        prev = p.frequency();
        count += 1;
    }
    assert_eq!(count, 40); // A0 up to C4 inclusive
    assert!(notes.iter_backward("C42").is_none());
}

#[test]
fn test_guess_unresolvable_at_boundaries() {
    let notes = Pitch::all_notes();
    // above the whole catalog: the forward walk runs off the top
    let too_high = Pitch::guess(&notes, 20_000_000, notes.get("B9").cloned());
    assert!(too_high.is_none());
    // below the whole catalog: the backward walk runs off the bottom
    let too_low = Pitch::guess(&notes, 10_000, notes.get("A0").cloned());
    assert!(too_low.is_none());
}

#[test]
fn test_guess_annotates_measured_frequency() {
    let notes = Pitch::all_notes();
    let guessed = Pitch::guess(&notes, 874_000, notes.get("C2").cloned()).unwrap();
    assert_eq!("A5", guessed.name());
    assert_eq!(874_000, guessed.frequency());
    assert_eq!(0, guessed.cents());
}

#[test]
fn test_from_str() {
    let a4 = Pitch::from_str("A4").unwrap();
    assert_eq!("A4", a4.name());
    assert_eq!(440_000, a4.frequency());
    assert_eq!(69, a4.midi());
    assert!(Pitch::from_str("S").is_none());
    assert!(Pitch::from_str("X9").is_none());
}

#[test]
fn test_silence_sentinel() {
    let s = Pitch::silence();
    assert_eq!("S", s.name());
    assert_eq!(0, s.frequency());
    assert_eq!(0, s.midi());
}

#[test]
fn test_time_offset() {
    let mut note = melodia::notes::PhiNote {
        pitch: Pitch::from_str("A4").unwrap(),
        start: 1000,
        end: 2000,
    };
    note.time_offset(500);
    assert_eq!(1500, note.start);
    assert_eq!(2500, note.end);
    assert_eq!("A4", note.pitch.name());
}
