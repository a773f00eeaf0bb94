use muzak::duration::Duration;
use muzak::types::{
    Accidental, BaseNote, Diatonic, Event, Instrument, Note, Part, PartItem, Quaver, Score, Tempo,
};

fn minute() -> Duration {
    Duration::from_secs(60)
}

fn note(letter: Diatonic, high: bool, duration: u32) -> Note {
    Note { base: BaseNote { note: letter, high }, accidental: None, octave: None, duration }
}

#[test]
fn tempo_sanity_check() {
    // default inherited from muzak.el
    let t = Tempo::new(Quaver::Whole, 75);
    assert_eq!(t.duration_of(Quaver::Quarter), minute().div(300));

    // A score starting with "60"
    let t = Tempo::new(Quaver::Whole, 60);
    assert_eq!(t.duration_of(Quaver::Whole), minute().div(60));
    assert_eq!(t.duration_of(Quaver::Quarter), minute().div(240));

    // 𝅘𝅥=90 (anywhere in the score)
    let t = Tempo::new(Quaver::Quarter, 90);
    assert_eq!(t.duration_of(Quaver::Half), minute().div(45));
    assert_eq!(t.duration_of(Quaver::Quarter), minute().div(90));
}

#[test]
fn duration_of_exact_nanoseconds() {
    let t = Tempo::new(Quaver::Whole, 75);
    assert_eq!(t.duration_of(Quaver::Quarter).as_nanos(), 200_000_000);
    let t = Tempo::new(Quaver::Quarter, 120);
    assert_eq!(t.duration_of(Quaver::Eighth).as_nanos(), 250_000_000);
    assert_eq!(t.duration_of(Quaver::Double).as_nanos(), 4_000_000_000);
    let t = Tempo::new(Quaver::Half, 7);
    // 60 s / 7 half notes, a sixteenth is an eighth of that, rounded down
    assert_eq!(t.duration_of(Quaver::Sixteenth).as_nanos(), 1_071_428_571);
}

#[test]
fn duration_arithmetic() {
    let d = Duration::new(1, 500_000_000);
    assert_eq!(d.as_secs(), 1);
    assert_eq!(d.subsec_nanos(), 500_000_000);
    assert_eq!(d.add(Duration::from_millis(250)).as_nanos(), 1_750_000_000);
    assert_eq!(d.mul(3).as_nanos(), 4_500_000_000);
    assert_eq!(d.div(4).as_nanos(), 375_000_000);
    assert_eq!(d.max(Duration::from_secs(2)), Duration::from_secs(2));
    assert!(Duration::zero().le(&d));
    assert_eq!(Duration::from_nanos(7).as_nanos(), 7);
}

#[test]
fn chromatic_indices() {
    assert_eq!(Diatonic::C.chromatic_index(), 0);
    assert_eq!(Diatonic::D.chromatic_index(), 2);
    assert_eq!(Diatonic::E.chromatic_index(), 4);
    assert_eq!(Diatonic::F.chromatic_index(), 5);
    assert_eq!(Diatonic::G.chromatic_index(), 7);
    assert_eq!(Diatonic::A.chromatic_index(), 9);
    assert_eq!(Diatonic::B.chromatic_index(), 11);
}

#[test]
fn half_steps_from_a4() {
    assert_eq!(note(Diatonic::A, false, 1).to_half_step(), 0);
    assert_eq!(note(Diatonic::C, false, 1).to_half_step(), -9);
    assert_eq!(note(Diatonic::A, true, 1).to_half_step(), 12);
    let mut n = note(Diatonic::B, false, 1);
    n.accidental = Some(Accidental::Flat);
    n.octave = Some(3);
    assert_eq!(n.octave(), 3);
    assert_eq!(n.to_half_step(), -11);
    n.accidental = Some(Accidental::Sharp);
    assert_eq!(n.to_half_step(), -9);
    assert_eq!(Accidental::Natural.semitones(), 0);
}

#[test]
fn event_beats_and_notes() {
    assert_eq!(Event::Rest(3).beat_count(), 3);
    assert!(Event::Rest(3).notes().is_empty());
    let n = note(Diatonic::C, false, 2);
    assert_eq!(Event::Note(n).beat_count(), 2);
    assert_eq!(Event::Note(n).notes(), &[n]);
    let chord = Event::Chord(vec![note(Diatonic::C, false, 1), note(Diatonic::E, false, 4), note(Diatonic::G, false, 2)]);
    assert_eq!(chord.beat_count(), 4);
    assert_eq!(chord.notes().len(), 3);
    assert_eq!(Event::Chord(vec![]).beat_count(), 1);
}

fn one_part(instrument: Option<Instrument>, items: Vec<PartItem>) -> Score {
    Score { bpm: Some(60), parts: vec![Part { instrument, items }] }
}

fn two_notes() -> Vec<PartItem> {
    vec![PartItem::Event(Event::Note(note(Diatonic::A, false, 2))), PartItem::Event(Event::Note(note(Diatonic::B, false, 1)))]
}

#[test]
fn score_duration_counts_beats() {
    // 60 whole notes a minute: a quarter note lasts 250 ms
    let s = one_part(None, two_notes());
    assert_eq!(s.initial_tempo(), Tempo::new(Quaver::Whole, 60));
    assert_eq!(s.duration().as_nanos(), 750_000_000);
    let s = one_part(Some(Instrument::Keyboard), two_notes());
    assert_eq!(s.duration().as_nanos(), 750_000_000);
}

#[test]
fn score_duration_rings_on() {
    // a bell's last note rings four seconds past its beats
    let s = one_part(Some(Instrument::Bell), two_notes());
    assert_eq!(s.duration().as_nanos(), 4_750_000_000);
    // a drum's last hit lasts 150 ms
    let s = one_part(Some(Instrument::Drum), two_notes());
    assert_eq!(s.duration().as_nanos(), 650_000_000);
    assert!(Instrument::Bell.has_sustain());
    assert!(!Instrument::Beep.has_sustain());
}

#[test]
fn score_duration_longest_part_and_tempo_change() {
    let mut s = one_part(None, two_notes());
    s.parts.push(Part {
        instrument: None,
        items: vec![
            PartItem::Tempo(Tempo::new(Quaver::Quarter, 30)),
            PartItem::Event(Event::Rest(1)),
        ],
    });
    // the second part's quarter note lasts two seconds
    assert_eq!(s.duration().as_nanos(), 2_000_000_000);
    assert_eq!(Score { bpm: None, parts: vec![] }.duration(), Duration::zero());
    assert_eq!(Score { bpm: None, parts: vec![] }.initial_tempo(), Tempo::new(Quaver::Whole, 75));
}

#[test]
fn default_values() {
    assert_eq!(Diatonic::default(), Diatonic::C);
    assert_eq!(Accidental::default(), Accidental::Natural);
    assert_eq!(BaseNote::default(), BaseNote { note: Diatonic::C, high: false });
    assert_eq!(Note::default().duration, 0);
    assert_eq!(Note::default().to_half_step(), -9);
    assert_eq!(muzak::types::Dynamic::default(), muzak::types::Dynamic::MezzoForte);
    assert_eq!(Score::default(), Score { bpm: None, parts: vec![] });
    assert_eq!(Part::default(), Part { instrument: None, items: vec![] });
}

#[test]
fn checked_duration_arithmetic() {
    let big = Duration::new(u64::MAX, 999_999_999);
    assert_eq!(big.checked_add(Duration::from_nanos(1)), None);
    assert_eq!(big.checked_add(Duration::zero()), Some(big));
    assert_eq!(big.checked_mul(2), None);
    assert_eq!(Duration::from_secs(3).checked_mul(2), Some(Duration::from_secs(6)));
}

#[test]
fn durations_that_cannot_be_computed() {
    let s = Score { bpm: Some(0), parts: vec![] };
    assert_eq!(s.try_duration(), None);
    let s = Score {
        bpm: Some(60),
        parts: vec![Part { instrument: None, items: vec![PartItem::Tempo(Tempo::new(Quaver::Quarter, 0))] }],
    };
    assert_eq!(s.try_duration(), None);
    let ok = one_part(None, two_notes());
    assert_eq!(ok.try_duration(), Some(Duration::from_millis(750)));
    assert_eq!(ok.parts[0].try_duration(Duration::from_millis(250)), Some(Duration::from_millis(750)));
}
