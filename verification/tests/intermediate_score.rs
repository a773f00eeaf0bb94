use muzak::compile::output::{
    compute_marking_bpm, Event, Measure, MeasureItem, Note, Part, Score, Step,
};
use muzak::compile::xml::{
    XmlArticulation, XmlAttributes, XmlMeasure, XmlMeasureElement, XmlNotation, XmlNote, XmlNoteInfo, XmlPart,
    XmlPartElement, XmlPartListEntry, XmlScore, XmlSound,
};
use muzak::compile::xml::{NoteTypeValue, NoteTypeValueExt};
use muzak::types::{Dynamic, Metronome, Quaver};

fn note(step: Step, semitone: i16, octave: i16) -> Note {
    Note { step, semitone, octave }
}

#[test]
fn normalizing_moves_to_the_neighbouring_letter() {
    assert_eq!(note(Step::B, 1, 4).normalized(), note(Step::C, 0, 5));
    assert_eq!(note(Step::C, -1, 5).normalized(), note(Step::B, 0, 4));
    assert_eq!(note(Step::E, 1, 4).normalized(), note(Step::F, 0, 4));
    assert_eq!(note(Step::F, -1, 4).normalized(), note(Step::E, 0, 4));
    assert_eq!(note(Step::G, 1, 4).normalized(), note(Step::G, 1, 4));
    // normalizing twice changes nothing more
    let once = note(Step::D, 3, 2).normalized();
    assert_eq!(once.normalized(), once);
}

#[test]
fn measure_events_and_durations() {
    let mut m = Measure::new();
    assert!(m.is_empty());
    assert_eq!(m.try_last_event(), None);
    m.push_event(2);
    m.items.push(MeasureItem::Dynamic(Dynamic::Forte));
    let e = m.push_event(3);
    assert_eq!(e.duration, 3);
    assert!(m.is_empty());
    assert_eq!(m.duration(), 5);
    assert_eq!(m.try_duration(), Some(5));
    assert_eq!(m.last_event_index(), Some(2));
    assert_eq!(m.events().len(), 2);
    assert_eq!(m.events()[1].duration, 3);
    m.last_event().notes.push(note(Step::A, 0, 4));
    assert!(!m.is_empty());
    assert_eq!(m.items[2], MeasureItem::Event(Event { duration: 3, notes: vec![note(Step::A, 0, 4)], staccato: false }));
    m.carryover = u32::MAX;
    assert_eq!(m.try_duration(), None);
}

#[test]
fn events_rest_and_default() {
    assert!(Event::rest(4).is_rest());
    assert_eq!(Event::default(), Event::rest(1));
    assert!(!Event { duration: 1, notes: vec![note(Step::C, 0, 4)], staccato: false }.is_rest());
}

#[test]
fn score_builders() {
    let mut s = Score { parts: vec![], bpm: None };
    s.add_part();
    assert_eq!(s.parts.len(), 1);
    assert!(s.parts[0].is_empty());
    s.add_measure();
    s.add_measure();
    assert_eq!(s.last_part().measures.len(), 2);
    s.last_measure().push_event(4).notes.push(note(Step::D, 0, 4));
    assert!(!s.parts[0].measures[1].is_empty());
    assert_eq!(s.parts[0].measures[1].duration(), 4);
    assert_eq!(s.parts[0].measures[0].duration(), 0);
    let mut p = Part::new();
    p.add_measure();
    p.last_measure().carryover = 2;
    assert!(!p.is_empty());
}

#[test]
fn marking_tempo_in_single_precision() {
    let q = |note_value, beat| Metronome { note_value, beat };
    assert_eq!(compute_marking_bpm(4, q(Quaver::Quarter, 120)), 120);
    assert_eq!(compute_marking_bpm(1, q(Quaver::Half, 60)), 30);
    assert_eq!(compute_marking_bpm(3, q(Quaver::Eighth, 100)), 37);
    // 16777217 is not a single-precision number: it rounds to 16777216
    assert_eq!(compute_marking_bpm(16_777_217, q(Quaver::Whole, 1)), 16_777_216);
}

#[test]
fn note_values_from_denominators() {
    assert_eq!(NoteTypeValue::from_denominator(4), Some(NoteTypeValue::Quarter));
    assert_eq!(NoteTypeValue::from_denominator(128), Some(NoteTypeValue::OneHundredTwentyEighth));
    assert_eq!(NoteTypeValue::from_denominator(3), None);
    assert_eq!(NoteTypeValue::Quarter.double(), NoteTypeValue::Half);
    assert_eq!(NoteTypeValue::Quarter.half(), NoteTypeValue::Eighth);
    assert_eq!(NoteTypeValue::from_denominator(1), Some(NoteTypeValue::Whole));
    assert_eq!(NoteTypeValue::from_denominator(0), None);
    assert_eq!(NoteTypeValue::from_denominator(255), None);
    assert_eq!(NoteTypeValue::Long.double(), NoteTypeValue::Maxima);
    assert_eq!(NoteTypeValue::FiveHundredTwelfth.half(), NoteTypeValue::OneThousandTwentyFourth);
}

#[test]
fn odd_staccato_doubles_every_duration() {
    let staccato = |step, duration, marked: bool| {
        XmlMeasureElement::Note(XmlNote {
            info: Some(XmlNoteInfo {
                chord: false,
                duration,
                sound: XmlSound::Pitch { step, alter: None, octave: 4 },
                ties: vec![],
            }),
            staff: None,
            voice: Some("1".to_string()),
            notations: if marked {
                vec![vec![XmlNotation::Articulations(vec![XmlArticulation::Staccato])]]
            } else {
                vec![]
            },
        })
    };
    let d = XmlScore {
        part_list: vec![XmlPartListEntry::ScorePart("Bell".to_string())],
        parts: vec![XmlPart {
            elements: vec![XmlPartElement::Measure(XmlMeasure {
                number: "1".to_string(),
                elements: vec![
                    XmlMeasureElement::Attributes(XmlAttributes { divisions: Some(1), transposes: vec![] }),
                    staccato(Step::C, 1, true),
                    staccato(Step::E, 1, false),
                ],
            })],
        }],
    };
    // the staccato note sounds for half its (doubled) length, then rests
    assert_eq!(muzak::compile(&d, 0, 0, false), "🔔\nC/ E~");
}

#[test]
fn intermediate_defaults() {
    assert_eq!(Measure::default(), Measure::new());
    assert_eq!(Part::default(), Part::new());
    assert_eq!(Score::default(), Score { parts: vec![], bpm: None });
    assert_eq!(muzak::compile::output::Transpose::default().chromatic, 0);
}
