use muzak::duration::Duration;
use muzak::mix::{track_instruments, Cue};
use muzak::types::{BaseNote, Diatonic, Dynamic, Event, Instrument, Note, Part, PartItem, Quaver, Score, Tempo};

fn note(letter: Diatonic, duration: u32) -> Note {
    Note { base: BaseNote { note: letter, high: false }, accidental: None, octave: None, duration }
}

fn part(instrument: Option<Instrument>) -> Part {
    Part { instrument, items: vec![PartItem::Event(Event::Rest(1))] }
}

#[test]
fn instruments_default_by_position() {
    let s = Score { bpm: None, parts: vec![part(None), part(Some(Instrument::Bell)), part(None)] };
    assert_eq!(track_instruments(&s, None), vec![Instrument::Beep, Instrument::Bell, Instrument::Keyboard]);
    assert_eq!(track_instruments(&s, Some(2)), vec![Instrument::Beep, Instrument::Bell]);
    assert_eq!(track_instruments(&s, Some(9)).len(), 3);
    let s = Score { bpm: None, parts: vec![part(Some(Instrument::Drum)), part(None)] };
    assert_eq!(track_instruments(&s, None), vec![Instrument::Drum, Instrument::Keyboard]);
}

#[test]
fn cues_follow_one_another() {
    let p = Part {
        instrument: None,
        items: vec![
            PartItem::Event(Event::Note(note(Diatonic::A, 2))),
            PartItem::Dynamic(Dynamic::Piano),
            PartItem::Event(Event::Rest(1)),
            PartItem::Event(Event::Note(note(Diatonic::B, 1))),
        ],
    };
    let cues = p.cues(Duration::from_millis(250));
    assert_eq!(
        cues,
        vec![
            Cue { item: 0, start: Duration::zero(), length: Duration::from_millis(500), loudness: None },
            Cue { item: 2, start: Duration::from_millis(500), length: Duration::from_millis(250), loudness: Some(Dynamic::Piano) },
            Cue { item: 3, start: Duration::from_millis(750), length: Duration::from_millis(250), loudness: Some(Dynamic::Piano) },
        ]
    );
}

#[test]
fn cues_follow_tempo_changes() {
    let p = Part {
        instrument: None,
        items: vec![
            PartItem::Event(Event::Rest(1)),
            PartItem::Tempo(Tempo::new(Quaver::Quarter, 30)),
            PartItem::Event(Event::Rest(2)),
        ],
    };
    let cues = p.cues(Duration::from_millis(100));
    assert_eq!(cues.len(), 2);
    assert_eq!(cues[1].item, 2);
    assert_eq!(cues[1].start, Duration::from_millis(100));
    assert_eq!(cues[1].length, Duration::from_secs(4));
}

#[test]
fn plan_for_a_score() {
    let s = Score {
        bpm: Some(60),
        parts: vec![
            Part { instrument: None, items: vec![PartItem::Event(Event::Note(note(Diatonic::A, 2)))] },
            Part { instrument: Some(Instrument::Bell), items: vec![PartItem::Event(Event::Note(note(Diatonic::B, 1)))] },
            part(None),
        ],
    };
    let plan = muzak::mix::mix_plan(&s, Some(2)).unwrap();
    assert_eq!(plan.tracks.len(), 2);
    assert_eq!(plan.tracks[0].part, 0);
    assert_eq!(plan.tracks[0].instrument, Instrument::Beep);
    assert_eq!(plan.tracks[0].cues, vec![Cue { item: 0, start: Duration::zero(), length: Duration::from_millis(500), loudness: None }]);
    assert_eq!(plan.tracks[1].instrument, Instrument::Bell);
    // the bell rings four seconds past its quarter note
    assert_eq!(plan.duration, Duration::from_millis(4250));
    assert!(muzak::mix::mix_plan(&Score { bpm: Some(0), parts: vec![] }, None).is_none());
    let bad = Score { bpm: None, parts: vec![Part { instrument: None, items: vec![PartItem::Tempo(Tempo::new(Quaver::Half, 0))] }] };
    assert!(muzak::mix::mix_plan(&bad, None).is_none());
}
