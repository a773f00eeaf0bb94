use muzak::parse::{base_note, event, integer, note, octave, parse, part_item, ParseError};
use muzak::types::{
    Accidental, BaseNote, Diatonic, Dynamic, Event, Instrument, Note, Part, PartItem, Score,
};

fn chars(s: &str) -> Vec<char> {
    s.chars().collect()
}

fn n(letter: Diatonic, high: bool, accidental: Option<Accidental>, octave: Option<i8>, duration: u32) -> Note {
    Note { base: BaseNote { note: letter, high }, accidental, octave, duration }
}

fn plain(letter: Diatonic, high: bool) -> Note {
    n(letter, high, None, None, 1)
}

#[test]
fn parse_single_note() {
    let s = parse("A").unwrap();
    assert_eq!(
        s,
        Score {
            bpm: None,
            parts: vec![Part { instrument: None, items: vec![PartItem::Event(Event::Note(plain(Diatonic::A, false)))] }],
        }
    );
}

#[test]
fn parse_full_score() {
    let s = parse("120 ∿ C4~~ / 🛏3 [CEG] 𝓯 | 🎹 a").unwrap();
    let first = Part {
        instrument: Some(Instrument::Beep),
        items: vec![
            PartItem::Event(Event::Note(n(Diatonic::C, false, None, Some(4), 3))),
            PartItem::Event(Event::Rest(1)),
            PartItem::Event(Event::Rest(3)),
            PartItem::Event(Event::Chord(vec![
                plain(Diatonic::C, false),
                plain(Diatonic::E, false),
                plain(Diatonic::G, false),
            ])),
            PartItem::Dynamic(Dynamic::Forte),
        ],
    };
    let second = Part {
        instrument: Some(Instrument::Keyboard),
        items: vec![PartItem::Event(Event::Note(plain(Diatonic::A, true)))],
    };
    assert_eq!(s, Score { bpm: Some(120), parts: vec![first, second] });
}

#[test]
fn parse_empty_text_gives_one_empty_part() {
    assert_eq!(parse("").unwrap(), Score { bpm: None, parts: vec![Part { instrument: None, items: vec![] }] });
    assert_eq!(
        parse("just a word").unwrap().parts[0].items,
        vec![
            PartItem::Event(Event::Note(plain(Diatonic::A, true))),
            PartItem::Event(Event::Note(plain(Diatonic::D, true))),
        ]
    );
}

#[test]
fn parse_dynamics() {
    let s = parse("𝓹𝓹 𝓶𝓹 𝓶𝓯 𝓯𝓯 𝓹 𝓯").unwrap();
    let expected: Vec<PartItem> = [
        Dynamic::Pianissimo,
        Dynamic::MezzoPiano,
        Dynamic::MezzoForte,
        Dynamic::Fortissimo,
        Dynamic::Piano,
        Dynamic::Forte,
    ]
    .iter()
    .map(|d| PartItem::Dynamic(*d))
    .collect();
    assert_eq!(s.parts[0].items, expected);
}

#[test]
fn parse_accidentals_and_octaves() {
    let s = parse("C# D♭ E♮ F♯ a-1 g12").unwrap();
    assert_eq!(
        s.parts[0].items,
        vec![
            PartItem::Event(Event::Note(n(Diatonic::C, false, Some(Accidental::Sharp), None, 1))),
            PartItem::Event(Event::Note(n(Diatonic::D, false, Some(Accidental::Flat), None, 1))),
            PartItem::Event(Event::Note(n(Diatonic::E, false, Some(Accidental::Natural), None, 1))),
            PartItem::Event(Event::Note(n(Diatonic::F, false, Some(Accidental::Sharp), None, 1))),
            PartItem::Event(Event::Note(n(Diatonic::A, true, None, Some(-1), 1))),
            PartItem::Event(Event::Note(n(Diatonic::G, true, None, Some(12), 1))),
        ]
    );
}

#[test]
fn parse_tildes_across_lines() {
    let s = parse("B\n~ ~").unwrap();
    assert_eq!(s.parts[0].items, vec![PartItem::Event(Event::Note(n(Diatonic::B, false, None, None, 3)))]);
}

#[test]
fn parse_long_rest_with_variation_selector() {
    let s = parse("🛏\u{fe0f}12").unwrap();
    assert_eq!(s.parts[0].items, vec![PartItem::Event(Event::Rest(12))]);
}

#[test]
fn parse_instruments() {
    let s = parse("🔔 A | 🌊 B | 🥁 C | D").unwrap();
    let got: Vec<Option<Instrument>> = s.parts.iter().map(|p| p.instrument).collect();
    assert_eq!(got, vec![Some(Instrument::Bell), Some(Instrument::Waterphone), Some(Instrument::Drum), None]);
}

#[test]
fn parse_error_offsets_are_bytes() {
    // a chord that is never closed stops the reading at its bracket
    assert_eq!(parse("A [B"), Err(ParseError { offset: 2 }));
    // a number where none may stand
    assert_eq!(parse("A 1"), Err(ParseError { offset: 2 }));
    // the beep sign takes three bytes
    assert_eq!(parse("∿ [").unwrap_err().offset, 4);
    // a tempo too large for 32 bits is no tempo
    assert_eq!(parse("99999999999 A"), Err(ParseError { offset: 0 }));
}

#[test]
fn integer_reads_digits() {
    let s = chars("x4096y");
    assert_eq!(integer(&s, 1), Some((4096, 5)));
    assert_eq!(integer(&s, 0), None);
    assert_eq!(integer(&chars("4294967296"), 0), None);
    assert_eq!(integer(&chars("4294967295"), 0), Some((4294967295, 10)));
}

#[test]
fn octave_reads_signed_numbers() {
    assert_eq!(octave(&chars("-128"), 0), Some((-128, 4)));
    assert_eq!(octave(&chars("128"), 0), None);
    assert_eq!(octave(&chars("-"), 0), None);
    assert_eq!(octave(&chars("1-2"), 0), None);
    assert_eq!(octave(&chars("07~"), 0), Some((7, 2)));
}

#[test]
fn base_note_reads_letters() {
    assert_eq!(base_note(&chars("c"), 0), Some((BaseNote { note: Diatonic::C, high: true }, 1)));
    assert_eq!(base_note(&chars("G"), 0), Some((BaseNote { note: Diatonic::G, high: false }, 1)));
    assert_eq!(base_note(&chars("H"), 0), None);
    assert_eq!(base_note(&chars(""), 0), None);
}

#[test]
fn note_and_event_readers() {
    let s = chars("E♭3~ x ~ /");
    assert_eq!(note(&s, 0), Some((n(Diatonic::E, false, Some(Accidental::Flat), Some(3), 3), 8)));
    assert_eq!(event(&chars("[]"), 0), Some((Event::Chord(vec![]), 2)));
    assert_eq!(event(&chars("🛏"), 0), None);
    assert_eq!(part_item(&chars("𝓯𝓯 x"), 0), Some((PartItem::Dynamic(Dynamic::Fortissimo), 4)));
}

#[test]
fn written_note_reads_back() {
    let notes = [
        n(Diatonic::C, false, Some(Accidental::Sharp), Some(-1), 3),
        n(Diatonic::F, true, Some(Accidental::Natural), None, 1),
        n(Diatonic::B, false, None, Some(7), 2),
        n(Diatonic::A, true, Some(Accidental::Flat), Some(-128), 1),
    ];
    for x in notes {
        let text = x.to_text();
        let cs = chars(&text);
        assert_eq!(note(&cs, 0), Some((x, cs.len())));
        let s = parse(&text).unwrap();
        assert_eq!(s.parts[0].items, vec![PartItem::Event(Event::Note(x))]);
    }
}

#[test]
fn written_texts() {
    assert_eq!(n(Diatonic::C, false, Some(Accidental::Sharp), Some(-1), 3).to_text(), "C♯-1~~");
    assert_eq!(n(Diatonic::D, true, None, None, 0).to_text(), "d");
    assert_eq!(Event::Rest(3).to_text(), "///");
    assert_eq!(
        Event::Chord(vec![plain(Diatonic::C, false), n(Diatonic::E, true, Some(Accidental::Flat), None, 2)]).to_text(),
        "[Ce♭~]"
    );
    assert_eq!(Diatonic::G.to_text(), "G");
    assert_eq!(BaseNote { note: Diatonic::G, high: true }.to_text(), "g");
    assert_eq!(Accidental::Flat.to_text(), "♭");
}

#[test]
fn written_chord_parses() {
    let chord = Event::Chord(vec![n(Diatonic::C, false, None, Some(3), 2), plain(Diatonic::G, true)]);
    let s = parse(&chord.to_text()).unwrap();
    assert_eq!(s, Score { bpm: None, parts: vec![Part { instrument: None, items: vec![PartItem::Event(chord)] }] });
}
