use muzak::compile::output::Step;
use muzak::compile::xml::{
    XmlAttributes, XmlMeasure, XmlMeasureElement, XmlNote, XmlNoteInfo, XmlPart, XmlPartElement,
    XmlPartListEntry, XmlScore, XmlSound, XmlTranspose,
};
use muzak::compile::{compile, compile_xml, try_compile};

const START: &str = "<tie type=\"start\"/>";
const STOP: &str = "<tie type=\"stop\"/>";

fn pitch(step: Step, octave: u8, duration: u32, chord: bool) -> XmlMeasureElement {
    XmlMeasureElement::Note(XmlNote {
        info: Some(XmlNoteInfo {
            chord,
            duration,
            sound: XmlSound::Pitch { step, alter: None, octave },
            ties: vec![],
        }),
        staff: None,
        voice: Some("1".to_string()),
        notations: vec![],
    })
}

fn rest(duration: u32) -> XmlMeasureElement {
    XmlMeasureElement::Note(XmlNote {
        info: Some(XmlNoteInfo { chord: false, duration, sound: XmlSound::Rest, ties: vec![] }),
        staff: None,
        voice: Some("1".to_string()),
        notations: vec![],
    })
}

fn divisions(d: Option<u32>, transposes: Vec<XmlTranspose>) -> XmlMeasureElement {
    XmlMeasureElement::Attributes(XmlAttributes { divisions: d, transposes })
}

fn measure(number: &str, elements: Vec<XmlMeasureElement>) -> XmlPartElement {
    XmlPartElement::Measure(XmlMeasure { number: number.to_string(), elements })
}

fn doc(parts: Vec<(&str, Vec<XmlPartElement>)>) -> XmlScore {
    XmlScore {
        part_list: parts.iter().map(|(name, _)| XmlPartListEntry::ScorePart(name.to_string())).collect(),
        parts: parts.into_iter().map(|(_, elements)| XmlPart { elements }).collect(),
    }
}

#[test]
fn chords_notes_and_merged_rests() {
    let d = doc(vec![(
        "Piano Keys",
        vec![
            measure(
                "1",
                vec![
                    divisions(Some(1), vec![]),
                    pitch(Step::C, 4, 1, false),
                    pitch(Step::E, 4, 1, true),
                    pitch(Step::C, 5, 2, false),
                ],
            ),
            measure("2", vec![rest(4)]),
            measure("3", vec![rest(4)]),
        ],
    )]);
    assert_eq!(compile(&d, 0, 0, false), "🎹\n[CE] c~\n🛏8");
}

#[test]
fn part_names_pick_instruments_case_insensitively() {
    let one = |name: &'static str, step: Step| {
        (name, vec![measure("1", vec![divisions(Some(1), vec![]), pitch(step, 4, 1, false)])])
    };
    let d = doc(vec![one("BELL", Step::C), one("Sine Wave", Step::E), one("Voice", Step::G)]);
    assert_eq!(try_compile(&d, 0, 0, false), Some("🔔\nC\n|\n∿\nE\n|\nG".to_string()));
}

#[test]
fn padding_and_rotation() {
    let one = |name: &'static str, step: Step| {
        (name, vec![measure("1", vec![divisions(Some(1), vec![]), pitch(step, 4, 1, false)])])
    };
    let d = doc(vec![one("Bell", Step::C), one("Sine", Step::E)]);
    assert_eq!(compile(&d, 1, 1, false), "∿\nE\n|\n🛏1\n|\n🔔\nC");
    assert_eq!(compile(&d, 2, 0, false), "🛏1\n|\n🛏1\n|\n🔔\nC\n|\n∿\nE");
    assert_eq!(compile(&d, 0, 5, false), "∿\nE\n|\n🔔\nC");
}

#[test]
fn rests_are_not_merged_across_tracks() {
    let d = doc(vec![
        ("Voice", vec![measure("1", vec![divisions(Some(1), vec![]), pitch(Step::C, 4, 1, false)]), measure("2", vec![rest(4)])]),
        ("Voice", vec![measure("1", vec![divisions(Some(1), vec![]), rest(4)]), measure("2", vec![pitch(Step::E, 4, 1, false)])]),
    ]);
    assert_eq!(compile(&d, 0, 0, false), "C\n🛏4\n|\n🛏4\nE");
    assert_eq!(compile(&d, 0, 1, false), "🛏4\nE\n|\nC\n🛏4");
    assert_eq!(compile(&d, 1, 0, false), "🛏1\n|\nC\n🛏4\n|\n🛏4\nE");
    assert_eq!(compile(&d, 1, 1, false), "🛏4\nE\n|\n🛏1\n|\nC\n🛏4");
}

#[test]
fn transposition_and_legacy_spelling() {
    let d = doc(vec![(
        "Clarinet in Bb",
        vec![measure(
            "1",
            vec![
                divisions(Some(1), vec![XmlTranspose { chromatic: -2, octave_change: None }]),
                pitch(Step::C, 4, 1, false),
                pitch(Step::D, 5, 1, false),
            ],
        )],
    )]);
    assert_eq!(compile(&d, 0, 0, false), "B♭3 B");
    assert_eq!(compile(&d, 0, 0, true), "A#3 B");
}

#[test]
fn missing_divisions_cannot_be_converted() {
    let d = doc(vec![("Bell", vec![measure("1", vec![pitch(Step::C, 4, 1, false)])])]);
    assert_eq!(try_compile(&d, 0, 0, false), None);
}

#[test]
fn no_parts_cannot_be_rotated() {
    let d = doc(vec![]);
    assert_eq!(try_compile(&d, 0, 1, false), None);
    assert_eq!(try_compile(&d, 0, 0, false), Some(String::new()));
}

fn tied(step: Step, duration: u32, chord: bool, tie: &str) -> XmlMeasureElement {
    XmlMeasureElement::Note(XmlNote {
        info: Some(XmlNoteInfo {
            chord,
            duration,
            sound: XmlSound::Pitch { step, alter: None, octave: 4 },
            ties: vec![tie.to_string()],
        }),
        staff: None,
        voice: Some("1".to_string()),
        notations: vec![],
    })
}

#[test]
fn tie_into_next_measure_lengthens_a_chord() {
    let d = doc(vec![(
        "Choir",
        vec![
            measure(
                "1",
                vec![
                    divisions(Some(1), vec![]),
                    tied(Step::C, 2, false, START),
                    tied(Step::E, 2, true, START),
                ],
            ),
            measure(
                "2",
                vec![
                    tied(Step::C, 1, false, STOP),
                    tied(Step::E, 1, true, STOP),
                    pitch(Step::D, 4, 1, false),
                ],
            ),
        ],
    )]);
    // the tied beat moves into the chord of the first measure
    assert_eq!(compile(&d, 0, 0, false), "[CE~~]\nD");
}

#[test]
fn tie_into_next_measure_of_a_single_note_stays_carried() {
    let d = doc(vec![(
        "Choir",
        vec![
            measure("1", vec![divisions(Some(1), vec![]), tied(Step::C, 2, false, START)]),
            measure("2", vec![tied(Step::C, 1, false, STOP), pitch(Step::D, 4, 1, false)]),
        ],
    )]);
    assert_eq!(compile(&d, 0, 0, false), "C~\n~ D");
}

fn voiced(step: Step, duration: u32, voice: &str) -> XmlMeasureElement {
    XmlMeasureElement::Note(XmlNote {
        info: Some(XmlNoteInfo {
            chord: false,
            duration,
            sound: XmlSound::Pitch { step, alter: None, octave: 4 },
            ties: vec![],
        }),
        staff: None,
        voice: Some(voice.to_string()),
        notations: vec![],
    })
}

#[test]
fn each_voice_becomes_a_part() {
    let d = doc(vec![(
        "Bell",
        vec![measure(
            "1",
            vec![
                divisions(Some(1), vec![]),
                voiced(Step::G, 1, "3"),
                XmlMeasureElement::Backup(1),
                voiced(Step::C, 1, "1"),
                XmlMeasureElement::Backup(1),
                voiced(Step::E, 1, "2"),
            ],
        )],
    )]);
    // voice 1 first, then the others in ascending order
    assert_eq!(compile(&d, 0, 0, false), "🔔\nC\n|\n🔔\nE\n|\n🔔\nG");
}

const TIED_SCORE: &str = "<?xml version=\"1.0\" encoding=\"UTF-8\"?>
<score-partwise version=\"4.0\">
  <part-list>
    <score-part id=\"P1\"><part-name>Bell</part-name></score-part>
  </part-list>
  <part id=\"P1\">
    <measure number=\"1\">
      <attributes><divisions>1</divisions></attributes>
      <note><pitch><step>C</step><octave>4</octave></pitch><duration>2</duration><tie type=\"start\"/><voice>1</voice></note>
    </measure>
    <measure number=\"2\">
      <note><pitch><step>C</step><octave>4</octave></pitch><duration>1</duration><tie type=\"stop\"/><voice>1</voice></note>
      <note><pitch><step>D</step><octave>5</octave></pitch><duration>1</duration><voice>1</voice></note>
    </measure>
  </part>
</score-partwise>
";

#[test]
fn musicxml_text_converts() {
    assert_eq!(compile_xml(TIED_SCORE, 0, 0, false), Some("🔔\nC~\n~ d".to_string()));
    assert_eq!(compile_xml(TIED_SCORE, 1, 0, false), Some("🛏1\n|\n🔔\nC~\n~ d".to_string()));
}

#[test]
fn text_that_is_not_musicxml_gives_nothing() {
    assert_eq!(compile_xml("not a score", 0, 0, false), None);
    assert_eq!(compile_xml("", 0, 0, false), None);
}

#[test]
fn text_with_the_zip_archive_marker_is_not_read() {
    let archive_like = "PK\u{3}\u{4}\u{14}\u{0}\u{8}\u{0}\u{8}\u{0}\u{7f}\u{7f}\u{7f}\u{7f}";
    assert_eq!(compile_xml(archive_like, 0, 0, false), None);
    assert_eq!(compile_xml("PK\u{3}\u{4}", 2, 1, true), None);
    assert_eq!(compile_xml("PK", 0, 0, false), None);
}

#[test]
fn converted_notes_read_back_at_the_same_pitch() {
    let d = doc(vec![(
        "Clarinet in Bb",
        vec![measure(
            "1",
            vec![
                divisions(Some(1), vec![XmlTranspose { chromatic: -2, octave_change: None }]),
                pitch(Step::C, 4, 1, false),
            ],
        )],
    )]);
    for legacy in [false, true] {
        let text = compile(&d, 0, 0, legacy);
        let chars: Vec<char> = text.chars().collect();
        let (note, end) = muzak::parse::note(&chars, 0).unwrap();
        assert_eq!(end, chars.len());
        assert_eq!(note.duration, 1);
        // B flat below middle C: eleven half steps under A4
        assert_eq!(note.to_half_step(), -11);
    }
}

#[test]
fn rotating_by_the_number_of_parts_changes_nothing() {
    let one = |name: &'static str, step: Step| {
        (name, vec![measure("1", vec![divisions(Some(1), vec![]), pitch(step, 4, 1, false)])])
    };
    let d = doc(vec![one("Bell", Step::C), one("Sine", Step::E), one("Keys", Step::G)]);
    assert_eq!(compile(&d, 0, 3, false), compile(&d, 0, 0, false));
    assert_eq!(compile(&d, 0, 4, false), compile(&d, 0, 1, false));
    assert_eq!(compile(&d, 0, 1, false), "🎹\nG\n|\n🔔\nC\n|\n∿\nE");
}
