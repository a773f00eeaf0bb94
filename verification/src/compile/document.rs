//! Reading MusicXML text into the plain document tree, with the `musicxml`
//! crate. The crate parses the text into its own element tree; each small
//! trusted function below reads one level of that tree, and the verified
//! functions walk it and assemble the plain tree.

use vstd::prelude::*;

use crate::compile::output::Step;
use crate::numtext::chars_of;
use crate::compile::xml::{
    BarLocation, NoteTypeValue, RepeatDirection, XmlArticulation, XmlAttributes, XmlBarline, XmlDirection,
    XmlDirectionType, XmlDynamic, XmlMeasure, XmlMeasureElement, XmlMetronome, XmlNotation, XmlNote, XmlNoteInfo,
    XmlPart, XmlPartElement, XmlPartListEntry, XmlScore, XmlSound,
};
use musicxml::datatypes::{
    BackwardForward as Bf, NoteTypeValue as MxNoteTypeValue, RightLeftMiddle as Rlm, Step as MxStep,
};
use musicxml::elements::{
    ArticulationsType, Attributes as MxAttributes, AudibleType, Barline as MxBarline, BeatEquation,
    Direction as MxDirection, DirectionTypeContents, DynamicsType, Measure as MxMeasure, MeasureElement,
    Metronome as MxMetronome, MetronomeContents, NotationContentTypes, Note as MxNote, NoteType,
    Part as MxPart, PartElement, PartListElement, ScorePartwise,
};

verus! {

#[verifier::external_type_specification]
#[verifier::external_body]
pub struct ExScorePartwise(ScorePartwise);

#[verifier::external_type_specification]
#[verifier::external_body]
pub struct ExPart(MxPart);

#[verifier::external_type_specification]
#[verifier::external_body]
pub struct ExMeasure(MxMeasure);

#[verifier::external_type_specification]
#[verifier::external_body]
pub struct ExMeasureElement(MeasureElement);

#[verifier::external_type_specification]
#[verifier::external_body]
pub struct ExDirection(MxDirection);

#[verifier::external_type_specification]
#[verifier::external_body]
pub struct ExMetronome(MxMetronome);

#[verifier::external_type_specification]
#[verifier::external_body]
pub struct ExDynamicsType(DynamicsType);

#[verifier::external_type_specification]
#[verifier::external_body]
pub struct ExAttributes(MxAttributes);

#[verifier::external_type_specification]
#[verifier::external_body]
pub struct ExBarline(MxBarline);

#[verifier::external_type_specification]
#[verifier::external_body]
pub struct ExNote(MxNote);

#[verifier::external_type_specification]
#[verifier::external_body]
pub struct ExNoteTypeValue(MxNoteTypeValue);

#[verifier::external_type_specification]
#[verifier::external_body]
pub struct ExStep(MxStep);

/// The document tree that a MusicXML text gives, when it is a valid
/// part-wise score; `None` otherwise.
pub uninterp spec fn musicxml_document(xml: Seq<char>) -> Option<XmlScore>;

/// Whether a text begins with `PK\u{3}\u{4}`, the four bytes that mark a zip
/// archive: `musicxml` reads such data as a compressed `.mxl` file.
pub open spec fn starts_as_zip_archive(xml: Seq<char>) -> bool {
    &&& xml.len() >= 4
    &&& xml[0] == 'P'
    &&& xml[1] == 'K'
    &&& xml[2] == '\u{3}'
    &&& xml[3] == '\u{4}'
}

/// Tells whether `xml` begins with the zip archive marker.
pub fn is_zip_archive_text(xml: &str) -> (b: bool)
    ensures
        b == starts_as_zip_archive(xml@),
{
    let cs = chars_of(xml);
    cs.len() >= 4 && cs[0] == 'P' && cs[1] == 'K' && cs[2] == '\u{3}' && cs[3] == '\u{4}'
}

/// Parse MusicXML text with `musicxml::read_score_data_partwise`, then walk
/// the parsed score into the plain document tree (with [`document_of`]).
/// Claimed: the result depends on the text alone; what it is on a given
/// text is not stated. Texts that begin with the zip archive marker are
/// left out: `musicxml` hands them to its zip reader, which slices its
/// buffer by offsets read from the data without checking them, and panics
/// on some of them.
#[verifier::external_body]
pub fn read_musicxml(xml: &str) -> (r: Option<XmlScore>)
    requires
        !starts_as_zip_archive(xml@),
    ensures
        r == musicxml_document(xml@),
{
    musicxml::read_score_data_partwise(xml.as_bytes().to_vec()).ok().map(|s| document_of(&s))
}

/// The part descriptions of a parsed score, with their names.
#[verifier::external_body]
fn part_list(s: &ScorePartwise) -> Vec<XmlPartListEntry> {
    s.content.part_list.content.content.iter().map(|e| match e {
        PartListElement::ScorePart(p) => XmlPartListEntry::ScorePart(p.content.part_name.content.clone()),
        _ => XmlPartListEntry::Other,
    }).collect()
}

/// The parts of a parsed score.
#[verifier::external_body]
fn score_parts(s: &ScorePartwise) -> Vec<&MxPart> {
    s.content.part.iter().collect()
}

/// The elements of a parsed part: its measures, and `None` for the rest.
#[verifier::external_body]
fn part_measures(p: &MxPart) -> Vec<Option<&MxMeasure>> {
    p.content.iter().map(|e| match e {
        PartElement::Measure(m) => Some(m),
        _ => None,
    }).collect()
}

/// The number of a parsed measure, as written.
#[verifier::external_body]
fn measure_number(m: &MxMeasure) -> String {
    m.attributes.number.0.clone()
}

/// The elements of a parsed measure.
#[verifier::external_body]
fn measure_elements(m: &MxMeasure) -> Vec<&MeasureElement> {
    m.content.iter().collect()
}

/// A measure element, sorted by kind.
enum ElementRef<'a> {
    Direction(&'a MxDirection),
    Note(&'a MxNote),
    Attributes(&'a MxAttributes),
    Barline(&'a MxBarline),
    Backup(u32),
    Forward(u32),
    Other,
}

/// The kind of a parsed measure element, with its content.
#[verifier::external_body]
fn element_ref(e: &MeasureElement) -> ElementRef<'_> {
    match e {
        MeasureElement::Direction(d) => ElementRef::Direction(d),
        MeasureElement::Note(n) => ElementRef::Note(n),
        MeasureElement::Attributes(a) => ElementRef::Attributes(a),
        MeasureElement::Barline(b) => ElementRef::Barline(b),
        MeasureElement::Backup(b) => ElementRef::Backup(b.content.duration.content.0),
        MeasureElement::Forward(f) => ElementRef::Forward(f.content.duration.content.0),
        _ => ElementRef::Other,
    }
}

/// A kind of a direction, with its content.
enum DirectionTypeRef<'a> {
    Metronome(&'a MxMetronome),
    Dynamics(Vec<Vec<&'a DynamicsType>>),
    Other,
}

/// The staff a parsed direction applies to, as written.
#[verifier::external_body]
fn direction_staff(d: &MxDirection) -> Option<u32> {
    d.content.staff.as_ref().map(|s| s.content.0)
}

/// The kinds of a parsed direction, in order.
#[verifier::external_body]
fn direction_types(d: &MxDirection) -> Vec<DirectionTypeRef<'_>> {
    d.content.direction_type.iter().map(|t| match &t.content {
        DirectionTypeContents::Metronome(m) => DirectionTypeRef::Metronome(m),
        DirectionTypeContents::Dynamics(gs) => DirectionTypeRef::Dynamics(gs.iter().map(|g| g.content.iter().collect()).collect()),
        _ => DirectionTypeRef::Other,
    }).collect()
}

/// The beat unit and the per-minute text of a parsed metronome marking
/// that gives beats per minute.
#[verifier::external_body]
fn metronome_per_minute(m: &MxMetronome) -> Option<(&MxNoteTypeValue, String)> {
    match &m.content {
        MetronomeContents::BeatBased(b) => match &b.equals {
            BeatEquation::BPM(pm) => Some((&b.beat_unit.content, pm.content.clone())),
            _ => None,
        },
        _ => None,
    }
}

/// A parsed loudness marking.
#[verifier::external_body]
fn dynamic_mark(d: &DynamicsType) -> XmlDynamic {
    match d {
        DynamicsType::Pp(_) => XmlDynamic::Pp,
        DynamicsType::P(_) => XmlDynamic::P,
        DynamicsType::Mp(_) => XmlDynamic::Mp,
        DynamicsType::Mf(_) => XmlDynamic::Mf,
        DynamicsType::F(_) => XmlDynamic::F,
        DynamicsType::Ff(_) => XmlDynamic::Ff,
        _ => XmlDynamic::Other,
    }
}

/// A parsed note value.
#[verifier::external_body]
fn note_type_value(v: &MxNoteTypeValue) -> NoteTypeValue {
    match v {
        MxNoteTypeValue::Maxima => NoteTypeValue::Maxima, MxNoteTypeValue::Long => NoteTypeValue::Long,
        MxNoteTypeValue::Breve => NoteTypeValue::Breve, MxNoteTypeValue::Whole => NoteTypeValue::Whole,
        MxNoteTypeValue::Half => NoteTypeValue::Half, MxNoteTypeValue::Quarter => NoteTypeValue::Quarter,
        MxNoteTypeValue::Eighth => NoteTypeValue::Eighth, MxNoteTypeValue::Sixteenth => NoteTypeValue::Sixteenth,
        MxNoteTypeValue::ThirtySecond => NoteTypeValue::ThirtySecond,
        MxNoteTypeValue::SixtyFourth => NoteTypeValue::SixtyFourth,
        MxNoteTypeValue::OneHundredTwentyEighth => NoteTypeValue::OneHundredTwentyEighth,
        MxNoteTypeValue::TwoHundredFiftySixth => NoteTypeValue::TwoHundredFiftySixth,
        MxNoteTypeValue::FiveHundredTwelfth => NoteTypeValue::FiveHundredTwelfth,
        MxNoteTypeValue::OneThousandTwentyFourth => NoteTypeValue::OneThousandTwentyFourth,
    }
}

/// Parsed measure attributes: divisions, and transpositions as
/// (semitones, octave change).
#[verifier::external_body]
fn attributes_of(a: &MxAttributes) -> (Option<u32>, Vec<(i16, Option<i8>)>) {
    (
        a.content.divisions.as_ref().map(|d| d.content.0),
        a.content.transpose.iter().map(|t| (t.content.chromatic.content.0, t.content.octave_change.as_ref().map(|o| o.content))).collect(),
    )
}

/// A parsed barline: its location, its ending number and its repeat.
#[verifier::external_body]
fn barline_of(b: &MxBarline) -> XmlBarline {
    XmlBarline {
        location: b.attributes.location.as_ref().map(|l| match l { Rlm::Left => BarLocation::Left, Rlm::Right => BarLocation::Right, Rlm::Middle => BarLocation::Middle }),
        ending: b.content.ending.as_ref().map(|e| e.attributes.number.0.clone()),
        repeat: b.content.repeat.as_ref().map(|r| match r.attributes.direction { Bf::Backward => RepeatDirection::Backward, Bf::Forward => RepeatDirection::Forward }),
    }
}

/// A parsed letter name.
#[verifier::external_body]
fn step_of(s: &MxStep) -> Step {
    match s {
        MxStep::A => Step::A,
        MxStep::B => Step::B,
        MxStep::C => Step::C,
        MxStep::D => Step::D,
        MxStep::E => Step::E,
        MxStep::F => Step::F,
        MxStep::G => Step::G,
    }
}

/// What a parsed note sounds.
enum SoundRef<'a> {
    Pitch(&'a MxStep, Option<i16>, u8),
    Unpitched(&'a MxStep, u8),
    Rest,
}

/// The content of a parsed ordinary note: whether it joins a chord, its
/// duration, what it sounds and the XML text of each of its ties.
#[verifier::external_body]
fn note_content(n: &MxNote) -> Option<(bool, u32, SoundRef<'_>, Vec<String>)> {
    let NoteType::Normal(i) = &n.content.info else { return None };
    let sound = match &i.audible {
        AudibleType::Pitch(p) => SoundRef::Pitch(&p.content.step.content, p.content.alter.as_ref().map(|x| x.content.0), p.content.octave.content.0),
        AudibleType::Unpitched(u) => SoundRef::Unpitched(&u.content.display_step.content, u.content.display_octave.content.0),
        AudibleType::Rest(_) => SoundRef::Rest,
    };
    Some((i.chord.is_some(), i.duration.content.0, sound, i.tie.iter().map(|t| musicxml::parser::parse_to_xml_str(t, false)).collect()))
}

/// The staff and voice of a parsed note, as written.
#[verifier::external_body]
fn note_staff_voice(n: &MxNote) -> (Option<u32>, Option<String>) {
    (n.content.staff.as_ref().map(|s| s.content.0), n.content.voice.as_ref().map(|v| v.content.clone()))
}

/// The notations of a parsed note, group by group: for articulations,
/// whether each is a staccato; `None` for other notations.
#[verifier::external_body]
fn note_notations(n: &MxNote) -> Vec<Vec<Option<Vec<bool>>>> {
    n.content.notations.iter().map(|g| g.content.notations.iter().map(|x| match x {
        NotationContentTypes::Articulations(a) => Some(a.content.iter().map(|t| matches!(t, ArticulationsType::Staccato(_))).collect()),
        _ => None,
    }).collect()).collect()
}

fn direction_of(d: &MxDirection) -> XmlDirection {
    let kinds = direction_types(d);
    let mut types: Vec<XmlDirectionType> = Vec::new();
    for k in kinds.iter() {
        let t = match k {
            DirectionTypeRef::Metronome(m) => XmlDirectionType::Metronome(match metronome_per_minute(m) {
                Some((unit, per_minute)) => XmlMetronome::PerMinute { beat_unit: note_type_value(unit), per_minute },
                None => XmlMetronome::Other,
            }),
            DirectionTypeRef::Dynamics(groups) => {
                let mut gs: Vec<Vec<XmlDynamic>> = Vec::new();
                for g in groups.iter() {
                    let mut marks: Vec<XmlDynamic> = Vec::new();
                    for d in g.iter() {
                        marks.push(dynamic_mark(d));
                    }
                    gs.push(marks);
                }
                XmlDirectionType::Dynamics(gs)
            },
            DirectionTypeRef::Other => XmlDirectionType::Other,
        };
        types.push(t);
    }
    XmlDirection { staff: direction_staff(d), types }
}

fn note_of(n: &MxNote) -> XmlNote {
    let info = match note_content(n) {
        None => None,
        Some((chord, duration, sound, ties)) => Some(XmlNoteInfo {
            chord,
            duration,
            sound: match sound {
                SoundRef::Pitch(step, alter, octave) => XmlSound::Pitch { step: step_of(step), alter, octave },
                SoundRef::Unpitched(step, octave) => XmlSound::Unpitched { step: step_of(step), octave },
                SoundRef::Rest => XmlSound::Rest,
            },
            ties,
        }),
    };
    let (staff, voice) = note_staff_voice(n);
    let groups = note_notations(n);
    let mut notations: Vec<Vec<XmlNotation>> = Vec::new();
    for g in groups.iter() {
        let mut xs: Vec<XmlNotation> = Vec::new();
        for x in g.iter() {
            xs.push(match x {
                Some(flags) => {
                    let mut arts: Vec<XmlArticulation> = Vec::new();
                    for f in flags.iter() {
                        arts.push(if *f { XmlArticulation::Staccato } else { XmlArticulation::Other });
                    }
                    XmlNotation::Articulations(arts)
                },
                None => XmlNotation::Other,
            });
        }
        notations.push(xs);
    }
    XmlNote { info, staff, voice, notations }
}

fn measure_of(m: &MxMeasure) -> XmlMeasure {
    let parsed = measure_elements(m);
    let mut elements: Vec<XmlMeasureElement> = Vec::new();
    for e in parsed.iter() {
        elements.push(match element_ref(e) {
            ElementRef::Direction(d) => XmlMeasureElement::Direction(direction_of(d)),
            ElementRef::Note(n) => XmlMeasureElement::Note(note_of(n)),
            ElementRef::Attributes(a) => {
                let (divisions, ts) = attributes_of(a);
                let mut transposes = Vec::new();
                for t in ts.iter() {
                    transposes.push(crate::compile::xml::XmlTranspose { chromatic: t.0, octave_change: t.1 });
                }
                XmlMeasureElement::Attributes(XmlAttributes { divisions, transposes })
            },
            ElementRef::Barline(b) => XmlMeasureElement::Barline(barline_of(b)),
            ElementRef::Backup(d) => XmlMeasureElement::Backup(d),
            ElementRef::Forward(d) => XmlMeasureElement::Forward(d),
            ElementRef::Other => XmlMeasureElement::Other,
        });
    }
    XmlMeasure { number: measure_number(m), elements }
}

/// The plain document tree of a parsed score: its part list and its parts,
/// element for element.
fn document_of(s: &ScorePartwise) -> XmlScore {
    let parsed = score_parts(s);
    let mut parts: Vec<XmlPart> = Vec::new();
    for p in parsed.iter() {
        let ms = part_measures(p);
        let mut elements: Vec<XmlPartElement> = Vec::new();
        for m in ms.iter() {
            elements.push(match m {
                Some(m) => XmlPartElement::Measure(measure_of(m)),
                None => XmlPartElement::Other,
            });
        }
        parts.push(XmlPart { elements });
    }
    XmlScore { part_list: part_list(s), parts }
}

} // verus!
