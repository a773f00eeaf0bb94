//! The parts of a MusicXML document that the conversion reads, as plain
//! values.

use vstd::prelude::*;

use crate::compile::output::Step;

verus! {

/// A written note value, from maxima down to 1024th.
#[derive(Debug, Clone, Copy, PartialEq, Eq, Structural)]
pub enum NoteTypeValue {
    Maxima,
    Long,
    Breve,
    Whole,
    Half,
    Quarter,
    Eighth,
    Sixteenth,
    ThirtySecond,
    SixtyFourth,
    OneHundredTwentyEighth,
    TwoHundredFiftySixth,
    FiveHundredTwelfth,
    OneThousandTwentyFourth,
}

/// The rank that a note value written as `1/value` of a whole note has (see
/// [`NoteTypeValueExt::rank`]): the powers of two from 1 to 128 name the
/// values from whole note down to 128th; nothing else names one.
pub open spec fn denominator_rank(value: u8) -> Option<int> {
    if value == 1 {
        Some(3)
    } else if value == 2 {
        Some(4)
    } else if value == 4 {
        Some(5)
    } else if value == 8 {
        Some(6)
    } else if value == 16 {
        Some(7)
    } else if value == 32 {
        Some(8)
    } else if value == 64 {
        Some(9)
    } else if value == 128 {
        Some(10)
    } else {
        None
    }
}

/// Moving between note values: twice as long, half as long, and the value
/// written as a fraction of a whole note.
pub trait NoteTypeValueExt: Sized {
    /// Position from the longest value (0) down to the shortest (13); each
    /// step halves.
    spec fn rank(&self) -> int;

    /// The note value twice as long; there is none above the longest.
    fn double(&self) -> (d: Self)
        requires
            self.rank() > 0,
        ensures
            d.rank() == self.rank() - 1,
    ;

    /// The note value half as long; there is none below the shortest.
    fn half(&self) -> (h: Self)
        requires
            self.rank() < 13,
        ensures
            h.rank() == self.rank() + 1,
    ;

    /// The note value written as `1/value` of a whole note, for the powers
    /// of two from 1 to 128.
    fn from_denominator(value: u8) -> (r: Option<Self>)
        ensures
            r is Some <==> denominator_rank(value) is Some,
            r matches Some(v) ==> Some(v.rank()) == denominator_rank(value),
    ;
}

impl NoteTypeValueExt for NoteTypeValue {
    open spec fn rank(&self) -> int {
        match *self {
            NoteTypeValue::Maxima => 0,
            NoteTypeValue::Long => 1,
            NoteTypeValue::Breve => 2,
            NoteTypeValue::Whole => 3,
            NoteTypeValue::Half => 4,
            NoteTypeValue::Quarter => 5,
            NoteTypeValue::Eighth => 6,
            NoteTypeValue::Sixteenth => 7,
            NoteTypeValue::ThirtySecond => 8,
            NoteTypeValue::SixtyFourth => 9,
            NoteTypeValue::OneHundredTwentyEighth => 10,
            NoteTypeValue::TwoHundredFiftySixth => 11,
            NoteTypeValue::FiveHundredTwelfth => 12,
            NoteTypeValue::OneThousandTwentyFourth => 13,
        }
    }

    fn double(&self) -> (d: NoteTypeValue) {
        match self {
            NoteTypeValue::Maxima => NoteTypeValue::Maxima,
            NoteTypeValue::Long => NoteTypeValue::Maxima,
            NoteTypeValue::Breve => NoteTypeValue::Long,
            NoteTypeValue::Whole => NoteTypeValue::Breve,
            NoteTypeValue::Half => NoteTypeValue::Whole,
            NoteTypeValue::Quarter => NoteTypeValue::Half,
            NoteTypeValue::Eighth => NoteTypeValue::Quarter,
            NoteTypeValue::Sixteenth => NoteTypeValue::Eighth,
            NoteTypeValue::ThirtySecond => NoteTypeValue::Sixteenth,
            NoteTypeValue::SixtyFourth => NoteTypeValue::ThirtySecond,
            NoteTypeValue::OneHundredTwentyEighth => NoteTypeValue::SixtyFourth,
            NoteTypeValue::TwoHundredFiftySixth => NoteTypeValue::OneHundredTwentyEighth,
            NoteTypeValue::FiveHundredTwelfth => NoteTypeValue::TwoHundredFiftySixth,
            NoteTypeValue::OneThousandTwentyFourth => NoteTypeValue::FiveHundredTwelfth,
        }
    }

    fn half(&self) -> (h: NoteTypeValue) {
        match self {
            NoteTypeValue::Maxima => NoteTypeValue::Long,
            NoteTypeValue::Long => NoteTypeValue::Breve,
            NoteTypeValue::Breve => NoteTypeValue::Whole,
            NoteTypeValue::Whole => NoteTypeValue::Half,
            NoteTypeValue::Half => NoteTypeValue::Quarter,
            NoteTypeValue::Quarter => NoteTypeValue::Eighth,
            NoteTypeValue::Eighth => NoteTypeValue::Sixteenth,
            NoteTypeValue::Sixteenth => NoteTypeValue::ThirtySecond,
            NoteTypeValue::ThirtySecond => NoteTypeValue::SixtyFourth,
            NoteTypeValue::SixtyFourth => NoteTypeValue::OneHundredTwentyEighth,
            NoteTypeValue::OneHundredTwentyEighth => NoteTypeValue::TwoHundredFiftySixth,
            NoteTypeValue::TwoHundredFiftySixth => NoteTypeValue::FiveHundredTwelfth,
            NoteTypeValue::FiveHundredTwelfth => NoteTypeValue::OneThousandTwentyFourth,
            NoteTypeValue::OneThousandTwentyFourth => NoteTypeValue::OneThousandTwentyFourth,
        }
    }

    fn from_denominator(value: u8) -> (r: Option<NoteTypeValue>) {
        if value == 1 {
            Some(NoteTypeValue::Whole)
        } else if value == 2 {
            Some(NoteTypeValue::Half)
        } else if value == 4 {
            Some(NoteTypeValue::Quarter)
        } else if value == 8 {
            Some(NoteTypeValue::Eighth)
        } else if value == 16 {
            Some(NoteTypeValue::Sixteenth)
        } else if value == 32 {
            Some(NoteTypeValue::ThirtySecond)
        } else if value == 64 {
            Some(NoteTypeValue::SixtyFourth)
        } else if value == 128 {
            Some(NoteTypeValue::OneHundredTwentyEighth)
        } else {
            None
        }
    }
}

/// A note value is known by its rank: two values of one rank are the same
/// value, so the contracts above name the result exactly.
pub proof fn lemma_rank_identifies(a: NoteTypeValue, b: NoteTypeValue)
    ensures
        a.rank() == b.rank() ==> a == b,
{
}

/// A document: its list of part descriptions and its parts.
#[derive(Debug, Clone)]
pub struct XmlScore {
    pub part_list: Vec<XmlPartListEntry>,
    pub parts: Vec<XmlPart>,
}

/// An entry of the part list: a part's description with its name, or
/// something else.
#[derive(Debug, Clone)]
pub enum XmlPartListEntry {
    ScorePart(String),
    Other,
}

/// A part: its elements in order.
#[derive(Debug, Clone)]
pub struct XmlPart {
    pub elements: Vec<XmlPartElement>,
}

/// An element of a part: a measure, or something else.
#[derive(Debug, Clone)]
pub enum XmlPartElement {
    Measure(XmlMeasure),
    Other,
}

/// A measure: its number and its elements in order.
#[derive(Debug, Clone)]
pub struct XmlMeasure {
    pub number: String,
    pub elements: Vec<XmlMeasureElement>,
}

/// An element of a measure.
#[derive(Debug, Clone)]
pub enum XmlMeasureElement {
    Direction(XmlDirection),
    Note(XmlNote),
    Attributes(XmlAttributes),
    Barline(XmlBarline),
    /// Move back by a duration.
    Backup(u32),
    /// Move forward by a duration.
    Forward(u32),
    Other,
}

/// A direction: the staff it applies to (staff 1 when not written) and its
/// kinds.
#[derive(Debug, Clone)]
pub struct XmlDirection {
    pub staff: Option<u32>,
    pub types: Vec<XmlDirectionType>,
}

/// A kind of direction.
#[derive(Debug, Clone)]
pub enum XmlDirectionType {
    Metronome(XmlMetronome),
    /// Groups of loudness markings.
    Dynamics(Vec<Vec<XmlDynamic>>),
    Other,
}

/// A metronome marking: a beat unit and a number of beats per minute as
/// written, or another form.
#[derive(Debug, Clone)]
pub enum XmlMetronome {
    PerMinute { beat_unit: NoteTypeValue, per_minute: String },
    Other,
}

/// A loudness marking.
#[derive(Debug, Clone, Copy, PartialEq, Eq, Structural)]
pub enum XmlDynamic {
    Pp,
    P,
    Mp,
    Mf,
    F,
    Ff,
    Other,
}

/// Measure attributes: divisions per quarter note, and transpositions.
#[derive(Debug, Clone)]
pub struct XmlAttributes {
    pub divisions: Option<u32>,
    pub transposes: Vec<XmlTranspose>,
}

/// A transposition: semitones and an optional octave change.
#[derive(Debug, Clone, Copy, PartialEq, Eq, Structural)]
pub struct XmlTranspose {
    pub chromatic: i16,
    pub octave_change: Option<i8>,
}

/// Where a barline stands in its measure.
#[derive(Debug, Clone, Copy, PartialEq, Eq, Structural)]
pub enum BarLocation {
    Left,
    Right,
    Middle,
}

/// Which way a repeat sign points.
#[derive(Debug, Clone, Copy, PartialEq, Eq, Structural)]
pub enum RepeatDirection {
    Backward,
    Forward,
}

/// A barline: its location, the number of the ending it starts, and its
/// repeat sign.
#[derive(Debug, Clone)]
pub struct XmlBarline {
    pub location: Option<BarLocation>,
    pub ending: Option<String>,
    pub repeat: Option<RepeatDirection>,
}

/// A note element: its content when it is an ordinary (not grace or cue)
/// note, its staff, its voice as written, and its notations.
#[derive(Debug, Clone)]
pub struct XmlNote {
    pub info: Option<XmlNoteInfo>,
    pub staff: Option<u32>,
    pub voice: Option<String>,
    pub notations: Vec<Vec<XmlNotation>>,
}

/// The content of an ordinary note.
#[derive(Debug, Clone)]
pub struct XmlNoteInfo {
    /// Whether the note sounds together with the previous one.
    pub chord: bool,
    pub duration: u32,
    pub sound: XmlSound,
    /// The XML text of each of the note's `<tie>` elements.
    pub ties: Vec<String>,
}

/// What a note sounds.
#[derive(Debug, Clone, Copy, PartialEq, Eq, Structural)]
pub enum XmlSound {
    Pitch { step: Step, alter: Option<i16>, octave: u8 },
    Unpitched { step: Step, octave: u8 },
    Rest,
}

/// A notation of a note.
#[derive(Debug, Clone)]
pub enum XmlNotation {
    Articulations(Vec<XmlArticulation>),
    Other,
}

/// An articulation.
#[derive(Debug, Clone, Copy, PartialEq, Eq, Structural)]
pub enum XmlArticulation {
    Staccato,
    Other,
}

} // verus!
