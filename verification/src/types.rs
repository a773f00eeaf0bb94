//! The score model read from the text format, and the timing rules that
//! turn its beats into wall-clock durations.

use vstd::prelude::*;

use crate::duration::{max_nanos, Duration};

verus! {

/// Nanoseconds in one minute.
pub open spec fn minute_nanos() -> nat {
    60_000_000_000
}

/// A note value, from a double whole note down to a sixteenth.
#[derive(Debug, Clone, Copy, PartialEq, Eq, Structural)]
pub enum Quaver {
    Double,
    Whole,
    Half,
    Quarter,
    Eighth,
    Sixteenth,
}

impl Quaver {
    /// The length of the note value, counted in sixteenth notes.
    pub open spec fn sixteenths(self) -> nat {
        match self {
            Quaver::Double => 32,
            Quaver::Whole => 16,
            Quaver::Half => 8,
            Quaver::Quarter => 4,
            Quaver::Eighth => 2,
            Quaver::Sixteenth => 1,
        }
    }

    /// The length of the note value, counted in sixteenth notes.
    pub fn sixteenth_count(&self) -> (n: u64)
        ensures
            n == self.sixteenths(),
    {
        match self {
            Quaver::Double => 32,
            Quaver::Whole => 16,
            Quaver::Half => 8,
            Quaver::Quarter => 4,
            Quaver::Eighth => 2,
            Quaver::Sixteenth => 1,
        }
    }
}

/// A loudness marking, from pianissimo up to fortissimo.
#[derive(Debug, Clone, Copy, PartialEq, Eq, Structural)]
pub enum Dynamic {
    Pianissimo,
    Piano,
    MezzoPiano,
    MezzoForte,
    Forte,
    Fortissimo,
}

/// A tempo marking: `beat` notes of value `note_value` per minute.
#[derive(Debug, Clone, Copy, PartialEq, Eq, Structural)]
pub struct Metronome {
    pub note_value: Quaver,
    pub beat: u32,
}

/// Tempo markings in a score are metronome markings.
pub type Tempo = Metronome;

impl Tempo {
    /// The length in nanoseconds of one note of value `note` at this tempo:
    /// a minute, scaled by the ratio of the two note values (an exact power
    /// of two), divided by the number of beats and rounded down.
    pub open spec fn spec_duration_of(self, note: Quaver) -> nat {
        (minute_nanos() * note.sixteenths() / self.note_value.sixteenths()) / (self.beat as nat)
    }

    /// A tempo of `beat` notes of value `note_value` per minute.
    pub fn new(note_value: Quaver, beat: u32) -> (t: Metronome)
        ensures
            t.note_value == note_value,
            t.beat == beat,
    {
        Metronome { note_value, beat }
    }

    /// How long one note of value `note` lasts at this tempo.
    pub fn duration_of(&self, note: Quaver) -> (d: Duration)
        requires
            self.beat > 0,
        ensures
            d@ == self.spec_duration_of(note),
    {
        let num = note.sixteenth_count();
        let den = self.note_value.sixteenth_count();
        let span = Duration::from_nanos(60_000_000_000 * num / den);
        span.div(self.beat)
    }
}

/// The sound a part is played with.
#[derive(Debug, Clone, Copy, PartialEq, Eq, Structural)]
pub enum Instrument {
    Beep,
    Keyboard,
    Bell,
    Waterphone,
    Drum,
}

impl Instrument {
    /// Whether the instrument's notes ring on past the end of their beats.
    pub open spec fn spec_has_sustain(self) -> bool {
        self is Bell || self is Drum
    }

    /// Whether the instrument's notes ring on past the end of their beats.
    pub fn has_sustain(&self) -> (b: bool)
        ensures
            b == self.spec_has_sustain(),
    {
        match self {
            Instrument::Bell | Instrument::Drum => true,
            _ => false,
        }
    }
}

/// A letter name of the diatonic scale.
#[derive(Debug, Clone, Copy, PartialEq, Eq, Structural, PartialOrd, Ord)]
pub enum Diatonic {
    A,
    B,
    C,
    D,
    E,
    F,
    G,
}

impl Diatonic {
    /// Semitones above C within one octave.
    pub open spec fn spec_chromatic_index(self) -> int {
        match self {
            Diatonic::C => 0,
            Diatonic::D => 2,
            Diatonic::E => 4,
            Diatonic::F => 5,
            Diatonic::G => 7,
            Diatonic::A => 9,
            Diatonic::B => 11,
        }
    }

    /// Semitones above C within one octave.
    pub fn chromatic_index(&self) -> (i: i8)
        ensures
            i == self.spec_chromatic_index(),
    {
        match self {
            Diatonic::C => 0,
            Diatonic::D => 2,
            Diatonic::E => 4,
            Diatonic::F => 5,
            Diatonic::G => 7,
            Diatonic::A => 9,
            Diatonic::B => 11,
        }
    }
}

/// A sign that raises or lowers a note by a semitone.
#[derive(Debug, Clone, Copy, PartialEq, Eq, Structural)]
pub enum Accidental {
    Flat,
    Natural,
    Sharp,
}

impl Accidental {
    /// The semitone shift of the sign.
    pub open spec fn spec_semitones(self) -> int {
        match self {
            Accidental::Flat => -1,
            Accidental::Natural => 0,
            Accidental::Sharp => 1,
        }
    }

    /// The semitone shift of the sign.
    pub fn semitones(&self) -> (s: i8)
        ensures
            s == self.spec_semitones(),
    {
        match self {
            Accidental::Flat => -1,
            Accidental::Natural => 0,
            Accidental::Sharp => 1,
        }
    }
}

/// A letter name, and whether it was written in lower case (one octave up).
#[derive(Debug, Clone, Copy, PartialEq, Eq, Structural)]
pub struct BaseNote {
    pub note: Diatonic,
    pub high: bool,
}

/// A written note.
#[derive(Debug, Clone, Copy, PartialEq, Eq, Structural)]
pub struct Note {
    pub base: BaseNote,
    pub accidental: Option<Accidental>,
    pub octave: Option<i8>,
    pub duration: u32,
}

impl Note {
    /// The octave number: the written one, or 5 for a lower-case letter and
    /// 4 otherwise.
    pub open spec fn spec_octave(self) -> int {
        match self.octave {
            Some(n) => n as int,
            None => if self.base.high { 5 } else { 4 },
        }
    }

    /// The semitone shift of the accidental; none counts as natural.
    pub open spec fn spec_accidental_semitones(self) -> int {
        match self.accidental {
            Some(a) => a.spec_semitones(),
            None => 0,
        }
    }

    /// Semitones above A4 (440 Hz).
    pub open spec fn spec_half_step(self) -> int {
        12 * (self.spec_octave() - 4) + (-9 + self.base.note.spec_chromatic_index())
            + self.spec_accidental_semitones()
    }

    /// The octave number: the written one, or 5 for a lower-case letter and
    /// 4 otherwise.
    pub fn octave(&self) -> (o: i8)
        ensures
            o == self.spec_octave(),
    {
        if let Some(n) = self.octave {
            n
        } else if self.base.high {
            5
        } else {
            4
        }
    }

    /// Semitones above A4 (440 Hz). The octave must be at least -124, so
    /// that the octave offset from 4 is an `i8`.
    pub fn to_half_step(&self) -> (h: i16)
        requires
            self.spec_octave() >= -124,
        ensures
            h == self.spec_half_step(),
    {
        let octave: i16 = 12 * ((self.octave() - 4) as i16);
        let tone: i16 = -9 + (self.base.note.chromatic_index() as i16);
        let semitone: i16 = match self.accidental {
            Some(a) => a.semitones() as i16,
            None => 0,
        };
        octave + tone + semitone
    }
}

/// The longest duration among `notes`, 0 for none.
pub open spec fn max_note_duration(notes: Seq<Note>) -> nat
    decreases notes.len(),
{
    if notes.len() == 0 {
        0
    } else {
        let rest = max_note_duration(notes.drop_last());
        let last = notes.last().duration as nat;
        if rest >= last { rest } else { last }
    }
}

/// What sounds during one step of a part.
#[derive(Debug, Clone, PartialEq, Eq)]
pub enum Event {
    Rest(u32),
    Note(Note),
    Chord(Vec<Note>),
}

/// The mathematical value of an [`Event`].
pub enum EventModel {
    Rest(u32),
    Note(Note),
    Chord(Seq<Note>),
}

impl View for Event {
    type V = EventModel;

    open spec fn view(&self) -> EventModel {
        match self {
            Event::Rest(d) => EventModel::Rest(*d),
            Event::Note(n) => EventModel::Note(*n),
            Event::Chord(ns) => EventModel::Chord(ns@),
        }
    }
}

impl EventModel {
    /// The notes that sound.
    pub open spec fn notes(self) -> Seq<Note> {
        match self {
            EventModel::Rest(_) => Seq::empty(),
            EventModel::Note(n) => seq![n],
            EventModel::Chord(ns) => ns,
        }
    }

    /// How many beats the event lasts: a rest its length, a note its
    /// duration, a chord its longest note (1 for an empty chord).
    pub open spec fn beat_count(self) -> nat {
        match self {
            EventModel::Rest(d) => d as nat,
            EventModel::Note(n) => n.duration as nat,
            EventModel::Chord(ns) => if ns.len() == 0 { 1 } else { max_note_duration(ns) },
        }
    }
}

/// A one-element slice holding `x`, from the standard library's
/// `std::slice::from_ref`: the slice's only element is `*x`.
#[verifier::external_body]
fn slice_from_ref<T>(x: &T) -> (s: &[T])
    ensures
        s@ == seq![*x],
{
    std::slice::from_ref(x)
}

impl Event {
    /// The notes that sound.
    pub fn notes(&self) -> (s: &[Note])
        ensures
            s@ == self@.notes(),
    {
        match self {
            Event::Rest(..) => {
                let empty: &[Note] = &[];
                assert(empty@ =~= Seq::<Note>::empty());
                empty
            },
            Event::Note(note) => slice_from_ref(note),
            Event::Chord(notes) => notes.as_slice(),
        }
    }

    /// How many beats the event lasts: a rest its length, a note its
    /// duration, a chord its longest note (1 for an empty chord).
    pub fn beat_count(&self) -> (n: u32)
        ensures
            n == self@.beat_count(),
    {
        match self {
            Event::Rest(dur) => *dur,
            Event::Note(note) => note.duration,
            Event::Chord(notes) => {
                if notes.len() == 0 {
                    return 1;
                }
                let mut best: u32 = 0;
                let mut i: usize = 0;
                while i < notes.len()
                    invariant
                        i <= notes@.len(),
                        best == max_note_duration(notes@.take(i as int)),
                    decreases notes@.len() - i,
                {
                    assert(notes@.take(i as int + 1).drop_last() =~= notes@.take(i as int));
                    if notes[i].duration > best {
                        best = notes[i].duration;
                    }
                    i = i + 1;
                }
                assert(notes@.take(notes@.len() as int) =~= notes@);
                best
            },
        }
    }
}

/// One step of a part: something to play, or a change of loudness or tempo.
#[derive(Debug, Clone, PartialEq, Eq)]
pub enum PartItem {
    Event(Event),
    Dynamic(Dynamic),
    Tempo(Tempo),
}

/// The mathematical value of a [`PartItem`].
pub enum PartItemModel {
    Event(EventModel),
    Dynamic(Dynamic),
    Tempo(Tempo),
}

impl View for PartItem {
    type V = PartItemModel;

    open spec fn view(&self) -> PartItemModel {
        match self {
            PartItem::Event(e) => PartItemModel::Event(e@),
            PartItem::Dynamic(d) => PartItemModel::Dynamic(*d),
            PartItem::Tempo(t) => PartItemModel::Tempo(*t),
        }
    }
}

/// One voice of a score, with its optional instrument.
#[derive(Debug, Clone, PartialEq, Eq)]
pub struct Part {
    pub instrument: Option<Instrument>,
    pub items: Vec<PartItem>,
}

/// The mathematical value of a [`Part`].
pub struct PartModel {
    pub instrument: Option<Instrument>,
    pub items: Seq<PartItemModel>,
}

impl View for Part {
    type V = PartModel;

    open spec fn view(&self) -> PartModel {
        PartModel {
            instrument: self.instrument,
            items: self.items@.map_values(|i: PartItem| i@),
        }
    }
}

/// A whole score: an optional starting tempo and its parts.
#[derive(Debug, Clone, PartialEq, Eq)]
pub struct Score {
    pub bpm: Option<u32>,
    pub parts: Vec<Part>,
}

/// The mathematical value of a [`Score`].
pub struct ScoreModel {
    pub bpm: Option<u32>,
    pub parts: Seq<PartModel>,
}

impl View for Score {
    type V = ScoreModel;

    open spec fn view(&self) -> ScoreModel {
        ScoreModel { bpm: self.bpm, parts: self.parts@.map_values(|p: Part| p@) }
    }
}

/// Nanoseconds that the last event of a part sounds when the part's
/// instrument rings on: a bell note rings four seconds past its beats, a drum
/// hit lasts 150 ms; an event without notes lasts its beats.
pub open spec fn sustained_duration(instrument: Instrument, event: EventModel, beat: nat) -> nat {
    if event.notes().len() == 0 {
        beat * event.beat_count()
    } else if instrument is Bell {
        beat * event.beat_count() + 4_000_000_000
    } else if instrument is Drum {
        150_000_000
    } else {
        beat * event.beat_count()
    }
}

/// Nanoseconds that `items` take, starting with quarter notes of `beat`
/// nanoseconds: each event its beats, except that when the instrument rings
/// on, the last item, if an event, lasts as long as it sounds; a tempo item
/// changes the beat for what follows.
pub open spec fn items_duration(instrument: Option<Instrument>, items: Seq<PartItemModel>, beat: nat) -> nat
    decreases items.len(),
{
    if items.len() == 0 {
        0
    } else {
        let rest = items.drop_first();
        match items[0] {
            PartItemModel::Event(e) => {
                let here = if items.len() == 1 && instrument is Some
                    && instrument->0.spec_has_sustain() {
                    sustained_duration(instrument->0, e, beat)
                } else {
                    beat * e.beat_count()
                };
                here + items_duration(instrument, rest, beat)
            },
            PartItemModel::Tempo(t) => items_duration(
                instrument,
                rest,
                t.spec_duration_of(Quaver::Quarter),
            ),
            PartItemModel::Dynamic(_) => items_duration(instrument, rest, beat),
        }
    }
}

/// Every tempo item of `items` has a positive beat count.
pub open spec fn tempos_positive(items: Seq<PartItemModel>) -> bool {
    forall|i: int|
        0 <= i < items.len() ==> (#[trigger] items[i] matches PartItemModel::Tempo(t) ==> t.beat > 0)
}

impl PartModel {
    /// Nanoseconds the part lasts with quarter notes of `beat` nanoseconds.
    pub open spec fn duration(self, beat: nat) -> nat {
        items_duration(self.instrument, self.items, beat)
    }

    /// The part's duration can be computed: no tempo item has a zero beat,
    /// and the result is a representable duration.
    pub open spec fn duration_defined(self, beat: nat) -> bool {
        &&& tempos_positive(self.items)
        &&& self.duration(beat) <= max_nanos()
    }
}

/// The largest of `ds`, 0 for none.
pub open spec fn seq_max(ds: Seq<nat>) -> nat
    decreases ds.len(),
{
    if ds.len() == 0 {
        0
    } else {
        let rest = seq_max(ds.drop_last());
        if rest >= ds.last() { rest } else { ds.last() }
    }
}

impl ScoreModel {
    /// The tempo the score starts at: its number of whole notes per minute,
    /// 75 if none is written.
    pub open spec fn initial_tempo(self) -> Tempo {
        Metronome {
            note_value: Quaver::Whole,
            beat: match self.bpm {
                Some(b) => b,
                None => 75,
            },
        }
    }

    /// Nanoseconds of a quarter note at the starting tempo.
    pub open spec fn beat(self) -> nat {
        self.initial_tempo().spec_duration_of(Quaver::Quarter)
    }

    /// Nanoseconds the score lasts: its longest part, 0 for no parts.
    pub open spec fn duration(self) -> nat {
        seq_max(self.parts.map_values(|p: PartModel| p.duration(self.beat())))
    }

    /// The score's duration can be computed: the starting tempo is not zero
    /// and every part's duration can be computed.
    pub open spec fn duration_defined(self) -> bool {
        &&& self.initial_tempo().beat > 0
        &&& forall|i: int|
            0 <= i < self.parts.len() ==> (#[trigger] self.parts[i]).duration_defined(self.beat())
    }
}

proof fn lemma_items_duration_step(instrument: Option<Instrument>, items: Seq<PartItemModel>, i: int, beat: nat)
    requires
        0 <= i < items.len(),
    ensures
        items.skip(i).drop_first() =~= items.skip(i + 1),
        items.skip(i)[0] == items[i],
        items.skip(i).len() == items.len() - i,
{
}

impl Part {
    /// How long the part lasts, starting with quarter notes of `beat`.
    pub fn duration(&self, beat: Duration) -> (d: Duration)
        requires
            self@.duration_defined(beat@),
        ensures
            d@ == self@.duration(beat@),
    {
        let ghost total = self@.duration(beat@);
        let ghost items = self@.items;
        let mut beat = beat;
        let mut dur = Duration::zero();
        let n = self.items.len();
        let mut i: usize = 0;
        assert(items.skip(0) =~= items);
        while i < n
            invariant
                n == self.items@.len(),
                items == self@.items,
                i <= n,
                tempos_positive(items),
                dur@ + items_duration(self.instrument, items.skip(i as int), beat@) == total,
                total <= max_nanos(),
            decreases n - i,
        {
            proof { lemma_items_duration_step(self.instrument, items, i as int, beat@); }
            let is_last = i + 1 == n;
            match &self.items[i] {
                PartItem::Event(event) => {
                    let sustained = match self.instrument {
                        Some(instrument) => is_last && instrument.has_sustain(),
                        None => false,
                    };
                    let here = if sustained {
                        sustained_duration_of(self.instrument.unwrap(), event, beat)
                    } else {
                        beat.mul(event.beat_count())
                    };
                    dur = dur.add(here);
                },
                PartItem::Tempo(tempo) => {
                    assert(items[i as int] matches PartItemModel::Tempo(t) && t.beat > 0);
                    beat = tempo.duration_of(Quaver::Quarter);
                },
                PartItem::Dynamic(_) => {},
            }
            i = i + 1;
        }
        dur
    }
}

/// How long `event` sounds at the end of a part played on `instrument`.
fn sustained_duration_of(instrument: Instrument, event: &Event, beat: Duration) -> (d: Duration)
    requires
        sustained_duration(instrument, event@, beat@) <= max_nanos(),
    ensures
        d@ == sustained_duration(instrument, event@, beat@),
{
    let count = event.beat_count();
    if event.notes().len() == 0 {
        beat.mul(count)
    } else {
        match instrument {
            Instrument::Bell => beat.mul(count).add(Duration::from_secs(4)),
            Instrument::Drum => Duration::from_millis(150),
            _ => beat.mul(count),
        }
    }
}

impl Score {
    /// The tempo the score starts at: its number of whole notes per minute,
    /// 75 if none is written.
    pub fn initial_tempo(&self) -> (t: Tempo)
        ensures
            t == self@.initial_tempo(),
    {
        Metronome {
            note_value: Quaver::Whole,
            beat: match self.bpm {
                Some(b) => b,
                None => 75,
            },
        }
    }

    /// How long the score lasts: as long as its longest part.
    pub fn duration(&self) -> (d: Duration)
        requires
            self@.duration_defined(),
        ensures
            d@ == self@.duration(),
    {
        let tempo = self.initial_tempo();
        let beat = tempo.duration_of(Quaver::Quarter);
        let ghost durs = self@.parts.map_values(|p: PartModel| p.duration(self@.beat()));
        let mut best = Duration::zero();
        let mut i: usize = 0;
        while i < self.parts.len()
            invariant
                i <= self.parts@.len(),
                beat@ == self@.beat(),
                self@.duration_defined(),
                durs == self@.parts.map_values(|p: PartModel| p.duration(self@.beat())),
                best@ == seq_max(durs.take(i as int)),
            decreases self.parts@.len() - i,
        {
            assert(self@.parts[i as int] == self.parts@[i as int]@);
            let d = self.parts[i].duration(beat);
            assert(durs.take(i as int + 1).drop_last() =~= durs.take(i as int));
            best = best.max(d);
            i = i + 1;
        }
        assert(durs.take(self.parts@.len() as int) =~= durs);
        best
    }
}


/// How long `items` last, starting with quarter notes of `beat`, played
/// with `instrument` (see [`items_duration`]); none where a tempo item has a
/// zero beat or the result is not representable.
pub fn items_try_duration(instrument: Option<Instrument>, items: &Vec<PartItem>, beat: Duration) -> (r: Option<
    Duration,
>)
    ensures
        r is Some <==> (tempos_positive(items@.map_values(|i: PartItem| i@)) && items_duration(
            instrument,
            items@.map_values(|i: PartItem| i@),
            beat@,
        ) <= max_nanos()),
        r matches Some(d) ==> d@ == items_duration(instrument, items@.map_values(|i: PartItem| i@), beat@),
{
    let ghost model = items@.map_values(|i: PartItem| i@);
    let ghost total = items_duration(instrument, model, beat@);
    let mut cur = beat;
    let mut dur = Duration::zero();
    let n = items.len();
    let mut i: usize = 0;
    assert(model.skip(0) =~= model);
    while i < n
        invariant
            n == items@.len(),
            model == items@.map_values(|i: PartItem| i@),
            i <= n,
            forall|k: int| 0 <= k < i ==> (#[trigger] model[k] matches PartItemModel::Tempo(t) ==> t.beat > 0),
            dur@ + items_duration(instrument, model.skip(i as int), cur@) == total,
            total == items_duration(instrument, model, beat@),
            dur@ <= max_nanos(),
        decreases n - i,
    {
        proof { lemma_items_duration_step(instrument, model, i as int, cur@); }
        assert(model[i as int] == items@[i as int]@);
        let is_last = i + 1 == n;
        match &items[i] {
            PartItem::Event(event) => {
                let sustained = match instrument {
                    Some(x) => is_last && x.has_sustain(),
                    None => false,
                };
                let count = event.beat_count();
                let ghost rest = model.skip(i as int);
                let ghost here_spec = if rest.len() == 1 && instrument is Some && instrument->0.spec_has_sustain() {
                    sustained_duration(instrument->0, event@, cur@)
                } else {
                    cur@ * event@.beat_count()
                };
                assert(rest[0] == PartItemModel::Event(event@));
                assert(items_duration(instrument, rest, cur@) == here_spec + items_duration(
                    instrument,
                    rest.drop_first(),
                    cur@,
                ));
                assert(sustained == (rest.len() == 1 && instrument is Some && instrument->0.spec_has_sustain()));
                let drum_hit = match instrument {
                    Some(Instrument::Drum) => sustained && event.notes().len() != 0,
                    _ => false,
                };
                let here = if drum_hit {
                    Duration::from_millis(150)
                } else {
                    let spread = match cur.checked_mul(count) {
                        Some(d) => d,
                        None => {
                            assert(here_spec >= cur@ * event@.beat_count());
                            return None;
                        },
                    };
                    let bell_ring = match instrument {
                        Some(Instrument::Bell) => sustained && event.notes().len() != 0,
                        _ => false,
                    };
                    if bell_ring {
                        match spread.checked_add(Duration::from_secs(4)) {
                            Some(d) => d,
                            None => return None,
                        }
                    } else {
                        spread
                    }
                };
                assert(here@ == here_spec);
                dur = match dur.checked_add(here) {
                    Some(d) => d,
                    None => return None,
                };
            },
            PartItem::Tempo(tempo) => {
                if tempo.beat == 0 {
                    return None;
                }
                cur = tempo.duration_of(Quaver::Quarter);
            },
            PartItem::Dynamic(_) => {},
        }
        i = i + 1;
    }
    assert(model.skip(i as int) =~= Seq::<PartItemModel>::empty());
    Some(dur)
}

impl Part {
    /// How long the part lasts, starting with quarter notes of `beat` (see
    /// [`PartModel::duration`]); none where it cannot be computed.
    pub fn try_duration(&self, beat: Duration) -> (r: Option<Duration>)
        ensures
            r is Some <==> self@.duration_defined(beat@),
            r matches Some(d) ==> d@ == self@.duration(beat@),
    {
        items_try_duration(self.instrument, &self.items, beat)
    }
}

impl Score {
    /// How long the score lasts (see [`ScoreModel::duration`]); none where
    /// it cannot be computed.
    pub fn try_duration(&self) -> (r: Option<Duration>)
        ensures
            r is Some <==> self@.duration_defined(),
            r matches Some(d) ==> d@ == self@.duration(),
    {
        let tempo = self.initial_tempo();
        if tempo.beat == 0 {
            return None;
        }
        let beat = tempo.duration_of(Quaver::Quarter);
        let mut i: usize = 0;
        while i < self.parts.len()
            invariant
                i <= self.parts@.len(),
                beat@ == self@.beat(),
                self@.initial_tempo().beat > 0,
                forall|k: int| 0 <= k < i ==> (#[trigger] self@.parts[k]).duration_defined(self@.beat()),
            decreases self.parts@.len() - i,
        {
            assert(self@.parts[i as int] == self.parts@[i as int]@);
            if self.parts[i].try_duration(beat).is_none() {
                return None;
            }
            i = i + 1;
        }
        Some(self.duration())
    }
}


/// The largest of a list is at least each of its entries, and is one of
/// them when the list is not empty.
proof fn lemma_seq_max(ds: Seq<nat>)
    ensures
        forall|i: int| 0 <= i < ds.len() ==> ds[i] <= seq_max(ds),
        ds.len() > 0 ==> exists|i: int| 0 <= i < ds.len() && ds[i] == seq_max(ds),
        ds.len() == 0 ==> seq_max(ds) == 0,
    decreases ds.len(),
{
    if ds.len() > 0 {
        let rest = ds.drop_last();
        lemma_seq_max(rest);
        assert forall|i: int| 0 <= i < ds.len() implies ds[i] <= seq_max(ds) by {
            if i < ds.len() - 1 {
                assert(ds[i] == rest[i]);
            }
        }
        if seq_max(rest) >= ds.last() && rest.len() > 0 {
            let j = choose|j: int| 0 <= j < rest.len() && rest[j] == seq_max(rest);
            assert(ds[j] == seq_max(ds));
        } else {
            assert(ds[ds.len() - 1] == seq_max(ds));
        }
    }
}

/// A score lasts as long as its longest part: no part lasts longer, one
/// part lasts exactly as long when there is any, and a score without parts
/// lasts no time.
pub proof fn lemma_score_lasts_as_longest_part(s: ScoreModel)
    ensures
        forall|i: int| 0 <= i < s.parts.len() ==> (#[trigger] s.parts[i]).duration(s.beat()) <= s.duration(),
        s.parts.len() > 0 ==> exists|i: int|
            0 <= i < s.parts.len() && (#[trigger] s.parts[i]).duration(s.beat()) == s.duration(),
        s.parts.len() == 0 ==> s.duration() == 0,
{
    let ds = s.parts.map_values(|p: PartModel| p.duration(s.beat()));
    lemma_seq_max(ds);
    assert forall|i: int| 0 <= i < s.parts.len() implies (#[trigger] s.parts[i]).duration(s.beat()) <= s.duration() by {
        assert(ds[i] == s.parts[i].duration(s.beat()));
    }
    if s.parts.len() > 0 {
        let j = choose|j: int| 0 <= j < ds.len() && ds[j] == seq_max(ds);
        assert(s.parts[j].duration(s.beat()) == s.duration());
    }
}


impl Default for Dynamic {
    /// Mezzo-forte.
    fn default() -> (d: Dynamic)
        ensures
            d == Dynamic::MezzoForte,
    {
        Dynamic::MezzoForte
    }
}

impl Default for Diatonic {
    /// C.
    fn default() -> (d: Diatonic)
        ensures
            d == Diatonic::C,
    {
        Diatonic::C
    }
}

impl Default for Accidental {
    /// Natural.
    fn default() -> (a: Accidental)
        ensures
            a == Accidental::Natural,
    {
        Accidental::Natural
    }
}

impl Default for BaseNote {
    /// Upper-case C.
    fn default() -> (b: BaseNote)
        ensures
            b == (BaseNote { note: Diatonic::C, high: false }),
    {
        BaseNote { note: Diatonic::C, high: false }
    }
}

impl Default for Note {
    /// Upper-case C with no accidental or octave, lasting no beats.
    fn default() -> (n: Note)
        ensures
            n == (Note { base: BaseNote { note: Diatonic::C, high: false }, accidental: None, octave: None, duration: 0 }),
    {
        Note { base: BaseNote { note: Diatonic::C, high: false }, accidental: None, octave: None, duration: 0 }
    }
}

impl Default for Part {
    /// A part with no instrument and no items.
    fn default() -> (p: Part)
        ensures
            p@ == (PartModel { instrument: None, items: Seq::empty() }),
    {
        let p = Part { instrument: None, items: Vec::new() };
        assert(p@.items =~= Seq::<PartItemModel>::empty());
        p
    }
}

impl Default for Score {
    /// A score with no tempo and no parts.
    fn default() -> (s: Score)
        ensures
            s@ == (ScoreModel { bpm: None, parts: Seq::empty() }),
    {
        let s = Score { bpm: None, parts: Vec::new() };
        assert(s@.parts =~= Seq::<PartModel>::empty());
        s
    }
}

} // verus!
