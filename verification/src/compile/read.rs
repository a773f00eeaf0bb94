//! Reading a document tree into the intermediate score: each part is read
//! once per voice, measure by measure, keeping track of the position in the
//! measure, repeats, endings and ties.

use vstd::prelude::*;

use crate::compile::output::{
    event_at, last_event_index, Event, EventModel, Measure, MeasureItem, MeasureItemModel, MeasureModel,
    Note, Part, PartModel, Score, ScoreModel, Transpose,
};
use crate::compile::xml::{
    BarLocation, NoteTypeValue, RepeatDirection, XmlArticulation, XmlAttributes, XmlBarline,
    XmlDirection, XmlDirectionType, XmlDynamic, XmlMeasure, XmlMeasureElement, XmlMetronome, XmlNotation,
    XmlNote, XmlPart, XmlPartElement, XmlPartListEntry, XmlScore, XmlSound,
};
use crate::numtext::{chars_of, parse_u32, parse_u32_at};
use crate::types::{Dynamic, Instrument, Metronome, Quaver};

verus! {

/// `f` applied to `init` and each of `xs` in turn, stopping at the first
/// `None`.
pub open spec fn fold_steps<S, T>(init: S, xs: Seq<T>, f: spec_fn(S, T) -> Option<S>) -> Option<S>
    decreases xs.len(),
{
    if xs.len() == 0 {
        Some(init)
    } else {
        match fold_steps(init, xs.drop_last(), f) {
            None => None,
            Some(st) => f(st, xs.last()),
        }
    }
}

/// Folding over one more element takes one more step.
pub proof fn lemma_fold_step<S, T>(init: S, xs: Seq<T>, i: int, f: spec_fn(S, T) -> Option<S>)
    requires
        0 <= i < xs.len(),
    ensures
        fold_steps(init, xs.take(i + 1), f) == (match fold_steps(init, xs.take(i), f) {
            None => None,
            Some(st) => f(st, xs[i]),
        }),
{
    assert(xs.take(i + 1).drop_last() =~= xs.take(i));
    assert(xs.take(i + 1).last() == xs[i]);
}

/// Once a fold stops, it stays stopped.
pub proof fn lemma_fold_prefix_none<S, T>(init: S, xs: Seq<T>, n: int, f: spec_fn(S, T) -> Option<S>)
    requires
        0 <= n <= xs.len(),
        fold_steps(init, xs.take(n), f) is None,
    ensures
        fold_steps(init, xs, f) is None,
    decreases xs.len() - n,
{
    if n < xs.len() {
        lemma_fold_step(init, xs, n, f);
        lemma_fold_prefix_none(init, xs, n + 1, f);
    } else {
        assert(xs.take(n) =~= xs);
    }
}

/// The fold over the whole of `xs`.
pub proof fn lemma_fold_all<S, T>(init: S, xs: Seq<T>, f: spec_fn(S, T) -> Option<S>)
    ensures
        fold_steps(init, xs.take(xs.len() as int), f) == fold_steps(init, xs, f),
        fold_steps(init, xs.take(0), f) == Some(init),
{
    assert(xs.take(xs.len() as int) =~= xs);
    assert(xs.take(0) =~= Seq::<T>::empty());
}

/// The state of the reader between document elements.
pub struct ReadModel {
    pub score: ScoreModel,
    /// Index of the measure a repeat goes back to.
    pub repeat_start: usize,
    /// Number of measures in the first ending of a repeat.
    pub first_ending_length: usize,
    /// Measure numbers and the ending numbers written at them, in the order
    /// they were met.
    pub volta: Seq<(Seq<char>, Seq<char>)>,
    /// The (voice, staff) pair being read.
    pub voice: (u32, u32),
    /// Position within the current measure, in divisions.
    pub measure_pos: u32,
}

/// The ending number last recorded for measure `key`.
pub open spec fn volta_lookup(v: Seq<(Seq<char>, Seq<char>)>, key: Seq<char>) -> Option<Seq<char>>
    decreases v.len(),
{
    if v.len() == 0 {
        None
    } else if v.last().0 == key {
        Some(v.last().1)
    } else {
        volta_lookup(v.drop_last(), key)
    }
}

/// The staff an element belongs to: 1 when not written.
pub open spec fn staff_of(staff: Option<u32>) -> u32 {
    match staff {
        Some(s) => s,
        None => 1,
    }
}

/// The note value of a metronome beat unit; a breve is a double whole
/// note, and units shorter than a sixteenth have none.
pub open spec fn quaver_of(v: NoteTypeValue) -> Option<Quaver> {
    match v {
        NoteTypeValue::Breve => Some(Quaver::Double),
        NoteTypeValue::Whole => Some(Quaver::Whole),
        NoteTypeValue::Half => Some(Quaver::Half),
        NoteTypeValue::Quarter => Some(Quaver::Quarter),
        NoteTypeValue::Eighth => Some(Quaver::Eighth),
        NoteTypeValue::Sixteenth => Some(Quaver::Sixteenth),
        _ => None,
    }
}

/// The tempo a metronome marking gives: its beat unit and its whole number
/// of beats per minute; `None` for other forms.
pub open spec fn metronome_value(m: XmlMetronome) -> Option<Metronome> {
    match m {
        XmlMetronome::PerMinute { beat_unit, per_minute } => match (
            quaver_of(beat_unit),
            parse_u32(per_minute@),
        ) {
            (Some(q), Some(b)) => Some(Metronome { note_value: q, beat: b }),
            _ => None,
        },
        XmlMetronome::Other => None,
    }
}

/// The loudness a marking gives; `None` for markings other than pp to ff.
pub open spec fn dynamic_of(d: XmlDynamic) -> Option<Dynamic> {
    match d {
        XmlDynamic::Pp => Some(Dynamic::Pianissimo),
        XmlDynamic::P => Some(Dynamic::Piano),
        XmlDynamic::Mp => Some(Dynamic::MezzoPiano),
        XmlDynamic::Mf => Some(Dynamic::MezzoForte),
        XmlDynamic::F => Some(Dynamic::Forte),
        XmlDynamic::Ff => Some(Dynamic::Fortissimo),
        XmlDynamic::Other => None,
    }
}

/// The score has a last part with a last measure.
pub open spec fn has_last_measure(s: ScoreModel) -> bool {
    s.parts.len() > 0 && s.parts.last().measures.len() > 0
}

/// The last measure of the last part.
pub open spec fn last_measure(s: ScoreModel) -> MeasureModel {
    s.parts.last().measures.last()
}

/// `s` with its last part replaced by `p`.
pub open spec fn set_last_part(s: ScoreModel, p: PartModel) -> ScoreModel {
    ScoreModel { parts: s.parts.update(s.parts.len() - 1, p), ..s }
}

/// `s` with the last measure of its last part replaced by `m`.
pub open spec fn set_last_measure(s: ScoreModel, m: MeasureModel) -> ScoreModel {
    let p = s.parts.last();
    set_last_part(s, PartModel { measures: p.measures.update(p.measures.len() - 1, m), ..p })
}

/// The note a sound gives, if it is not a rest.
pub open spec fn sound_note(s: XmlSound) -> Option<Note> {
    match s {
        XmlSound::Pitch { step, alter, octave } => Some(
            Note {
                step,
                semitone: match alter {
                    Some(a) => a,
                    None => 0,
                },
                octave: octave as i16,
            },
        ),
        XmlSound::Unpitched { step, octave } => Some(Note { step, semitone: 0, octave: octave as i16 }),
        XmlSound::Rest => None,
    }
}

/// The notation is a list of articulations with a staccato among them.
pub open spec fn notation_has_staccato(x: XmlNotation) -> bool {
    x matches XmlNotation::Articulations(a) && exists|k: int| 0 <= k < a@.len() && (#[trigger] a@[k]) is Staccato
}

/// Some notation of the note is a staccato articulation.
pub open spec fn has_staccato(n: XmlNote) -> bool {
    exists|i: int, j: int|
        0 <= i < n.notations@.len() && 0 <= j < n.notations@[i]@.len() && notation_has_staccato(
            #[trigger] n.notations@[i]@[j],
        )
}

/// Whether the XML text of a `<tie>` element marks the end of a tie: it
/// carries the attribute `type="stop"`.
pub open spec fn tie_stops(text: Seq<char>) -> bool {
    contains_text(text, seq![' ', 't', 'y', 'p', 'e', '=', '"', 's', 't', 'o', 'p', '"'])
}

/// The (voice, staff) pair of an ordinary note with a voice that reads as a
/// number.
pub open spec fn note_voice(n: XmlNote) -> Option<(u32, u32)> {
    match (n.info, n.voice) {
        (Some(_), Some(v)) => match parse_u32(v@) {
            Some(vn) => Some((vn, staff_of(n.staff))),
            None => None,
        },
        _ => None,
    }
}

/// `m` with the event at item `k` changed to `e`.
pub open spec fn set_event(m: MeasureModel, k: int, e: EventModel) -> MeasureModel {
    MeasureModel { items: m.items.update(k, MeasureItemModel::Event(e)), ..m }
}

impl ReadModel {
    /// The reader with its score replaced.
    pub open spec fn with_score(self, s: ScoreModel) -> ReadModel {
        ReadModel { score: s, ..self }
    }

    /// The reader with the last measure replaced.
    pub open spec fn with_last_measure(self, m: MeasureModel) -> ReadModel {
        self.with_score(set_last_measure(self.score, m))
    }

    /// Close the current measure: when the position in it lies past its
    /// length, pad it with a rest up to the position.
    pub open spec fn postprocess_measure(self) -> Option<ReadModel> {
        if !has_last_measure(self.score) {
            None
        } else {
            let m = last_measure(self.score);
            if m.duration() > u32::MAX {
                None
            } else if self.measure_pos > m.duration() {
                Some(self.with_last_measure(m.push_event((self.measure_pos - m.duration()) as u32)))
            } else {
                Some(self)
            }
        }
    }

    /// A metronome marking, allowed only before the first event of a
    /// measure and once per measure.
    pub open spec fn metronome(self, m: XmlMetronome) -> Option<ReadModel> {
        if !has_last_measure(self.score) {
            None
        } else {
            let lm = last_measure(self.score);
            if lm.events().len() > 0 || lm.metronome is Some {
                None
            } else {
                match metronome_value(m) {
                    None => None,
                    Some(v) => Some(self.with_last_measure(MeasureModel { metronome: Some(v), ..lm })),
                }
            }
        }
    }

    /// A loudness marking, added to the current measure.
    pub open spec fn dynamic(self, d: XmlDynamic) -> Option<ReadModel> {
        if !has_last_measure(self.score) {
            None
        } else {
            match dynamic_of(d) {
                None => None,
                Some(x) => {
                    let lm = last_measure(self.score);
                    Some(
                        self.with_last_measure(
                            MeasureModel { items: lm.items.push(MeasureItemModel::Dynamic(x)), ..lm },
                        ),
                    )
                },
            }
        }
    }

    /// A group of loudness markings, in order.
    pub open spec fn dynamic_group(self, ds: Seq<XmlDynamic>) -> Option<ReadModel> {
        fold_steps(self, ds, dynamic_step())
    }

    /// Groups of loudness markings, in order.
    pub open spec fn dynamic_groups(self, gs: Seq<Vec<XmlDynamic>>) -> Option<ReadModel> {
        fold_steps(self, gs, dynamic_group_step())
    }

    /// One kind of a direction.
    pub open spec fn direction_type(self, t: XmlDirectionType) -> Option<ReadModel> {
        match t {
            XmlDirectionType::Metronome(m) => self.metronome(m),
            XmlDirectionType::Dynamics(gs) => self.dynamic_groups(gs@),
            XmlDirectionType::Other => Some(self),
        }
    }

    /// The kinds of a direction, in order.
    pub open spec fn direction_types(self, ts: Seq<XmlDirectionType>) -> Option<ReadModel> {
        fold_steps(self, ts, direction_type_step())
    }

    /// A direction: read only when it belongs to the staff being read.
    pub open spec fn direction(self, d: XmlDirection) -> Option<ReadModel> {
        if staff_of(d.staff) != self.voice.1 {
            Some(self)
        } else {
            self.direction_types(d.types@)
        }
    }

    /// A transposition for the current part, allowed once per part.
    pub open spec fn transpose(self, t: crate::compile::xml::XmlTranspose) -> Option<ReadModel> {
        if self.score.parts.len() == 0 || self.score.parts.last().transpose is Some {
            None
        } else {
            let p = self.score.parts.last();
            Some(
                self.with_score(
                    set_last_part(
                        self.score,
                        PartModel {
                            transpose: Some(
                                Transpose {
                                    octave: match t.octave_change {
                                        Some(o) => o as i16,
                                        None => 0,
                                    },
                                    chromatic: t.chromatic,
                                },
                            ),
                            ..p
                        },
                    ),
                ),
            )
        }
    }

    /// Transpositions, in order.
    pub open spec fn transposes(self, ts: Seq<crate::compile::xml::XmlTranspose>) -> Option<ReadModel> {
        fold_steps(self, ts, transpose_step())
    }

    /// Measure attributes: the divisions go to the current measure, then
    /// the transpositions to the current part.
    pub open spec fn attributes(self, a: XmlAttributes) -> Option<ReadModel> {
        if !has_last_measure(self.score) {
            None
        } else {
            let st = match a.divisions {
                Some(d) => self.with_last_measure(
                    MeasureModel { divisions: Some(d), ..last_measure(self.score) },
                ),
                None => self,
            };
            st.transposes(a.transposes@)
        }
    }

    /// A barline. Any ending number is recorded for the measure. A forward
    /// repeat on the left marks the current measure as the repeat start. On
    /// the right, a measure recorded with ending 1 lengthens the first
    /// ending; a backward repeat closes the measure, copies the measures
    /// from the repeat start to the end, drops as many trailing measures as
    /// the first ending is long, and resets that length.
    pub open spec fn barline(self, b: XmlBarline, number: Seq<char>) -> Option<ReadModel> {
        let st = match b.ending {
            Some(e) => ReadModel { volta: self.volta.push((number, e@)), ..self },
            None => self,
        };
        match b.location {
            Some(BarLocation::Left) => if b.repeat == Some(RepeatDirection::Forward) {
                if st.score.parts.len() == 0 || st.score.parts.last().measures.len() == 0 {
                    None
                } else {
                    Some(
                        ReadModel {
                            repeat_start: (st.score.parts.last().measures.len() - 1) as usize,
                            ..st
                        },
                    )
                }
            } else {
                Some(st)
            },
            Some(BarLocation::Right) => {
                let st2 = if volta_lookup(st.volta, number) == Some(seq!['1']) {
                    if st.first_ending_length == usize::MAX {
                        None
                    } else {
                        Some(ReadModel { first_ending_length: (st.first_ending_length + 1) as usize, ..st })
                    }
                } else {
                    Some(st)
                };
                match st2 {
                    None => None,
                    Some(st2) => if b.repeat == Some(RepeatDirection::Backward) {
                        match st2.postprocess_measure() {
                            None => None,
                            Some(st3) => {
                                let p = st3.score.parts.last();
                                let ms = p.measures;
                                if st3.repeat_start > ms.len() {
                                    None
                                } else {
                                    let ext = ms + ms.skip(st3.repeat_start as int);
                                    let kept = if st3.first_ending_length >= ext.len() {
                                        Seq::empty()
                                    } else {
                                        ext.take(ext.len() - st3.first_ending_length)
                                    };
                                    Some(
                                        ReadModel {
                                            first_ending_length: 0,
                                            ..st3.with_score(
                                                set_last_part(st3.score, PartModel { measures: kept, ..p }),
                                            )
                                        },
                                    )
                                }
                            },
                        }
                    } else {
                        Some(st2)
                    },
                }
            },
            _ => Some(st),
        }
    }
}

impl ReadModel {
    /// The body of an ordinary note of the voice being read. A note that
    /// stops a tie lengthens the last event of the measure (which must hold
    /// the same note), or, in a measure without events yet, the carried-over
    /// tie. Otherwise a chord note joins the last event (which must have the
    /// same duration) and any other note starts a new event; the note, if not
    /// a rest, is added to it, and a staccato marks it staccato.
    pub open spec fn note_body(self, n: XmlNote) -> Option<ReadModel> {
        let info = n.info->0;
        let d = info.duration;
        let out = sound_note(info.sound);
        if !has_last_measure(self.score) {
            None
        } else {
            let lm = last_measure(self.score);
            if info.ties@.len() > 0 && tie_stops(info.ties@[0]@) {
                match last_event_index(lm.items) {
                    Some(k) => {
                        let e = event_at(lm, k);
                        match out {
                            None => None,
                            Some(x) => if !e.notes.contains(x) {
                                None
                            } else if info.chord {
                                Some(self)
                            } else if e.duration + d > u32::MAX {
                                None
                            } else {
                                Some(
                                    self.with_last_measure(
                                        set_event(lm, k, EventModel { duration: (e.duration + d) as u32, ..e }),
                                    ),
                                )
                            },
                        }
                    },
                    None => if info.chord {
                        Some(self)
                    } else if lm.carryover + d > u32::MAX {
                        None
                    } else {
                        Some(self.with_last_measure(MeasureModel { carryover: (lm.carryover + d) as u32, ..lm }))
                    },
                }
            } else {
                let target: Option<(MeasureModel, int)> = if info.chord {
                    match last_event_index(lm.items) {
                        None => None,
                        Some(k) => if event_at(lm, k).duration != d {
                            None
                        } else {
                            Some((lm, k))
                        },
                    }
                } else {
                    Some((lm.push_event(d), lm.items.len() as int))
                };
                match target {
                    None => None,
                    Some((m2, k)) => {
                        let e = event_at(m2, k);
                        let e2 = EventModel {
                            notes: match out {
                                Some(x) => e.notes.push(x),
                                None => e.notes,
                            },
                            staccato: if has_staccato(n) { true } else { e.staccato },
                            ..e
                        };
                        Some(self.with_last_measure(set_event(m2, k, e2)))
                    },
                }
            }
        }
    }

    /// A note element. Grace and cue notes are skipped. An ordinary note
    /// that is not part of a chord advances the position in the measure. A
    /// note with a voice must have a voice number (voice 2 only on staff 1);
    /// notes of other (voice, staff) pairs are not read further.
    pub open spec fn note(self, n: XmlNote) -> Option<ReadModel> {
        match n.info {
            None => Some(self),
            Some(info) => {
                let d = info.duration;
                if !info.chord && self.measure_pos + d > u32::MAX {
                    None
                } else {
                    let st = if info.chord {
                        self
                    } else {
                        ReadModel { measure_pos: (self.measure_pos + d) as u32, ..self }
                    };
                    let staff = staff_of(n.staff);
                    match n.voice {
                        Some(v) => match parse_u32(v@) {
                            None => None,
                            Some(vn) => if vn == 2 && staff != 1 {
                                None
                            } else if (vn, staff) != st.voice {
                                Some(st)
                            } else {
                                st.note_body(n)
                            },
                        },
                        None => st.note_body(n),
                    }
                }
            },
        }
    }

    /// One element of a measure numbered `number`. A backup moves the
    /// position back; a forward moves it on and adds a rest of its length.
    pub open spec fn element(self, e: XmlMeasureElement, number: Seq<char>) -> Option<ReadModel> {
        match e {
            XmlMeasureElement::Direction(d) => self.direction(d),
            XmlMeasureElement::Note(n) => self.note(n),
            XmlMeasureElement::Attributes(a) => self.attributes(a),
            XmlMeasureElement::Barline(b) => self.barline(b, number),
            XmlMeasureElement::Backup(d) => if self.measure_pos < d {
                None
            } else {
                Some(ReadModel { measure_pos: (self.measure_pos - d) as u32, ..self })
            },
            XmlMeasureElement::Forward(d) => if self.measure_pos + d > u32::MAX || !has_last_measure(
                self.score,
            ) {
                None
            } else {
                Some(
                    ReadModel {
                        measure_pos: (self.measure_pos + d) as u32,
                        ..self.with_last_measure(last_measure(self.score).push_event(d))
                    },
                )
            },
            XmlMeasureElement::Other => Some(self),
        }
    }

    /// The elements of a measure numbered `number`, in order.
    pub open spec fn elements(self, es: Seq<XmlMeasureElement>, number: Seq<char>) -> Option<ReadModel> {
        fold_steps(self, es, element_step(number))
    }

    /// A measure: a new empty measure is added to the current part, the
    /// position starts at 0, the elements are read, and the measure is
    /// closed.
    pub open spec fn measure(self, m: XmlMeasure) -> Option<ReadModel> {
        if self.score.parts.len() == 0 {
            None
        } else {
            let p = self.score.parts.last();
            let st = ReadModel {
                measure_pos: 0,
                ..self.with_score(
                    set_last_part(self.score, PartModel { measures: p.measures.push(MeasureModel::empty()), ..p }),
                )
            };
            match st.elements(m.elements@, m.number@) {
                None => None,
                Some(st2) => st2.postprocess_measure(),
            }
        }
    }

    /// One element of a part; only measures are read.
    pub open spec fn part_element(self, e: XmlPartElement) -> Option<ReadModel> {
        match e {
            XmlPartElement::Measure(m) => self.measure(m),
            XmlPartElement::Other => Some(self),
        }
    }

    /// The elements of a part, in order.
    pub open spec fn part_elements(self, es: Seq<XmlPartElement>) -> Option<ReadModel> {
        fold_steps(self, es, part_element_step())
    }

    /// One reading of a part: a new empty part is added, the repeat start
    /// and first-ending length reset, and the part's elements read.
    pub open spec fn part_pass(self, p: XmlPart) -> Option<ReadModel> {
        let st = ReadModel {
            score: ScoreModel { parts: self.score.parts.push(PartModel::empty()), ..self.score },
            repeat_start: 0,
            first_ending_length: 0,
            ..self
        };
        st.part_elements(p.elements@)
    }

    /// One reading of a part for `voice`, giving a new part with
    /// `instrument`.
    pub open spec fn voice_pass(self, p: XmlPart, voice: (u32, u32), instrument: Option<Instrument>) -> Option<ReadModel> {
        match (ReadModel { voice, ..self }).part_pass(p) {
            None => None,
            Some(st2) => if st2.score.parts.len() == 0 {
                None
            } else {
                Some(
                    st2.with_score(set_last_part(st2.score, PartModel { instrument, ..st2.score.parts.last() })),
                )
            },
        }
    }

    /// A part read once for each of `voices` in turn, each reading giving a
    /// new part with `instrument`.
    pub open spec fn part_voices(self, p: XmlPart, voices: Seq<(u32, u32)>, instrument: Option<Instrument>) -> Option<ReadModel> {
        fold_steps(self, voices, voice_step(p, instrument))
    }
}

/// Voice pairs ordered by voice, then staff.
pub open spec fn voice_lt(a: (u32, u32), b: (u32, u32)) -> bool {
    a.0 < b.0 || (a.0 == b.0 && a.1 < b.1)
}

/// `v` added to the ascending list `s`, unless already there.
pub open spec fn insert_voice(s: Seq<(u32, u32)>, v: (u32, u32)) -> Seq<(u32, u32)>
    decreases s.len(),
{
    if s.len() == 0 {
        seq![v]
    } else if s[0] == v {
        s
    } else if voice_lt(v, s[0]) {
        seq![v] + s
    } else {
        seq![s[0]] + insert_voice(s.drop_first(), v)
    }
}

/// The voices of the notes among `es` added to `acc`, except (1, 1).
pub open spec fn element_voices(acc: Seq<(u32, u32)>, es: Seq<XmlMeasureElement>) -> Seq<(u32, u32)>
    decreases es.len(),
{
    if es.len() == 0 {
        acc
    } else {
        let before = element_voices(acc, es.drop_last());
        match es.last() {
            XmlMeasureElement::Note(n) => match note_voice(n) {
                Some(v) => if v == (1u32, 1u32) { before } else { insert_voice(before, v) },
                None => before,
            },
            _ => before,
        }
    }
}

/// The voices of the notes of the measures among `es` added to `acc`,
/// except (1, 1).
pub open spec fn part_element_voices(acc: Seq<(u32, u32)>, es: Seq<XmlPartElement>) -> Seq<(u32, u32)>
    decreases es.len(),
{
    if es.len() == 0 {
        acc
    } else {
        let before = part_element_voices(acc, es.drop_last());
        match es.last() {
            XmlPartElement::Measure(m) => element_voices(before, m.elements@),
            XmlPartElement::Other => before,
        }
    }
}

/// The order in which a part's voices are read: (1, 1) first, then the
/// other (voice, staff) pairs of its notes in ascending order.
pub open spec fn voice_order(p: XmlPart) -> Seq<(u32, u32)> {
    seq![(1u32, 1u32)] + part_element_voices(Seq::empty(), p.elements@)
}

/// The names of the part descriptions of a part list, in order.
pub open spec fn part_names(list: Seq<XmlPartListEntry>) -> Seq<Seq<char>>
    decreases list.len(),
{
    if list.len() == 0 {
        Seq::empty()
    } else {
        let before = part_names(list.drop_last());
        match list.last() {
            XmlPartListEntry::ScorePart(name) => before.push(name@),
            XmlPartListEntry::Other => before,
        }
    }
}

/// The lower-case form of a text, as the standard library gives it.
pub uninterp spec fn lowercase(s: Seq<char>) -> Seq<char>;

/// The lower-case form of `s`, from the standard library's `str::to_lowercase`;
/// the result is taken to depend on `s` alone.
#[verifier::external_body]
fn to_lowercase(s: &str) -> (r: String)
    ensures
        r@ == lowercase(s@),
{
    s.to_lowercase()
}

/// `needle` occurs in `hay`.
pub open spec fn contains_text(hay: Seq<char>, needle: Seq<char>) -> bool {
    exists|i: int| 0 <= i && i + needle.len() <= hay.len() && #[trigger] hay.subrange(i, i + needle.len()) == needle
}

/// The instrument a part name asks for: the first of "beep" and "sine"
/// (beep), "key" (keyboard), "bell", "waterphone", "snare" and "drum"
/// (drum) found in its lower-case form.
pub open spec fn instrument_for(lower: Seq<char>) -> Option<Instrument> {
    if contains_text(lower, seq!['b', 'e', 'e', 'p']) {
        Some(Instrument::Beep)
    } else if contains_text(lower, seq!['s', 'i', 'n', 'e']) {
        Some(Instrument::Beep)
    } else if contains_text(lower, seq!['k', 'e', 'y']) {
        Some(Instrument::Keyboard)
    } else if contains_text(lower, seq!['b', 'e', 'l', 'l']) {
        Some(Instrument::Bell)
    } else if contains_text(lower, seq!['w', 'a', 't', 'e', 'r', 'p', 'h', 'o', 'n', 'e']) {
        Some(Instrument::Waterphone)
    } else if contains_text(lower, seq!['s', 'n', 'a', 'r', 'e']) {
        Some(Instrument::Drum)
    } else if contains_text(lower, seq!['d', 'r', 'u', 'm']) {
        Some(Instrument::Drum)
    } else {
        None
    }
}

/// The reader before anything is read.
pub open spec fn initial_reader() -> ReadModel {
    ReadModel {
        score: ScoreModel { parts: Seq::empty(), bpm: None },
        repeat_start: 0,
        first_ending_length: 0,
        volta: Seq::empty(),
        voice: (0, 0),
        measure_pos: 0,
    }
}

/// The first `n` parts of the document read in turn, each paired with the
/// name of the part description at the same position.
pub open spec fn read_parts(doc: XmlScore, n: int) -> Option<ReadModel>
    decreases n,
{
    if n <= 0 {
        Some(initial_reader())
    } else {
        match read_parts(doc, n - 1) {
            None => None,
            Some(st) => {
                let p = doc.parts@[n - 1];
                st.part_voices(p, voice_order(p), instrument_for(lowercase(part_names(doc.part_list@)[n - 1])))
            },
        }
    }
}

/// The number of parts read: parts beyond the part list, or descriptions
/// beyond the parts, are ignored.
pub open spec fn parts_read(doc: XmlScore) -> int {
    let a = doc.parts@.len() as int;
    let b = part_names(doc.part_list@).len() as int;
    if a <= b { a } else { b }
}

/// The intermediate score read from a document; `None` where reading
/// cannot proceed.
pub open spec fn read_document(doc: XmlScore) -> Option<ScoreModel> {
    match read_parts(doc, parts_read(doc)) {
        None => None,
        Some(st) => Some(st.score),
    }
}

/// Reading one loudness marking, as a fold step.
pub open spec fn dynamic_step() -> spec_fn(ReadModel, XmlDynamic) -> Option<ReadModel> {
    |st: ReadModel, d: XmlDynamic| st.dynamic(d)
}

/// Reading one group of loudness markings, as a fold step.
pub open spec fn dynamic_group_step() -> spec_fn(ReadModel, Vec<XmlDynamic>) -> Option<ReadModel> {
    |st: ReadModel, g: Vec<XmlDynamic>| st.dynamic_group(g@)
}

/// Reading one kind of a direction, as a fold step.
pub open spec fn direction_type_step() -> spec_fn(ReadModel, XmlDirectionType) -> Option<ReadModel> {
    |st: ReadModel, t: XmlDirectionType| st.direction_type(t)
}

/// Reading one transposition, as a fold step.
pub open spec fn transpose_step() -> spec_fn(ReadModel, crate::compile::xml::XmlTranspose) -> Option<ReadModel> {
    |st: ReadModel, t: crate::compile::xml::XmlTranspose| st.transpose(t)
}

/// Reading one element of measure `number`, as a fold step.
pub open spec fn element_step(number: Seq<char>) -> spec_fn(ReadModel, XmlMeasureElement) -> Option<ReadModel> {
    |st: ReadModel, e: XmlMeasureElement| st.element(e, number)
}

/// Reading one element of a part, as a fold step.
pub open spec fn part_element_step() -> spec_fn(ReadModel, XmlPartElement) -> Option<ReadModel> {
    |st: ReadModel, e: XmlPartElement| st.part_element(e)
}

/// Reading a part for one voice, as a fold step.
pub open spec fn voice_step(p: XmlPart, instrument: Option<Instrument>) -> spec_fn(ReadModel, (u32, u32)) -> Option<ReadModel> {
    |st: ReadModel, v: (u32, u32)| st.voice_pass(p, v, instrument)
}

/// The reader: the score built so far and the state kept between
/// elements.
struct Reader {
    score: Score,
    repeat_start: usize,
    first_ending_length: usize,
    volta: Vec<(Vec<char>, Vec<char>)>,
    voice: (u32, u32),
    measure_pos: u32,
}

impl View for Reader {
    type V = ReadModel;

    closed spec fn view(&self) -> ReadModel {
        ReadModel {
            score: self.score@,
            repeat_start: self.repeat_start,
            first_ending_length: self.first_ending_length,
            volta: self.volta@.map_values(|e: (Vec<char>, Vec<char>)| (e.0@, e.1@)),
            voice: self.voice,
            measure_pos: self.measure_pos,
        }
    }
}

/// Replacing the last measure twice keeps only the second replacement.
proof fn lemma_set_last_measure_twice(s: ScoreModel, a: MeasureModel, b: MeasureModel)
    requires
        has_last_measure(s),
    ensures
        set_last_measure(set_last_measure(s, a), b) =~= set_last_measure(s, b),
        has_last_measure(set_last_measure(s, a)),
        last_measure(set_last_measure(s, a)) == a,
{
    let p = s.parts.last();
    let k = p.measures.len() - 1;
    let s1 = set_last_measure(s, a);
    assert(s1.parts.last().measures =~= p.measures.update(k, a));
    assert(s1.parts.last().measures.update(k, b) =~= p.measures.update(k, b));
    assert(set_last_measure(s1, b).parts.last() == set_last_measure(s, b).parts.last());
    assert(set_last_measure(s1, b).parts =~= set_last_measure(s, b).parts);
}

/// Putting the last measure back in its place changes nothing.
proof fn lemma_set_last_measure_same(s: ScoreModel)
    requires
        has_last_measure(s),
    ensures
        set_last_measure(s, last_measure(s)) == s,
{
    let p = s.parts.last();
    assert(p.measures.update(p.measures.len() - 1, last_measure(s)) =~= p.measures);
    assert(set_last_measure(s, last_measure(s)).parts =~= s.parts);
}

/// Replacing the last part twice keeps only the second replacement.
proof fn lemma_set_last_part_twice(s: ScoreModel, a: PartModel, b: PartModel)
    requires
        s.parts.len() > 0,
    ensures
        set_last_part(set_last_part(s, a), b) =~= set_last_part(s, b),
        set_last_part(s, a).parts.last() == a,
        set_last_part(s, a).parts.len() == s.parts.len(),
{
    assert(set_last_part(set_last_part(s, a), b).parts =~= set_last_part(s, b).parts);
}

impl Reader {
    /// Take the last measure out, leaving an empty one in its place.
    fn take_last_measure(&mut self) -> (m: Measure)
        requires
            has_last_measure(old(self)@.score),
        ensures
            m@ == last_measure(old(self)@.score),
            final(self)@ == old(self)@.with_last_measure(MeasureModel::empty()),
    {
        let pi = self.score.parts.len() - 1;
        let mi = self.score.parts[pi].measures.len() - 1;
        let mut m = Measure::new();
        std::mem::swap(&mut m, &mut self.score.parts[pi].measures[mi]);
        assert(self@.score.parts[pi as int].measures =~= old(self)@.score.parts[pi as int].measures.update(
            mi as int,
            MeasureModel::empty(),
        ));
        assert(self@.score.parts =~= old(self)@.with_last_measure(MeasureModel::empty()).score.parts);
        m
    }

    /// Put `m` in place of the last measure.
    fn put_last_measure(&mut self, m: Measure)
        requires
            has_last_measure(old(self)@.score),
        ensures
            final(self)@ == old(self)@.with_last_measure(m@),
    {
        let pi = self.score.parts.len() - 1;
        let mi = self.score.parts[pi].measures.len() - 1;
        let ghost mm = m@;
        self.score.parts[pi].measures.set(mi, m);
        assert(self@.score.parts[pi as int].measures =~= old(self)@.score.parts[pi as int].measures.update(
            mi as int,
            mm,
        ));
        assert(self@.score.parts =~= old(self)@.with_last_measure(mm).score.parts);
    }

    /// Take the last part out, leaving an empty one in its place.
    fn take_last_part(&mut self) -> (p: Part)
        requires
            old(self)@.score.parts.len() > 0,
        ensures
            p@ == old(self)@.score.parts.last(),
            final(self)@ == old(self)@.with_score(set_last_part(old(self)@.score, PartModel::empty())),
    {
        let pi = self.score.parts.len() - 1;
        let mut p = Part::new();
        std::mem::swap(&mut p, &mut self.score.parts[pi]);
        assert(self@.score.parts =~= set_last_part(old(self)@.score, PartModel::empty()).parts);
        p
    }

    /// Put `p` in place of the last part.
    fn put_last_part(&mut self, p: Part)
        requires
            old(self)@.score.parts.len() > 0,
        ensures
            final(self)@ == old(self)@.with_score(set_last_part(old(self)@.score, p@)),
    {
        let pi = self.score.parts.len() - 1;
        let ghost pm = p@;
        self.score.parts.set(pi, p);
        assert(self@.score.parts =~= set_last_part(old(self)@.score, pm).parts);
    }

    fn has_last_measure(&self) -> (b: bool)
        ensures
            b == has_last_measure(self@.score),
    {
        self.score.parts.len() > 0 && self.score.parts[self.score.parts.len() - 1].measures.len() > 0
    }

    /// Close the current measure (see [`ReadModel::postprocess_measure`]).
    fn postprocess_measure(&mut self) -> (ok: bool)
        ensures
            ok == old(self)@.postprocess_measure() is Some,
            ok ==> final(self)@ == old(self)@.postprocess_measure()->0,
    {
        if !self.has_last_measure() {
            return false;
        }
        let mut m = self.take_last_measure();
        let d = match m.try_duration() {
            None => {
                return false;
            },
            Some(d) => d,
        };
        if self.measure_pos > d {
            m.append_rest(self.measure_pos - d);
        }
        self.put_last_measure(m);
        proof {
            lemma_set_last_measure_twice(old(self)@.score, MeasureModel::empty(), m@);
            lemma_set_last_measure_same(old(self)@.score);
        }
        true
    }
}

/// The last event position of `items` is an event within bounds.
pub proof fn lemma_last_event_index_bounds(items: Seq<MeasureItemModel>)
    ensures
        last_event_index(items) matches Some(k) ==> 0 <= k < items.len() && items[k] is Event,
{
    crate::compile::output::lemma_last_event_index(items);
}

/// A measure's items hold no event exactly when it has no last event.
pub proof fn lemma_no_last_event(items: Seq<MeasureItemModel>)
    ensures
        last_event_index(items) is None <==> crate::compile::output::item_events(items).len() == 0,
    decreases items.len(),
{
    if items.len() > 0 {
        lemma_no_last_event(items.drop_last());
    }
}

fn quaver_from(v: NoteTypeValue) -> (q: Option<Quaver>)
    ensures
        q == quaver_of(v),
{
    match v {
        NoteTypeValue::Breve => Some(Quaver::Double),
        NoteTypeValue::Whole => Some(Quaver::Whole),
        NoteTypeValue::Half => Some(Quaver::Half),
        NoteTypeValue::Quarter => Some(Quaver::Quarter),
        NoteTypeValue::Eighth => Some(Quaver::Eighth),
        NoteTypeValue::Sixteenth => Some(Quaver::Sixteenth),
        _ => None,
    }
}

/// The number a whole text reads as (see [`parse_u32`]).
pub fn parse_u32_text(s: &String) -> (r: Option<u32>)
    ensures
        r == parse_u32(s@),
{
    let cs = chars_of(s.as_str());
    assert(cs@.subrange(0, cs@.len() as int) =~= cs@);
    parse_u32_at(&cs, 0, cs.len())
}

/// The tempo a metronome marking gives (see [`metronome_value`]).
pub fn metronome_from(m: &XmlMetronome) -> (r: Option<Metronome>)
    ensures
        r == metronome_value(*m),
{
    match m {
        XmlMetronome::PerMinute { beat_unit, per_minute } => {
            match (quaver_from(*beat_unit), parse_u32_text(per_minute)) {
                (Some(q), Some(b)) => Some(Metronome { note_value: q, beat: b }),
                _ => None,
            }
        },
        XmlMetronome::Other => None,
    }
}

fn dynamic_from(d: XmlDynamic) -> (r: Option<Dynamic>)
    ensures
        r == dynamic_of(d),
{
    match d {
        XmlDynamic::Pp => Some(Dynamic::Pianissimo),
        XmlDynamic::P => Some(Dynamic::Piano),
        XmlDynamic::Mp => Some(Dynamic::MezzoPiano),
        XmlDynamic::Mf => Some(Dynamic::MezzoForte),
        XmlDynamic::F => Some(Dynamic::Forte),
        XmlDynamic::Ff => Some(Dynamic::Fortissimo),
        XmlDynamic::Other => None,
    }
}

impl Reader {
    fn metronome(&mut self, m: &XmlMetronome) -> (ok: bool)
        ensures
            ok == old(self)@.metronome(*m) is Some,
            ok ==> final(self)@ == old(self)@.metronome(*m)->0,
    {
        if !self.has_last_measure() {
            return false;
        }
        let mut lm = self.take_last_measure();
        proof { lemma_no_last_event(lm@.items); }
        if lm.last_event_index().is_some() || lm.metronome.is_some() {
            return false;
        }
        match metronome_from(m) {
            None => {
                return false;
            },
            Some(v) => {
                lm.metronome = Some(v);
            },
        }
        self.put_last_measure(lm);
        proof { lemma_set_last_measure_twice(old(self)@.score, MeasureModel::empty(), lm@); }
        true
    }

    fn dynamic(&mut self, d: XmlDynamic) -> (ok: bool)
        ensures
            ok == old(self)@.dynamic(d) is Some,
            ok ==> final(self)@ == old(self)@.dynamic(d)->0,
    {
        if !self.has_last_measure() {
            return false;
        }
        let x = match dynamic_from(d) {
            None => return false,
            Some(x) => x,
        };
        let mut lm = self.take_last_measure();
        let ghost before = lm@;
        lm.items.push(MeasureItem::Dynamic(x));
        assert(lm@.items =~= before.items.push(MeasureItemModel::Dynamic(x)));
        self.put_last_measure(lm);
        proof { lemma_set_last_measure_twice(old(self)@.score, MeasureModel::empty(), lm@); }
        true
    }

    fn dynamic_group(&mut self, ds: &Vec<XmlDynamic>) -> (ok: bool)
        ensures
            ok == old(self)@.dynamic_group(ds@) is Some,
            ok ==> final(self)@ == old(self)@.dynamic_group(ds@)->0,
    {
        let ghost st0 = self@;
        proof { lemma_fold_all(st0, ds@, dynamic_step()); }
        let mut i: usize = 0;
        while i < ds.len()
            invariant
                i <= ds@.len(),
                st0 == old(self)@,
                fold_steps(st0, ds@.take(i as int), dynamic_step()) == Some(self@),
            decreases ds@.len() - i,
        {
            proof { lemma_fold_step(st0, ds@, i as int, dynamic_step()); }
            if !self.dynamic(ds[i]) {
                proof { lemma_fold_prefix_none(st0, ds@, i as int + 1, dynamic_step()); }
                return false;
            }
            i = i + 1;
        }
        proof { lemma_fold_all(st0, ds@, dynamic_step()); }
        true
    }

    fn dynamic_groups(&mut self, gs: &Vec<Vec<XmlDynamic>>) -> (ok: bool)
        ensures
            ok == old(self)@.dynamic_groups(gs@) is Some,
            ok ==> final(self)@ == old(self)@.dynamic_groups(gs@)->0,
    {
        let ghost st0 = self@;
        proof { lemma_fold_all(st0, gs@, dynamic_group_step()); }
        let mut i: usize = 0;
        while i < gs.len()
            invariant
                i <= gs@.len(),
                st0 == old(self)@,
                fold_steps(st0, gs@.take(i as int), dynamic_group_step()) == Some(self@),
            decreases gs@.len() - i,
        {
            proof { lemma_fold_step(st0, gs@, i as int, dynamic_group_step()); }
            if !self.dynamic_group(&gs[i]) {
                proof { lemma_fold_prefix_none(st0, gs@, i as int + 1, dynamic_group_step()); }
                return false;
            }
            i = i + 1;
        }
        proof { lemma_fold_all(st0, gs@, dynamic_group_step()); }
        true
    }

    fn direction_type(&mut self, t: &XmlDirectionType) -> (ok: bool)
        ensures
            ok == old(self)@.direction_type(*t) is Some,
            ok ==> final(self)@ == old(self)@.direction_type(*t)->0,
    {
        match t {
            XmlDirectionType::Metronome(m) => self.metronome(m),
            XmlDirectionType::Dynamics(gs) => self.dynamic_groups(gs),
            XmlDirectionType::Other => true,
        }
    }

    fn try_direction(&mut self, d: &XmlDirection) -> (ok: bool)
        ensures
            ok == old(self)@.direction(*d) is Some,
            ok ==> final(self)@ == old(self)@.direction(*d)->0,
    {
        let staff = match d.staff {
            Some(s) => s,
            None => 1,
        };
        if staff != self.voice.1 {
            return true;
        }
        let ts = &d.types;
        let ghost st0 = self@;
        proof { lemma_fold_all(st0, ts@, direction_type_step()); }
        let mut i: usize = 0;
        while i < ts.len()
            invariant
                i <= ts@.len(),
                st0 == old(self)@,
                ts@ == d.types@,
                staff_of(d.staff) == st0.voice.1,
                fold_steps(st0, ts@.take(i as int), direction_type_step()) == Some(self@),
            decreases ts@.len() - i,
        {
            proof { lemma_fold_step(st0, ts@, i as int, direction_type_step()); }
            if !self.direction_type(&ts[i]) {
                proof { lemma_fold_prefix_none(st0, ts@, i as int + 1, direction_type_step()); }
                return false;
            }
            i = i + 1;
        }
        proof { lemma_fold_all(st0, ts@, direction_type_step()); }
        true
    }
}

/// A copy of `v`.
pub fn copy_chars(v: &Vec<char>) -> (r: Vec<char>)
    ensures
        r@ == v@,
{
    let mut r: Vec<char> = Vec::new();
    let mut i: usize = 0;
    while i < v.len()
        invariant
            i <= v@.len(),
            r@ == v@.take(i as int),
        decreases v@.len() - i,
    {
        r.push(v[i]);
        i = i + 1;
        assert(r@ =~= v@.take(i as int));
    }
    assert(v@.take(i as int) =~= v@);
    r
}

/// Whether `a` and `b` hold the same characters.
pub fn chars_eq(a: &Vec<char>, b: &Vec<char>) -> (r: bool)
    ensures
        r == (a@ == b@),
{
    if a.len() != b.len() {
        return false;
    }
    let mut i: usize = 0;
    while i < a.len()
        invariant
            i <= a@.len(),
            a@.len() == b@.len(),
            forall|k: int| 0 <= k < i ==> a@[k] == b@[k],
        decreases a@.len() - i,
    {
        if a[i] != b[i] {
            return false;
        }
        i = i + 1;
    }
    assert(a@ =~= b@);
    true
}

/// A copy of `e`.
fn copy_event(e: &Event) -> (r: Event)
    ensures
        r@ == e@,
{
    let mut notes: Vec<Note> = Vec::new();
    let mut i: usize = 0;
    while i < e.notes.len()
        invariant
            i <= e.notes@.len(),
            notes@ == e.notes@.take(i as int),
        decreases e.notes@.len() - i,
    {
        notes.push(e.notes[i]);
        i = i + 1;
        assert(notes@ =~= e.notes@.take(i as int));
    }
    assert(e.notes@.take(i as int) =~= e.notes@);
    Event { duration: e.duration, notes, staccato: e.staccato }
}

/// A copy of `m`.
pub fn copy_measure(m: &Measure) -> (r: Measure)
    ensures
        r@ == m@,
{
    let mut items: Vec<MeasureItem> = Vec::new();
    let mut i: usize = 0;
    while i < m.items.len()
        invariant
            i <= m.items@.len(),
            items@.map_values(|x: MeasureItem| x@) == m@.items.take(i as int),
        decreases m.items@.len() - i,
    {
        let item = match &m.items[i] {
            MeasureItem::Event(e) => MeasureItem::Event(copy_event(e)),
            MeasureItem::Dynamic(d) => MeasureItem::Dynamic(*d),
        };
        assert(item@ == m@.items[i as int]);
        let ghost before = items@.map_values(|x: MeasureItem| x@);
        items.push(item);
        assert(items@.map_values(|x: MeasureItem| x@) =~= before.push(item@));
        assert(m@.items.take(i as int + 1) =~= m@.items.take(i as int).push(m@.items[i as int]));
        i = i + 1;
    }
    assert(m@.items.take(i as int) =~= m@.items);
    Measure { carryover: m.carryover, items, divisions: m.divisions, metronome: m.metronome }
}

impl Reader {
    fn transpose(&mut self, t: crate::compile::xml::XmlTranspose) -> (ok: bool)
        ensures
            ok == old(self)@.transpose(t) is Some,
            ok ==> final(self)@ == old(self)@.transpose(t)->0,
    {
        if self.score.parts.len() == 0 {
            return false;
        }
        let mut p = self.take_last_part();
        if p.transpose.is_some() {
            return false;
        }
        p.transpose = Some(Transpose {
            octave: match t.octave_change {
                Some(o) => o as i16,
                None => 0,
            },
            chromatic: t.chromatic,
        });
        self.put_last_part(p);
        proof { lemma_set_last_part_twice(old(self)@.score, PartModel::empty(), p@); }
        true
    }

    fn attributes(&mut self, a: &XmlAttributes) -> (ok: bool)
        ensures
            ok == old(self)@.attributes(*a) is Some,
            ok ==> final(self)@ == old(self)@.attributes(*a)->0,
    {
        if !self.has_last_measure() {
            return false;
        }
        if let Some(d) = a.divisions {
            let mut lm = self.take_last_measure();
            lm.divisions = Some(d);
            self.put_last_measure(lm);
            proof { lemma_set_last_measure_twice(old(self)@.score, MeasureModel::empty(), lm@); }
        }
        let ts = &a.transposes;
        let ghost st0 = self@;
        proof { lemma_fold_all(st0, ts@, transpose_step()); }
        let mut i: usize = 0;
        while i < ts.len()
            invariant
                i <= ts@.len(),
                ts@ == a.transposes@,
                has_last_measure(old(self)@.score),
                st0 == (match a.divisions {
                    Some(d) => old(self)@.with_last_measure(
                        MeasureModel { divisions: Some(d), ..last_measure(old(self)@.score) },
                    ),
                    None => old(self)@,
                }),
                fold_steps(st0, ts@.take(i as int), transpose_step()) == Some(self@),
            decreases ts@.len() - i,
        {
            proof { lemma_fold_step(st0, ts@, i as int, transpose_step()); }
            if !self.transpose(ts[i]) {
                proof { lemma_fold_prefix_none(st0, ts@, i as int + 1, transpose_step()); }
                return false;
            }
            i = i + 1;
        }
        proof { lemma_fold_all(st0, ts@, transpose_step()); }
        true
    }

    /// The ending number last recorded for measure `key`.
    fn volta_get(&self, key: &Vec<char>) -> (r: Option<usize>)
        ensures
            r matches Some(k) ==> k < self.volta@.len() && volta_lookup(self@.volta, key@) == Some(
                self.volta@[k as int].1@,
            ),
            r is None ==> volta_lookup(self@.volta, key@) is None,
    {
        let ghost all = self@.volta;
        let mut i: usize = self.volta.len();
        assert(all.take(i as int) =~= all);
        while i > 0
            invariant
                i <= self.volta@.len(),
                all == self@.volta,
                volta_lookup(all, key@) == volta_lookup(all.take(i as int), key@),
            decreases i,
        {
            assert(all.take(i as int).drop_last() =~= all.take(i as int - 1));
            assert(all.take(i as int).last() == (self.volta@[i - 1].0@, self.volta@[i - 1].1@));
            if chars_eq(&self.volta[i - 1].0, key) {
                return Some(i - 1);
            }
            i = i - 1;
        }
        None
    }

    fn barline(&mut self, b: &XmlBarline, number: &Vec<char>) -> (ok: bool)
        ensures
            ok == old(self)@.barline(*b, number@) is Some,
            ok ==> final(self)@ == old(self)@.barline(*b, number@)->0,
    {
        if let Some(e) = &b.ending {
            let ghost before = self@.volta;
            let entry = (copy_chars(number), chars_of(e.as_str()));
            self.volta.push(entry);
            assert(self@.volta =~= before.push((number@, e@)));
        }
        let ghost st = self@;
        match b.location {
            Some(BarLocation::Left) => {
                if b.repeat == Some(RepeatDirection::Forward) {
                    if self.score.parts.len() == 0 {
                        return false;
                    }
                    let n = self.score.parts[self.score.parts.len() - 1].measures.len();
                    if n == 0 {
                        return false;
                    }
                    self.repeat_start = n - 1;
                }
                true
            },
            Some(BarLocation::Right) => {
                let is_first = match self.volta_get(number) {
                    Some(k) => {
                        let one = vec!['1'];
                        assert(one@ =~= seq!['1']);
                        chars_eq(&self.volta[k].1, &one)
                    },
                    None => false,
                };
                if is_first {
                    if self.first_ending_length == usize::MAX {
                        return false;
                    }
                    self.first_ending_length = self.first_ending_length + 1;
                }
                if b.repeat == Some(RepeatDirection::Backward) {
                    if !self.postprocess_measure() {
                        return false;
                    }
                    let ghost st3 = self@;
                    let mut p = self.take_last_part();
                    let n = p.measures.len();
                    if self.repeat_start > n {
                        return false;
                    }
                    let ghost ms = p@.measures;
                    let mut j = self.repeat_start;
                    while j < n
                        invariant
                            self.repeat_start <= j <= n,
                            n == ms.len(),
                            p@.measures == ms + ms.subrange(self.repeat_start as int, j as int),
                            p.measures@.len() == n + j - self.repeat_start,
                            p@.transpose == st3.score.parts.last().transpose,
                            p@.instrument == st3.score.parts.last().instrument,
                        decreases n - j,
                    {
                        assert(p@.measures[j as int] == ms[j as int]);
                        let copy = copy_measure(&p.measures[j]);
                        let ghost before = p@.measures;
                        p.measures.push(copy);
                        assert(p@.measures =~= before.push(ms[j as int]));
                        j = j + 1;
                        assert(p@.measures =~= ms + ms.subrange(self.repeat_start as int, j as int));
                    }
                    assert(ms.subrange(self.repeat_start as int, n as int) =~= ms.skip(self.repeat_start as int));
                    let ghost ext = p@.measures;
                    let mut k: usize = 0;
                    while k < self.first_ending_length && p.measures.len() > 0
                        invariant
                            k <= self.first_ending_length,
                            p@.measures == (if k >= ext.len() { Seq::<MeasureModel>::empty() } else { ext.take(ext.len() - k) }),
                            p@.transpose == st3.score.parts.last().transpose,
                            p@.instrument == st3.score.parts.last().instrument,
                        decreases self.first_ending_length - k,
                    {
                        let ghost before = p@.measures;
                        p.measures.pop();
                        assert(p@.measures =~= before.drop_last());
                        k = k + 1;
                        assert(p@.measures =~= (if k >= ext.len() { Seq::<MeasureModel>::empty() } else { ext.take(ext.len() - k) }));
                    }
                    assert(p@.measures =~= (if self.first_ending_length >= ext.len() { Seq::<MeasureModel>::empty() } else { ext.take(ext.len() - self.first_ending_length) }));
                    self.first_ending_length = 0;
                    self.put_last_part(p);
                    proof { lemma_set_last_part_twice(st3.score, PartModel::empty(), p@); }
                }
                true
            },
            _ => true,
        }
    }
}

fn sound_note_of(snd: XmlSound) -> (r: Option<Note>)
    ensures
        r == sound_note(snd),
{
    match snd {
        XmlSound::Pitch { step, alter, octave } => Some(
            Note {
                step,
                semitone: match alter {
                    Some(a) => a,
                    None => 0,
                },
                octave: octave as i16,
            },
        ),
        XmlSound::Unpitched { step, octave } => Some(Note { step, semitone: 0, octave: octave as i16 }),
        XmlSound::Rest => None,
    }
}

/// Whether some notation of `n` is a staccato articulation.
fn note_has_staccato(n: &XmlNote) -> (b: bool)
    ensures
        b == has_staccato(*n),
{
    let mut i: usize = 0;
    while i < n.notations.len()
        invariant
            i <= n.notations@.len(),
            forall|a: int, b: int|
                0 <= a < i && 0 <= b < n.notations@[a]@.len() ==> !notation_has_staccato(
                    #[trigger] n.notations@[a]@[b],
                ),
        decreases n.notations@.len() - i,
    {
        let group = &n.notations[i];
        let mut j: usize = 0;
        while j < group.len()
            invariant
                i < n.notations@.len(),
                group == n.notations@[i as int],
                j <= group@.len(),
                forall|a: int, b: int|
                    0 <= a < i && 0 <= b < n.notations@[a]@.len() ==> !notation_has_staccato(
                        #[trigger] n.notations@[a]@[b],
                    ),
                forall|b: int| 0 <= b < j ==> !notation_has_staccato(#[trigger] group@[b]),
            decreases group@.len() - j,
        {
            if let XmlNotation::Articulations(arts) = &group[j] {
                let mut k: usize = 0;
                while k < arts.len()
                    invariant
                        i < n.notations@.len(),
                        group == n.notations@[i as int],
                        j < group@.len(),
                        group@[j as int] == XmlNotation::Articulations(*arts),
                        k <= arts@.len(),
                        forall|c: int| 0 <= c < k ==> !((#[trigger] arts@[c]) is Staccato),
                    decreases arts@.len() - k,
                {
                    if arts[k] == XmlArticulation::Staccato {
                        assert(notation_has_staccato(group@[j as int]));
                        assert(notation_has_staccato(n.notations@[i as int]@[j as int]));
                        return true;
                    }
                    k = k + 1;
                }
            }
            j = j + 1;
        }
        i = i + 1;
    }
    false
}

/// Whether the event at item `k` of `m` holds note `x`.
fn event_contains(m: &Measure, k: usize, x: Note) -> (b: bool)
    requires
        k < m.items@.len(),
        m@.items[k as int] is Event,
    ensures
        b == event_at(m@, k as int).notes.contains(x),
{
    assert(m@.items[k as int] == m.items@[k as int]@);
    match &m.items[k] {
        MeasureItem::Event(e) => {
            assert(event_at(m@, k as int).notes == e.notes@);
            let mut i: usize = 0;
            while i < e.notes.len()
                invariant
                    event_at(m@, k as int).notes == e.notes@,
                    i <= e.notes@.len(),
                    forall|j: int| 0 <= j < i ==> e.notes@[j] != x,
                decreases e.notes@.len() - i,
            {
                if e.notes[i] == x {
                    assert(e.notes@[i as int] == x);
                    return true;
                }
                i = i + 1;
            }
            false
        },
        MeasureItem::Dynamic(_) => false,
    }
}

/// Add `out` (if a note) to the event at item `k` of `m`, and mark it
/// staccato when `staccato` is set.
fn update_event(m: &mut Measure, k: usize, out: Option<Note>, staccato: bool)
    requires
        k < old(m).items@.len(),
        old(m)@.items[k as int] is Event,
    ensures
        final(m)@ == set_event(
            old(m)@,
            k as int,
            EventModel {
                notes: match out {
                    Some(x) => event_at(old(m)@, k as int).notes.push(x),
                    None => event_at(old(m)@, k as int).notes,
                },
                staccato: if staccato { true } else { event_at(old(m)@, k as int).staccato },
                ..event_at(old(m)@, k as int)
            },
        ),
{
    assert(old(m)@.items[k as int] == old(m).items@[k as int]@);
    match &mut m.items[k] {
        MeasureItem::Event(e) => {
            if let Some(x) = out {
                e.notes.push(x);
            }
            if staccato {
                e.staccato = true;
            }
        },
        MeasureItem::Dynamic(_) => {},
    }
    assert(m@.items =~= old(m)@.items.update(
        k as int,
        MeasureItemModel::Event(
            EventModel {
                notes: match out {
                    Some(x) => event_at(old(m)@, k as int).notes.push(x),
                    None => event_at(old(m)@, k as int).notes,
                },
                staccato: if staccato { true } else { event_at(old(m)@, k as int).staccato },
                ..event_at(old(m)@, k as int)
            },
        ),
    ));
}

/// Raise the duration of the event at item `k` of `m` by `d`.
fn lengthen_event(m: &mut Measure, k: usize, d: u32)
    requires
        k < old(m).items@.len(),
        old(m)@.items[k as int] is Event,
        event_at(old(m)@, k as int).duration + d <= u32::MAX,
    ensures
        final(m)@ == set_event(
            old(m)@,
            k as int,
            EventModel {
                duration: (event_at(old(m)@, k as int).duration + d) as u32,
                ..event_at(old(m)@, k as int)
            },
        ),
{
    assert(old(m)@.items[k as int] == old(m).items@[k as int]@);
    match &mut m.items[k] {
        MeasureItem::Event(e) => {
            e.duration = e.duration + d;
        },
        MeasureItem::Dynamic(_) => {},
    }
    assert(m@.items =~= old(m)@.items.update(
        k as int,
        MeasureItemModel::Event(
            EventModel {
                duration: (event_at(old(m)@, k as int).duration + d) as u32,
                ..event_at(old(m)@, k as int)
            },
        ),
    ));
}

impl Reader {
    fn note_body(&mut self, n: &XmlNote) -> (ok: bool)
        requires
            n.info is Some,
        ensures
            ok == old(self)@.note_body(*n) is Some,
            ok ==> final(self)@ == old(self)@.note_body(*n)->0,
    {
        let info = match &n.info {
            Some(info) => info,
            None => {
                return false;
            },
        };
        let d = info.duration;
        let out = sound_note_of(info.sound);
        if !self.has_last_measure() {
            return false;
        }
        let ghost s0 = old(self)@.score;
        let mut lm = self.take_last_measure();
        proof {
            lemma_last_event_index_bounds(lm@.items);
            lemma_set_last_measure_same(s0);
        }
        if info.ties.len() > 0 && tie_text_stops(&info.ties[0]) {
            match lm.last_event_index() {
                Some(k) => {
                    let x = match out {
                        None => {
                            return false;
                        },
                        Some(x) => x,
                    };
                    if !event_contains(&lm, k, x) {
                        return false;
                    }
                    if !info.chord {
                        let (dur, _count) = crate::compile::output::event_shape(&lm, k);
                        if dur > u32::MAX - d {
                            return false;
                        }
                        lengthen_event(&mut lm, k, d);
                    }
                },
                None => {
                    if !info.chord {
                        if lm.carryover > u32::MAX - d {
                            return false;
                        }
                        lm.carryover = lm.carryover + d;
                    }
                },
            }
        } else {
            let k = if info.chord {
                match lm.last_event_index() {
                    None => {
                        return false;
                    },
                    Some(k) => {
                        let (dur, _count) = crate::compile::output::event_shape(&lm, k);
                        if dur != d {
                            return false;
                        }
                        k
                    },
                }
            } else {
                lm.append_rest(d);
                assert(lm@.items.last() is Event);
                lm.items.len() - 1
            };
            let stacc = note_has_staccato(n);
            update_event(&mut lm, k, out, stacc);
        }
        self.put_last_measure(lm);
        proof { lemma_set_last_measure_twice(s0, MeasureModel::empty(), lm@); }
        true
    }

    fn try_note(&mut self, n: &XmlNote) -> (ok: bool)
        ensures
            ok == old(self)@.note(*n) is Some,
            ok ==> final(self)@ == old(self)@.note(*n)->0,
    {
        let info = match &n.info {
            None => {
                return true;
            },
            Some(info) => info,
        };
        let d = info.duration;
        if !info.chord {
            if self.measure_pos > u32::MAX - d {
                return false;
            }
            self.measure_pos = self.measure_pos + d;
        }
        let staff = match n.staff {
            Some(s) => s,
            None => 1,
        };
        match &n.voice {
            Some(v) => match parse_u32_text(v) {
                None => false,
                Some(vn) => {
                    if vn == 2 && staff != 1 {
                        false
                    } else if vn != self.voice.0 || staff != self.voice.1 {
                        true
                    } else {
                        self.note_body(n)
                    }
                },
            },
            None => self.note_body(n),
        }
    }
}

impl Reader {
    fn element(&mut self, e: &XmlMeasureElement, number: &Vec<char>) -> (ok: bool)
        ensures
            ok == old(self)@.element(*e, number@) is Some,
            ok ==> final(self)@ == old(self)@.element(*e, number@)->0,
    {
        match e {
            XmlMeasureElement::Direction(d) => self.try_direction(d),
            XmlMeasureElement::Note(n) => self.try_note(n),
            XmlMeasureElement::Attributes(a) => self.attributes(a),
            XmlMeasureElement::Barline(b) => self.barline(b, number),
            XmlMeasureElement::Backup(d) => {
                if self.measure_pos < *d {
                    return false;
                }
                self.measure_pos = self.measure_pos - *d;
                true
            },
            XmlMeasureElement::Forward(d) => {
                if self.measure_pos > u32::MAX - *d || !self.has_last_measure() {
                    return false;
                }
                let mut lm = self.take_last_measure();
                lm.append_rest(*d);
                self.put_last_measure(lm);
                proof { lemma_set_last_measure_twice(old(self)@.score, MeasureModel::empty(), lm@); }
                self.measure_pos = self.measure_pos + *d;
                true
            },
            XmlMeasureElement::Other => true,
        }
    }

    fn measure(&mut self, m: &XmlMeasure) -> (ok: bool)
        ensures
            ok == old(self)@.measure(*m) is Some,
            ok ==> final(self)@ == old(self)@.measure(*m)->0,
    {
        if self.score.parts.len() == 0 {
            return false;
        }
        let mut p = self.take_last_part();
        let ghost pm = p@;
        p.add_measure();
        self.put_last_part(p);
        proof { lemma_set_last_part_twice(old(self)@.score, PartModel::empty(), p@); }
        self.measure_pos = 0;
        let number = chars_of(m.number.as_str());
        let es = &m.elements;
        let ghost st0 = self@;
        let ghost o = old(self)@;
        let ghost lp = o.score.parts.last();
        assert(st0 == ReadModel {
            measure_pos: 0,
            ..o.with_score(set_last_part(o.score, PartModel { measures: lp.measures.push(MeasureModel::empty()), ..lp }))
        });
        proof { lemma_fold_all(st0, es@, element_step(number@)); }
        let mut i: usize = 0;
        while i < es.len()
            invariant
                o == old(self)@,
                o.score.parts.len() > 0,
                st0 == (ReadModel {
                    measure_pos: 0,
                    ..o.with_score(
                        set_last_part(o.score, PartModel { measures: o.score.parts.last().measures.push(MeasureModel::empty()), ..o.score.parts.last() }),
                    )
                }),
                i <= es@.len(),
                es@ == m.elements@,
                number@ == m.number@,
                fold_steps(st0, es@.take(i as int), element_step(number@)) == Some(self@),
            decreases es@.len() - i,
        {
            proof { lemma_fold_step(st0, es@, i as int, element_step(number@)); }
            if !self.element(&es[i], &number) {
                proof { lemma_fold_prefix_none(st0, es@, i as int + 1, element_step(number@)); }
                return false;
            }
            i = i + 1;
        }
        proof { lemma_fold_all(st0, es@, element_step(number@)); }
        self.postprocess_measure()
    }

    fn part_element(&mut self, e: &XmlPartElement) -> (ok: bool)
        ensures
            ok == old(self)@.part_element(*e) is Some,
            ok ==> final(self)@ == old(self)@.part_element(*e)->0,
    {
        match e {
            XmlPartElement::Measure(m) => self.measure(m),
            XmlPartElement::Other => true,
        }
    }

    fn part_pass(&mut self, p: &XmlPart) -> (ok: bool)
        ensures
            ok == old(self)@.part_pass(*p) is Some,
            ok ==> final(self)@ == old(self)@.part_pass(*p)->0,
    {
        let ghost before = self@.score.parts;
        self.score.parts.push(Part::new());
        assert(self@.score.parts =~= before.push(PartModel::empty()));
        self.repeat_start = 0;
        self.first_ending_length = 0;
        let es = &p.elements;
        let ghost st0 = self@;
        let ghost o = old(self)@;
        assert(st0 == ReadModel {
            score: ScoreModel { parts: o.score.parts.push(PartModel::empty()), ..o.score },
            repeat_start: 0,
            first_ending_length: 0,
            ..o
        });
        proof { lemma_fold_all(st0, es@, part_element_step()); }
        let mut i: usize = 0;
        while i < es.len()
            invariant
                o == old(self)@,
                st0 == (ReadModel {
                    score: ScoreModel { parts: o.score.parts.push(PartModel::empty()), ..o.score },
                    repeat_start: 0,
                    first_ending_length: 0,
                    ..o
                }),
                i <= es@.len(),
                es@ == p.elements@,
                fold_steps(st0, es@.take(i as int), part_element_step()) == Some(self@),
            decreases es@.len() - i,
        {
            proof { lemma_fold_step(st0, es@, i as int, part_element_step()); }
            if !self.part_element(&es[i]) {
                proof { lemma_fold_prefix_none(st0, es@, i as int + 1, part_element_step()); }
                return false;
            }
            i = i + 1;
        }
        proof { lemma_fold_all(st0, es@, part_element_step()); }
        true
    }

    fn voice_pass(&mut self, p: &XmlPart, voice: (u32, u32), instrument: Option<Instrument>) -> (ok: bool)
        ensures
            ok == old(self)@.voice_pass(*p, voice, instrument) is Some,
            ok ==> final(self)@ == old(self)@.voice_pass(*p, voice, instrument)->0,
    {
        self.voice = voice;
        if !self.part_pass(p) {
            return false;
        }
        if self.score.parts.len() == 0 {
            return false;
        }
        let ghost s1 = self@.score;
        let mut part = self.take_last_part();
        part.instrument = instrument;
        self.put_last_part(part);
        proof { lemma_set_last_part_twice(s1, PartModel::empty(), part@); }
        true
    }

    fn part_voices(&mut self, p: &XmlPart, voices: &Vec<(u32, u32)>, instrument: Option<Instrument>) -> (ok: bool)
        ensures
            ok == old(self)@.part_voices(*p, voices@, instrument) is Some,
            ok ==> final(self)@ == old(self)@.part_voices(*p, voices@, instrument)->0,
    {
        let ghost st0 = self@;
        proof { lemma_fold_all(st0, voices@, voice_step(*p, instrument)); }
        let mut i: usize = 0;
        while i < voices.len()
            invariant
                i <= voices@.len(),
                st0 == old(self)@,
                fold_steps(st0, voices@.take(i as int), voice_step(*p, instrument)) == Some(self@),
            decreases voices@.len() - i,
        {
            proof { lemma_fold_step(st0, voices@, i as int, voice_step(*p, instrument)); }
            if !self.voice_pass(p, voices[i], instrument) {
                proof { lemma_fold_prefix_none(st0, voices@, i as int + 1, voice_step(*p, instrument)); }
                return false;
            }
            i = i + 1;
        }
        proof { lemma_fold_all(st0, voices@, voice_step(*p, instrument)); }
        true
    }
}


proof fn lemma_insert_voice_skip(s: Seq<(u32, u32)>, i: int, v: (u32, u32))
    requires
        0 <= i < s.len(),
        s[i] != v,
        !voice_lt(v, s[i]),
    ensures
        insert_voice(s.skip(i), v) == seq![s[i]] + insert_voice(s.skip(i + 1), v),
{
    assert(s.skip(i).drop_first() =~= s.skip(i + 1));
    assert(s.skip(i)[0] == s[i]);
}

/// Add `v` to the ascending list `s` (see [`insert_voice`]).
fn insert_voice_into(s: &mut Vec<(u32, u32)>, v: (u32, u32))
    ensures
        final(s)@ == insert_voice(old(s)@, v),
{
    let ghost s0 = s@;
    let mut i: usize = 0;
    assert(s0.skip(0) =~= s0);
    assert(s0.take(0) =~= Seq::<(u32, u32)>::empty());
    while i < s.len()
        invariant
            s@ == s0,
            s0 == old(s)@,
            i <= s0.len(),
            insert_voice(s0, v) == s0.take(i as int) + insert_voice(s0.skip(i as int), v),
        decreases s0.len() - i,
    {
        let w = s[i];
        assert(s0.skip(i as int)[0] == w);
        if w.0 == v.0 && w.1 == v.1 {
            assert(insert_voice(s0.skip(i as int), v) == s0.skip(i as int));
            assert(s0.take(i as int) + s0.skip(i as int) =~= s0);
            return;
        }
        if v.0 < w.0 || (v.0 == w.0 && v.1 < w.1) {
            s.insert(i, v);
            assert(insert_voice(s0.skip(i as int), v) == seq![v] + s0.skip(i as int));
            assert(s0.take(i as int) + (seq![v] + s0.skip(i as int)) =~= s0.insert(i as int, v));
            return;
        }
        proof {
            lemma_insert_voice_skip(s0, i as int, v);
            assert(s0.take(i as int) + seq![w] =~= s0.take(i as int + 1));
        }
        i = i + 1;
    }
    assert(s0.skip(i as int) =~= Seq::<(u32, u32)>::empty());
    assert(s0.take(i as int) =~= s0);
    s.push(v);
}

/// The (voice, staff) pair of a note (see [`note_voice`]).
fn note_voice_of(n: &XmlNote) -> (r: Option<(u32, u32)>)
    ensures
        r == note_voice(*n),
{
    match (&n.info, &n.voice) {
        (Some(_), Some(v)) => match parse_u32_text(v) {
            Some(vn) => Some((vn, match n.staff { Some(s) => s, None => 1 })),
            None => None,
        },
        _ => None,
    }
}

/// Add the voices of the notes among `es` to `acc` (see [`element_voices`]).
fn add_element_voices(acc: &mut Vec<(u32, u32)>, es: &Vec<XmlMeasureElement>)
    ensures
        final(acc)@ == element_voices(old(acc)@, es@),
{
    let ghost a0 = acc@;
    let mut i: usize = 0;
    assert(es@.take(0) =~= Seq::<XmlMeasureElement>::empty());
    while i < es.len()
        invariant
            i <= es@.len(),
            acc@ == element_voices(a0, es@.take(i as int)),
        decreases es@.len() - i,
    {
        assert(es@.take(i as int + 1).drop_last() =~= es@.take(i as int));
        assert(es@.take(i as int + 1).last() == es@[i as int]);
        match &es[i] {
            XmlMeasureElement::Note(n) => match note_voice_of(n) {
                Some(v) => {
                    if !(v.0 == 1 && v.1 == 1) {
                        insert_voice_into(acc, v);
                    }
                },
                None => {},
            },
            _ => {},
        }
        i = i + 1;
    }
    assert(es@.take(i as int) =~= es@);
}

/// The order in which a part's voices are read (see [`voice_order`]).
pub fn part_voice_order(p: &XmlPart) -> (r: Vec<(u32, u32)>)
    ensures
        r@ == voice_order(*p),
{
    let es = &p.elements;
    let mut acc: Vec<(u32, u32)> = Vec::new();
    let mut i: usize = 0;
    assert(es@.take(0) =~= Seq::<XmlPartElement>::empty());
    while i < es.len()
        invariant
            i <= es@.len(),
            es@ == p.elements@,
            acc@ == part_element_voices(Seq::empty(), es@.take(i as int)),
        decreases es@.len() - i,
    {
        assert(es@.take(i as int + 1).drop_last() =~= es@.take(i as int));
        assert(es@.take(i as int + 1).last() == es@[i as int]);
        match &es[i] {
            XmlPartElement::Measure(m) => add_element_voices(&mut acc, &m.elements),
            XmlPartElement::Other => {},
        }
        i = i + 1;
    }
    assert(es@.take(i as int) =~= es@);
    acc.insert(0, (1, 1));
    assert(acc@ =~= seq![(1u32, 1u32)] + part_element_voices(Seq::empty(), p.elements@));
    acc
}

/// Whether `needle` occurs in `hay` (see [`contains_text`]).
fn contains_chars(hay: &Vec<char>, needle: &Vec<char>) -> (b: bool)
    ensures
        b == contains_text(hay@, needle@),
{
    let n = needle.len();
    if n == 0 {
        assert(hay@.subrange(0, 0 + needle@.len() as int) =~= needle@);
        return true;
    }
    if n > hay.len() {
        return false;
    }
    let last = hay.len() - n;
    let mut i: usize = 0;
    while i <= last
        invariant
            n == needle@.len(),
            n >= 1,
            last + n == hay@.len(),
            hay@.len() == hay.len(),
            forall|j: int| 0 <= j < i ==> #[trigger] hay@.subrange(j, j + n) != needle@,
        decreases last + 1 - i,
    {
        let mut k: usize = 0;
        let mut same = true;
        while k < n
            invariant
                i <= last,
                k <= n,
                n == needle@.len(),
                last + n == hay@.len(),
                hay@.len() == hay.len(),
                same ==> forall|t: int| 0 <= t < k ==> hay@[i + t] == needle@[t],
                !same ==> hay@.subrange(i as int, i + n) != needle@,
            decreases n - k,
        {
            if same && hay[i + k] != needle[k] {
                assert(hay@.subrange(i as int, i + n)[k as int] == hay@[i + k]);
                same = false;
            }
            k = k + 1;
        }
        if same {
            assert(hay@.subrange(i as int, i + n) =~= needle@);
            return true;
        }
        i = i + 1;
    }
    proof {
        assert forall|j: int| 0 <= j && j + needle@.len() <= hay@.len() implies #[trigger] hay@.subrange(j, j + needle@.len()) != needle@ by {
            assert(j < i);
        }
    }
    false
}

/// The instrument a lower-case part name asks for (see [`instrument_for`]).
pub fn instrument_from(lower: &Vec<char>) -> (r: Option<Instrument>)
    ensures
        r == instrument_for(lower@),
{
    if contains_chars(lower, &vec!['b', 'e', 'e', 'p']) {
        Some(Instrument::Beep)
    } else if contains_chars(lower, &vec!['s', 'i', 'n', 'e']) {
        Some(Instrument::Beep)
    } else if contains_chars(lower, &vec!['k', 'e', 'y']) {
        Some(Instrument::Keyboard)
    } else if contains_chars(lower, &vec!['b', 'e', 'l', 'l']) {
        Some(Instrument::Bell)
    } else if contains_chars(lower, &vec!['w', 'a', 't', 'e', 'r', 'p', 'h', 'o', 'n', 'e']) {
        Some(Instrument::Waterphone)
    } else if contains_chars(lower, &vec!['s', 'n', 'a', 'r', 'e']) {
        Some(Instrument::Drum)
    } else if contains_chars(lower, &vec!['d', 'r', 'u', 'm']) {
        Some(Instrument::Drum)
    } else {
        None
    }
}

/// The instrument a part name asks for, matched on its lower-case form.
pub fn instrument_named(name: &String) -> (r: Option<Instrument>)
    ensures
        r == instrument_for(lowercase(name@)),
{
    let lower = to_lowercase(name.as_str());
    let cs = chars_of(lower.as_str());
    instrument_from(&cs)
}


/// The instrument each part description of `list` asks for, in order.
fn part_instruments(list: &Vec<XmlPartListEntry>) -> (r: Vec<Option<Instrument>>)
    ensures
        r@.len() == part_names(list@).len(),
        forall|k: int| 0 <= k < r@.len() ==> r@[k] == instrument_for(lowercase(#[trigger] part_names(list@)[k])),
{
    let mut r: Vec<Option<Instrument>> = Vec::new();
    let mut i: usize = 0;
    assert(list@.take(0) =~= Seq::<XmlPartListEntry>::empty());
    while i < list.len()
        invariant
            i <= list@.len(),
            r@.len() == part_names(list@.take(i as int)).len(),
            forall|k: int|
                0 <= k < r@.len() ==> r@[k] == instrument_for(lowercase(#[trigger] part_names(list@.take(i as int))[k])),
        decreases list@.len() - i,
    {
        assert(list@.take(i as int + 1).drop_last() =~= list@.take(i as int));
        assert(list@.take(i as int + 1).last() == list@[i as int]);
        match &list[i] {
            XmlPartListEntry::ScorePart(name) => {
                let inst = instrument_named(name);
                r.push(inst);
            },
            XmlPartListEntry::Other => {},
        }
        i = i + 1;
    }
    assert(list@.take(i as int) =~= list@);
    r
}

/// Read a document into the intermediate score (see [`read_document`]);
/// `None` exactly where reading cannot proceed.
pub fn read_score(doc: &XmlScore) -> (r: Option<Score>)
    ensures
        r matches Some(s) ==> read_document(*doc) == Some(s@),
        r is None <==> read_document(*doc) is None,
{
    let insts = part_instruments(&doc.part_list);
    let n = if doc.parts.len() <= insts.len() { doc.parts.len() } else { insts.len() };
    assert(n == parts_read(*doc));
    let mut rd = Reader {
        score: Score { parts: Vec::new(), bpm: None },
        repeat_start: 0,
        first_ending_length: 0,
        volta: Vec::new(),
        voice: (0, 0),
        measure_pos: 0,
    };
    assert(rd.score@.parts =~= Seq::<PartModel>::empty());
    assert(rd@.volta =~= Seq::<(Seq<char>, Seq<char>)>::empty());
    assert(rd@ == initial_reader());
    let mut i: usize = 0;
    while i < n
        invariant
            i <= n,
            n == parts_read(*doc),
            n <= doc.parts@.len(),
            n <= insts@.len(),
            insts@.len() == part_names(doc.part_list@).len(),
            forall|k: int|
                0 <= k < insts@.len() ==> insts@[k] == instrument_for(lowercase(#[trigger] part_names(doc.part_list@)[k])),
            read_parts(*doc, i as int) == Some(rd@),
        decreases n - i,
    {
        let p = &doc.parts[i];
        let voices = part_voice_order(p);
        let inst = insts[i];
        assert(inst == instrument_for(lowercase(part_names(doc.part_list@)[i as int])));
        if !rd.part_voices(p, &voices, inst) {
            assert(read_parts(*doc, i as int + 1) is None);
            proof { lemma_read_parts_none(*doc, i as int + 1, n as int); }
            return None;
        }
        i = i + 1;
    }
    Some(rd.score)
}

/// Once reading fails at some part, it fails for every later count.
proof fn lemma_read_parts_none(doc: XmlScore, i: int, n: int)
    requires
        0 <= i <= n,
        read_parts(doc, i) is None,
    ensures
        read_parts(doc, n) is None,
    decreases n - i,
{
    if i < n {
        lemma_read_parts_none(doc, i + 1, n);
    }
}


/// Each voice of `s` comes before the ones after it.
pub open spec fn voices_ascending(s: Seq<(u32, u32)>) -> bool {
    forall|i: int, j: int| 0 <= i < j < s.len() ==> voice_lt(#[trigger] s[i], #[trigger] s[j])
}

proof fn lemma_insert_voice(s: Seq<(u32, u32)>, v: (u32, u32))
    requires
        voices_ascending(s),
    ensures
        voices_ascending(insert_voice(s, v)),
        forall|x: (u32, u32)| #[trigger] insert_voice(s, v).contains(x) <==> s.contains(x) || x == v,
    decreases s.len(),
{
    let r = insert_voice(s, v);
    if s.len() == 0 {
        assert(r =~= seq![v]);
        assert forall|x: (u32, u32)| #[trigger] r.contains(x) <==> s.contains(x) || x == v by {
            if r.contains(x) {
                assert(r[0] == x);
            }
            if x == v {
                assert(r[0] == v);
            }
        }
    } else if s[0] == v {
        assert forall|x: (u32, u32)| #[trigger] r.contains(x) <==> s.contains(x) || x == v by {
            if x == v {
                assert(s[0] == v);
            }
        }
    } else if voice_lt(v, s[0]) {
        assert(r =~= seq![v] + s);
        assert forall|i: int, j: int| 0 <= i < j < r.len() implies voice_lt(#[trigger] r[i], #[trigger] r[j]) by {
            if i == 0 {
                assert(r[j] == s[j - 1]);
                if j - 1 > 0 {
                    assert(voice_lt(s[0], s[j - 1]));
                }
            } else {
                assert(r[i] == s[i - 1]);
                assert(r[j] == s[j - 1]);
            }
        }
        assert forall|x: (u32, u32)| #[trigger] r.contains(x) <==> s.contains(x) || x == v by {
            if r.contains(x) {
                let k = choose|k: int| 0 <= k < r.len() && r[k] == x;
                if k > 0 {
                    assert(s[k - 1] == x);
                }
            }
            if s.contains(x) {
                let k = choose|k: int| 0 <= k < s.len() && s[k] == x;
                assert(r[k + 1] == x);
            }
            if x == v {
                assert(r[0] == v);
            }
        }
    } else {
        let rest = s.drop_first();
        assert forall|i: int, j: int| 0 <= i < j < rest.len() implies voice_lt(#[trigger] rest[i], #[trigger] rest[j]) by {
            assert(rest[i] == s[i + 1]);
            assert(rest[j] == s[j + 1]);
        }
        lemma_insert_voice(rest, v);
        let t = insert_voice(rest, v);
        assert(r =~= seq![s[0]] + t);
        assert(voice_lt(s[0], v));
        assert forall|x: (u32, u32)| #[trigger] t.contains(x) implies voice_lt(s[0], x) by {
            if rest.contains(x) {
                let k = choose|k: int| 0 <= k < rest.len() && rest[k] == x;
                assert(s[k + 1] == x);
            }
        }
        assert forall|i: int, j: int| 0 <= i < j < r.len() implies voice_lt(#[trigger] r[i], #[trigger] r[j]) by {
            if i == 0 {
                assert(r[j] == t[j - 1]);
                assert(t.contains(t[j - 1]));
            } else {
                assert(r[i] == t[i - 1]);
                assert(r[j] == t[j - 1]);
            }
        }
        assert forall|x: (u32, u32)| #[trigger] r.contains(x) <==> s.contains(x) || x == v by {
            if r.contains(x) {
                let k = choose|k: int| 0 <= k < r.len() && r[k] == x;
                if k > 0 {
                    assert(t[k - 1] == x);
                    assert(t.contains(x));
                    if rest.contains(x) {
                        let m = choose|m: int| 0 <= m < rest.len() && rest[m] == x;
                        assert(s[m + 1] == x);
                    }
                } else {
                    assert(s[0] == x);
                }
            }
            if s.contains(x) {
                let k = choose|k: int| 0 <= k < s.len() && s[k] == x;
                if k > 0 {
                    assert(rest[k - 1] == x);
                    assert(rest.contains(x));
                    assert(t.contains(x));
                    let m = choose|m: int| 0 <= m < t.len() && t[m] == x;
                    assert(r[m + 1] == x);
                } else {
                    assert(r[0] == x);
                }
            }
            if x == v {
                assert(t.contains(v));
                let m = choose|m: int| 0 <= m < t.len() && t[m] == v;
                assert(r[m + 1] == v);
            }
        }
    }
}

proof fn lemma_element_voices(acc: Seq<(u32, u32)>, es: Seq<XmlMeasureElement>)
    requires
        voices_ascending(acc),
        !acc.contains((1u32, 1u32)),
    ensures
        voices_ascending(element_voices(acc, es)),
        !element_voices(acc, es).contains((1u32, 1u32)),
    decreases es.len(),
{
    if es.len() > 0 {
        lemma_element_voices(acc, es.drop_last());
        let before = element_voices(acc, es.drop_last());
        if let XmlMeasureElement::Note(n) = es.last() {
            if let Some(v) = note_voice(n) {
                if v != (1u32, 1u32) {
                    lemma_insert_voice(before, v);
                }
            }
        }
    }
}

proof fn lemma_part_element_voices(acc: Seq<(u32, u32)>, es: Seq<XmlPartElement>)
    requires
        voices_ascending(acc),
        !acc.contains((1u32, 1u32)),
    ensures
        voices_ascending(part_element_voices(acc, es)),
        !part_element_voices(acc, es).contains((1u32, 1u32)),
    decreases es.len(),
{
    if es.len() > 0 {
        lemma_part_element_voices(acc, es.drop_last());
        if let XmlPartElement::Measure(m) = es.last() {
            lemma_element_voices(part_element_voices(acc, es.drop_last()), m.elements@);
        }
    }
}

/// A part is read once per voice: voice 1 on staff 1 first, then every
/// other (voice, staff) pair of its notes in ascending order, none twice.
pub proof fn lemma_each_voice_read_once(p: XmlPart)
    ensures
        voice_order(p)[0] == (1u32, 1u32),
        voices_ascending(voice_order(p).drop_first()),
        forall|i: int, j: int|
            0 <= i < j < voice_order(p).len() ==> #[trigger] voice_order(p)[i] != #[trigger] voice_order(p)[j],
{
    let rest = part_element_voices(Seq::empty(), p.elements@);
    lemma_part_element_voices(Seq::empty(), p.elements@);
    let all = voice_order(p);
    assert(all.drop_first() =~= rest);
    assert forall|i: int, j: int| 0 <= i < j < all.len() implies #[trigger] all[i] != #[trigger] all[j] by {
        if i == 0 {
            assert(all[j] == rest[j - 1]);
            assert(rest.contains(rest[j - 1]));
        } else {
            assert(all[i] == rest[i - 1]);
            assert(all[j] == rest[j - 1]);
            assert(voice_lt(rest[i - 1], rest[j - 1]));
        }
    }
}

/// Whether the XML text of a `<tie>` element marks the end of a tie (see
/// [`tie_stops`]).
fn tie_text_stops(text: &String) -> (b: bool)
    ensures
        b == tie_stops(text@),
{
    let cs = chars_of(text.as_str());
    contains_chars(&cs, &vec![' ', 't', 'y', 'p', 'e', '=', '"', 's', 't', 'o', 'p', '"'])
}

impl Reader {
    /// Read a direction (see [`ReadModel::direction`]) where reading can
    /// proceed: on the reader's staff, every loudness marking is one of the
    /// six supported ones, and a metronome marking reads as a tempo and
    /// comes once per measure, before its first event.
    #[allow(dead_code)]
    fn direction(&mut self, d: &XmlDirection)
        requires
            old(self)@.direction(*d) is Some,
        ensures
            final(self)@ == old(self)@.direction(*d)->0,
    {
        let ok = self.try_direction(d);
    }

    /// Read a note (see [`ReadModel::note`]) where reading can proceed: its
    /// voice reads as a number, voice 2 is on staff 1, a chord note matches
    /// the event it joins, and a tied note continues the event before it.
    #[allow(dead_code)]
    fn note(&mut self, n: &XmlNote)
        requires
            old(self)@.note(*n) is Some,
        ensures
            final(self)@ == old(self)@.note(*n)->0,
    {
        let ok = self.try_note(n);
    }
}

/// The letters of a MusicXML loudness element's name (`pp`, `p`, `mp`,
/// `mf`, `f`, `ff`); none for other markings.
pub open spec fn dynamic_element_name(x: XmlDynamic) -> Seq<char> {
    match x {
        XmlDynamic::Pp => seq!['p', 'p'],
        XmlDynamic::P => seq!['p'],
        XmlDynamic::Mp => seq!['m', 'p'],
        XmlDynamic::Mf => seq!['m', 'f'],
        XmlDynamic::F => seq!['f'],
        XmlDynamic::Ff => seq!['f', 'f'],
        XmlDynamic::Other => Seq::empty(),
    }
}

/// The script letter that writes a letter of a loudness marking: 𝓹, 𝓶, 𝓯.
pub open spec fn script_letter(c: char) -> char {
    if c == 'p' {
        '\u{1D4F9}'
    } else if c == 'm' {
        '\u{1D4F6}'
    } else if c == 'f' {
        '\u{1D4EF}'
    } else {
        c
    }
}

/// A loudness marking read from MusicXML keeps its name: the markings pp to
/// ff are read, and each is written back as the script letters of its own
/// element name (`mp` as 𝓶𝓹, `ff` as 𝓯𝓯); any other marking is not read.
pub proof fn lemma_dynamic_read_as_named(x: XmlDynamic)
    ensures
        dynamic_of(x) is None <==> x is Other,
        dynamic_of(x) matches Some(d) ==> crate::compile::text::dynamic_text(d) == dynamic_element_name(
            x,
        ).map_values(|c: char| script_letter(c)),
{
    let name = dynamic_element_name(x);
    let written = name.map_values(|c: char| script_letter(c));
    match dynamic_of(x) {
        Some(d) => {
            assert(written =~= crate::compile::text::dynamic_text(d));
        },
        None => {},
    }
}

/// The semitones a MusicXML transposition moves written notes by: its
/// chromatic steps and twelve per octave changed.
pub open spec fn transpose_semitones(t: crate::compile::xml::XmlTranspose) -> int {
    t.chromatic + 12 * match t.octave_change {
        Some(o) => o as int,
        None => 0,
    }
}

/// A transposition read for a part moves every note of the part, once the
/// score is cleaned up, by the semitones the element gives (octave change
/// included): the part's measures are transposed note by note, and a note
/// whose alteration respelling settles within one letter sounds exactly
/// that many semitones from where it was written.
pub proof fn lemma_transposition_moves_notes(st: ReadModel, t: crate::compile::xml::XmlTranspose, n: Note)
    requires
        st.transpose(t) is Some,
    ensures
        ({
            let p = st.transpose(t)->0.score.parts.last();
            &&& p.transpose is Some
            &&& p.apply_transpose().measures == st.score.parts.last().measures.map_values(
                |m: MeasureModel| m.transpose(p.transpose->0),
            )
            &&& crate::compile::output::one_letter_alteration(n.step, n.semitone + t.chromatic) ==> crate::compile::output::transpose_pitch(
                n,
                p.transpose->0,
            ).semitones() == n.pitch().semitones() + transpose_semitones(t)
        }),
{
    let p = st.transpose(t)->0.score.parts.last();
    let tr = p.transpose->0;
    let moved = crate::compile::output::Pitch {
        step: n.step,
        semitone: n.semitone + tr.chromatic,
        octave: n.octave + tr.octave,
    };
    assert(moved.semitones() == n.pitch().semitones() + transpose_semitones(t));
    if crate::compile::output::one_letter_alteration(n.step, n.semitone + t.chromatic) {
        crate::compile::output::lemma_normalize_keeps_pitch_one_letter(moved);
    }
}

/// A repeat plays again from the measure that holds the forward repeat
/// sign. Say a forward repeat is read at the left barline of the part's
/// current measure (its measure number `k`, counting from 0), and later a
/// backward repeat at a right barline closes a measure, with no other
/// forward repeat read between, no first ending in force and the measures
/// read meanwhile only added. Then the part's measures become those read so
/// far (the current one closed, see [`ReadModel::postprocess_measure`])
/// followed by a copy of every measure from measure `k` on.
pub proof fn lemma_repeat_plays_from_forward_sign(
    st: ReadModel,
    fwd: XmlBarline,
    n1: Seq<char>,
    mid: ReadModel,
    bwd: XmlBarline,
    n2: Seq<char>,
)
    requires
        fwd.location == Some(BarLocation::Left),
        fwd.repeat == Some(RepeatDirection::Forward),
        fwd.ending is None,
        st.barline(fwd, n1) is Some,
        mid.repeat_start == st.barline(fwd, n1)->0.repeat_start,
        mid.score.parts.len() == st.score.parts.len(),
        st.score.parts.last().measures.len() <= mid.score.parts.last().measures.len() <= usize::MAX,
        mid.first_ending_length == 0,
        volta_lookup(mid.volta, n2) != Some(seq!['1']),
        bwd.location == Some(BarLocation::Right),
        bwd.repeat == Some(RepeatDirection::Backward),
        bwd.ending is None,
        mid.barline(bwd, n2) is Some,
    ensures
        ({
            let k = st.score.parts.last().measures.len() - 1;
            let before = mid.score.parts.last().measures;
            let m = mid.postprocess_measure()->0.score.parts.last().measures;
            &&& 0 <= k < m.len()
            &&& m.len() == before.len()
            &&& forall|i: int| 0 <= i < m.len() - 1 ==> #[trigger] m[i] == before[i]
            &&& mid.barline(bwd, n2)->0.score.parts.last().measures == m + m.subrange(k, m.len() as int)
        }),
{
    let m = mid.postprocess_measure()->0.score.parts.last().measures;
    let k = st.score.parts.last().measures.len() - 1;
    assert(st.barline(fwd, n1)->0.repeat_start == k);
    assert(m.len() == mid.score.parts.last().measures.len());
    assert(mid.repeat_start as int == k);
    let ext = m + m.skip(mid.repeat_start as int);
    assert(m.skip(mid.repeat_start as int) =~= m.subrange(st.score.parts.last().measures.len() - 1, m.len() as int));
    assert(ext.take(ext.len() - 0) =~= ext);
}

/// The same, for both repeat signs on one measure: that measure is played
/// twice.
pub proof fn lemma_repeat_of_one_measure(st: ReadModel, fwd: XmlBarline, n1: Seq<char>, bwd: XmlBarline, n2: Seq<char>)
    requires
        fwd.location == Some(BarLocation::Left),
        fwd.repeat == Some(RepeatDirection::Forward),
        fwd.ending is None,
        st.barline(fwd, n1) is Some,
        st.score.parts.last().measures.len() <= usize::MAX,
        st.first_ending_length == 0,
        volta_lookup(st.volta, n2) != Some(seq!['1']),
        bwd.location == Some(BarLocation::Right),
        bwd.repeat == Some(RepeatDirection::Backward),
        bwd.ending is None,
        st.barline(fwd, n1)->0.barline(bwd, n2) is Some,
    ensures
        ({
            let mid = st.barline(fwd, n1)->0;
            let m = mid.postprocess_measure()->0.score.parts.last().measures;
            mid.barline(bwd, n2)->0.score.parts.last().measures == m.push(m.last())
        }),
{
    let mid = st.barline(fwd, n1)->0;
    lemma_repeat_plays_from_forward_sign(st, fwd, n1, mid, bwd, n2);
    let m = mid.postprocess_measure()->0.score.parts.last().measures;
    assert(m.subrange(m.len() - 1, m.len() as int) =~= seq![m.last()]);
    assert(m + seq![m.last()] =~= m.push(m.last()));
}

} // verus!
