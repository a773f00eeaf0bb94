//! The intermediate score built while reading a MusicXML document, its
//! clean-up passes, and its rendering as text.

use vstd::prelude::*;

use crate::types::{Dynamic, Instrument, Metronome};

verus! {

/// A letter name, in the order A to G.
#[derive(Debug, Clone, Copy, PartialEq, Eq, Structural)]
pub enum Step {
    A,
    B,
    C,
    D,
    E,
    F,
    G,
}

impl Step {
    /// Position of the letter, A = 0 to G = 6.
    pub open spec fn index(self) -> int {
        match self {
            Step::A => 0,
            Step::B => 1,
            Step::C => 2,
            Step::D => 3,
            Step::E => 4,
            Step::F => 5,
            Step::G => 6,
        }
    }

    /// The letter at position `i` (taken modulo 7).
    pub open spec fn from_index(i: int) -> Step {
        let j = i % 7;
        if j == 0 {
            Step::A
        } else if j == 1 {
            Step::B
        } else if j == 2 {
            Step::C
        } else if j == 3 {
            Step::D
        } else if j == 4 {
            Step::E
        } else if j == 5 {
            Step::F
        } else {
            Step::G
        }
    }

    /// The next letter up, G wrapping to A.
    pub open spec fn spec_up(self) -> Step {
        Step::from_index(self.index() + 1)
    }

    /// The next letter down, A wrapping to G.
    pub open spec fn spec_down(self) -> Step {
        Step::from_index(self.index() + 6)
    }

    /// Semitones above C within one octave.
    pub open spec fn chromatic(self) -> int {
        match self {
            Step::C => 0,
            Step::D => 2,
            Step::E => 4,
            Step::F => 5,
            Step::G => 7,
            Step::A => 9,
            Step::B => 11,
        }
    }

    /// The most sharps the letter may carry once normalized: none on B and E.
    pub open spec fn max_sharps(self) -> int {
        if self is B || self is E { 0 } else { 1 }
    }

    /// The most flats the letter may carry once normalized, as a negative
    /// number: none on C and F.
    pub open spec fn max_flats(self) -> int {
        if self is C || self is F { 0 } else { -1 }
    }

    fn up(&self) -> (s: Step)
        ensures
            s == self.spec_up(),
    {
        match self {
            Step::A => Step::B,
            Step::B => Step::C,
            Step::C => Step::D,
            Step::D => Step::E,
            Step::E => Step::F,
            Step::F => Step::G,
            Step::G => Step::A,
        }
    }

    fn down(&self) -> (s: Step)
        ensures
            s == self.spec_down(),
    {
        match self {
            Step::A => Step::G,
            Step::B => Step::A,
            Step::C => Step::B,
            Step::D => Step::C,
            Step::E => Step::D,
            Step::F => Step::E,
            Step::G => Step::F,
        }
    }
}

/// A pitched note: letter, semitone alteration and octave.
#[derive(Debug, Clone, Copy, PartialEq, Eq, Structural)]
pub struct Note {
    pub step: Step,
    pub semitone: i16,
    pub octave: i16,
}

/// The same three components with unbounded numbers, used to describe
/// normalization without overflow.
pub struct Pitch {
    pub step: Step,
    pub semitone: int,
    pub octave: int,
}

impl Pitch {
    /// The pitch in semitones, 12 per octave, with C of octave 0 at 0.
    pub open spec fn semitones(self) -> int {
        12 * self.octave + self.step.chromatic() + self.semitone
    }

    /// Whether the alteration is within what the letter may carry.
    pub open spec fn is_normalized(self) -> bool {
        self.step.max_flats() <= self.semitone <= self.step.max_sharps()
    }

    /// Move the note by letters until its alteration fits its letter: while
    /// there are more sharps than allowed, take one away and go up a letter
    /// (up an octave on reaching C); while there are more flats than allowed,
    /// take one away and go down a letter (down an octave on reaching B).
    pub open spec fn normalize(self) -> Pitch
        decreases (if self.semitone >= 0 { self.semitone } else { -self.semitone }),
    {
        if self.semitone > self.step.max_sharps() {
            let step = self.step.spec_up();
            Pitch {
                step,
                semitone: self.semitone - 1,
                octave: if step is C { self.octave + 1 } else { self.octave },
            }.normalize()
        } else if self.semitone < self.step.max_flats() {
            let step = self.step.spec_down();
            Pitch {
                step,
                semitone: self.semitone + 1,
                octave: if step is B { self.octave - 1 } else { self.octave },
            }.normalize()
        } else {
            self
        }
    }
}

impl Note {
    /// The note's components as unbounded numbers.
    pub open spec fn pitch(self) -> Pitch {
        Pitch { step: self.step, semitone: self.semitone as int, octave: self.octave as int }
    }

    /// Normalization of the note can be carried out in `i16`: its final
    /// octave is an `i16`.
    pub open spec fn normalize_fits(self) -> bool {
        i16::MIN <= self.pitch().normalize().octave <= i16::MAX
    }

    /// The note moved by letters until its alteration fits its letter.
    pub fn normalized(self) -> (n: Note)
        requires
            self.normalize_fits(),
        ensures
            n.pitch() == self.pitch().normalize(),
    {
        let mut cur = self;
        loop
            invariant
                cur.pitch().normalize() == self.pitch().normalize(),
                i16::MIN <= self.pitch().normalize().octave <= i16::MAX,
            decreases (if cur.semitone >= 0 { cur.semitone as int } else { -cur.semitone as int }),
        {
            proof { lemma_normalize_octave_bound(cur.pitch()); }
            let max_sharps: i16 = match cur.step {
                Step::B | Step::E => 0,
                _ => 1,
            };
            let max_flats: i16 = match cur.step {
                Step::C | Step::F => 0,
                _ => -1,
            };
            if cur.semitone > max_sharps {
                let step = cur.step.up();
                cur = Note {
                    step,
                    semitone: cur.semitone - 1,
                    octave: if step == Step::C { cur.octave + 1 } else { cur.octave },
                };
            } else if cur.semitone < max_flats {
                let step = cur.step.down();
                cur = Note {
                    step,
                    semitone: cur.semitone + 1,
                    octave: if step == Step::B { cur.octave - 1 } else { cur.octave },
                };
            } else {
                return cur;
            }
        }
    }
}

/// Normalizing never moves the octave against the direction of the
/// alteration: raising alterations only raise it, lowering ones only lower it.
pub proof fn lemma_normalize_octave_bound(p: Pitch)
    ensures
        p.semitone > p.step.max_sharps() ==> p.normalize().octave >= p.octave
            + (if p.step.spec_up() is C { 1int } else { 0 }),
        p.semitone < p.step.max_flats() ==> p.normalize().octave <= p.octave
            - (if p.step.spec_down() is B { 1int } else { 0 }),
        p.semitone >= 0 ==> p.normalize().octave >= p.octave,
        p.semitone <= 0 ==> p.normalize().octave <= p.octave,
    decreases (if p.semitone >= 0 { p.semitone } else { -p.semitone }),
{
    if p.semitone > p.step.max_sharps() {
        let step = p.step.spec_up();
        let q = Pitch {
            step,
            semitone: p.semitone - 1,
            octave: if step is C { p.octave + 1 } else { p.octave },
        };
        lemma_normalize_octave_bound(q);
    } else if p.semitone < p.step.max_flats() {
        let step = p.step.spec_down();
        let q = Pitch {
            step,
            semitone: p.semitone + 1,
            octave: if step is B { p.octave - 1 } else { p.octave },
        };
        lemma_normalize_octave_bound(q);
    }
}

/// A normalized note carries no more sharps or flats than its letter allows.
pub proof fn lemma_normalize_is_normalized(p: Pitch)
    ensures
        p.normalize().is_normalized(),
    decreases (if p.semitone >= 0 { p.semitone } else { -p.semitone }),
{
    if p.semitone > p.step.max_sharps() {
        let step = p.step.spec_up();
        lemma_normalize_is_normalized(Pitch {
            step,
            semitone: p.semitone - 1,
            octave: if step is C { p.octave + 1 } else { p.octave },
        });
    } else if p.semitone < p.step.max_flats() {
        let step = p.step.spec_down();
        lemma_normalize_is_normalized(Pitch {
            step,
            semitone: p.semitone + 1,
            octave: if step is B { p.octave - 1 } else { p.octave },
        });
    }
}

/// Normalizing twice is the same as normalizing once.
pub proof fn lemma_normalize_idempotent(p: Pitch)
    ensures
        p.normalize().normalize() == p.normalize(),
{
    lemma_normalize_is_normalized(p);
}

/// Normalizing a note with at most one sharp or flat keeps its pitch.
pub proof fn lemma_normalize_keeps_pitch(p: Pitch)
    requires
        -1 <= p.semitone <= 1,
    ensures
        p.normalize().semitones() == p.semitones(),
{
    if p.semitone > p.step.max_sharps() {
        let step = p.step.spec_up();
        let q = Pitch {
            step,
            semitone: p.semitone - 1,
            octave: if step is C { p.octave + 1 } else { p.octave },
        };
        assert(q.is_normalized());
        assert(q.normalize() == q);
    } else if p.semitone < p.step.max_flats() {
        let step = p.step.spec_down();
        let q = Pitch {
            step,
            semitone: p.semitone + 1,
            octave: if step is B { p.octave - 1 } else { p.octave },
        };
        assert(q.is_normalized());
        assert(q.normalize() == q);
    }
}

/// An alteration that respelling settles by moving the letter at most
/// once: at most one sharp or flat, a double sharp on E or B, or a double
/// flat on C or F.
pub open spec fn one_letter_alteration(step: Step, semitone: int) -> bool {
    ||| -1 <= semitone <= 1
    ||| semitone == 2 && (step is E || step is B)
    ||| semitone == -2 && (step is C || step is F)
}

/// Normalizing keeps the pitch of a note whose alteration is settled by
/// moving the letter at most once.
pub proof fn lemma_normalize_keeps_pitch_one_letter(p: Pitch)
    requires
        one_letter_alteration(p.step, p.semitone),
    ensures
        p.normalize().semitones() == p.semitones(),
{
    if -1 <= p.semitone <= 1 {
        lemma_normalize_keeps_pitch(p);
    } else if p.semitone == 2 {
        let step = p.step.spec_up();
        let q = Pitch { step, semitone: 1, octave: if step is C { p.octave + 1 } else { p.octave } };
        if p.step is E {
            assert(step == Step::F);
        } else {
            assert(step == Step::C);
        }
        assert(q.is_normalized());
        assert(q.normalize() == q);
    } else {
        let step = p.step.spec_down();
        let q = Pitch { step, semitone: -1, octave: if step is B { p.octave - 1 } else { p.octave } };
        if p.step is C {
            assert(step == Step::B);
        } else {
            assert(step == Step::E);
        }
        assert(q.is_normalized());
        assert(q.normalize() == q);
    }
}

/// One step of a measure: a rest (no notes), a note or a chord.
#[derive(Debug, Clone, PartialEq, Eq)]
pub struct Event {
    pub duration: u32,
    pub notes: Vec<Note>,
    pub staccato: bool,
}

/// The mathematical value of an [`Event`].
pub struct EventModel {
    pub duration: u32,
    pub notes: Seq<Note>,
    pub staccato: bool,
}

impl View for Event {
    type V = EventModel;

    open spec fn view(&self) -> EventModel {
        EventModel { duration: self.duration, notes: self.notes@, staccato: self.staccato }
    }
}

impl Event {
    /// A rest of `duration` divisions.
    pub fn rest(duration: u32) -> (e: Event)
        ensures
            e@ == (EventModel { duration, notes: Seq::empty(), staccato: false }),
    {
        Event { duration, notes: Vec::new(), staccato: false }
    }

    /// Whether the event is a rest: it has no notes.
    pub fn is_rest(&self) -> (b: bool)
        ensures
            b == (self@.notes.len() == 0),
    {
        self.notes.len() == 0
    }
}

impl Default for Event {
    /// A rest of one division.
    fn default() -> (e: Event)
        ensures
            e@ == (EventModel { duration: 1, notes: Seq::empty(), staccato: false }),
    {
        Event::rest(1)
    }
}

/// An entry of a measure: an event, or a change of loudness.
#[derive(Debug, Clone, PartialEq, Eq)]
pub enum MeasureItem {
    Event(Event),
    Dynamic(Dynamic),
}

/// The mathematical value of a [`MeasureItem`].
pub enum MeasureItemModel {
    Event(EventModel),
    Dynamic(Dynamic),
}

impl View for MeasureItem {
    type V = MeasureItemModel;

    open spec fn view(&self) -> MeasureItemModel {
        match self {
            MeasureItem::Event(e) => MeasureItemModel::Event(e@),
            MeasureItem::Dynamic(d) => MeasureItemModel::Dynamic(*d),
        }
    }
}

/// The events among `items`, in order.
pub open spec fn item_events(items: Seq<MeasureItemModel>) -> Seq<EventModel>
    decreases items.len(),
{
    if items.len() == 0 {
        Seq::empty()
    } else {
        let rest = item_events(items.drop_last());
        match items.last() {
            MeasureItemModel::Event(e) => rest.push(e),
            MeasureItemModel::Dynamic(_) => rest,
        }
    }
}

/// The sum of the durations of `events`.
pub open spec fn event_sum(events: Seq<EventModel>) -> nat
    decreases events.len(),
{
    if events.len() == 0 {
        0
    } else {
        event_sum(events.drop_last()) + events.last().duration as nat
    }
}

/// The position of the last event among `items`, if any.
pub open spec fn last_event_index(items: Seq<MeasureItemModel>) -> Option<int>
    decreases items.len(),
{
    if items.len() == 0 {
        None
    } else if items.last() is Event {
        Some(items.len() - 1)
    } else {
        last_event_index(items.drop_last())
    }
}

/// Transposition of a part: semitones and octaves to move every note by.
#[derive(Debug, Clone, Copy, PartialEq, Eq, Structural)]
pub struct Transpose {
    pub chromatic: i16,
    pub octave: i16,
}

/// One measure of a part.
#[derive(Debug, Clone, PartialEq, Eq)]
pub struct Measure {
    /// The duration of the note at the start of the measure, if that note is
    /// tied to the end of the previous measure.
    pub carryover: u32,
    pub items: Vec<MeasureItem>,
    pub divisions: Option<u32>,
    pub metronome: Option<Metronome>,
}

/// The mathematical value of a [`Measure`].
pub struct MeasureModel {
    pub carryover: u32,
    pub items: Seq<MeasureItemModel>,
    pub divisions: Option<u32>,
    pub metronome: Option<Metronome>,
}

impl View for Measure {
    type V = MeasureModel;

    open spec fn view(&self) -> MeasureModel {
        MeasureModel {
            carryover: self.carryover,
            items: self.items@.map_values(|i: MeasureItem| i@),
            divisions: self.divisions,
            metronome: self.metronome,
        }
    }
}

impl MeasureModel {
    /// A measure with nothing in it.
    pub open spec fn empty() -> MeasureModel {
        MeasureModel { carryover: 0, items: Seq::empty(), divisions: None, metronome: None }
    }

    /// The events of the measure, in order.
    pub open spec fn events(self) -> Seq<EventModel> {
        item_events(self.items)
    }

    /// The length of the measure in divisions: the carried-over tie plus all
    /// event durations.
    pub open spec fn duration(self) -> nat {
        self.carryover as nat + event_sum(self.events())
    }

    /// A measure is empty when nothing is carried over and every event is a
    /// rest.
    pub open spec fn is_empty(self) -> bool {
        &&& self.carryover == 0
        &&& forall|i: int| 0 <= i < self.events().len() ==> (#[trigger] self.events()[i]).notes.len() == 0
    }

    /// The measure with a rest of `duration` appended.
    pub open spec fn push_event(self, duration: u32) -> MeasureModel {
        MeasureModel {
            items: self.items.push(
                MeasureItemModel::Event(EventModel { duration, notes: Seq::empty(), staccato: false }),
            ),
            ..self
        }
    }
}

/// Extending a prefix of `items` by one item extends its events by that item
/// if it is an event.
pub proof fn lemma_item_events_step(items: Seq<MeasureItemModel>, n: int)
    requires
        0 <= n < items.len(),
    ensures
        item_events(items.take(n + 1)) == (match items[n] {
            MeasureItemModel::Event(e) => item_events(items.take(n)).push(e),
            MeasureItemModel::Dynamic(_) => item_events(items.take(n)),
        }),
        event_sum(item_events(items.take(n + 1))) == event_sum(item_events(items.take(n))) + (
        match items[n] {
            MeasureItemModel::Event(e) => e.duration as nat,
            MeasureItemModel::Dynamic(_) => 0,
        }),
{
    assert(items.take(n + 1).drop_last() =~= items.take(n));
    assert(items.take(n + 1).last() == items[n]);
    if let MeasureItemModel::Event(e) = items[n] {
        let evs = item_events(items.take(n)).push(e);
        assert(evs.drop_last() =~= item_events(items.take(n)));
    }
}

impl Measure {
    /// A measure with nothing in it.
    pub fn new() -> (m: Measure)
        ensures
            m@ == MeasureModel::empty(),
    {
        let m = Measure { carryover: 0, items: Vec::new(), divisions: None, metronome: None };
        assert(m@.items =~= Seq::<MeasureItemModel>::empty());
        m
    }

    /// Whether nothing is carried over and every event is a rest.
    pub fn is_empty(&self) -> (b: bool)
        ensures
            b == self@.is_empty(),
    {
        if self.carryover != 0 {
            return false;
        }
        let ghost items = self@.items;
        let mut i: usize = 0;
        while i < self.items.len()
            invariant
                i <= self.items@.len(),
                items == self@.items,
                forall|j: int|
                    0 <= j < item_events(items.take(i as int)).len() ==> (#[trigger] item_events(
                        items.take(i as int),
                    )[j]).notes.len() == 0,
            decreases self.items@.len() - i,
        {
            assert(items[i as int] == self.items@[i as int]@);
            proof { lemma_item_events_step(items, i as int); }
            match &self.items[i] {
                MeasureItem::Event(e) => {
                    if e.notes.len() != 0 {
                        let ghost evs = item_events(items.take(i as int + 1));
                        assert(evs.last() == e@);
                        proof { lemma_events_of_prefix(items, i as int + 1); }
                        assert(self@.events()[evs.len() - 1].notes.len() != 0);
                        return false;
                    }
                },
                MeasureItem::Dynamic(_) => {},
            }
            i = i + 1;
        }
        assert(items.take(i as int) =~= items);
        true
    }

    /// The length of the measure in divisions, which must fit a `u32`.
    pub fn duration(&self) -> (d: u32)
        requires
            self@.duration() <= u32::MAX,
        ensures
            d == self@.duration(),
    {
        let ghost items = self@.items;
        let mut total: u32 = self.carryover;
        let mut i: usize = 0;
        while i < self.items.len()
            invariant
                i <= self.items@.len(),
                items == self@.items,
                self@.duration() <= u32::MAX,
                total == self.carryover + event_sum(item_events(items.take(i as int))),
            decreases self.items@.len() - i,
        {
            assert(items[i as int] == self.items@[i as int]@);
            proof {
                lemma_item_events_step(items, i as int);
                lemma_events_of_prefix(items, i as int + 1);
            }
            match &self.items[i] {
                MeasureItem::Event(e) => {
                    total = total + e.duration;
                },
                MeasureItem::Dynamic(_) => {},
            }
            i = i + 1;
        }
        assert(items.take(i as int) =~= items);
        total
    }

    /// The length of the measure in divisions, or `None` when it does not
    /// fit a `u32`.
    pub fn try_duration(&self) -> (d: Option<u32>)
        ensures
            d matches Some(v) ==> v == self@.duration(),
            d is None ==> self@.duration() > u32::MAX,
    {
        let ghost items = self@.items;
        let mut total: u64 = self.carryover as u64;
        let mut i: usize = 0;
        while i < self.items.len()
            invariant
                i <= self.items@.len(),
                items == self@.items,
                total <= u32::MAX,
                total == self.carryover + event_sum(item_events(items.take(i as int))),
            decreases self.items@.len() - i,
        {
            assert(items[i as int] == self.items@[i as int]@);
            proof {
                lemma_item_events_step(items, i as int);
                lemma_events_of_prefix(items, i as int + 1);
            }
            match &self.items[i] {
                MeasureItem::Event(e) => {
                    total = total + e.duration as u64;
                    if total > u32::MAX as u64 {
                        return None;
                    }
                },
                MeasureItem::Dynamic(_) => {},
            }
            i = i + 1;
        }
        assert(items.take(i as int) =~= items);
        Some(total as u32)
    }

    /// Append a rest of `duration` divisions.
    pub fn append_rest(&mut self, duration: u32)
        ensures
            final(self)@ == old(self)@.push_event(duration),
    {
        self.items.push(MeasureItem::Event(Event::rest(duration)));
        assert(final(self)@.items =~= old(self)@.push_event(duration).items);
    }

    /// Append a rest of `duration` divisions, and give the new event to
    /// change in place.
    pub fn push_event(&mut self, duration: u32) -> (e: &mut Event)
        ensures
            e@ == (EventModel { duration, notes: Seq::empty(), staccato: false }),
            final(self).items@ == old(self).items@.push(MeasureItem::Event(*final(e))),
            final(self).carryover == old(self).carryover,
            final(self).divisions == old(self).divisions,
            final(self).metronome == old(self).metronome,
    {
        self.items.push(MeasureItem::Event(Event::rest(duration)));
        let ghost pushed = self.items@;
        assert(last_event_index(self@.items) == Some(pushed.len() - 1));
        self.last_event()
    }

    /// The position of the last event, if any.
    pub fn last_event_index(&self) -> (r: Option<usize>)
        ensures
            r matches Some(k) ==> last_event_index(self@.items) == Some(k as int),
            r is None ==> last_event_index(self@.items) is None,
    {
        let ghost items = self@.items;
        let mut i: usize = self.items.len();
        assert(items.take(i as int) =~= items);
        while i > 0
            invariant
                i <= self.items@.len(),
                items == self@.items,
                last_event_index(items) == last_event_index(items.take(i as int)),
            decreases i,
        {
            assert(items.take(i as int).drop_last() =~= items.take(i as int - 1));
            assert(items.take(i as int).last() == self.items@[i as int - 1]@);
            if let MeasureItem::Event(_) = &self.items[i - 1] {
                return Some(i - 1);
            }
            i = i - 1;
        }
        None
    }
}

/// The events of a prefix of `items` are a prefix of its events, and the
/// total duration of all events is at least that of the prefix.
pub proof fn lemma_events_of_prefix(items: Seq<MeasureItemModel>, n: int)
    requires
        0 <= n <= items.len(),
    ensures
        item_events(items.take(n)).len() <= item_events(items).len(),
        forall|j: int| 0 <= j < item_events(items.take(n)).len() ==> item_events(items.take(n))[j]
            == item_events(items)[j],
        event_sum(item_events(items.take(n))) <= event_sum(item_events(items)),
    decreases items.len() - n,
{
    if n < items.len() {
        lemma_events_of_prefix(items, n + 1);
        lemma_item_events_step(items, n);
    } else {
        assert(items.take(n) =~= items);
    }
}

/// The note with the given unbounded components cast back to `i16`.
pub open spec fn note_of(p: Pitch) -> Note {
    Note { step: p.step, semitone: p.semitone as i16, octave: p.octave as i16 }
}

/// `n` moved by `t`, then normalized.
pub open spec fn transpose_pitch(n: Note, t: Transpose) -> Pitch {
    Pitch {
        step: n.step,
        semitone: n.semitone + t.chromatic,
        octave: n.octave + t.octave,
    }.normalize()
}

/// Moving `n` by `t` stays within `i16` at every step.
pub open spec fn transpose_fits(n: Note, t: Transpose) -> bool {
    &&& i16::MIN <= n.semitone + t.chromatic <= i16::MAX
    &&& i16::MIN <= n.octave + t.octave <= i16::MAX
    &&& i16::MIN <= transpose_pitch(n, t).octave <= i16::MAX
}

/// `e` with every note moved by `t` and normalized.
pub open spec fn transpose_event(e: EventModel, t: Transpose) -> EventModel {
    EventModel { notes: e.notes.map_values(|n: Note| note_of(transpose_pitch(n, t))), ..e }
}

/// `item` with every note moved by `t` and normalized.
pub open spec fn transpose_item(item: MeasureItemModel, t: Transpose) -> MeasureItemModel {
    match item {
        MeasureItemModel::Event(e) => MeasureItemModel::Event(transpose_event(e, t)),
        MeasureItemModel::Dynamic(d) => MeasureItemModel::Dynamic(d),
    }
}

/// Every note of `item` can be moved by `t`.
pub open spec fn item_transpose_fits(item: MeasureItemModel, t: Transpose) -> bool {
    item matches MeasureItemModel::Event(e) ==> forall|k: int|
        0 <= k < e.notes.len() ==> transpose_fits(#[trigger] e.notes[k], t)
}

impl MeasureModel {
    /// The measure with every note moved by `t` and normalized.
    pub open spec fn transpose(self, t: Transpose) -> MeasureModel {
        MeasureModel { items: self.items.map_values(|i: MeasureItemModel| transpose_item(i, t)), ..self }
    }

    /// Every note of the measure can be moved by `t`.
    pub open spec fn transpose_fits(self, t: Transpose) -> bool {
        forall|k: int| 0 <= k < self.items.len() ==> item_transpose_fits(#[trigger] self.items[k], t)
    }
}

fn transpose_event_in_place(e: &mut Event, t: Transpose)
    requires
        forall|k: int| 0 <= k < old(e)@.notes.len() ==> transpose_fits(#[trigger] old(e)@.notes[k], t),
    ensures
        final(e)@ == transpose_event(old(e)@, t),
{
    let ghost old_notes = e.notes@;
    assert(old_notes == old(e)@.notes);
    let mut i: usize = 0;
    while i < e.notes.len()
        invariant
            old_notes == old(e)@.notes,
            i <= e.notes@.len(),
            e.notes@.len() == old_notes.len(),
            e.duration == old(e).duration,
            e.staccato == old(e).staccato,
            forall|k: int| 0 <= k < old_notes.len() ==> transpose_fits(#[trigger] old_notes[k], t),
            forall|k: int| 0 <= k < i ==> e.notes@[k] == note_of(transpose_pitch(old_notes[k], t)),
            forall|k: int| i <= k < e.notes@.len() ==> e.notes@[k] == old_notes[k],
        decreases e.notes@.len() - i,
    {
        let n = e.notes[i];
        assert(transpose_fits(old_notes[i as int], t));
        let moved = Note { step: n.step, semitone: n.semitone + t.chromatic, octave: n.octave + t.octave };
        let normal = moved.normalized();
        e.notes.set(i, normal);
        i = i + 1;
    }
    assert(e@.notes =~= transpose_event(old(e)@, t).notes);
}

fn transpose_measure_in_place(m: &mut Measure, t: Transpose)
    requires
        old(m)@.transpose_fits(t),
    ensures
        final(m)@ == old(m)@.transpose(t),
{
    let ghost old_items = m@.items;
    let mut i: usize = 0;
    while i < m.items.len()
        invariant
            i <= m.items@.len(),
            m.items@.len() == old_items.len(),
            old_items == old(m)@.items,
            m.carryover == old(m).carryover,
            m.divisions == old(m).divisions,
            m.metronome == old(m).metronome,
            old(m)@.transpose_fits(t),
            forall|k: int| 0 <= k < i ==> m.items@[k]@ == transpose_item(old_items[k], t),
            forall|k: int| i <= k < m.items@.len() ==> m.items@[k]@ == old_items[k],
        decreases m.items@.len() - i,
    {
        assert(item_transpose_fits(old_items[i as int], t));
        match &mut m.items[i] {
            MeasureItem::Event(e) => transpose_event_in_place(e, t),
            MeasureItem::Dynamic(_) => {},
        }
        i = i + 1;
    }
    assert(m@.items =~= old(m)@.transpose(t).items);
}

/// One voice of the intermediate score.
#[derive(Debug, Clone, PartialEq, Eq)]
pub struct Part {
    pub transpose: Option<Transpose>,
    pub instrument: Option<Instrument>,
    pub measures: Vec<Measure>,
}

/// The mathematical value of a [`Part`].
pub struct PartModel {
    pub transpose: Option<Transpose>,
    pub instrument: Option<Instrument>,
    pub measures: Seq<MeasureModel>,
}

impl View for Part {
    type V = PartModel;

    open spec fn view(&self) -> PartModel {
        PartModel {
            transpose: self.transpose,
            instrument: self.instrument,
            measures: self.measures@.map_values(|m: Measure| m@),
        }
    }
}

impl PartModel {
    /// A part with no transposition, instrument or measures.
    pub open spec fn empty() -> PartModel {
        PartModel { transpose: None, instrument: None, measures: Seq::empty() }
    }

    /// A part is empty when every measure is.
    pub open spec fn is_empty(self) -> bool {
        forall|i: int| 0 <= i < self.measures.len() ==> (#[trigger] self.measures[i]).is_empty()
    }

    /// The transposition can be applied without overflow.
    pub open spec fn transpose_fits(self) -> bool {
        self.transpose matches Some(t) ==> forall|i: int|
            0 <= i < self.measures.len() ==> (#[trigger] self.measures[i]).transpose_fits(t)
    }

    /// The part with its transposition applied to every note and then
    /// dropped; unchanged when it has none.
    pub open spec fn apply_transpose(self) -> PartModel {
        match self.transpose {
            None => self,
            Some(t) => PartModel {
                transpose: None,
                measures: self.measures.map_values(|m: MeasureModel| m.transpose(t)),
                ..self
            },
        }
    }
}

impl Part {
    /// A part with no transposition, instrument or measures.
    pub fn new() -> (p: Part)
        ensures
            p@ == PartModel::empty(),
    {
        let p = Part { transpose: None, instrument: None, measures: Vec::new() };
        assert(p@.measures =~= Seq::<MeasureModel>::empty());
        p
    }

    /// Whether every measure is empty.
    pub fn is_empty(&self) -> (b: bool)
        ensures
            b == self@.is_empty(),
    {
        let mut i: usize = 0;
        while i < self.measures.len()
            invariant
                i <= self.measures@.len(),
                forall|k: int| 0 <= k < i ==> (#[trigger] self@.measures[k]).is_empty(),
            decreases self.measures@.len() - i,
        {
            if !self.measures[i].is_empty() {
                assert(!self@.measures[i as int].is_empty());
                return false;
            }
            i = i + 1;
        }
        true
    }

    /// Append an empty measure.
    pub fn add_measure(&mut self)
        ensures
            final(self)@ == (PartModel {
                measures: old(self)@.measures.push(MeasureModel::empty()),
                ..old(self)@
            }),
    {
        self.measures.push(Measure::new());
        assert(final(self)@.measures =~= old(self)@.measures.push(MeasureModel::empty()));
    }

    /// Move every note by the part's transposition, normalize it, and drop
    /// the transposition.
    pub fn apply_transpose(&mut self)
        requires
            old(self)@.transpose_fits(),
        ensures
            final(self)@ == old(self)@.apply_transpose(),
    {
        let t = match self.transpose {
            None => return,
            Some(t) => t,
        };
        self.transpose = None;
        let ghost old_ms = old(self)@.measures;
        let mut i: usize = 0;
        while i < self.measures.len()
            invariant
                i <= self.measures@.len(),
                self.measures@.len() == old_ms.len(),
                old_ms == old(self)@.measures,
                old(self).transpose == Some(t),
                old(self)@.transpose_fits(),
                self.transpose is None,
                self.instrument == old(self).instrument,
                forall|k: int| 0 <= k < i ==> self.measures@[k]@ == old_ms[k].transpose(t),
                forall|k: int| i <= k < self.measures@.len() ==> self.measures@[k]@ == old_ms[k],
            decreases self.measures@.len() - i,
        {
            assert(old_ms[i as int].transpose_fits(t));
            transpose_measure_in_place(&mut self.measures[i], t);
            i = i + 1;
        }
        assert(self@.measures =~= old(self)@.apply_transpose().measures);
    }
}

/// The intermediate score: parts and an optional starting tempo.
#[derive(Debug, Clone, PartialEq, Eq)]
pub struct Score {
    pub parts: Vec<Part>,
    pub bpm: Option<u32>,
}

/// The mathematical value of a [`Score`].
pub struct ScoreModel {
    pub parts: Seq<PartModel>,
    pub bpm: Option<u32>,
}

impl View for Score {
    type V = ScoreModel;

    open spec fn view(&self) -> ScoreModel {
        ScoreModel { parts: self.parts@.map_values(|p: Part| p@), bpm: self.bpm }
    }
}

/// The parts of `parts` that are not empty, in order.
pub open spec fn non_empty_parts(parts: Seq<PartModel>) -> Seq<PartModel>
    decreases parts.len(),
{
    if parts.len() == 0 {
        Seq::empty()
    } else {
        let rest = non_empty_parts(parts.drop_last());
        if parts.last().is_empty() { rest } else { rest.push(parts.last()) }
    }
}

/// `e` with its duration doubled.
pub open spec fn double_event(e: EventModel) -> EventModel {
    EventModel { duration: (2 * e.duration) as u32, ..e }
}

/// `item` with its duration doubled, if an event.
pub open spec fn double_item(item: MeasureItemModel) -> MeasureItemModel {
    match item {
        MeasureItemModel::Event(e) => MeasureItemModel::Event(double_event(e)),
        MeasureItemModel::Dynamic(d) => MeasureItemModel::Dynamic(d),
    }
}

/// An event of `item` that is staccato with an odd duration.
pub open spec fn odd_staccato(item: MeasureItemModel) -> bool {
    item matches MeasureItemModel::Event(e) && e.staccato && e.duration % 2 == 1
}

/// Doubling `item` stays within `u32`.
pub open spec fn item_doubles(item: MeasureItemModel) -> bool {
    item matches MeasureItemModel::Event(e) ==> 2 * e.duration <= u32::MAX
}

impl MeasureModel {
    /// Some event of the measure is staccato with an odd duration.
    pub open spec fn has_odd_staccato(self) -> bool {
        exists|k: int| 0 <= k < self.items.len() && odd_staccato(#[trigger] self.items[k])
    }

    /// Every duration and tempo of the measure doubled.
    pub open spec fn doubled(self) -> MeasureModel {
        MeasureModel {
            carryover: (2 * self.carryover) as u32,
            items: self.items.map_values(|i: MeasureItemModel| double_item(i)),
            divisions: self.divisions,
            metronome: match self.metronome {
                Some(m) => Some(Metronome { beat: (2 * m.beat) as u32, ..m }),
                None => None,
            },
        }
    }

    /// Doubling the measure stays within `u32`.
    pub open spec fn doubles(self) -> bool {
        &&& 2 * self.carryover <= u32::MAX
        &&& self.metronome matches Some(m) ==> 2 * m.beat <= u32::MAX
        &&& forall|k: int| 0 <= k < self.items.len() ==> item_doubles(#[trigger] self.items[k])
    }
}

impl PartModel {
    /// Some event of the part is staccato with an odd duration.
    pub open spec fn has_odd_staccato(self) -> bool {
        exists|k: int| 0 <= k < self.measures.len() && (#[trigger] self.measures[k]).has_odd_staccato()
    }

    /// Every duration and tempo of the part doubled.
    pub open spec fn doubled(self) -> PartModel {
        PartModel { measures: self.measures.map_values(|m: MeasureModel| m.doubled()), ..self }
    }

    /// Doubling the part stays within `u32`.
    pub open spec fn doubles(self) -> bool {
        forall|k: int| 0 <= k < self.measures.len() ==> (#[trigger] self.measures[k]).doubles()
    }
}

impl ScoreModel {
    /// Some event of the score is staccato with an odd duration.
    pub open spec fn has_odd_staccato(self) -> bool {
        exists|k: int| 0 <= k < self.parts.len() && (#[trigger] self.parts[k]).has_odd_staccato()
    }

    /// Every duration and tempo of the score doubled.
    pub open spec fn doubled(self) -> ScoreModel {
        ScoreModel {
            parts: self.parts.map_values(|p: PartModel| p.doubled()),
            bpm: match self.bpm {
                Some(b) => Some((2 * b) as u32),
                None => None,
            },
        }
    }

    /// Doubling the score stays within `u32`.
    pub open spec fn doubles(self) -> bool {
        &&& self.bpm matches Some(b) ==> 2 * b <= u32::MAX
        &&& forall|k: int| 0 <= k < self.parts.len() ==> (#[trigger] self.parts[k]).doubles()
    }

    /// Staccato notes are written as a note followed by an equal rest, so a
    /// staccato event needs an even duration: when some staccato event has
    /// an odd one, every duration and tempo of the score is doubled.
    pub open spec fn fix_hyper_staccato(self) -> Option<ScoreModel> {
        if !self.has_odd_staccato() {
            Some(self)
        } else if self.doubles() {
            Some(self.doubled())
        } else {
            None
        }
    }

    /// Every staccato event of the score has an even duration.
    pub open spec fn staccato_even(self) -> bool {
        forall|p: int, m: int, k: int|
            0 <= p < self.parts.len() && 0 <= m < self.parts[p].measures.len() && 0 <= k
                < self.parts[p].measures[m].items.len() ==> !odd_staccato(
                #[trigger] self.parts[p].measures[m].items[k],
            )
    }
}

/// After the staccato fix, every staccato event has an even duration.
pub proof fn lemma_fix_hyper_staccato_even(s: ScoreModel)
    requires
        s.fix_hyper_staccato() is Some,
    ensures
        s.fix_hyper_staccato()->0.staccato_even(),
{
    if s.has_odd_staccato() {
        let d = s.doubled();
        assert forall|p: int, m: int, k: int|
            0 <= p < d.parts.len() && 0 <= m < d.parts[p].measures.len() && 0 <= k
                < d.parts[p].measures[m].items.len() implies !odd_staccato(
            #[trigger] d.parts[p].measures[m].items[k],
        ) by {
            assert(s.parts[p].doubles());
            assert(s.parts[p].measures[m].doubles());
            assert(item_doubles(s.parts[p].measures[m].items[k]));
        }
    } else {
        assert forall|p: int, m: int, k: int|
            0 <= p < s.parts.len() && 0 <= m < s.parts[p].measures.len() && 0 <= k
                < s.parts[p].measures[m].items.len() implies !odd_staccato(
            #[trigger] s.parts[p].measures[m].items[k],
        ) by {
            if odd_staccato(s.parts[p].measures[m].items[k]) {
                assert(s.parts[p].measures[m].has_odd_staccato());
                assert(s.parts[p].has_odd_staccato());
            }
        }
    }
}

fn measure_has_odd_staccato(m: &Measure) -> (b: bool)
    ensures
        b == m@.has_odd_staccato(),
{
    let mut i: usize = 0;
    while i < m.items.len()
        invariant
            i <= m.items@.len(),
            forall|k: int| 0 <= k < i ==> !odd_staccato(#[trigger] m@.items[k]),
        decreases m.items@.len() - i,
    {
        if let MeasureItem::Event(e) = &m.items[i] {
            if e.staccato && e.duration % 2 == 1 {
                assert(odd_staccato(m@.items[i as int]));
                return true;
            }
        }
        i = i + 1;
    }
    false
}

fn measure_doubles(m: &Measure) -> (b: bool)
    ensures
        b == m@.doubles(),
{
    if m.carryover > u32::MAX / 2 {
        return false;
    }
    if let Some(t) = m.metronome {
        if t.beat > u32::MAX / 2 {
            return false;
        }
    }
    let mut i: usize = 0;
    while i < m.items.len()
        invariant
            i <= m.items@.len(),
            forall|k: int| 0 <= k < i ==> item_doubles(#[trigger] m@.items[k]),
        decreases m.items@.len() - i,
    {
        if let MeasureItem::Event(e) = &m.items[i] {
            if e.duration > u32::MAX / 2 {
                assert(!item_doubles(m@.items[i as int]));
                return false;
            }
        }
        i = i + 1;
    }
    true
}

fn double_measure(m: &mut Measure)
    requires
        old(m)@.doubles(),
    ensures
        final(m)@ == old(m)@.doubled(),
{
    let ghost old_items = m@.items;
    m.carryover = m.carryover * 2;
    if let Some(t) = m.metronome {
        m.metronome = Some(Metronome { beat: t.beat * 2, ..t });
    }
    let mut i: usize = 0;
    while i < m.items.len()
        invariant
            i <= m.items@.len(),
            m.items@.len() == old_items.len(),
            old_items == old(m)@.items,
            old(m)@.doubles(),
            m.carryover == old(m)@.doubled().carryover,
            m.metronome == old(m)@.doubled().metronome,
            m.divisions == old(m).divisions,
            forall|k: int| 0 <= k < i ==> m.items@[k]@ == double_item(old_items[k]),
            forall|k: int| i <= k < m.items@.len() ==> m.items@[k]@ == old_items[k],
        decreases m.items@.len() - i,
    {
        assert(item_doubles(old_items[i as int]));
        match &mut m.items[i] {
            MeasureItem::Event(e) => {
                e.duration = e.duration * 2;
            },
            MeasureItem::Dynamic(_) => {},
        }
        i = i + 1;
    }
    assert(m@.items =~= old(m)@.doubled().items);
}

fn double_part(part: &mut Part)
    requires
        old(part)@.doubles(),
    ensures
        final(part)@ == old(part)@.doubled(),
{
    let ghost before = part@;
    let mut m: usize = 0;
    while m < part.measures.len()
        invariant
            m <= part.measures@.len(),
            before == old(part)@,
            before.doubles(),
            part.measures@.len() == before.measures.len(),
            part.transpose == before.transpose,
            part.instrument == before.instrument,
            forall|k: int| 0 <= k < m ==> part.measures@[k]@ == before.measures[k].doubled(),
            forall|k: int| m <= k < before.measures.len() ==> part.measures@[k]@ == before.measures[k],
        decreases part.measures@.len() - m,
    {
        assert(before.measures[m as int].doubles());
        double_measure(&mut part.measures[m]);
        m = m + 1;
    }
    assert(part@.measures =~= before.doubled().measures);
}

impl Score {
    /// Whether some event is staccato with an odd duration.
    fn has_odd_staccato(&self) -> (b: bool)
        ensures
            b == self@.has_odd_staccato(),
    {
        let mut p: usize = 0;
        while p < self.parts.len()
            invariant
                p <= self.parts@.len(),
                forall|k: int| 0 <= k < p ==> !(#[trigger] self@.parts[k]).has_odd_staccato(),
            decreases self.parts@.len() - p,
        {
            let part = &self.parts[p];
            let mut m: usize = 0;
            while m < part.measures.len()
                invariant
                    p < self.parts@.len(),
                    m <= part.measures@.len(),
                    part@ == self@.parts[p as int],
                    forall|k: int| 0 <= k < m ==> !(#[trigger] part@.measures[k]).has_odd_staccato(),
                decreases part.measures@.len() - m,
            {
                if measure_has_odd_staccato(&part.measures[m]) {
                    assert(part@.measures[m as int].has_odd_staccato());
                    assert(self@.parts[p as int].has_odd_staccato());
                    return true;
                }
                m = m + 1;
            }
            p = p + 1;
        }
        false
    }

    /// Whether doubling every duration and tempo stays within `u32`.
    fn doubles(&self) -> (b: bool)
        ensures
            b == self@.doubles(),
    {
        if let Some(b) = self.bpm {
            if b > u32::MAX / 2 {
                return false;
            }
        }
        let mut p: usize = 0;
        while p < self.parts.len()
            invariant
                p <= self.parts@.len(),
                forall|k: int| 0 <= k < p ==> (#[trigger] self@.parts[k]).doubles(),
            decreases self.parts@.len() - p,
        {
            let part = &self.parts[p];
            let mut m: usize = 0;
            while m < part.measures.len()
                invariant
                    p < self.parts@.len(),
                    m <= part.measures@.len(),
                    part@ == self@.parts[p as int],
                    forall|k: int| 0 <= k < m ==> (#[trigger] part@.measures[k]).doubles(),
                decreases part.measures@.len() - m,
            {
                if !measure_doubles(&part.measures[m]) {
                    assert(!part@.measures[m as int].doubles());
                    return false;
                }
                m = m + 1;
            }
            p = p + 1;
        }
        true
    }

    /// Double every duration and tempo when some staccato event has an odd
    /// duration, so that every staccato event can be written as a note and an
    /// equal rest. Returns false, and leaves the score unspecified, when the
    /// doubling would overflow.
    pub fn try_fix_hyper_staccato(&mut self) -> (ok: bool)
        ensures
            ok == old(self)@.fix_hyper_staccato() is Some,
            ok ==> final(self)@ == old(self)@.fix_hyper_staccato()->0,
    {
        if !self.has_odd_staccato() {
            return true;
        }
        if !self.doubles() {
            return false;
        }
        let ghost old_parts = self@.parts;
        if let Some(b) = self.bpm {
            self.bpm = Some(b * 2);
        }
        let mut p: usize = 0;
        while p < self.parts.len()
            invariant
                p <= self.parts@.len(),
                self.parts@.len() == old_parts.len(),
                old_parts == old(self)@.parts,
                old(self)@.doubles(),
                self.bpm == old(self)@.doubled().bpm,
                forall|k: int| 0 <= k < p ==> self.parts@[k]@ == old_parts[k].doubled(),
                forall|k: int| p <= k < self.parts@.len() ==> self.parts@[k]@ == old_parts[k],
            decreases self.parts@.len() - p,
        {
            assert(old_parts[p as int].doubles());
            double_part(&mut self.parts[p]);
            p = p + 1;
        }
        assert(self@.parts =~= old(self)@.doubled().parts);
        true
    }
}

/// `m` with the duration of its event at item `k` raised by `d`.
pub open spec fn add_to_event(m: MeasureModel, k: int, d: nat) -> MeasureModel {
    match m.items[k] {
        MeasureItemModel::Event(e) => MeasureModel {
            items: m.items.update(
                k,
                MeasureItemModel::Event(EventModel { duration: (e.duration + d) as u32, ..e }),
            ),
            ..m
        },
        MeasureItemModel::Dynamic(_) => m,
    }
}

/// The event at item `k` of `m`.
pub open spec fn event_at(m: MeasureModel, k: int) -> EventModel {
    m.items[k]->Event_0
}

/// One step of the tied-chord fix at measure `i`: a tie carried into
/// measure `i` is folded into the last event of the previous measure when
/// that event is a chord; when the previous measure has no event at all and
/// `i > 2`, it is folded into the last event of the measure before that,
/// which must exist and have a note. `None` where the fix cannot proceed.
pub open spec fn carry_step(ms: Seq<MeasureModel>, i: int) -> Option<Seq<MeasureModel>> {
    let cur = ms[i];
    let prev = ms[i - 1];
    let carry = cur.carryover as nat;
    if carry == 0 {
        Some(ms)
    } else {
        match last_event_index(prev.items) {
            None => if i > 2 {
                let pp = ms[i - 2];
                match last_event_index(pp.items) {
                    None => None,
                    Some(k) => {
                        let e = event_at(pp, k);
                        if e.notes.len() < 1 || e.duration + carry > u32::MAX {
                            None
                        } else {
                            Some(
                                ms.update(i, MeasureModel { carryover: 0, ..cur }).update(
                                    i - 2,
                                    add_to_event(pp, k, carry),
                                ),
                            )
                        }
                    },
                }
            } else {
                Some(ms)
            },
            Some(k) => {
                let e = event_at(prev, k);
                if e.notes.len() <= 1 {
                    Some(ms)
                } else if e.duration + carry > u32::MAX {
                    None
                } else {
                    Some(
                        ms.update(i - 1, add_to_event(prev, k, carry)).update(
                            i,
                            MeasureModel { carryover: 0, ..cur },
                        ),
                    )
                }
            },
        }
    }
}

/// The tied-chord fix applied at measures `i`, `i + 1`, ... up to `n`.
pub open spec fn carry_from(ms: Seq<MeasureModel>, i: int, n: int) -> Option<Seq<MeasureModel>>
    decreases n - i,
{
    if i >= n {
        Some(ms)
    } else {
        match carry_step(ms, i) {
            None => None,
            Some(next) => carry_from(next, i + 1, n),
        }
    }
}

impl PartModel {
    /// The tied-chord fix applied to every measure after the first.
    pub open spec fn fix_carryover_chords(self) -> Option<PartModel> {
        match carry_from(self.measures, 1, self.measures.len() as int) {
            None => None,
            Some(ms) => Some(PartModel { measures: ms, ..self }),
        }
    }
}

/// The tied-chord fix applied to every part from the `i`-th on.
pub open spec fn parts_carry_from(parts: Seq<PartModel>, i: int) -> Option<Seq<PartModel>>
    decreases parts.len() - i,
{
    if i >= parts.len() || i < 0 {
        Some(parts)
    } else {
        match parts[i].fix_carryover_chords() {
            None => None,
            Some(p) => parts_carry_from(parts.update(i, p), i + 1),
        }
    }
}

impl ScoreModel {
    /// The tied-chord fix applied to every part.
    pub open spec fn fix_carryover_chords(self) -> Option<ScoreModel> {
        match parts_carry_from(self.parts, 0) {
            None => None,
            Some(parts) => Some(ScoreModel { parts, ..self }),
        }
    }
}

/// The last event position of `items` is an event within bounds.
pub proof fn lemma_last_event_index(items: Seq<MeasureItemModel>)
    ensures
        last_event_index(items) matches Some(k) ==> 0 <= k < items.len() && items[k] is Event,
    decreases items.len(),
{
    if items.len() > 0 && !(items.last() is Event) {
        lemma_last_event_index(items.drop_last());
    }
}

fn add_to_event_in_place(m: &mut Measure, k: usize, d: u32)
    requires
        k < old(m).items@.len(),
        old(m)@.items[k as int] is Event,
        event_at(old(m)@, k as int).duration + d <= u32::MAX,
    ensures
        final(m)@ == add_to_event(old(m)@, k as int, d as nat),
{
    assert(old(m)@.items[k as int] == old(m).items@[k as int]@);
    match &mut m.items[k] {
        MeasureItem::Event(e) => {
            e.duration = e.duration + d;
        },
        MeasureItem::Dynamic(_) => {},
    }
    assert(m@.items =~= add_to_event(old(m)@, k as int, d as nat).items);
}

/// The duration and note count of the event at item `k`.
pub fn event_shape(m: &Measure, k: usize) -> (r: (u32, usize))
    requires
        k < m.items@.len(),
        m@.items[k as int] is Event,
    ensures
        r.0 == event_at(m@, k as int).duration,
        r.1 == event_at(m@, k as int).notes.len(),
{
    assert(m@.items[k as int] == m.items@[k as int]@);
    match &m.items[k] {
        MeasureItem::Event(e) => (e.duration, e.notes.len()),
        MeasureItem::Dynamic(_) => (0, 0),
    }
}

impl Part {
    /// Fold ties carried into a measure into the chord that ends the
    /// previous measure (see [`carry_step`]). Returns false, leaving the part
    /// unspecified, where the fix cannot proceed.
    pub fn try_fix_carryover_chords(&mut self) -> (ok: bool)
        ensures
            ok == old(self)@.fix_carryover_chords() is Some,
            ok ==> final(self)@ == old(self)@.fix_carryover_chords()->0,
    {
        let n = self.measures.len();
        let ghost target = carry_from(old(self)@.measures, 1, n as int);
        let mut i: usize = 1;
        while i < n
            invariant
                1 <= i,
                n == self.measures@.len(),
                n == old(self)@.measures.len(),
                target == carry_from(old(self)@.measures, 1, n as int),
                carry_from(self@.measures, i as int, n as int) == target,
                self.transpose == old(self).transpose,
                self.instrument == old(self).instrument,
            decreases n - i,
        {
            let ghost ms = self@.measures;
            assert(ms[i as int] == self.measures@[i as int]@);
            assert(ms[i as int - 1] == self.measures@[i as int - 1]@);
            let carry = self.measures[i].carryover;
            if carry != 0 {
                proof { lemma_last_event_index(ms[i as int - 1].items); }
                match self.measures[i - 1].last_event_index() {
                    None => {
                        if i > 2 {
                            assert(ms[i as int - 2] == self.measures@[i as int - 2]@);
                            proof { lemma_last_event_index(ms[i as int - 2].items); }
                            match self.measures[i - 2].last_event_index() {
                                None => {
                                    assert(carry_step(ms, i as int) is None);
                                    assert(carry_from(ms, i as int, n as int) is None);
                                    return false;
                                },
                                Some(k) => {
                                    let (dur, count) = event_shape(&self.measures[i - 2], k);
                                    if count < 1 || dur > u32::MAX - carry {
                                        assert(carry_step(ms, i as int) is None);
                                    assert(carry_from(ms, i as int, n as int) is None);
                                        return false;
                                    }
                                    self.measures[i].carryover = 0;
                                    add_to_event_in_place(&mut self.measures[i - 2], k, carry);
                                    assert(self@.measures =~= carry_step(ms, i as int)->0);
                                },
                            }
                        }
                    },
                    Some(k) => {
                        let (dur, count) = event_shape(&self.measures[i - 1], k);
                        if count > 1 {
                            if dur > u32::MAX - carry {
                                assert(carry_step(ms, i as int) is None);
                                    assert(carry_from(ms, i as int, n as int) is None);
                                return false;
                            }
                            add_to_event_in_place(&mut self.measures[i - 1], k, carry);
                            self.measures[i].carryover = 0;
                            assert(self@.measures =~= carry_step(ms, i as int)->0);
                        }
                    },
                }
            }
            assert(carry_step(ms, i as int) == Some(self@.measures));
            i = i + 1;
        }
        assert(self@ =~= (PartModel { measures: self@.measures, ..old(self)@ }));
        true
    }
}

/// The unit in the last place of a single-precision float holding the
/// integer `x`, found by doubling `p` until `x / p` fits in 24 bits.
pub open spec fn f32_unit(x: nat, p: nat) -> nat
    decreases x - p,
{
    if p == 0 || x / p < 0x100_0000 {
        p
    } else {
        proof {
            assert(x >= 2 * p) by (nonlinear_arith)
                requires
                    p > 0,
                    x / p >= 0x100_0000,
            ;
        }
        f32_unit(x, 2 * p)
    }
}

/// The integer `x` rounded to a single-precision float: to 24 significant
/// bits, to nearest, ties to even.
pub open spec fn round_f32(x: nat) -> nat {
    let p = f32_unit(x, 1);
    if p <= 1 {
        x
    } else {
        let q = x / p;
        let r = x % p;
        let h = p / 2;
        (if r > h || (r == h && q % 2 == 1) { q + 1 } else { q }) * p
    }
}

/// The starting tempo in whole notes per minute that a metronome marking
/// gives at `divisions` divisions per quarter note: the single-precision
/// product of the divisions, the beat count and the note value (in whole
/// notes), truncated toward zero and saturated to a `u32`.
pub open spec fn marking_bpm(divisions: u32, m: Metronome) -> u32 {
    let product = round_f32(round_f32(divisions as nat) * round_f32(m.beat as nat));
    let v = product * m.note_value.sixteenths() / 16;
    if v > u32::MAX { u32::MAX } else { v as u32 }
}

proof fn lemma_f32_unit_bounds(x: nat, p: nat)
    requires
        p >= 1,
        p <= x || p == 1,
    ensures
        f32_unit(x, p) >= 1,
        f32_unit(x, p) <= x || f32_unit(x, p) == p,
    decreases x - p,
{
    if x / p >= 0x100_0000 {
        assert(x >= 2 * p) by (nonlinear_arith)
            requires
                p > 0,
                x / p >= 0x100_0000,
        ;
        lemma_f32_unit_bounds(x, 2 * p);
    }
}

/// `x` rounded to a single-precision float, as in [`round_f32`].
fn round_to_f32(x: u128) -> (r: u128)
    requires
        x <= 0x1_0000_0000_0000_0000_0000,
    ensures
        r == round_f32(x as nat),
        r <= 2 * x,
{
    let mut p: u128 = 1;
    while x / p >= 0x100_0000
        invariant
            p >= 1,
            p <= x || p == 1,
            f32_unit(x as nat, p as nat) == f32_unit(x as nat, 1),
        decreases x - p,
    {
        assert(x >= 2 * p) by (nonlinear_arith)
            requires
                p > 0,
                x / p >= 0x100_0000,
        ;
        p = p * 2;
    }
    if p <= 1 {
        return x;
    }
    let q = x / p;
    let r = x % p;
    let h = p / 2;
    let up = r > h || (r == h && q % 2 == 1);
    assert(q * p <= x) by (nonlinear_arith)
        requires
            p > 0,
            q == x / p,
    ;
    assert(q >= 1) by (nonlinear_arith)
        requires
            p > 1,
            p <= x,
            q == x / p,
    ;
    assert((q + 1) * p <= 2 * x) by (nonlinear_arith)
        requires
            p > 1,
            q == x / p,
            q >= 1,
            x >= p,
    ;
    if up {
        (q + 1) * p
    } else {
        q * p
    }
}

/// The starting tempo that a metronome marking gives, as in [`marking_bpm`].
pub fn compute_marking_bpm(divisions: u32, m: Metronome) -> (b: u32)
    ensures
        b == marking_bpm(divisions, m),
{
    let d = round_to_f32(divisions as u128);
    let t = round_to_f32(m.beat as u128);
    assert(d * t <= 0x1_0000_0000_0000_0000_0000) by (nonlinear_arith)
        requires
            d <= 2 * (u32::MAX as int),
            t <= 2 * (u32::MAX as int),
    ;
    let product = round_to_f32(d * t);
    assert(product * 32 <= u128::MAX) by (nonlinear_arith)
        requires
            product <= 2 * (d * t),
            d * t <= 0x1_0000_0000_0000_0000_0000,
    ;
    let w = m.note_value.sixteenth_count() as u128;
    assert(product * w <= product * 32) by (nonlinear_arith)
        requires
            w <= 32,
    ;
    let v = product * w / 16;
    if v > u32::MAX as u128 {
        u32::MAX
    } else {
        v as u32
    }
}

/// `dst` with every measure that has no metronome marking taking the one of
/// the measure at the same position in `src`, where `src` has one.
pub open spec fn inherit_metronomes(dst: PartModel, src: PartModel) -> PartModel {
    PartModel {
        measures: Seq::new(
            dst.measures.len(),
            |j: int|
                if j < src.measures.len() && dst.measures[j].metronome is None {
                    MeasureModel { metronome: src.measures[j].metronome, ..dst.measures[j] }
                } else {
                    dst.measures[j]
                },
        ),
        ..dst
    }
}

/// Parts `i`, `i + 1`, ... inherit markings from the part before, each after
/// the one before it has inherited.
pub open spec fn inherit_from(parts: Seq<PartModel>, i: int) -> Seq<PartModel>
    decreases parts.len() - i,
{
    if i >= parts.len() || i < 1 {
        parts
    } else {
        inherit_from(parts.update(i, inherit_metronomes(parts[i], parts[i - 1])), i + 1)
    }
}

/// `p` with every metronome beat count multiplied by `d`.
pub open spec fn scale_metronomes(p: PartModel, d: u32) -> PartModel {
    PartModel {
        measures: p.measures.map_values(
            |m: MeasureModel|
                MeasureModel {
                    metronome: match m.metronome {
                        Some(t) => Some(Metronome { beat: (t.beat * d) as u32, ..t }),
                        None => None,
                    },
                    ..m
                },
        ),
        ..p
    }
}

/// Multiplying every beat count of `p` by `d` stays within `u32`.
pub open spec fn scale_fits(p: PartModel, d: u32) -> bool {
    forall|j: int|
        0 <= j < p.measures.len() ==> ((#[trigger] p.measures[j]).metronome matches Some(t) ==> t.beat * d
            <= u32::MAX)
}

impl ScoreModel {
    /// Every part starts with `d` divisions per quarter note, and every
    /// later measure has none written or 4.
    pub open spec fn divisions_agree(self, d: u32) -> bool {
        forall|i: int|
            0 <= i < self.parts.len() ==> {
                &&& (#[trigger] self.parts[i]).measures.len() > 0
                &&& self.parts[i].measures[0].divisions == Some(d)
                &&& forall|j: int|
                    1 <= j < self.parts[i].measures.len() ==> ((#[trigger] self.parts[i].measures[j].divisions)
                        is None || self.parts[i].measures[j].divisions == Some(4u32))
            }
    }

    /// Tempo fix-up: the first measure's metronome marking becomes the
    /// starting tempo; each part inherits markings from the part before;
    /// every marking's beat count is scaled by the divisions per quarter
    /// note. `None` where the score does not start with agreeing divisions or
    /// a scaled beat count overflows.
    pub open spec fn adjust_metronomes(self) -> Option<ScoreModel> {
        if self.parts.len() == 0 {
            Some(self)
        } else if self.parts[0].measures.len() == 0 {
            None
        } else {
            match self.parts[0].measures[0].divisions {
                None => None,
                Some(d) => if !self.divisions_agree(d) {
                    None
                } else {
                    let m0 = self.parts[0].measures[0];
                    let bpm = match m0.metronome {
                        Some(m) => Some(marking_bpm(d, m)),
                        None => self.bpm,
                    };
                    let p0 = PartModel {
                        measures: self.parts[0].measures.update(0, MeasureModel { metronome: None, ..m0 }),
                        ..self.parts[0]
                    };
                    let inherited = inherit_from(self.parts.update(0, p0), 1);
                    if forall|i: int| 0 <= i < inherited.len() ==> scale_fits(#[trigger] inherited[i], d) {
                        Some(
                            ScoreModel {
                                parts: inherited.map_values(|p: PartModel| scale_metronomes(p, d)),
                                bpm,
                            },
                        )
                    } else {
                        None
                    }
                },
            }
        }
    }
}

/// The metronome markings of the measures of `p`, in order.
fn metronomes_of(p: &Part) -> (r: Vec<Option<Metronome>>)
    ensures
        r@.len() == p@.measures.len(),
        forall|j: int| 0 <= j < r@.len() ==> r@[j] == (#[trigger] p@.measures[j]).metronome,
{
    let mut r: Vec<Option<Metronome>> = Vec::new();
    let mut j: usize = 0;
    while j < p.measures.len()
        invariant
            j <= p.measures@.len(),
            r@.len() == j,
            forall|k: int| 0 <= k < j ==> r@[k] == (#[trigger] p@.measures[k]).metronome,
        decreases p.measures@.len() - j,
    {
        r.push(p.measures[j].metronome);
        j = j + 1;
    }
    r
}

fn inherit_in_place(dst: &mut Part, src: &Vec<Option<Metronome>>, Ghost(src_part): Ghost<PartModel>)
    requires
        src@.len() == src_part.measures.len(),
        forall|j: int| 0 <= j < src@.len() ==> src@[j] == (#[trigger] src_part.measures[j]).metronome,
    ensures
        final(dst)@ == inherit_metronomes(old(dst)@, src_part),
{
    let mut j: usize = 0;
    while j < dst.measures.len()
        invariant
            j <= dst.measures@.len(),
            src@.len() == src_part.measures.len(),
            forall|j: int| 0 <= j < src@.len() ==> src@[j] == (#[trigger] src_part.measures[j]).metronome,
            dst.measures@.len() == old(dst).measures@.len(),
            dst.transpose == old(dst).transpose,
            dst.instrument == old(dst).instrument,
            forall|k: int| 0 <= k < j ==> dst.measures@[k]@ == inherit_metronomes(old(dst)@, src_part).measures[k],
            forall|k: int| j <= k < dst.measures@.len() ==> dst.measures@[k] == old(dst).measures@[k],
        decreases dst.measures@.len() - j,
    {
        if j < src.len() && dst.measures[j].metronome.is_none() {
            dst.measures[j].metronome = src[j];
        }
        j = j + 1;
    }
    assert(dst@.measures =~= inherit_metronomes(old(dst)@, src_part).measures);
}

/// Whether every beat count of `p` can be multiplied by `d`.
fn check_scale_fits(p: &Part, d: u32) -> (b: bool)
    ensures
        b == scale_fits(p@, d),
{
    let mut j: usize = 0;
    while j < p.measures.len()
        invariant
            j <= p.measures@.len(),
            forall|k: int| 0 <= k < j ==> ((#[trigger] p@.measures[k]).metronome matches Some(t) ==> t.beat * d <= u32::MAX),
        decreases p.measures@.len() - j,
    {
        if let Some(t) = p.measures[j].metronome {
            assert((t.beat as u64) * (d as u64) <= u64::MAX) by (nonlinear_arith)
                requires
                    t.beat <= u32::MAX,
                    d <= u32::MAX,
            ;
            if t.beat as u64 * d as u64 > u32::MAX as u64 {
                assert(p@.measures[j as int].metronome == Some(t));
                return false;
            }
        }
        j = j + 1;
    }
    true
}

fn scale_in_place(p: &mut Part, d: u32)
    requires
        scale_fits(old(p)@, d),
    ensures
        final(p)@ == scale_metronomes(old(p)@, d),
{
    let mut j: usize = 0;
    while j < p.measures.len()
        invariant
            j <= p.measures@.len(),
            p.measures@.len() == old(p).measures@.len(),
            p.transpose == old(p).transpose,
            p.instrument == old(p).instrument,
            scale_fits(old(p)@, d),
            forall|k: int| 0 <= k < j ==> p.measures@[k]@ == scale_metronomes(old(p)@, d).measures[k],
            forall|k: int| j <= k < p.measures@.len() ==> p.measures@[k] == old(p).measures@[k],
        decreases p.measures@.len() - j,
    {
        assert(old(p)@.measures[j as int] == old(p).measures@[j as int]@);
        if let Some(t) = p.measures[j].metronome {
            p.measures[j].metronome = Some(Metronome { beat: t.beat * d, ..t });
        }
        j = j + 1;
    }
    assert(p@.measures =~= scale_metronomes(old(p)@, d).measures);
}

impl Score {
    /// Whether all parts start with `d` divisions and later measures have
    /// none written or 4.
    fn divisions_agree(&self, d: u32) -> (b: bool)
        ensures
            b == self@.divisions_agree(d),
    {
        let mut i: usize = 0;
        while i < self.parts.len()
            invariant
                i <= self.parts@.len(),
                forall|k: int|
                    0 <= k < i ==> {
                        &&& (#[trigger] self@.parts[k]).measures.len() > 0
                        &&& self@.parts[k].measures[0].divisions == Some(d)
                        &&& forall|j: int|
                            1 <= j < self@.parts[k].measures.len() ==> ((#[trigger] self@.parts[k].measures[j].divisions)
                                is None || self@.parts[k].measures[j].divisions == Some(4u32))
                    },
            decreases self.parts@.len() - i,
        {
            let part = &self.parts[i];
            assert(part@ == self@.parts[i as int]);
            if part.measures.len() == 0 || part.measures[0].divisions != Some(d) {
                return false;
            }
            let mut j: usize = 1;
            while j < part.measures.len()
                invariant
                    i < self.parts@.len(),
                    1 <= j <= part.measures@.len(),
                    part@ == self@.parts[i as int],
                    forall|k: int|
                        1 <= k < j ==> ((#[trigger] part@.measures[k].divisions) is None
                            || part@.measures[k].divisions == Some(4u32)),
                decreases part.measures@.len() - j,
            {
                let dv = part.measures[j].divisions;
                if !(dv.is_none() || dv == Some(4u32)) {
                    assert(part@.measures[j as int].divisions == dv);
                    assert(!self@.divisions_agree(d));
                    return false;
                }
                j = j + 1;
            }
            i = i + 1;
        }
        true
    }

    /// Tempo fix-up (see [`ScoreModel::adjust_metronomes`]). Returns false,
    /// leaving the score unspecified, where the fix-up cannot proceed.
    pub fn try_adjust_metronomes(&mut self) -> (ok: bool)
        ensures
            ok == old(self)@.adjust_metronomes() is Some,
            ok ==> final(self)@ == old(self)@.adjust_metronomes()->0,
    {
        if self.parts.len() == 0 {
            return true;
        }
        if self.parts[0].measures.len() == 0 {
            return false;
        }
        let d = match self.parts[0].measures[0].divisions {
            None => return false,
            Some(d) => d,
        };
        if !self.divisions_agree(d) {
            return false;
        }
        let ghost s0 = self@;
        let ghost new_bpm = match s0.parts[0].measures[0].metronome {
            Some(m) => Some(marking_bpm(d, m)),
            None => s0.bpm,
        };
        assert(s0.parts[0].measures[0] == self.parts@[0].measures@[0]@);
        if let Some(m) = self.parts[0].measures[0].metronome {
            self.bpm = Some(compute_marking_bpm(d, m));
        }
        self.parts[0].measures[0].metronome = None;
        let ghost p0 = PartModel {
            measures: s0.parts[0].measures.update(0, MeasureModel { metronome: None, ..s0.parts[0].measures[0] }),
            ..s0.parts[0]
        };
        assert(self@.parts[0].measures =~= p0.measures);
        assert(self@.parts =~= s0.parts.update(0, p0));
        let ghost target = inherit_from(s0.parts.update(0, p0), 1);
        let mut i: usize = 1;
        while i < self.parts.len()
            invariant
                1 <= i,
                self.parts@.len() == s0.parts.len(),
                inherit_from(self@.parts, i as int) == target,
                self.bpm == new_bpm,
                s0 == old(self)@,
            decreases self.parts@.len() - i,
        {
            let ghost before = self@.parts;
            let src = metronomes_of(&self.parts[i - 1]);
            inherit_in_place(&mut self.parts[i], &src, Ghost(before[i as int - 1]));
            assert(self@.parts =~= before.update(i as int, inherit_metronomes(before[i as int], before[i as int - 1])));
            i = i + 1;
        }
        assert(self@.parts == target);
        let mut k: usize = 0;
        while k < self.parts.len()
            invariant
                k <= self.parts@.len(),
                forall|j: int| 0 <= j < k ==> scale_fits(#[trigger] target[j], d),
                self@.parts == target,
                target == inherit_from(s0.parts.update(0, p0), 1),
                s0 == old(self)@,
                s0.parts.len() > 0,
                s0.parts[0].measures.len() > 0,
                p0 == (PartModel {
                    measures: s0.parts[0].measures.update(0, MeasureModel { metronome: None, ..s0.parts[0].measures[0] }),
                    ..s0.parts[0]
                }),
                s0.parts[0].measures[0].divisions == Some(d),
                s0.divisions_agree(d),
            decreases self.parts@.len() - k,
        {
            if !check_scale_fits(&self.parts[k], d) {
                assert(!scale_fits(target[k as int], d));
                let ghost o = old(self)@;
                let ghost m0 = o.parts[0].measures[0];
                let ghost sp0 = PartModel {
                    measures: o.parts[0].measures.update(0, MeasureModel { metronome: None, ..m0 }),
                    ..o.parts[0]
                };
                assert(sp0 == p0);
                let ghost inherited = inherit_from(o.parts.update(0, sp0), 1);
                assert(inherited == target);
                assert(!(forall|i: int| 0 <= i < inherited.len() ==> scale_fits(#[trigger] inherited[i], d)));
                assert(old(self)@.adjust_metronomes() is None);
                return false;
            }
            k = k + 1;
        }
        let mut k: usize = 0;
        while k < self.parts.len()
            invariant
                k <= self.parts@.len(),
                self.parts@.len() == target.len(),
                forall|j: int| 0 <= j < target.len() ==> scale_fits(#[trigger] target[j], d),
                forall|j: int| 0 <= j < k ==> self.parts@[j]@ == scale_metronomes(target[j], d),
                forall|j: int| k <= j < target.len() ==> self.parts@[j]@ == target[j],
                self.bpm == new_bpm,
                s0 == old(self)@,
            decreases self.parts@.len() - k,
        {
            assert(scale_fits(target[k as int], d));
            scale_in_place(&mut self.parts[k], d);
            k = k + 1;
        }
        assert(self@.parts =~= old(self)@.adjust_metronomes()->0.parts);
        true
    }
}

/// The parts of `parts` from the `i`-th on go through the tied-chord fix,
/// given that those before already have.
proof fn lemma_parts_carry_unfold(parts: Seq<PartModel>, i: int, p: PartModel)
    requires
        0 <= i < parts.len(),
        parts[i].fix_carryover_chords() == Some(p),
    ensures
        parts_carry_from(parts, i) == parts_carry_from(parts.update(i, p), i + 1),
{
}

impl ScoreModel {
    /// The non-empty parts with their transpositions applied.
    pub open spec fn transposed_parts(self) -> Seq<PartModel> {
        non_empty_parts(self.parts).map_values(|p: PartModel| p.apply_transpose())
    }

    /// Every non-empty part can be transposed without overflow.
    pub open spec fn transpose_fits(self) -> bool {
        forall|i: int|
            0 <= i < non_empty_parts(self.parts).len() ==> (#[trigger] non_empty_parts(self.parts)[i]).transpose_fits()
    }

    /// Clean-up after reading a document: empty parts are dropped, each part
    /// is transposed, then the tempo fix-up, the tied-chord fix and the
    /// staccato fix run in turn. `None` where one of them cannot proceed.
    pub open spec fn cleanup(self) -> Option<ScoreModel> {
        if !self.transpose_fits() {
            None
        } else {
            let s1 = ScoreModel { parts: self.transposed_parts(), bpm: self.bpm };
            match s1.adjust_metronomes() {
                None => None,
                Some(s2) => match s2.fix_carryover_chords() {
                    None => None,
                    Some(s3) => s3.fix_hyper_staccato(),
                },
            }
        }
    }
}

impl Score {
    /// The tied-chord fix on every part. Returns false, leaving the score
    /// unspecified, where it cannot proceed.
    pub fn try_fix_carryover_chords(&mut self) -> (ok: bool)
        ensures
            ok == old(self)@.fix_carryover_chords() is Some,
            ok ==> final(self)@ == old(self)@.fix_carryover_chords()->0,
    {
        let ghost target = parts_carry_from(old(self)@.parts, 0);
        let mut i: usize = 0;
        while i < self.parts.len()
            invariant
                i <= self.parts@.len(),
                self.bpm == old(self).bpm,
                parts_carry_from(self@.parts, i as int) == target,
                target == parts_carry_from(old(self)@.parts, 0),
            decreases self.parts@.len() - i,
        {
            let ghost before = self@.parts;
            assert(before[i as int] == self.parts@[i as int]@);
            if !self.parts[i].try_fix_carryover_chords() {
                return false;
            }
            proof {
                lemma_parts_carry_unfold(before, i as int, self.parts@[i as int]@);
            }
            assert(self@.parts =~= before.update(i as int, self.parts@[i as int]@));
            i = i + 1;
        }
        true
    }

    /// Drop every part whose measures are all empty.
    pub fn retain_non_empty(&mut self)
        ensures
            final(self)@ == (ScoreModel { parts: non_empty_parts(old(self)@.parts), bpm: old(self).bpm }),
    {
        let mut rest: Vec<Part> = Vec::new();
        std::mem::swap(&mut rest, &mut self.parts);
        let ghost orig = rest@;
        let ghost orig_m = old(self)@.parts;
        assert(orig_m =~= orig.map_values(|p: Part| p@));
        let mut kept: Vec<Part> = Vec::new();
        let mut i: usize = 0;
        let n = rest.len();
        assert(orig_m.take(0) =~= Seq::<PartModel>::empty());
        while 0 < rest.len()
            invariant
                rest@ =~= orig.skip(i as int),
                i + rest@.len() == n,
                n == orig.len(),
                orig_m == orig.map_values(|p: Part| p@),
                kept@.map_values(|p: Part| p@) =~= non_empty_parts(orig_m.take(i as int)),
                self.bpm == old(self).bpm,
                self.parts@.len() == 0,
            decreases rest@.len(),
        {
            let part = rest.remove(0);
            assert(orig_m.take(i as int + 1).drop_last() =~= orig_m.take(i as int));
            assert(orig_m.take(i as int + 1).last() == part@);
            if !part.is_empty() {
                kept.push(part);
            }
            i = i + 1;
        }
        assert(orig_m.take(n as int) =~= orig_m);
        self.parts = kept;
    }

    /// Clean-up after reading a document (see [`ScoreModel::cleanup`]).
    /// Returns false, leaving the score unspecified, where a step cannot
    /// proceed.
    pub fn try_cleanup(&mut self) -> (ok: bool)
        ensures
            ok == old(self)@.cleanup() is Some,
            ok ==> final(self)@ == old(self)@.cleanup()->0,
    {
        self.retain_non_empty();
        let ghost kept = self@.parts;
        let mut i: usize = 0;
        while i < self.parts.len()
            invariant
                i <= self.parts@.len(),
                self.parts@.len() == kept.len(),
                kept == non_empty_parts(old(self)@.parts),
                self.bpm == old(self).bpm,
                forall|k: int| 0 <= k < i ==> kept[k].transpose_fits(),
                forall|k: int| 0 <= k < i ==> self.parts@[k]@ == kept[k].apply_transpose(),
                forall|k: int| i <= k < kept.len() ==> self.parts@[k]@ == kept[k],
            decreases self.parts@.len() - i,
        {
            if !check_transpose_fits(&self.parts[i]) {
                assert(!kept[i as int].transpose_fits());
                return false;
            }
            self.parts[i].apply_transpose();
            i = i + 1;
        }
        assert(self@.parts =~= old(self)@.transposed_parts());
        if !self.try_adjust_metronomes() {
            return false;
        }
        if !self.try_fix_carryover_chords() {
            return false;
        }
        self.try_fix_hyper_staccato()
    }

    /// Clean-up after reading a document (see [`ScoreModel::cleanup`]), on a
    /// score where every step can proceed.
    pub fn cleanup(&mut self)
        requires
            old(self)@.cleanup() is Some,
        ensures
            final(self)@ == old(self)@.cleanup()->0,
    {
        let ok = self.try_cleanup();
    }
}

/// Whether every note of `e` can be moved by `t`.
fn event_transpose_fits(e: &Event, t: Transpose) -> (b: bool)
    ensures
        b == forall|k: int| 0 <= k < e@.notes.len() ==> transpose_fits(#[trigger] e@.notes[k], t),
{
    let mut i: usize = 0;
    while i < e.notes.len()
        invariant
            i <= e.notes@.len(),
            forall|k: int| 0 <= k < i ==> transpose_fits(#[trigger] e@.notes[k], t),
        decreases e.notes@.len() - i,
    {
        let n = e.notes[i];
        assert(n == e@.notes[i as int]);
        let semitone = n.semitone as i32 + t.chromatic as i32;
        let octave = n.octave as i32 + t.octave as i32;
        if semitone < i16::MIN as i32 || semitone > i16::MAX as i32 || octave < i16::MIN as i32
            || octave > i16::MAX as i32 {
            return false;
        }
        let final_octave = normalized_octave(n.step, semitone, octave);
        if final_octave < i16::MIN as i32 || final_octave > i16::MAX as i32 {
            return false;
        }
        i = i + 1;
    }
    true
}

/// Normalizing moves the octave by no more than the size of the alteration.
pub proof fn lemma_normalize_octave_range(p: Pitch)
    ensures
        p.octave - (if p.semitone >= 0 { p.semitone } else { -p.semitone }) <= p.normalize().octave
            <= p.octave + (if p.semitone >= 0 { p.semitone } else { -p.semitone }),
    decreases (if p.semitone >= 0 { p.semitone } else { -p.semitone }),
{
    if p.semitone > p.step.max_sharps() {
        let step = p.step.spec_up();
        lemma_normalize_octave_range(Pitch {
            step,
            semitone: p.semitone - 1,
            octave: if step is C { p.octave + 1 } else { p.octave },
        });
    } else if p.semitone < p.step.max_flats() {
        let step = p.step.spec_down();
        lemma_normalize_octave_range(Pitch {
            step,
            semitone: p.semitone + 1,
            octave: if step is B { p.octave - 1 } else { p.octave },
        });
    }
}

/// The octave a note ends up in once normalized, computed with room to
/// spare.
fn normalized_octave(step: Step, semitone: i32, octave: i32) -> (o: i32)
    requires
        i16::MIN <= semitone <= i16::MAX,
        i16::MIN <= octave <= i16::MAX,
    ensures
        o == (Pitch { step, semitone: semitone as int, octave: octave as int }).normalize().octave,
{
    let ghost target = (Pitch { step, semitone: semitone as int, octave: octave as int }).normalize();
    let ghost oct0 = octave as int;
    let ghost abs0 = if semitone >= 0 { semitone as int } else { -semitone as int };
    let mut cur_step = step;
    let mut cur_semi = semitone;
    let mut cur_oct = octave;
    loop
        invariant
            target == (Pitch { step, semitone: semitone as int, octave: octave as int }).normalize(),
            (Pitch { step: cur_step, semitone: cur_semi as int, octave: cur_oct as int }).normalize() == target,
            i16::MIN <= oct0 <= i16::MAX,
            abs0 <= 32768,
            (if cur_oct >= oct0 { cur_oct - oct0 } else { oct0 - cur_oct }) + (if cur_semi >= 0 { cur_semi as int } else { -cur_semi as int }) <= abs0,
        decreases (if cur_semi >= 0 { cur_semi as int } else { -cur_semi as int }),
    {
        let max_sharps: i32 = match cur_step {
            Step::B | Step::E => 0,
            _ => 1,
        };
        let max_flats: i32 = match cur_step {
            Step::C | Step::F => 0,
            _ => -1,
        };
        if cur_semi > max_sharps {
            cur_step = cur_step.up();
            cur_semi = cur_semi - 1;
            if cur_step == Step::C {
                cur_oct = cur_oct + 1;
            }
        } else if cur_semi < max_flats {
            cur_step = cur_step.down();
            cur_semi = cur_semi + 1;
            if cur_step == Step::B {
                cur_oct = cur_oct - 1;
            }
        } else {
            assert((Pitch { step: cur_step, semitone: cur_semi as int, octave: cur_oct as int }).normalize()
                == (Pitch { step: cur_step, semitone: cur_semi as int, octave: cur_oct as int }));
            return cur_oct;
        }
    }
}

/// Whether the part's transposition can be applied without overflow.
fn check_transpose_fits(p: &Part) -> (b: bool)
    ensures
        b == p@.transpose_fits(),
{
    let t = match p.transpose {
        None => return true,
        Some(t) => t,
    };
    let mut m: usize = 0;
    while m < p.measures.len()
        invariant
            m <= p.measures@.len(),
            p.transpose == Some(t),
            forall|k: int| 0 <= k < m ==> (#[trigger] p@.measures[k]).transpose_fits(t),
        decreases p.measures@.len() - m,
    {
        let measure = &p.measures[m];
        let mut i: usize = 0;
        while i < measure.items.len()
            invariant
                m < p.measures@.len(),
                p.transpose == Some(t),
                measure@ == p@.measures[m as int],
                i <= measure.items@.len(),
                forall|k: int| 0 <= k < i ==> item_transpose_fits(#[trigger] measure@.items[k], t),
            decreases measure.items@.len() - i,
        {
            assert(measure@.items[i as int] == measure.items@[i as int]@);
            if let MeasureItem::Event(e) = &measure.items[i] {
                if !event_transpose_fits(e, t) {
                    proof {
                        let k = choose|k: int| 0 <= k < e@.notes.len() && !transpose_fits(e@.notes[k], t);
                        assert(!transpose_fits(e@.notes[k], t));
                        assert(measure@.items[i as int] == MeasureItemModel::Event(e@));
                        let item = measure@.items[i as int];
                        assert(item->Event_0.notes[k] == e@.notes[k]);
                    }
                    assert(!item_transpose_fits(measure@.items[i as int], t));
                    assert(!p@.measures[m as int].transpose_fits(t));
                    return false;
                }
            }
            i = i + 1;
        }
        m = m + 1;
    }
    true
}


impl Measure {
    /// The events, in order.
    pub fn events(&self) -> (r: Vec<&Event>)
        ensures
            r@.len() == self@.events().len(),
            forall|k: int| 0 <= k < r@.len() ==> (#[trigger] r@[k])@ == self@.events()[k],
    {
        let ghost items = self@.items;
        let mut r: Vec<&Event> = Vec::new();
        let mut i: usize = 0;
        assert(items.take(0) =~= Seq::<MeasureItemModel>::empty());
        while i < self.items.len()
            invariant
                i <= self.items@.len(),
                items == self@.items,
                r@.len() == item_events(items.take(i as int)).len(),
                forall|k: int| 0 <= k < r@.len() ==> (#[trigger] r@[k])@ == item_events(items.take(i as int))[k],
            decreases self.items@.len() - i,
        {
            proof { lemma_item_events_step(items, i as int); }
            assert(items[i as int] == self.items@[i as int]@);
            match &self.items[i] {
                MeasureItem::Event(e) => {
                    r.push(e);
                },
                MeasureItem::Dynamic(_) => {},
            }
            i = i + 1;
        }
        assert(items.take(i as int) =~= items);
        r
    }

    /// The last event, to change in place; none when the measure has no
    /// event.
    pub fn try_last_event(&mut self) -> (r: Option<&mut Event>)
        ensures
            r is None <==> last_event_index(old(self)@.items) is None,
            r is None ==> *final(self) == *old(self),
            r matches Some(e) ==> {
                let k = last_event_index(old(self)@.items)->0;
                &&& old(self).items@[k] == MeasureItem::Event(*e)
                &&& final(self).items@ == old(self).items@.update(k, MeasureItem::Event(*final(e)))
                &&& final(self).carryover == old(self).carryover
                &&& final(self).divisions == old(self).divisions
                &&& final(self).metronome == old(self).metronome
            },
    {
        proof { lemma_last_event_index(self@.items); }
        let k = match self.last_event_index() {
            None => return None,
            Some(k) => k,
        };
        assert(self.items@[k as int]@ is Event);
        match &mut self.items[k] {
            MeasureItem::Event(e) => Some(e),
            MeasureItem::Dynamic(_) => None,
        }
    }

    /// The last event, to change in place; the measure must have one.
    pub fn last_event(&mut self) -> (e: &mut Event)
        requires
            last_event_index(old(self)@.items) is Some,
        ensures
            ({
                let k = last_event_index(old(self)@.items)->0;
                &&& old(self).items@[k] == MeasureItem::Event(*e)
                &&& final(self).items@ == old(self).items@.update(k, MeasureItem::Event(*final(e)))
                &&& final(self).carryover == old(self).carryover
                &&& final(self).divisions == old(self).divisions
                &&& final(self).metronome == old(self).metronome
            }),
    {
        self.try_last_event().unwrap()
    }
}

impl Part {
    /// The last measure, to change in place; the part must have one.
    pub fn last_measure(&mut self) -> (m: &mut Measure)
        requires
            old(self).measures@.len() > 0,
        ensures
            *m == old(self).measures@.last(),
            final(self).measures@ == old(self).measures@.update(old(self).measures@.len() - 1, *final(m)),
            final(self).transpose == old(self).transpose,
            final(self).instrument == old(self).instrument,
    {
        let n = self.measures.len();
        &mut self.measures[n - 1]
    }
}

impl Score {
    /// Append an empty part.
    pub fn add_part(&mut self)
        ensures
            final(self)@ == (ScoreModel { parts: old(self)@.parts.push(PartModel::empty()), bpm: old(self).bpm }),
    {
        self.parts.push(Part::new());
        assert(final(self)@.parts =~= old(self)@.parts.push(PartModel::empty()));
    }

    /// The last part, to change in place; the score must have one.
    pub fn last_part(&mut self) -> (p: &mut Part)
        requires
            old(self).parts@.len() > 0,
        ensures
            *p == old(self).parts@.last(),
            final(self).parts@ == old(self).parts@.update(old(self).parts@.len() - 1, *final(p)),
            final(self).bpm == old(self).bpm,
    {
        let n = self.parts.len();
        &mut self.parts[n - 1]
    }

    /// The last measure of the last part, to change in place; both must
    /// exist.
    pub fn last_measure(&mut self) -> (m: &mut Measure)
        requires
            old(self).parts@.len() > 0,
            old(self).parts@.last().measures@.len() > 0,
        ensures
            *m == old(self).parts@.last().measures@.last(),
            final(self).bpm == old(self).bpm,
            final(self).parts@.len() == old(self).parts@.len(),
            forall|i: int| 0 <= i < old(self).parts@.len() - 1 ==> final(self).parts@[i] == old(self).parts@[i],
            final(self).parts@.last().measures@ == old(self).parts@.last().measures@.update(
                old(self).parts@.last().measures@.len() - 1,
                *final(m),
            ),
            final(self).parts@.last().transpose == old(self).parts@.last().transpose,
            final(self).parts@.last().instrument == old(self).parts@.last().instrument,
    {
        self.last_part().last_measure()
    }

    /// Append an empty measure to the last part; the score must have a part.
    pub fn add_measure(&mut self)
        requires
            old(self).parts@.len() > 0,
        ensures
            final(self).bpm == old(self).bpm,
            final(self)@.parts == old(self)@.parts.update(
                old(self)@.parts.len() - 1,
                PartModel {
                    measures: old(self)@.parts.last().measures.push(MeasureModel::empty()),
                    ..old(self)@.parts.last()
                },
            ),
    {
        let ghost before = self@.parts;
        self.last_part().add_measure();
        assert(final(self)@.parts =~= before.update(
            before.len() - 1,
            PartModel { measures: before.last().measures.push(MeasureModel::empty()), ..before.last() },
        ));
    }
}


/// The total length in divisions of `ms`: the sum of their lengths.
pub open spec fn measures_duration(ms: Seq<MeasureModel>) -> nat
    decreases ms.len(),
{
    if ms.len() == 0 {
        0
    } else {
        measures_duration(ms.drop_last()) + ms.last().duration()
    }
}

/// Changing the duration of one event changes the sum of the event
/// durations by the difference.
proof fn lemma_event_sum_update(items: Seq<MeasureItemModel>, k: int, e2: EventModel)
    requires
        0 <= k < items.len(),
        items[k] is Event,
    ensures
        event_sum(item_events(items.update(k, MeasureItemModel::Event(e2)))) + items[k]->Event_0.duration
            == event_sum(item_events(items)) + e2.duration,
    decreases items.len(),
{
    let upd = items.update(k, MeasureItemModel::Event(e2));
    let e = items[k]->Event_0;
    if k == items.len() - 1 {
        assert(upd.drop_last() =~= items.drop_last());
        let before = item_events(items.drop_last());
        assert(item_events(upd) == before.push(e2));
        assert(item_events(items) == before.push(e));
        assert(before.push(e2).drop_last() =~= before);
        assert(before.push(e).drop_last() =~= before);
    } else {
        lemma_event_sum_update(items.drop_last(), k, e2);
        assert(upd.drop_last() =~= items.drop_last().update(k, MeasureItemModel::Event(e2)));
        assert(upd.last() == items.last());
        match items.last() {
            MeasureItemModel::Event(x) => {
                let a = item_events(upd.drop_last());
                let b = item_events(items.drop_last());
                assert(a.push(x).drop_last() =~= a);
                assert(b.push(x).drop_last() =~= b);
            },
            MeasureItemModel::Dynamic(_) => {},
        }
    }
}

/// Replacing one measure changes the total length by the difference.
proof fn lemma_measures_duration_update(ms: Seq<MeasureModel>, j: int, x: MeasureModel)
    requires
        0 <= j < ms.len(),
    ensures
        measures_duration(ms.update(j, x)) + ms[j].duration() == measures_duration(ms) + x.duration(),
    decreases ms.len(),
{
    let upd = ms.update(j, x);
    if j == ms.len() - 1 {
        assert(upd.drop_last() =~= ms.drop_last());
    } else {
        lemma_measures_duration_update(ms.drop_last(), j, x);
        assert(upd.drop_last() =~= ms.drop_last().update(j, x));
    }
}

/// Raising an event's duration by `d` lengthens its measure by `d`.
proof fn lemma_add_to_event_duration(m: MeasureModel, k: int, d: nat)
    requires
        0 <= k < m.items.len(),
        m.items[k] is Event,
        event_at(m, k).duration + d <= u32::MAX,
    ensures
        add_to_event(m, k, d).duration() == m.duration() + d,
{
    let e = event_at(m, k);
    lemma_event_sum_update(m.items, k, EventModel { duration: (e.duration + d) as u32, ..e });
}

/// Dropping the carried-over tie of a measure shortens it by that tie.
proof fn lemma_drop_carryover(m: MeasureModel)
    ensures
        (MeasureModel { carryover: 0, ..m }).duration() + m.carryover == m.duration(),
{
}

/// One step of the tied-chord fix keeps the number of measures and their
/// total length.
proof fn lemma_carry_step_total(ms: Seq<MeasureModel>, i: int)
    requires
        1 <= i < ms.len(),
        carry_step(ms, i) is Some,
    ensures
        carry_step(ms, i)->0.len() == ms.len(),
        measures_duration(carry_step(ms, i)->0) == measures_duration(ms),
{
    let cur = ms[i];
    let prev = ms[i - 1];
    let carry = cur.carryover as nat;
    let cleared = MeasureModel { carryover: 0, ..cur };
    lemma_drop_carryover(cur);
    if carry != 0 {
        lemma_last_event_index(prev.items);
        match last_event_index(prev.items) {
            None => if i > 2 {
                let pp = ms[i - 2];
                lemma_last_event_index(pp.items);
                let k = last_event_index(pp.items)->0;
                let ms1 = ms.update(i, cleared);
                lemma_measures_duration_update(ms, i, cleared);
                lemma_add_to_event_duration(pp, k, carry);
                assert(ms1[i - 2] == pp);
                lemma_measures_duration_update(ms1, i - 2, add_to_event(pp, k, carry));
            },
            Some(k) => {
                let e = event_at(prev, k);
                if e.notes.len() > 1 {
                    let ms1 = ms.update(i - 1, add_to_event(prev, k, carry));
                    lemma_add_to_event_duration(prev, k, carry);
                    lemma_measures_duration_update(ms, i - 1, add_to_event(prev, k, carry));
                    assert(ms1[i] == cur);
                    lemma_measures_duration_update(ms1, i, cleared);
                }
            },
        }
    }
}

proof fn lemma_carry_from_total(ms: Seq<MeasureModel>, i: int, n: int)
    requires
        1 <= i,
        n <= ms.len(),
        carry_from(ms, i, n) is Some,
    ensures
        carry_from(ms, i, n)->0.len() == ms.len(),
        measures_duration(carry_from(ms, i, n)->0) == measures_duration(ms),
    decreases n - i,
{
    if i < n {
        lemma_carry_step_total(ms, i);
        lemma_carry_from_total(carry_step(ms, i)->0, i + 1, n);
    }
}

/// The tied-chord fix moves the length of a tie carried into a measure onto
/// an earlier chord: a part keeps its number of measures and its total
/// length in divisions.
pub proof fn lemma_fix_carryover_keeps_length(p: PartModel)
    requires
        p.fix_carryover_chords() is Some,
    ensures
        p.fix_carryover_chords()->0.measures.len() == p.measures.len(),
        measures_duration(p.fix_carryover_chords()->0.measures) == measures_duration(p.measures),
{
    lemma_carry_from_total(p.measures, 1, p.measures.len() as int);
}


impl Default for Transpose {
    /// No transposition.
    fn default() -> (t: Transpose)
        ensures
            t == (Transpose { chromatic: 0, octave: 0 }),
    {
        Transpose { chromatic: 0, octave: 0 }
    }
}

impl Default for Measure {
    /// A measure with nothing in it.
    fn default() -> (m: Measure)
        ensures
            m@ == MeasureModel::empty(),
    {
        Measure::new()
    }
}

impl Default for Part {
    /// A part with no transposition, instrument or measures.
    fn default() -> (p: Part)
        ensures
            p@ == PartModel::empty(),
    {
        Part::new()
    }
}

impl Default for Score {
    /// A score with no parts and no tempo.
    fn default() -> (s: Score)
        ensures
            s@ == (ScoreModel { parts: Seq::empty(), bpm: None }),
    {
        let s = Score { parts: Vec::new(), bpm: None };
        assert(s@.parts =~= Seq::<PartModel>::empty());
        s
    }
}

impl Part {
    /// The tied-chord fix (see [`PartModel::fix_carryover_chords`]), on a
    /// part where it can proceed: every tie folded over an empty measure
    /// reaches a sounding event, and no duration overflows.
    pub fn fix_carryover_chords(&mut self)
        requires
            old(self)@.fix_carryover_chords() is Some,
        ensures
            final(self)@ == old(self)@.fix_carryover_chords()->0,
    {
        let ok = self.try_fix_carryover_chords();
    }
}

impl Score {
    /// The tempo fix-up (see [`ScoreModel::adjust_metronomes`]), on a score
    /// where it can proceed: the measures' divisions agree.
    pub fn adjust_metronomes(&mut self)
        requires
            old(self)@.adjust_metronomes() is Some,
        ensures
            final(self)@ == old(self)@.adjust_metronomes()->0,
    {
        let ok = self.try_adjust_metronomes();
    }

    /// The tied-chord fix on every part (see
    /// [`ScoreModel::fix_carryover_chords`]), where it can proceed.
    pub fn fix_carryover_chords(&mut self)
        requires
            old(self)@.fix_carryover_chords() is Some,
        ensures
            final(self)@ == old(self)@.fix_carryover_chords()->0,
    {
        let ok = self.try_fix_carryover_chords();
    }

    /// The staccato fix (see [`ScoreModel::fix_hyper_staccato`]), where it
    /// can proceed: no doubled value overflows.
    pub fn fix_hyper_staccato(&mut self)
        requires
            old(self)@.fix_hyper_staccato() is Some,
        ensures
            final(self)@ == old(self)@.fix_hyper_staccato()->0,
    {
        let ok = self.try_fix_hyper_staccato();
    }
}

/// Inheriting from part `i` on keeps the parts before `i`, and each later
/// part inherits from the part before it as that part ends up.
proof fn lemma_inherit_from_shape(parts: Seq<PartModel>, i: int)
    requires
        1 <= i,
    ensures
        inherit_from(parts, i).len() == parts.len(),
        forall|k: int| 0 <= k < i && k < parts.len() ==> #[trigger] inherit_from(parts, i)[k] == parts[k],
        forall|k: int|
            i <= k < parts.len() ==> #[trigger] inherit_from(parts, i)[k] == inherit_metronomes(
                parts[k],
                inherit_from(parts, i)[k - 1],
            ),
    decreases parts.len() - i,
{
    if i < parts.len() {
        let p2 = parts.update(i, inherit_metronomes(parts[i], parts[i - 1]));
        lemma_inherit_from_shape(p2, i + 1);
        let r = inherit_from(p2, i + 1);
        assert(r == inherit_from(parts, i));
        assert forall|k: int| i <= k < parts.len() implies #[trigger] r[k] == inherit_metronomes(parts[k], r[k - 1]) by {
            if k == i {
                assert(r[i - 1] == p2[i - 1]);
                assert(r[i] == p2[i]);
            } else {
                assert(p2[k] == parts[k]);
            }
        }
        assert forall|k: int| 0 <= k < i && k < parts.len() implies #[trigger] r[k] == parts[k] by {
            assert(r[k] == p2[k]);
        }
    }
}

/// The tempo fix-up shares tempo changes across parts, as MusicXML usually
/// writes them on the top part only. Every part keeps its number of
/// measures; a measure of a later part with no marking of its own plays at
/// the marking that the measure at the same position of the part before it
/// ends up with; and a measure with its own marking (all but the first
/// measure of the first part, whose marking becomes the starting tempo)
/// keeps it, its beat count scaled by the divisions per quarter note.
pub proof fn lemma_tempo_changes_shared(s: ScoreModel)
    requires
        s.adjust_metronomes() is Some,
    ensures
        ({
            let r = s.adjust_metronomes()->0;
            let d = s.parts[0].measures[0].divisions->0;
            &&& r.parts.len() == s.parts.len()
            &&& forall|i: int| 0 <= i < s.parts.len() ==> #[trigger] r.parts[i].measures.len() == s.parts[i].measures.len()
            &&& forall|i: int, j: int|
                1 <= i < s.parts.len() && 0 <= j < s.parts[i - 1].measures.len() && j < s.parts[i].measures.len()
                    && s.parts[i].measures[j].metronome is None ==> #[trigger] r.parts[i].measures[j].metronome
                    == r.parts[i - 1].measures[j].metronome
            &&& forall|i: int, j: int|
                0 <= i < s.parts.len() && 0 <= j < s.parts[i].measures.len() && !(i == 0 && j == 0) && (
                s.parts[i].measures[j].metronome is Some) ==> #[trigger] r.parts[i].measures[j].metronome == Some(
                    Metronome {
                        beat: (s.parts[i].measures[j].metronome->0.beat * d) as u32,
                        ..s.parts[i].measures[j].metronome->0
                    },
                )
        }),
{
    if s.parts.len() > 0 {
        let r = s.adjust_metronomes()->0;
        let d = s.parts[0].measures[0].divisions->0;
        let m0 = s.parts[0].measures[0];
        let p0 = PartModel { measures: s.parts[0].measures.update(0, MeasureModel { metronome: None, ..m0 }), ..s.parts[0] };
        let ps = s.parts.update(0, p0);
        let q = inherit_from(ps, 1);
        lemma_inherit_from_shape(ps, 1);
        assert(r.parts == q.map_values(|p: PartModel| scale_metronomes(p, d)));
        assert forall|k: int| 0 <= k < q.len() implies #[trigger] q[k].measures.len() == s.parts[k].measures.len() by {
            if k > 0 {
                assert(q[k] == inherit_metronomes(ps[k], q[k - 1]));
            } else {
                assert(q[0] == ps[0]);
            }
        }
        assert forall|i: int| 0 <= i < s.parts.len() implies #[trigger] r.parts[i].measures.len()
            == s.parts[i].measures.len() by {
            assert(q[i].measures.len() == s.parts[i].measures.len());
        }
        assert forall|i: int, j: int|
            1 <= i < s.parts.len() && 0 <= j < s.parts[i - 1].measures.len() && j < s.parts[i].measures.len()
                && s.parts[i].measures[j].metronome is None implies #[trigger] r.parts[i].measures[j].metronome
            == r.parts[i - 1].measures[j].metronome by {
            assert(q[i] == inherit_metronomes(ps[i], q[i - 1]));
            assert(ps[i] == s.parts[i]);
            assert(q[i - 1].measures.len() == s.parts[i - 1].measures.len());
            assert(q[i].measures[j].metronome == q[i - 1].measures[j].metronome);
        }
        assert forall|i: int, j: int|
            0 <= i < s.parts.len() && 0 <= j < s.parts[i].measures.len() && !(i == 0 && j == 0) && (
            s.parts[i].measures[j].metronome is Some) implies #[trigger] r.parts[i].measures[j].metronome == Some(
            Metronome { beat: (s.parts[i].measures[j].metronome->0.beat * d) as u32, ..s.parts[i].measures[j].metronome->0 },
        ) by {
            assert(q[i].measures.len() == s.parts[i].measures.len());
            if i == 0 {
                assert(q[0] == ps[0]);
                assert(q[0].measures[j] == s.parts[0].measures[j]);
            } else {
                assert(q[i] == inherit_metronomes(ps[i], q[i - 1]));
                assert(ps[i] == s.parts[i]);
                assert(q[i].measures[j] == s.parts[i].measures[j]);
            }
        }
    }
}

} // verus!
