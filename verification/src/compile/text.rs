//! Rendering of the intermediate score in the text score format.

use vstd::prelude::*;

use crate::compile::output::{
    Event, EventModel, Measure, MeasureItem, MeasureItemModel, MeasureModel, Note, Part, PartModel,
    Score, ScoreModel, Step,
};
use crate::numtext::{decimal, push_decimal};
use crate::types::{Dynamic, Instrument, Metronome, Quaver};

verus! {

/// `n` copies of `c`.
pub open spec fn repeat_char(c: char, n: nat) -> Seq<char> {
    Seq::new(n, |_i: int| c)
}

/// The letter at position `i` of A to G.
pub open spec fn step_letter(i: int) -> char {
    if i == 0 {
        'A'
    } else if i == 1 {
        'B'
    } else if i == 2 {
        'C'
    } else if i == 3 {
        'D'
    } else if i == 4 {
        'E'
    } else if i == 5 {
        'F'
    } else {
        'G'
    }
}

/// The lower-case form of an upper-case ASCII letter; other characters are
/// kept.
pub open spec fn ascii_lower(c: char) -> char {
    if 'A' <= c <= 'Z' { ((c as u32) + 32) as char } else { c }
}

/// The character that shows a note value.
pub open spec fn quaver_char(q: Quaver) -> char {
    match q {
        Quaver::Double => '\u{1D15C}',
        Quaver::Whole => '\u{1D15D}',
        Quaver::Half => '\u{1D15E}',
        Quaver::Quarter => '\u{1D15F}',
        Quaver::Eighth => '\u{1D160}',
        Quaver::Sixteenth => '\u{1D161}',
    }
}

/// The character that shows an instrument.
pub open spec fn instrument_char(i: Instrument) -> char {
    match i {
        Instrument::Beep => '\u{223F}',
        Instrument::Keyboard => '\u{1F3B9}',
        Instrument::Bell => '\u{1F514}',
        Instrument::Waterphone => '\u{1F30A}',
        Instrument::Drum => '\u{1F941}',
    }
}

/// The text of a loudness marking.
pub open spec fn dynamic_text(d: Dynamic) -> Seq<char> {
    match d {
        Dynamic::Pianissimo => seq!['\u{1D4F9}', '\u{1D4F9}'],
        Dynamic::Piano => seq!['\u{1D4F9}'],
        Dynamic::MezzoPiano => seq!['\u{1D4F6}', '\u{1D4F9}'],
        Dynamic::MezzoForte => seq!['\u{1D4F6}', '\u{1D4EF}'],
        Dynamic::Forte => seq!['\u{1D4EF}'],
        Dynamic::Fortissimo => seq!['\u{1D4EF}', '\u{1D4EF}'],
    }
}

/// The text of a metronome marking: note value, `=`, beat count.
pub open spec fn metronome_text(m: Metronome) -> Seq<char> {
    seq![quaver_char(m.note_value), '='] + decimal(m.beat as nat)
}

/// The text of a note: its letter (lower case from octave 5 up), then
/// `♭`/`♯` for a flat or sharp, then the octave digit unless the octave is 4
/// or 5. In legacy mode a sharp is written `#` and a flat as the sharp of the
/// letter below (C♭ and F♭ as the natural letter below, C♭ one octave down).
/// `None` when the alteration is more than one semitone or the octave
/// cannot be written as one digit.
pub open spec fn note_text(n: Note, legacy: bool) -> Option<Seq<char>> {
    let s = n.semitone as int;
    let idx = n.step.index();
    if s < -1 || s > 1 {
        None
    } else {
        let (index, octave, accidental) = if legacy {
            if s == 0 {
                (idx, n.octave as int, None)
            } else if s == 1 {
                (idx, n.octave as int, Some('#'))
            } else {
                (
                    if idx == 0 { 6 } else { idx - 1 },
                    if n.step is C { n.octave - 1 } else { n.octave as int },
                    if n.step is C || n.step is F { None } else { Some('#') },
                )
            }
        } else {
            (idx, n.octave as int, if s == 0 { None } else if s == -1 { Some('\u{266D}') } else { Some('\u{266F}') })
        };
        if octave < i16::MIN || (octave != 4 && octave != 5 && !(0 <= octave <= 9)) {
            None
        } else {
            let letter = if octave >= 5 { ascii_lower(step_letter(index)) } else { step_letter(index) };
            Some(
                seq![letter] + (match accidental {
                    Some(c) => seq![c],
                    None => Seq::empty(),
                }) + (if octave == 4 || octave == 5 { Seq::empty() } else { decimal(octave as nat) }),
            )
        }
    }
}

/// The texts of `notes`, one after another.
pub open spec fn notes_text(notes: Seq<Note>, legacy: bool) -> Option<Seq<char>>
    decreases notes.len(),
{
    if notes.len() == 0 {
        Some(Seq::empty())
    } else {
        match (notes_text(notes.drop_last(), legacy), note_text(notes.last(), legacy)) {
            (Some(a), Some(b)) => Some(a + b),
            _ => None,
        }
    }
}

/// The text of an event: a rest as one `/` per division, a note followed by
/// one `~` per further division, a chord as its notes and tildes within
/// brackets. A staccato event is written at half its duration, followed by
/// as many `/`. `None` when a staccato event has an odd duration or a note
/// cannot be written.
pub open spec fn event_text(e: EventModel, legacy: bool) -> Option<Seq<char>> {
    if e.staccato && e.duration % 2 != 0 {
        None
    } else {
        let d = event_beats(e);
        match event_body_text(e.notes, d, legacy) {
            Some(body) => Some(body + (if e.staccato { repeat_char('/', d) } else { Seq::empty() })),
            None => None,
        }
    }
}

/// The number of divisions an event is written with: half its duration
/// when staccato.
pub open spec fn event_beats(e: EventModel) -> nat {
    if e.staccato { (e.duration / 2) as nat } else { e.duration as nat }
}

/// The text of an event with `notes` written over `d` divisions, before any
/// staccato rest.
pub open spec fn event_body_text(notes: Seq<Note>, d: nat, legacy: bool) -> Option<Seq<char>> {
    let tildes = repeat_char('~', if d >= 1 { (d - 1) as nat } else { 0 });
    if notes.len() == 0 {
        Some(repeat_char('/', d))
    } else if notes.len() == 1 {
        match note_text(notes[0], legacy) {
            Some(t) => Some(t + tildes),
            None => None,
        }
    } else {
        match notes_text(notes, legacy) {
            Some(t) => Some(seq!['['] + t + tildes + seq![']']),
            None => None,
        }
    }
}

/// The text of a measure item.
pub open spec fn item_text(item: MeasureItemModel, legacy: bool) -> Option<Seq<char>> {
    match item {
        MeasureItemModel::Event(e) => event_text(e, legacy),
        MeasureItemModel::Dynamic(d) => Some(dynamic_text(d)),
    }
}

/// The texts of `items`, each but the first preceded by a space, and the
/// first too when `lead` is set.
pub open spec fn items_text(items: Seq<MeasureItemModel>, lead: bool, legacy: bool) -> Option<Seq<char>>
    decreases items.len(),
{
    if items.len() == 0 {
        Some(Seq::empty())
    } else {
        match (items_text(items.drop_last(), lead, legacy), item_text(items.last(), legacy)) {
            (Some(a), Some(b)) => Some(
                a + (if items.len() > 1 || lead { seq![' '] } else { Seq::empty() }) + b,
            ),
            _ => None,
        }
    }
}

/// Every event of the measure is a rest.
pub open spec fn all_rests(m: MeasureModel) -> bool {
    forall|i: int| 0 <= i < m.events().len() ==> (#[trigger] m.events()[i]).notes.len() == 0
}

/// The text of a measure: one `~` per carried-over division, the metronome
/// marking on a line of its own, then either `🛏` and the measure's length
/// when it holds only rests and carries nothing over, or its items separated
/// by spaces. `None` when an item cannot be written or that length does not
/// fit a `u32`.
pub open spec fn measure_text(m: MeasureModel, legacy: bool) -> Option<Seq<char>> {
    let prefix = repeat_char('~', m.carryover as nat) + (match m.metronome {
        Some(t) => metronome_text(t).push('\n'),
        None => Seq::empty(),
    });
    if all_rests(m) && m.carryover == 0 {
        if m.duration() > u32::MAX {
            None
        } else {
            Some(prefix + seq!['\u{1F6CF}'] + decimal(m.duration()))
        }
    } else {
        match items_text(m.items, m.carryover > 0, legacy) {
            Some(t) => Some(prefix + t),
            None => None,
        }
    }
}

/// The texts of `measures` separated by line breaks.
pub open spec fn measures_text(measures: Seq<MeasureModel>, legacy: bool) -> Option<Seq<char>>
    decreases measures.len(),
{
    if measures.len() == 0 {
        Some(Seq::empty())
    } else {
        match (measures_text(measures.drop_last(), legacy), measure_text(measures.last(), legacy)) {
            (Some(a), Some(b)) => Some(
                a + (if measures.len() > 1 { seq!['\n'] } else { Seq::empty() }) + b,
            ),
            _ => None,
        }
    }
}

/// The text of a part: its instrument on a line of its own, then its
/// measures one per line.
pub open spec fn part_text(p: PartModel, legacy: bool) -> Option<Seq<char>> {
    let head = match p.instrument {
        Some(i) => seq![instrument_char(i), '\n'],
        None => Seq::empty(),
    };
    match measures_text(p.measures, legacy) {
        Some(t) => Some(head + t),
        None => None,
    }
}

/// The texts of `parts` separated by lines holding `|`.
#[verifier::opaque]
pub open spec fn parts_text(parts: Seq<PartModel>, legacy: bool) -> Option<Seq<char>>
    decreases parts.len(),
{
    if parts.len() == 0 {
        Some(Seq::empty())
    } else {
        match (parts_text(parts.drop_last(), legacy), part_text(parts.last(), legacy)) {
            (Some(a), Some(b)) => Some(
                a + (if parts.len() > 1 { seq!['\n', '|', '\n'] } else { Seq::empty() }) + b,
            ),
            _ => None,
        }
    }
}

/// The text of a score: its starting tempo on a line of its own, then its
/// parts.
pub open spec fn score_text(s: ScoreModel, legacy: bool) -> Option<Seq<char>> {
    let head = match s.bpm {
        Some(b) => decimal(b as nat).push('\n'),
        None => Seq::empty(),
    };
    match parts_text(s.parts, legacy) {
        Some(t) => Some(head + t),
        None => None,
    }
}

fn push_repeat(out: &mut Vec<char>, c: char, n: u32)
    ensures
        final(out)@ == old(out)@ + repeat_char(c, n as nat),
{
    let mut i: u32 = 0;
    while i < n
        invariant
            i <= n,
            out@ == old(out)@ + repeat_char(c, i as nat),
        decreases n - i,
    {
        out.push(c);
        i = i + 1;
        assert(out@ =~= old(out)@ + repeat_char(c, i as nat));
    }
}

fn step_index(s: Step) -> (i: usize)
    ensures
        i == s.index(),
{
    match s {
        Step::A => 0,
        Step::B => 1,
        Step::C => 2,
        Step::D => 3,
        Step::E => 4,
        Step::F => 5,
        Step::G => 6,
    }
}

fn letter_at(i: usize, lower: bool) -> (c: char)
    requires
        i < 7,
    ensures
        c == (if lower { ascii_lower(step_letter(i as int)) } else { step_letter(i as int) }),
{
    let upper = if i == 0 {
        'A'
    } else if i == 1 {
        'B'
    } else if i == 2 {
        'C'
    } else if i == 3 {
        'D'
    } else if i == 4 {
        'E'
    } else if i == 5 {
        'F'
    } else {
        'G'
    };
    if lower {
        if i == 0 {
            'a'
        } else if i == 1 {
            'b'
        } else if i == 2 {
            'c'
        } else if i == 3 {
            'd'
        } else if i == 4 {
            'e'
        } else if i == 5 {
            'f'
        } else {
            'g'
        }
    } else {
        upper
    }
}

/// Append the text of `n` (see [`note_text`]); false, with `out`
/// unspecified, when it cannot be written.
pub fn try_push_note(out: &mut Vec<char>, n: Note, legacy: bool) -> (ok: bool)
    ensures
        ok == note_text(n, legacy) is Some,
        ok ==> final(out)@ == old(out)@ + note_text(n, legacy)->0,
{
    let s = n.semitone;
    if s < -1 || s > 1 {
        return false;
    }
    let idx = step_index(n.step);
    let mut index = idx;
    let mut octave: i32 = n.octave as i32;
    let mut accidental: Option<char> = None;
    if legacy {
        if s == 1 {
            accidental = Some('#');
        } else if s == -1 {
            index = if idx == 0 { 6 } else { idx - 1 };
            if !(n.step == Step::C || n.step == Step::F) {
                accidental = Some('#');
            }
            if n.step == Step::C {
                octave = octave - 1;
            }
        }
    } else {
        if s == -1 {
            accidental = Some('\u{266D}');
        } else if s == 1 {
            accidental = Some('\u{266F}');
        }
    }
    if octave < i16::MIN as i32 || (octave != 4 && octave != 5 && !(0 <= octave && octave <= 9)) {
        return false;
    }
    out.push(letter_at(index, octave >= 5));
    if let Some(c) = accidental {
        out.push(c);
    }
    if octave != 4 && octave != 5 {
        push_decimal(out, octave as u32);
    }
    assert(final(out)@ =~= old(out)@ + note_text(n, legacy)->0);
    true
}

fn push_notes(out: &mut Vec<char>, notes: &Vec<Note>, legacy: bool) -> (ok: bool)
    ensures
        ok == notes_text(notes@, legacy) is Some,
        ok ==> final(out)@ == old(out)@ + notes_text(notes@, legacy)->0,
{
    let mut i: usize = 0;
    while i < notes.len()
        invariant
            i <= notes@.len(),
            notes_text(notes@.take(i as int), legacy) is Some,
            out@ == old(out)@ + notes_text(notes@.take(i as int), legacy)->0,
        decreases notes@.len() - i,
    {
        assert(notes@.take(i as int + 1).drop_last() =~= notes@.take(i as int));
        if !try_push_note(out, notes[i], legacy) {
            proof { lemma_notes_text_prefix_none(notes@, i as int + 1, legacy); }
            return false;
        }
        i = i + 1;
        assert(out@ =~= old(out)@ + notes_text(notes@.take(i as int), legacy)->0);
    }
    assert(notes@.take(i as int) =~= notes@);
    true
}

proof fn lemma_notes_text_prefix_none(notes: Seq<Note>, n: int, legacy: bool)
    requires
        0 <= n <= notes.len(),
        notes_text(notes.take(n), legacy) is None,
    ensures
        notes_text(notes, legacy) is None,
    decreases notes.len() - n,
{
    if n < notes.len() {
        assert(notes.take(n + 1).drop_last() =~= notes.take(n));
        lemma_notes_text_prefix_none(notes, n + 1, legacy);
    } else {
        assert(notes.take(n) =~= notes);
    }
}

fn push_event_body(out: &mut Vec<char>, notes: &Vec<Note>, d: u32, legacy: bool) -> (ok: bool)
    ensures
        ok == event_body_text(notes@, d as nat, legacy) is Some,
        ok ==> final(out)@ == old(out)@ + event_body_text(notes@, d as nat, legacy)->0,
{
    let tildes: u32 = if d >= 1 { d - 1 } else { 0 };
    if notes.len() == 0 {
        push_repeat(out, '/', d);
        true
    } else if notes.len() == 1 {
        if !try_push_note(out, notes[0], legacy) {
            return false;
        }
        let ghost mid = out@;
        push_repeat(out, '~', tildes);
        assert(final(out)@ =~= old(out)@ + event_body_text(notes@, d as nat, legacy)->0);
        true
    } else {
        out.push('[');
        if !push_notes(out, notes, legacy) {
            return false;
        }
        push_repeat(out, '~', tildes);
        out.push(']');
        assert(final(out)@ =~= old(out)@ + event_body_text(notes@, d as nat, legacy)->0);
        true
    }
}

/// Append the text of `e` (see [`event_text`]); false, with `out`
/// unspecified, when it cannot be written.
pub fn try_push_event(out: &mut Vec<char>, e: &Event, legacy: bool) -> (ok: bool)
    ensures
        ok == event_text(e@, legacy) is Some,
        ok ==> final(out)@ == old(out)@ + event_text(e@, legacy)->0,
{
    if e.staccato && e.duration % 2 != 0 {
        return false;
    }
    let d: u32 = if e.staccato { e.duration / 2 } else { e.duration };
    if !push_event_body(out, &e.notes, d, legacy) {
        return false;
    }
    let ghost mid = out@;
    if e.staccato {
        push_repeat(out, '/', d);
    }
    assert(final(out)@ =~= old(out)@ + event_text(e@, legacy)->0);
    true
}

fn push_item(out: &mut Vec<char>, item: &MeasureItem, legacy: bool) -> (ok: bool)
    ensures
        ok == item_text(item@, legacy) is Some,
        ok ==> final(out)@ == old(out)@ + item_text(item@, legacy)->0,
{
    match item {
        MeasureItem::Event(e) => try_push_event(out, e, legacy),
        MeasureItem::Dynamic(d) => {
            push_dynamic(out, *d);
            true
        },
    }
}

fn push_dynamic(out: &mut Vec<char>, d: Dynamic)
    ensures
        final(out)@ == old(out)@ + dynamic_text(d),
{
    match d {
        Dynamic::Pianissimo => {
            out.push('\u{1D4F9}');
            out.push('\u{1D4F9}');
        },
        Dynamic::Piano => {
            out.push('\u{1D4F9}');
        },
        Dynamic::MezzoPiano => {
            out.push('\u{1D4F6}');
            out.push('\u{1D4F9}');
        },
        Dynamic::MezzoForte => {
            out.push('\u{1D4F6}');
            out.push('\u{1D4EF}');
        },
        Dynamic::Forte => {
            out.push('\u{1D4EF}');
        },
        Dynamic::Fortissimo => {
            out.push('\u{1D4EF}');
            out.push('\u{1D4EF}');
        },
    }
    assert(final(out)@ =~= old(out)@ + dynamic_text(d));
}

fn quaver_character(q: Quaver) -> (c: char)
    ensures
        c == quaver_char(q),
{
    match q {
        Quaver::Double => '\u{1D15C}',
        Quaver::Whole => '\u{1D15D}',
        Quaver::Half => '\u{1D15E}',
        Quaver::Quarter => '\u{1D15F}',
        Quaver::Eighth => '\u{1D160}',
        Quaver::Sixteenth => '\u{1D161}',
    }
}

fn instrument_character(i: Instrument) -> (c: char)
    ensures
        c == instrument_char(i),
{
    match i {
        Instrument::Beep => '\u{223F}',
        Instrument::Keyboard => '\u{1F3B9}',
        Instrument::Bell => '\u{1F514}',
        Instrument::Waterphone => '\u{1F30A}',
        Instrument::Drum => '\u{1F941}',
    }
}

proof fn lemma_items_text_prefix_none(items: Seq<MeasureItemModel>, n: int, lead: bool, legacy: bool)
    requires
        0 <= n <= items.len(),
        items_text(items.take(n), lead, legacy) is None,
    ensures
        items_text(items, lead, legacy) is None,
    decreases items.len() - n,
{
    if n < items.len() {
        assert(items.take(n + 1).drop_last() =~= items.take(n));
        lemma_items_text_prefix_none(items, n + 1, lead, legacy);
    } else {
        assert(items.take(n) =~= items);
    }
}

/// Append the text of `m` (see [`measure_text`]); false, with `out`
/// unspecified, when it cannot be written.
pub fn push_measure(out: &mut Vec<char>, m: &Measure, legacy: bool) -> (ok: bool)
    ensures
        ok == measure_text(m@, legacy) is Some,
        ok ==> final(out)@ == old(out)@ + measure_text(m@, legacy)->0,
{
    push_repeat(out, '~', m.carryover);
    if let Some(t) = m.metronome {
        out.push(quaver_character(t.note_value));
        out.push('=');
        push_decimal(out, t.beat);
        out.push('\n');
    }
    let ghost prefix = out@;
    assert(prefix =~= old(out)@ + (repeat_char('~', m.carryover as nat) + (match m@.metronome {
        Some(t) => metronome_text(t).push('\n'),
        None => Seq::empty(),
    })));
    if m.is_empty() {
        match m.try_duration() {
            None => {
                return false;
            },
            Some(d) => {
                out.push('\u{1F6CF}');
                push_decimal(out, d);
                assert(final(out)@ =~= old(out)@ + measure_text(m@, legacy)->0);
                return true;
            },
        }
    }
    let ghost items = m@.items;
    let lead = m.carryover > 0;
    let mut i: usize = 0;
    while i < m.items.len()
        invariant
            i <= m.items@.len(),
            items == m@.items,
            lead == (m.carryover > 0),
            !(all_rests(m@) && m@.carryover == 0),
            items_text(items.take(i as int), lead, legacy) is Some,
            out@ == prefix + items_text(items.take(i as int), lead, legacy)->0,
        decreases m.items@.len() - i,
    {
        assert(items.take(i as int + 1).drop_last() =~= items.take(i as int));
        assert(items.take(i as int + 1).last() == m.items@[i as int]@);
        if i > 0 || lead {
            out.push(' ');
        }
        if !push_item(out, &m.items[i], legacy) {
            proof { lemma_items_text_prefix_none(items, i as int + 1, lead, legacy); }
            return false;
        }
        i = i + 1;
        assert(out@ =~= prefix + items_text(items.take(i as int), lead, legacy)->0);
    }
    assert(items.take(i as int) =~= items);
    assert(final(out)@ =~= old(out)@ + measure_text(m@, legacy)->0);
    true
}

proof fn lemma_measures_text_prefix_none(ms: Seq<MeasureModel>, n: int, legacy: bool)
    requires
        0 <= n <= ms.len(),
        measures_text(ms.take(n), legacy) is None,
    ensures
        measures_text(ms, legacy) is None,
    decreases ms.len() - n,
{
    if n < ms.len() {
        assert(ms.take(n + 1).drop_last() =~= ms.take(n));
        lemma_measures_text_prefix_none(ms, n + 1, legacy);
    } else {
        assert(ms.take(n) =~= ms);
    }
}

/// Append the text of `p` (see [`part_text`]); false, with `out`
/// unspecified, when it cannot be written.
pub fn push_part(out: &mut Vec<char>, p: &Part, legacy: bool) -> (ok: bool)
    ensures
        ok == part_text(p@, legacy) is Some,
        ok ==> final(out)@ == old(out)@ + part_text(p@, legacy)->0,
{
    if let Some(i) = p.instrument {
        out.push(instrument_character(i));
        out.push('\n');
    }
    let ghost prefix = out@;
    let ghost ms = p@.measures;
    let mut i: usize = 0;
    assert(ms.take(0) =~= Seq::<MeasureModel>::empty());
    assert(out@ =~= prefix + measures_text(ms.take(0), legacy)->0);
    while i < p.measures.len()
        invariant
            i <= p.measures@.len(),
            ms == p@.measures,
            measures_text(ms.take(i as int), legacy) is Some,
            out@ == prefix + measures_text(ms.take(i as int), legacy)->0,
        decreases p.measures@.len() - i,
    {
        assert(ms.take(i as int + 1).drop_last() =~= ms.take(i as int));
        assert(ms.take(i as int + 1).last() == p.measures@[i as int]@);
        if i > 0 {
            out.push('\n');
        }
        if !push_measure(out, &p.measures[i], legacy) {
            proof { lemma_measures_text_prefix_none(ms, i as int + 1, legacy); }
            return false;
        }
        i = i + 1;
        assert(out@ =~= prefix + measures_text(ms.take(i as int), legacy)->0);
    }
    assert(ms.take(i as int) =~= ms);
    assert(final(out)@ =~= old(out)@ + part_text(p@, legacy)->0);
    true
}

proof fn lemma_parts_text_step(ps: Seq<PartModel>, i: int, legacy: bool)
    requires
        0 <= i < ps.len(),
    ensures
        parts_text(ps.take(i + 1), legacy) == (match (parts_text(ps.take(i), legacy), part_text(ps[i], legacy)) {
            (Some(a), Some(b)) => Some(a + (if i > 0 { seq!['\n', '|', '\n'] } else { Seq::empty() }) + b),
            _ => None,
        }),
        parts_text(Seq::<PartModel>::empty(), legacy) == Some(Seq::<char>::empty()),
{
    reveal(parts_text);
    assert(ps.take(i + 1).drop_last() =~= ps.take(i));
    assert(ps.take(i + 1).last() == ps[i]);
}

proof fn lemma_parts_text_prefix_none(ps: Seq<PartModel>, n: int, legacy: bool)
    requires
        0 <= n <= ps.len(),
        parts_text(ps.take(n), legacy) is None,
    ensures
        parts_text(ps, legacy) is None,
    decreases ps.len() - n,
{
    reveal(parts_text);
    if n < ps.len() {
        assert(ps.take(n + 1).drop_last() =~= ps.take(n));
        lemma_parts_text_prefix_none(ps, n + 1, legacy);
    } else {
        assert(ps.take(n) =~= ps);
    }
}

/// Append the text of `s` (see [`score_text`]); false, with `out`
/// unspecified, when it cannot be written.
pub fn push_score(out: &mut Vec<char>, s: &Score, legacy: bool) -> (ok: bool)
    ensures
        ok == score_text(s@, legacy) is Some,
        ok ==> final(out)@ == old(out)@ + score_text(s@, legacy)->0,
{
    if let Some(b) = s.bpm {
        push_decimal(out, b);
        out.push('\n');
    }
    let ghost prefix = out@;
    let ghost ps = s@.parts;
    let mut i: usize = 0;
    assert(ps.take(0) =~= Seq::<PartModel>::empty());
    proof { reveal(parts_text); }
    assert(out@ =~= prefix + parts_text(ps.take(0), legacy)->0);
    while i < s.parts.len()
        invariant
            i <= s.parts@.len(),
            ps == s@.parts,
            parts_text(ps.take(i as int), legacy) is Some,
            out@ == prefix + parts_text(ps.take(i as int), legacy)->0,
        decreases s.parts@.len() - i,
    {
        proof { lemma_parts_text_step(ps, i as int, legacy); }
        assert(ps[i as int] == s.parts@[i as int]@);
        if i > 0 {
            out.push('\n');
            out.push('|');
            out.push('\n');
        }
        if !push_part(out, &s.parts[i], legacy) {
            proof { lemma_parts_text_prefix_none(ps, i as int + 1, legacy); }
            return false;
        }
        i = i + 1;
        assert(out@ =~= prefix + parts_text(ps.take(i as int), legacy)->0);
    }
    assert(ps.take(i as int) =~= ps);
    assert(final(out)@ =~= old(out)@ + score_text(s@, legacy)->0);
    true
}

/// Append the text of `n` (see [`note_text`]), for a note that can be
/// written: at most one sharp or flat, and an octave that fits one digit
/// unless it is 4 or 5.
pub fn push_note(out: &mut Vec<char>, n: Note, legacy: bool)
    requires
        note_text(n, legacy) is Some,
    ensures
        final(out)@ == old(out)@ + note_text(n, legacy)->0,
{
    let ok = try_push_note(out, n, legacy);
}

/// Append the text of `e` (see [`event_text`]), for an event that can be
/// written: a staccato event has an even duration and every note can be
/// written.
pub fn push_event(out: &mut Vec<char>, e: &Event, legacy: bool)
    requires
        event_text(e@, legacy) is Some,
    ensures
        final(out)@ == old(out)@ + event_text(e@, legacy)->0,
{
    let ok = try_push_event(out, e, legacy);
}

} // verus!
