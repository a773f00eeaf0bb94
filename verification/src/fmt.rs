//! Writing notes and events of a parsed score back in the text format.

use vstd::prelude::*;

use crate::compile::text::repeat_char;
use crate::numtext::{push_signed_decimal, signed_decimal, string_from_chars};
use crate::types::{Accidental, BaseNote, Diatonic, Event, EventModel, Note};

verus! {

/// The upper-case letter of a note name.
pub open spec fn diatonic_letter(d: Diatonic) -> char {
    match d {
        Diatonic::A => 'A',
        Diatonic::B => 'B',
        Diatonic::C => 'C',
        Diatonic::D => 'D',
        Diatonic::E => 'E',
        Diatonic::F => 'F',
        Diatonic::G => 'G',
    }
}

/// The letter of a base note: lower case for the higher octave.
pub open spec fn base_note_letter(b: BaseNote) -> char {
    if b.high {
        match b.note {
            Diatonic::A => 'a',
            Diatonic::B => 'b',
            Diatonic::C => 'c',
            Diatonic::D => 'd',
            Diatonic::E => 'e',
            Diatonic::F => 'f',
            Diatonic::G => 'g',
        }
    } else {
        diatonic_letter(b.note)
    }
}

/// The sign of an accidental: ♭, ♮ or ♯.
pub open spec fn accidental_sign(a: Accidental) -> char {
    match a {
        Accidental::Flat => '\u{266D}',
        Accidental::Natural => '\u{266E}',
        Accidental::Sharp => '\u{266F}',
    }
}

/// The text of a note: its letter, its accidental sign, its octave number,
/// and a tilde for each beat after the first.
pub open spec fn written_note(n: Note) -> Seq<char> {
    seq![base_note_letter(n.base)] + (match n.accidental {
        Some(a) => seq![accidental_sign(a)],
        None => Seq::empty(),
    }) + (match n.octave {
        Some(o) => signed_decimal(o as int),
        None => Seq::empty(),
    }) + repeat_char('~', if n.duration >= 1 { (n.duration - 1) as nat } else { 0 })
}

/// The texts of `notes`, one after another.
pub open spec fn written_notes(notes: Seq<Note>) -> Seq<char>
    decreases notes.len(),
{
    if notes.len() == 0 {
        Seq::empty()
    } else {
        written_notes(notes.drop_last()) + written_note(notes.last())
    }
}

/// The text of an event: a slash per beat of a rest, the text of a note,
/// or the texts of a chord's notes in square brackets.
pub open spec fn written_event(e: EventModel) -> Seq<char> {
    match e {
        EventModel::Rest(d) => repeat_char('/', d as nat),
        EventModel::Note(n) => written_note(n),
        EventModel::Chord(ns) => seq!['['] + written_notes(ns) + seq![']'],
    }
}

impl Diatonic {
    /// The upper-case letter of the note name.
    pub fn letter(&self) -> (c: char)
        ensures
            c == diatonic_letter(*self),
    {
        match self {
            Diatonic::A => 'A',
            Diatonic::B => 'B',
            Diatonic::C => 'C',
            Diatonic::D => 'D',
            Diatonic::E => 'E',
            Diatonic::F => 'F',
            Diatonic::G => 'G',
        }
    }

    /// The name written out: its letter.
    pub fn to_text(&self) -> (s: String)
        ensures
            s@ == seq![diatonic_letter(*self)],
    {
        let mut v: Vec<char> = Vec::new();
        v.push(self.letter());
        string_from_chars(&v)
    }
}

impl BaseNote {
    /// The letter: lower case for the higher octave.
    pub fn letter(&self) -> (c: char)
        ensures
            c == base_note_letter(*self),
    {
        if self.high {
            match self.note {
                Diatonic::A => 'a',
                Diatonic::B => 'b',
                Diatonic::C => 'c',
                Diatonic::D => 'd',
                Diatonic::E => 'e',
                Diatonic::F => 'f',
                Diatonic::G => 'g',
            }
        } else {
            self.note.letter()
        }
    }

    /// The base note written out: its letter.
    pub fn to_text(&self) -> (s: String)
        ensures
            s@ == seq![base_note_letter(*self)],
    {
        let mut v: Vec<char> = Vec::new();
        v.push(self.letter());
        string_from_chars(&v)
    }
}

impl Accidental {
    /// The sign: ♭, ♮ or ♯.
    pub fn sign(&self) -> (c: char)
        ensures
            c == accidental_sign(*self),
    {
        match self {
            Accidental::Flat => '\u{266D}',
            Accidental::Natural => '\u{266E}',
            Accidental::Sharp => '\u{266F}',
        }
    }

    /// The accidental written out: its sign.
    pub fn to_text(&self) -> (s: String)
        ensures
            s@ == seq![accidental_sign(*self)],
    {
        let mut v: Vec<char> = Vec::new();
        v.push(self.sign());
        string_from_chars(&v)
    }
}

/// Append `n` copies of `c` to `out`.
fn push_repeated(out: &mut Vec<char>, c: char, n: u32)
    ensures
        final(out)@ == old(out)@ + repeat_char(c, n as nat),
{
    let mut k: u32 = 0;
    while k < n
        invariant
            k <= n,
            out@ == old(out)@ + repeat_char(c, k as nat),
        decreases n - k,
    {
        out.push(c);
        k = k + 1;
        assert(out@ =~= old(out)@ + repeat_char(c, k as nat));
    }
}

/// Append the text of `n` (see [`written_note`]) to `out`.
pub fn push_note(out: &mut Vec<char>, n: &Note)
    ensures
        final(out)@ == old(out)@ + written_note(*n),
{
    out.push(n.base.letter());
    if let Some(acc) = n.accidental {
        out.push(acc.sign());
    }
    if let Some(o) = n.octave {
        push_signed_decimal(out, o);
    }
    let tildes: u32 = if n.duration >= 1 { n.duration - 1 } else { 0 };
    push_repeated(out, '~', tildes);
    assert(final(out)@ =~= old(out)@ + written_note(*n));
}

/// Append the text of `e` (see [`written_event`]) to `out`.
pub fn push_event(out: &mut Vec<char>, e: &Event)
    ensures
        final(out)@ == old(out)@ + written_event(e@),
{
    match e {
        Event::Rest(d) => push_repeated(out, '/', *d),
        Event::Note(n) => push_note(out, n),
        Event::Chord(notes) => {
            out.push('[');
            let ghost start = out@;
            let mut i: usize = 0;
            assert(notes@.take(0) =~= Seq::<Note>::empty());
            assert(out@ =~= start + written_notes(notes@.take(0)));
            while i < notes.len()
                invariant
                    i <= notes@.len(),
                    out@ == start + written_notes(notes@.take(i as int)),
                decreases notes@.len() - i,
            {
                assert(notes@.take(i as int + 1).drop_last() =~= notes@.take(i as int));
                push_note(out, &notes[i]);
                i = i + 1;
                assert(out@ =~= start + written_notes(notes@.take(i as int)));
            }
            assert(notes@.take(i as int) =~= notes@);
            out.push(']');
            assert(final(out)@ =~= old(out)@ + written_event(e@));
        },
    }
}

impl Note {
    /// The note written out (see [`written_note`]).
    pub fn to_text(&self) -> (s: String)
        ensures
            s@ == written_note(*self),
    {
        let mut v: Vec<char> = Vec::new();
        push_note(&mut v, self);
        assert(v@ =~= written_note(*self));
        string_from_chars(&v)
    }
}

impl Event {
    /// The event written out (see [`written_event`]).
    pub fn to_text(&self) -> (s: String)
        ensures
            s@ == written_event(self@),
    {
        let mut v: Vec<char> = Vec::new();
        push_event(&mut v, self);
        assert(v@ =~= written_event(self@));
        string_from_chars(&v)
    }
}

} // verus!
