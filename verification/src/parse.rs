//! The text score format and its parser.
//!
//! A score is an optional tempo followed by parts separated by `|`. A part
//! is an optional instrument followed by events and dynamics. Characters
//! that mean nothing in the format are skipped wherever something may be
//! skipped, so that a score can carry visual markers.

use vstd::prelude::*;

use crate::compile::output::{Note as CompiledNote, Step};
use crate::compile::text::{ascii_lower, note_text, repeat_char, step_letter};
use crate::fmt::{written_event, written_note, written_notes};
use crate::numtext::{
    decimal, is_digit, lemma_decimal_roundtrip, parse_i8, parse_u32, parse_u32_at, signed_decimal,
};
use crate::types::{
    Accidental, BaseNote, Diatonic, Dynamic, Event, EventModel, Instrument, Note, Part, PartItem,
    PartItemModel, PartModel, Score, ScoreModel,
};

verus! {

/// The bed sign that starts a long rest.
pub open spec fn bed_char() -> char {
    '\u{1F6CF}'
}

/// The variation selector that may follow the bed sign.
pub open spec fn variation_selector() -> char {
    '\u{FE0F}'
}

/// The script letters of the dynamics.
pub open spec fn script_p() -> char {
    '\u{1D4F9}'
}

pub open spec fn script_m() -> char {
    '\u{1D4F6}'
}

pub open spec fn script_f() -> char {
    '\u{1D4EF}'
}

/// Whether `c` means something in the format: note letters, digits, part
/// dividers, chords, rests, note extensions, instruments and dynamics.
/// Every other character is skipped between items.
pub open spec fn is_marker(c: char) -> bool {
    ||| ('A' <= c && c <= 'G')
    ||| ('a' <= c && c <= 'g')
    ||| is_digit(c)
    ||| c == '|' || c == '[' || c == '/' || c == '~' || c == bed_char()
    ||| c == '\u{223F}' || c == '\u{1F3B9}' || c == '\u{1F514}' || c == '\u{1F30A}' || c == '\u{1F941}'
    ||| c == script_p() || c == script_m() || c == script_f()
}

/// The position after the characters from `i` on that mean nothing.
pub open spec fn junk_end(s: Seq<char>, i: int) -> int
    decreases s.len() - i,
{
    if 0 <= i < s.len() && !is_marker(s[i]) {
        junk_end(s, i + 1)
    } else {
        i
    }
}

/// The position after the digits from `i` on.
pub open spec fn digits_end(s: Seq<char>, i: int) -> int
    decreases s.len() - i,
{
    if 0 <= i < s.len() && is_digit(s[i]) {
        digits_end(s, i + 1)
    } else {
        i
    }
}

/// The position after the digits and minus signs from `i` on.
pub open spec fn signed_end(s: Seq<char>, i: int) -> int
    decreases s.len() - i,
{
    if 0 <= i < s.len() && (is_digit(s[i]) || s[i] == '-') {
        signed_end(s, i + 1)
    } else {
        i
    }
}

/// An unsigned number at `i`: the longest run of digits there, read as a
/// `u32`; none where the run is empty or too large.
pub open spec fn integer_at(s: Seq<char>, i: int) -> Option<(u32, int)> {
    let j = digits_end(s, i);
    match parse_u32(s.subrange(i, j)) {
        Some(n) => Some((n, j)),
        None => None,
    }
}

/// An octave number at `i`: the longest run of digits and minus signs
/// there, read as an `i8`; none where that run does not read as one.
pub open spec fn octave_at(s: Seq<char>, i: int) -> Option<(i8, int)> {
    let j = signed_end(s, i);
    match parse_i8(s.subrange(i, j)) {
        Some(n) => Some((n, j)),
        None => None,
    }
}

/// The note a letter names: upper case for the lower octave, lower case
/// for the higher one.
pub open spec fn letter_note(c: char) -> Option<BaseNote> {
    let note = if c == 'A' || c == 'a' {
        Some(Diatonic::A)
    } else if c == 'B' || c == 'b' {
        Some(Diatonic::B)
    } else if c == 'C' || c == 'c' {
        Some(Diatonic::C)
    } else if c == 'D' || c == 'd' {
        Some(Diatonic::D)
    } else if c == 'E' || c == 'e' {
        Some(Diatonic::E)
    } else if c == 'F' || c == 'f' {
        Some(Diatonic::F)
    } else if c == 'G' || c == 'g' {
        Some(Diatonic::G)
    } else {
        None
    };
    match note {
        Some(n) => Some(BaseNote { note: n, high: 'a' <= c && c <= 'g' }),
        None => None,
    }
}

/// A note letter at `i`.
pub open spec fn base_note_at(s: Seq<char>, i: int) -> Option<(BaseNote, int)> {
    if 0 <= i < s.len() {
        match letter_note(s[i]) {
            Some(b) => Some((b, i + 1)),
            None => None,
        }
    } else {
        None
    }
}

/// The accidental a sign stands for: ♭, ♮, and ♯ or `#`.
pub open spec fn sign_accidental(c: char) -> Option<Accidental> {
    if c == '\u{266D}' {
        Some(Accidental::Flat)
    } else if c == '\u{266E}' {
        Some(Accidental::Natural)
    } else if c == '\u{266F}' || c == '#' {
        Some(Accidental::Sharp)
    } else {
        None
    }
}

/// An accidental sign at `i`.
pub open spec fn accidental_at(s: Seq<char>, i: int) -> Option<(Accidental, int)> {
    if 0 <= i < s.len() {
        match sign_accidental(s[i]) {
            Some(a) => Some((a, i + 1)),
            None => None,
        }
    } else {
        None
    }
}

/// The tildes from `i` on, each after any skipped characters: how many,
/// and the position after the last.
pub open spec fn tilde_run(s: Seq<char>, i: int) -> (nat, int)
    decreases s.len() - i,
{
    let j = junk_end(s, i);
    if i <= j && 0 <= j < s.len() && s[j] == '~' {
        let rest = tilde_run(s, j + 1);
        (rest.0 + 1, rest.1)
    } else {
        (0, i)
    }
}

/// A note at `i`: a letter, an optional accidental, an optional octave,
/// and one beat more than the tildes that follow.
pub open spec fn note_at(s: Seq<char>, i: int) -> Option<(Note, int)> {
    match base_note_at(s, i) {
        None => None,
        Some((base, i1)) => {
            let (accidental, i2) = match accidental_at(s, i1) {
                Some((a, k)) => (Some(a), k),
                None => (None, i1),
            };
            let (octave, i3) = match octave_at(s, i2) {
                Some((o, k)) => (Some(o), k),
                None => (None, i2),
            };
            let (tildes, i4) = tilde_run(s, i3);
            Some((Note { base, accidental, octave, duration: (tildes + 1) as u32 }, i4))
        },
    }
}

/// The notes one after another from `i` on, and the position after them.
pub open spec fn notes_from(s: Seq<char>, i: int) -> (Seq<Note>, int)
    decreases s.len() - i,
{
    match note_at(s, i) {
        Some((n, j)) => if i < j <= s.len() {
            let rest = notes_from(s, j);
            (seq![n] + rest.0, rest.1)
        } else {
            (Seq::empty(), i)
        },
        None => (Seq::empty(), i),
    }
}

/// The bed sign at `i`, with its optional variation selector.
pub open spec fn bed_at(s: Seq<char>, i: int) -> Option<int> {
    if 0 <= i < s.len() && s[i] == bed_char() {
        if i + 1 < s.len() && s[i + 1] == variation_selector() {
            Some(i + 2)
        } else {
            Some(i + 1)
        }
    } else {
        None
    }
}

/// An event at `i`: `/` is a one-beat rest, the bed sign and a number a
/// rest of that many beats, a note a note, and notes in square brackets a
/// chord.
pub open spec fn event_at(s: Seq<char>, i: int) -> Option<(EventModel, int)> {
    if 0 <= i < s.len() && s[i] == '/' {
        Some((EventModel::Rest(1), i + 1))
    } else {
        let long = match bed_at(s, i) {
            Some(j) => integer_at(s, j),
            None => None,
        };
        match long {
            Some((n, k)) => Some((EventModel::Rest(n), k)),
            None => match note_at(s, i) {
                Some((n, k)) => Some((EventModel::Note(n), k)),
                None => if 0 <= i < s.len() && s[i] == '[' {
                    let (notes, j) = notes_from(s, i + 1);
                    if 0 <= j < s.len() && s[j] == ']' {
                        Some((EventModel::Chord(notes), j + 1))
                    } else {
                        None
                    }
                } else {
                    None
                },
            },
        }
    }
}

/// A dynamic at `i`: 𝓹𝓹, 𝓯𝓯, 𝓶𝓹, 𝓶𝓯, 𝓹 or 𝓯, the two-letter ones tried
/// first.
pub open spec fn dynamic_at(s: Seq<char>, i: int) -> Option<(Dynamic, int)> {
    let two = 0 <= i && i + 1 < s.len();
    if two && s[i] == script_p() && s[i + 1] == script_p() {
        Some((Dynamic::Pianissimo, i + 2))
    } else if two && s[i] == script_f() && s[i + 1] == script_f() {
        Some((Dynamic::Fortissimo, i + 2))
    } else if two && s[i] == script_m() && s[i + 1] == script_p() {
        Some((Dynamic::MezzoPiano, i + 2))
    } else if two && s[i] == script_m() && s[i + 1] == script_f() {
        Some((Dynamic::MezzoForte, i + 2))
    } else if 0 <= i < s.len() && s[i] == script_p() {
        Some((Dynamic::Piano, i + 1))
    } else if 0 <= i < s.len() && s[i] == script_f() {
        Some((Dynamic::Forte, i + 1))
    } else {
        None
    }
}

/// An item of a part at `i`: an event, or a dynamic with the skipped
/// characters after it.
pub open spec fn part_item_at(s: Seq<char>, i: int) -> Option<(PartItemModel, int)> {
    match event_at(s, i) {
        Some((e, j)) => Some((PartItemModel::Event(e), j)),
        None => match dynamic_at(s, i) {
            Some((d, j)) => Some((PartItemModel::Dynamic(d), junk_end(s, j))),
            None => None,
        },
    }
}

/// The items of a part from `i` on, each followed by skipped characters,
/// and the position after them.
pub open spec fn items_from(s: Seq<char>, i: int) -> (Seq<PartItemModel>, int)
    decreases s.len() - i,
{
    match part_item_at(s, i) {
        Some((item, j)) => {
            let k = junk_end(s, j);
            if i < k <= s.len() {
                let rest = items_from(s, k);
                (seq![item] + rest.0, rest.1)
            } else {
                (Seq::empty(), i)
            }
        },
        None => (Seq::empty(), i),
    }
}

/// The instrument a sign stands for: ∿ beep, 🎹 keyboard, 🔔 bell,
/// 🌊 waterphone, 🥁 drum.
pub open spec fn sign_instrument(c: char) -> Option<Instrument> {
    if c == '\u{223F}' {
        Some(Instrument::Beep)
    } else if c == '\u{1F3B9}' {
        Some(Instrument::Keyboard)
    } else if c == '\u{1F514}' {
        Some(Instrument::Bell)
    } else if c == '\u{1F30A}' {
        Some(Instrument::Waterphone)
    } else if c == '\u{1F941}' {
        Some(Instrument::Drum)
    } else {
        None
    }
}

/// An instrument sign at `i`.
pub open spec fn instrument_at(s: Seq<char>, i: int) -> Option<(Instrument, int)> {
    if 0 <= i < s.len() {
        match sign_instrument(s[i]) {
            Some(x) => Some((x, i + 1)),
            None => None,
        }
    } else {
        None
    }
}

/// A part at `i`: an optional instrument with the skipped characters
/// after it, then its items.
pub open spec fn part_at(s: Seq<char>, i: int) -> (PartModel, int) {
    let (instrument, j) = match instrument_at(s, i) {
        Some((x, k)) => (Some(x), junk_end(s, k)),
        None => (None, i),
    };
    let (items, k) = items_from(s, j);
    (PartModel { instrument, items }, k)
}

/// The parts that follow from `i` on, each after a `|` and skipped
/// characters, and the position after them.
pub open spec fn parts_after(s: Seq<char>, i: int) -> (Seq<PartModel>, int)
    decreases s.len() - i,
{
    if 0 <= i < s.len() && s[i] == '|' {
        let (p, j) = part_at(s, junk_end(s, i + 1));
        if i < j <= s.len() {
            let rest = parts_after(s, j);
            (seq![p] + rest.0, rest.1)
        } else {
            (Seq::empty(), i)
        }
    } else {
        (Seq::empty(), i)
    }
}

/// A score read from the start of `s`: skipped characters, an optional
/// tempo, then one part or more separated by `|`; and the position where
/// reading stopped.
pub open spec fn score_prefix(s: Seq<char>) -> (ScoreModel, int) {
    let i0 = junk_end(s, 0);
    let (bpm, i1) = match integer_at(s, i0) {
        Some((n, k)) => (Some(n), k),
        None => (None, i0),
    };
    let (first, i2) = part_at(s, junk_end(s, i1));
    let (rest, i3) = parts_after(s, i2);
    (ScoreModel { bpm, parts: seq![first] + rest }, i3)
}

/// The number of bytes `c` takes in UTF-8.
pub open spec fn utf8_width(c: char) -> nat {
    if (c as u32) < 0x80 {
        1
    } else if (c as u32) < 0x800 {
        2
    } else if (c as u32) < 0x10000 {
        3
    } else {
        4
    }
}

/// The number of bytes `s` takes in UTF-8.
pub open spec fn utf8_len(s: Seq<char>) -> nat
    decreases s.len(),
{
    if s.len() == 0 {
        0
    } else {
        utf8_len(s.drop_last()) + utf8_width(s.last())
    }
}

/// Where reading a score stopped before the end of its text, counted in
/// bytes from the start.
#[derive(Debug, Clone, Copy, PartialEq, Eq, Structural)]
pub struct ParseError {
    pub offset: usize,
}

/// The result of parsing a whole text: the score where reading reaches the
/// end, otherwise the byte offset of the first character that could not be
/// read.
pub open spec fn parse_text(s: Seq<char>) -> Result<ScoreModel, usize> {
    let (score, end) = score_prefix(s);
    if end == s.len() {
        Ok(score)
    } else {
        Err(utf8_len(s.take(end)) as usize)
    }
}


/// Whether `c` means something in the format (see [`is_marker`]).
fn is_marker_char(c: char) -> (b: bool)
    ensures
        b == is_marker(c),
{
    ('A' <= c && c <= 'G') || ('a' <= c && c <= 'g') || ('0' <= c && c <= '9') || c == '|' || c == '['
        || c == '/' || c == '~' || c == '\u{1F6CF}' || c == '\u{223F}' || c == '\u{1F3B9}' || c
        == '\u{1F514}' || c == '\u{1F30A}' || c == '\u{1F941}' || c == '\u{1D4F9}' || c == '\u{1D4F6}'
        || c == '\u{1D4EF}'
}

/// The position after the characters from `i` on that mean nothing (see
/// [`junk_end`]).
fn skip_junk(s: &Vec<char>, i: usize) -> (j: usize)
    requires
        i <= s@.len(),
    ensures
        j == junk_end(s@, i as int),
        i <= j <= s@.len(),
{
    let mut j = i;
    while j < s.len() && !is_marker_char(s[j])
        invariant
            i <= j <= s@.len(),
            junk_end(s@, i as int) == junk_end(s@, j as int),
        decreases s@.len() - j,
    {
        j = j + 1;
    }
    j
}

/// The position after the digits from `i` on (see [`digits_end`]).
fn skip_digits(s: &Vec<char>, i: usize) -> (j: usize)
    requires
        i <= s@.len(),
    ensures
        j == digits_end(s@, i as int),
        i <= j <= s@.len(),
{
    let mut j = i;
    while j < s.len() && '0' <= s[j] && s[j] <= '9'
        invariant
            i <= j <= s@.len(),
            digits_end(s@, i as int) == digits_end(s@, j as int),
        decreases s@.len() - j,
    {
        j = j + 1;
    }
    j
}

/// The position after the digits and minus signs from `i` on (see
/// [`signed_end`]).
fn skip_signed(s: &Vec<char>, i: usize) -> (j: usize)
    requires
        i <= s@.len(),
    ensures
        j == signed_end(s@, i as int),
        i <= j <= s@.len(),
{
    let mut j = i;
    while j < s.len() && (('0' <= s[j] && s[j] <= '9') || s[j] == '-')
        invariant
            i <= j <= s@.len(),
            signed_end(s@, i as int) == signed_end(s@, j as int),
        decreases s@.len() - j,
    {
        j = j + 1;
    }
    j
}

/// An unsigned number at `i` and the position after it (see
/// [`integer_at`]).
pub fn integer(s: &Vec<char>, i: usize) -> (r: Option<(u32, usize)>)
    requires
        i <= s@.len(),
    ensures
        r is Some <==> integer_at(s@, i as int) is Some,
        r matches Some((n, j)) ==> integer_at(s@, i as int) == Some((n, j as int)) && i < j <= s@.len(),
{
    let j = skip_digits(s, i);
    match parse_u32_at(s, i, j) {
        Some(n) => {
            assert(s@.subrange(i as int, j as int).len() > 0);
            Some((n, j))
        },
        None => None,
    }
}

/// An octave number at `i` and the position after it (see
/// [`octave_at`]).
pub fn octave(s: &Vec<char>, i: usize) -> (r: Option<(i8, usize)>)
    requires
        i <= s@.len(),
    ensures
        r is Some <==> octave_at(s@, i as int) is Some,
        r matches Some((n, j)) ==> octave_at(s@, i as int) == Some((n, j as int)) && i < j <= s@.len(),
{
    let j = skip_signed(s, i);
    match crate::numtext::parse_i8_at(s, i, j) {
        Some(n) => {
            assert(s@.subrange(i as int, j as int).len() > 0);
            Some((n, j))
        },
        None => None,
    }
}

/// A note letter at `i` and the position after it (see
/// [`base_note_at`]).
pub fn base_note(s: &Vec<char>, i: usize) -> (r: Option<(BaseNote, usize)>)
    requires
        i <= s@.len(),
    ensures
        r is Some <==> base_note_at(s@, i as int) is Some,
        r matches Some((b, j)) ==> base_note_at(s@, i as int) == Some((b, j as int)) && j == i + 1,
{
    if i >= s.len() {
        return None;
    }
    let c = s[i];
    let note = if c == 'A' || c == 'a' {
        Diatonic::A
    } else if c == 'B' || c == 'b' {
        Diatonic::B
    } else if c == 'C' || c == 'c' {
        Diatonic::C
    } else if c == 'D' || c == 'd' {
        Diatonic::D
    } else if c == 'E' || c == 'e' {
        Diatonic::E
    } else if c == 'F' || c == 'f' {
        Diatonic::F
    } else if c == 'G' || c == 'g' {
        Diatonic::G
    } else {
        return None;
    };
    Some((BaseNote { note, high: 'a' <= c && c <= 'g' }, i + 1))
}

/// An accidental sign at `i` and the position after it (see
/// [`accidental_at`]).
fn accidental(s: &Vec<char>, i: usize) -> (r: Option<(Accidental, usize)>)
    requires
        i <= s@.len(),
    ensures
        r is Some <==> accidental_at(s@, i as int) is Some,
        r matches Some((a, j)) ==> accidental_at(s@, i as int) == Some((a, j as int)) && j == i + 1,
{
    if i >= s.len() {
        return None;
    }
    let c = s[i];
    if c == '\u{266D}' {
        Some((Accidental::Flat, i + 1))
    } else if c == '\u{266E}' {
        Some((Accidental::Natural, i + 1))
    } else if c == '\u{266F}' || c == '#' {
        Some((Accidental::Sharp, i + 1))
    } else {
        None
    }
}

/// The tildes from `i` on (see [`tilde_run`]): how many, and the position
/// after the last.
fn tildes(s: &Vec<char>, i: usize) -> (r: (usize, usize))
    requires
        i <= s@.len(),
    ensures
        r.0 == tilde_run(s@, i as int).0,
        r.1 == tilde_run(s@, i as int).1,
        i <= r.1 <= s@.len(),
        r.0 <= r.1 - i,
{
    let mut count: usize = 0;
    let mut pos = i;
    loop
        invariant
            i <= pos <= s@.len(),
            count <= pos - i,
            tilde_run(s@, i as int).0 == tilde_run(s@, pos as int).0 + count,
            tilde_run(s@, i as int).1 == tilde_run(s@, pos as int).1,
        decreases s@.len() - pos,
    {
        let j = skip_junk(s, pos);
        if j < s.len() && s[j] == '~' {
            count = count + 1;
            pos = j + 1;
        } else {
            return (count, pos);
        }
    }
}

/// A note at `i` and the position after it (see [`note_at`]). The text
/// must be shorter than `u32::MAX` characters, so that a duration fits.
pub fn note(s: &Vec<char>, i: usize) -> (r: Option<(Note, usize)>)
    requires
        i <= s@.len(),
        s@.len() < u32::MAX,
    ensures
        r is Some <==> note_at(s@, i as int) is Some,
        r matches Some((n, j)) ==> note_at(s@, i as int) == Some((n, j as int)) && i < j <= s@.len(),
{
    let (base, i1) = match base_note(s, i) {
        None => return None,
        Some(x) => x,
    };
    let (acc, i2) = match accidental(s, i1) {
        Some((a, k)) => (Some(a), k),
        None => (None, i1),
    };
    let (oct, i3) = match octave(s, i2) {
        Some((o, k)) => (Some(o), k),
        None => (None, i2),
    };
    let (n, i4) = tildes(s, i3);
    Some((Note { base, accidental: acc, octave: oct, duration: n as u32 + 1 }, i4))
}


/// The notes one after another from `i` on, and the position after them
/// (see [`notes_from`]).
fn notes(s: &Vec<char>, i: usize) -> (r: (Vec<Note>, usize))
    requires
        i <= s@.len(),
        s@.len() < u32::MAX,
    ensures
        r.0@ == notes_from(s@, i as int).0,
        r.1 == notes_from(s@, i as int).1,
        i <= r.1 <= s@.len(),
{
    let mut acc: Vec<Note> = Vec::new();
    let mut pos = i;
    loop
        invariant
            i <= pos <= s@.len(),
            s@.len() < u32::MAX,
            notes_from(s@, i as int).0 == acc@ + notes_from(s@, pos as int).0,
            notes_from(s@, i as int).1 == notes_from(s@, pos as int).1,
        decreases s@.len() - pos,
    {
        match note(s, pos) {
            Some((n, j)) => {
                let ghost rest = notes_from(s@, j as int);
                let ghost before = acc@;
                assert(notes_from(s@, pos as int).0 == seq![n] + rest.0);
                acc.push(n);
                assert(before + (seq![n] + rest.0) =~= acc@ + rest.0);
                pos = j;
            },
            None => {
                assert(acc@ + notes_from(s@, pos as int).0 =~= acc@);
                return (acc, pos);
            },
        }
    }
}


/// The bed sign at `i` and the position after it (see [`bed_at`]).
fn bed(s: &Vec<char>, i: usize) -> (r: Option<usize>)
    requires
        i <= s@.len(),
    ensures
        r is Some <==> bed_at(s@, i as int) is Some,
        r matches Some(j) ==> bed_at(s@, i as int) == Some(j as int) && i < j <= s@.len(),
{
    if i < s.len() && s[i] == '\u{1F6CF}' {
        if i + 1 < s.len() && s[i + 1] == '\u{FE0F}' {
            Some(i + 2)
        } else {
            Some(i + 1)
        }
    } else {
        None
    }
}

/// An event at `i` and the position after it (see [`event_at`]).
pub fn event(s: &Vec<char>, i: usize) -> (r: Option<(Event, usize)>)
    requires
        i <= s@.len(),
        s@.len() < u32::MAX,
    ensures
        r is Some <==> event_at(s@, i as int) is Some,
        r matches Some((e, j)) ==> event_at(s@, i as int) == Some((e@, j as int)) && i < j <= s@.len(),
{
    if i < s.len() && s[i] == '/' {
        return Some((Event::Rest(1), i + 1));
    }
    let long = match bed(s, i) {
        Some(j) => integer(s, j),
        None => None,
    };
    if let Some((n, k)) = long {
        return Some((Event::Rest(n), k));
    }
    if let Some((n, k)) = note(s, i) {
        return Some((Event::Note(n), k));
    }
    if i < s.len() && s[i] == '[' {
        let (ns, j) = notes(s, i + 1);
        if j < s.len() && s[j] == ']' {
            return Some((Event::Chord(ns), j + 1));
        }
    }
    None
}

/// A dynamic at `i` and the position after it (see [`dynamic_at`]).
fn dynamic(s: &Vec<char>, i: usize) -> (r: Option<(Dynamic, usize)>)
    requires
        i <= s@.len(),
    ensures
        r is Some <==> dynamic_at(s@, i as int) is Some,
        r matches Some((d, j)) ==> dynamic_at(s@, i as int) == Some((d, j as int)) && i < j <= s@.len(),
{
    let p = '\u{1D4F9}';
    let m = '\u{1D4F6}';
    let f = '\u{1D4EF}';
    let two = i < s.len() && i + 1 < s.len();
    if two && s[i] == p && s[i + 1] == p {
        Some((Dynamic::Pianissimo, i + 2))
    } else if two && s[i] == f && s[i + 1] == f {
        Some((Dynamic::Fortissimo, i + 2))
    } else if two && s[i] == m && s[i + 1] == p {
        Some((Dynamic::MezzoPiano, i + 2))
    } else if two && s[i] == m && s[i + 1] == f {
        Some((Dynamic::MezzoForte, i + 2))
    } else if i < s.len() && s[i] == p {
        Some((Dynamic::Piano, i + 1))
    } else if i < s.len() && s[i] == f {
        Some((Dynamic::Forte, i + 1))
    } else {
        None
    }
}

/// An item of a part at `i` and the position after it (see
/// [`part_item_at`]).
pub fn part_item(s: &Vec<char>, i: usize) -> (r: Option<(PartItem, usize)>)
    requires
        i <= s@.len(),
        s@.len() < u32::MAX,
    ensures
        r is Some <==> part_item_at(s@, i as int) is Some,
        r matches Some((it, j)) ==> part_item_at(s@, i as int) == Some((it@, j as int)) && i < j <= s@.len(),
{
    match event(s, i) {
        Some((e, j)) => Some((PartItem::Event(e), j)),
        None => match dynamic(s, i) {
            Some((d, j)) => Some((PartItem::Dynamic(d), skip_junk(s, j))),
            None => None,
        },
    }
}

/// The items of a part from `i` on and the position after them (see
/// [`items_from`]).
fn items(s: &Vec<char>, i: usize) -> (r: (Vec<PartItem>, usize))
    requires
        i <= s@.len(),
        s@.len() < u32::MAX,
    ensures
        r.0@.map_values(|it: PartItem| it@) == items_from(s@, i as int).0,
        r.1 == items_from(s@, i as int).1,
        i <= r.1 <= s@.len(),
{
    let mut acc: Vec<PartItem> = Vec::new();
    let mut pos = i;
    loop
        invariant
            i <= pos <= s@.len(),
            s@.len() < u32::MAX,
            items_from(s@, i as int).0 == acc@.map_values(|it: PartItem| it@) + items_from(s@, pos as int).0,
            items_from(s@, i as int).1 == items_from(s@, pos as int).1,
        decreases s@.len() - pos,
    {
        match part_item(s, pos) {
            Some((it, j)) => {
                let k = skip_junk(s, j);
                let ghost rest = items_from(s@, k as int);
                let ghost before = acc@.map_values(|x: PartItem| x@);
                assert(items_from(s@, pos as int).0 == seq![it@] + rest.0);
                acc.push(it);
                assert(acc@.map_values(|x: PartItem| x@) =~= before.push(it@));
                assert(before + (seq![it@] + rest.0) =~= before.push(it@) + rest.0);
                pos = k;
            },
            None => {
                assert(acc@.map_values(|x: PartItem| x@) + items_from(s@, pos as int).0 =~= acc@.map_values(
                    |x: PartItem| x@,
                ));
                return (acc, pos);
            },
        }
    }
}

/// An instrument sign at `i` and the position after it (see
/// [`instrument_at`]).
fn instrument(s: &Vec<char>, i: usize) -> (r: Option<(Instrument, usize)>)
    requires
        i <= s@.len(),
    ensures
        r is Some <==> instrument_at(s@, i as int) is Some,
        r matches Some((x, j)) ==> instrument_at(s@, i as int) == Some((x, j as int)) && j == i + 1,
{
    if i >= s.len() {
        return None;
    }
    let c = s[i];
    if c == '\u{223F}' {
        Some((Instrument::Beep, i + 1))
    } else if c == '\u{1F3B9}' {
        Some((Instrument::Keyboard, i + 1))
    } else if c == '\u{1F514}' {
        Some((Instrument::Bell, i + 1))
    } else if c == '\u{1F30A}' {
        Some((Instrument::Waterphone, i + 1))
    } else if c == '\u{1F941}' {
        Some((Instrument::Drum, i + 1))
    } else {
        None
    }
}

/// A part at `i` and the position after it (see [`part_at`]).
pub fn part(s: &Vec<char>, i: usize) -> (r: (Part, usize))
    requires
        i <= s@.len(),
        s@.len() < u32::MAX,
    ensures
        r.0@ == part_at(s@, i as int).0,
        r.1 == part_at(s@, i as int).1,
        i <= r.1 <= s@.len(),
{
    let (inst, j) = match instrument(s, i) {
        Some((x, k)) => (Some(x), skip_junk(s, k)),
        None => (None, i),
    };
    let (its, k) = items(s, j);
    (Part { instrument: inst, items: its }, k)
}

/// The parts that follow from `i` on and the position after them (see
/// [`parts_after`]).
fn more_parts(s: &Vec<char>, i: usize) -> (r: (Vec<Part>, usize))
    requires
        i <= s@.len(),
        s@.len() < u32::MAX,
    ensures
        r.0@.map_values(|p: Part| p@) == parts_after(s@, i as int).0,
        r.1 == parts_after(s@, i as int).1,
        i <= r.1 <= s@.len(),
{
    let mut acc: Vec<Part> = Vec::new();
    let mut pos = i;
    loop
        invariant
            i <= pos <= s@.len(),
            s@.len() < u32::MAX,
            parts_after(s@, i as int).0 == acc@.map_values(|p: Part| p@) + parts_after(s@, pos as int).0,
            parts_after(s@, i as int).1 == parts_after(s@, pos as int).1,
        decreases s@.len() - pos,
    {
        if pos < s.len() && s[pos] == '|' {
            let start = skip_junk(s, pos + 1);
            let (p, j) = part(s, start);
            let ghost rest = parts_after(s@, j as int);
            let ghost before = acc@.map_values(|x: Part| x@);
            assert(parts_after(s@, pos as int).0 == seq![p@] + rest.0);
            acc.push(p);
            assert(acc@.map_values(|x: Part| x@) =~= before.push(p@));
            assert(before + (seq![p@] + rest.0) =~= before.push(p@) + rest.0);
            pos = j;
        } else {
            assert(acc@.map_values(|x: Part| x@) + parts_after(s@, pos as int).0 =~= acc@.map_values(
                |x: Part| x@,
            ));
            return (acc, pos);
        }
    }
}


/// A score read from the start of the text and the position where reading
/// stopped (see [`score_prefix`]).
fn score(s: &Vec<char>) -> (r: (Score, usize))
    requires
        s@.len() < u32::MAX,
    ensures
        r.0@ == score_prefix(s@).0,
        r.1 == score_prefix(s@).1,
        r.1 <= s@.len(),
{
    let i0 = skip_junk(s, 0);
    let (bpm, i1) = match integer(s, i0) {
        Some((n, k)) => (Some(n), k),
        None => (None, i0),
    };
    let start = skip_junk(s, i1);
    let (first, i2) = part(s, start);
    let (rest, i3) = more_parts(s, i2);
    let mut parts: Vec<Part> = Vec::new();
    parts.push(first);
    let mut rest = rest;
    let ghost rest_m = rest@.map_values(|p: Part| p@);
    let ghost first_m = parts@[0]@;
    parts.append(&mut rest);
    assert(parts@.map_values(|p: Part| p@) =~= seq![first_m] + rest_m);
    (Score { bpm, parts }, i3)
}

/// A prefix of a text takes no more bytes than the whole.
proof fn lemma_utf8_prefix(s: Seq<char>, k: int)
    requires
        0 <= k <= s.len(),
    ensures
        utf8_len(s.take(k)) <= utf8_len(s),
    decreases s.len() - k,
{
    if k < s.len() {
        lemma_utf8_prefix(s, k + 1);
        assert(s.take(k + 1).drop_last() =~= s.take(k));
    } else {
        assert(s.take(k) =~= s);
    }
}

/// The number of bytes `c` takes in UTF-8 (see [`utf8_width`]).
fn char_width(c: char) -> (n: usize)
    ensures
        n == utf8_width(c),
{
    let u = c as u32;
    if u < 0x80 {
        1
    } else if u < 0x800 {
        2
    } else if u < 0x10000 {
        3
    } else {
        4
    }
}

/// The number of bytes the first `end` characters of `s` take in UTF-8.
fn byte_offset(s: &Vec<char>, end: usize) -> (n: usize)
    requires
        end <= s@.len(),
        utf8_len(s@) <= usize::MAX,
    ensures
        n == utf8_len(s@.take(end as int)),
{
    let mut n: usize = 0;
    let mut k: usize = 0;
    assert(s@.take(0) =~= Seq::<char>::empty());
    while k < end
        invariant
            k <= end <= s@.len(),
            utf8_len(s@) <= usize::MAX,
            n == utf8_len(s@.take(k as int)),
        decreases end - k,
    {
        assert(s@.take(k as int + 1).drop_last() =~= s@.take(k as int));
        proof { lemma_utf8_prefix(s@, k as int + 1); }
        n = n + char_width(s[k]);
        k = k + 1;
    }
    n
}

/// Parse a whole text as a score (see [`parse_text`]): the score where
/// reading reaches the end of the text, otherwise the byte offset where it
/// stopped. The text must be shorter than `u32::MAX` characters, so that
/// every note duration fits a `u32`.
pub fn parse(song_text: &str) -> (r: Result<Score, ParseError>)
    requires
        song_text@.len() < u32::MAX,
        utf8_len(song_text@) <= usize::MAX,
    ensures
        r matches Ok(sc) ==> parse_text(song_text@) == Ok::<ScoreModel, usize>(sc@),
        r matches Err(e) ==> parse_text(song_text@) == Err::<ScoreModel, usize>(e.offset),
{
    let s = crate::numtext::chars_of(song_text);
    let (sc, end) = score(&s);
    if end == s.len() {
        Ok(sc)
    } else {
        Err(ParseError { offset: byte_offset(&s, end) })
    }
}


/// Reading a note can stop at `e`: no tilde follows there (after skipped
/// characters), and no digit, minus sign or accidental sign stands there.
pub open spec fn note_stop(s: Seq<char>, e: int) -> bool {
    &&& 0 <= e <= s.len()
    &&& tilde_run(s, e) == (0nat, e)
    &&& e < s.len() ==> !is_digit(s[e]) && s[e] != '-' && sign_accidental(s[e]) is None
}

proof fn lemma_tilde_run(s: Seq<char>, k: int, m: nat)
    requires
        0 <= k,
        k + m <= s.len(),
        forall|t: int| k <= t < k + m ==> s[t] == '~',
        tilde_run(s, k + m) == (0nat, k + m),
    ensures
        tilde_run(s, k) == (m, k + m),
    decreases m,
{
    if m > 0 {
        lemma_tilde_run(s, k + 1, (m - 1) as nat);
        assert(junk_end(s, k) == k);
    }
}

proof fn lemma_signed_run(s: Seq<char>, k: int, j: int)
    requires
        0 <= k <= j <= s.len(),
        forall|t: int| k <= t < j ==> is_digit(s[t]) || s[t] == '-',
        j < s.len() ==> !is_digit(s[j]) && s[j] != '-',
    ensures
        signed_end(s, k) == j,
    decreases j - k,
{
    if k < j {
        lemma_signed_run(s, k + 1, j);
    }
}

/// The text of an `i8` reads back as it, and consists of digits and a
/// minus sign.
proof fn lemma_signed_decimal_i8(o: i8)
    ensures
        parse_i8(signed_decimal(o as int)) == Some(o),
        signed_decimal(o as int).len() > 0,
        forall|t: int|
            0 <= t < signed_decimal(o as int).len() ==> is_digit(#[trigger] signed_decimal(o as int)[t])
                || signed_decimal(o as int)[t] == '-',
{
    let sd = signed_decimal(o as int);
    if o < 0 {
        lemma_decimal_roundtrip((-(o as int)) as nat);
        let d = decimal((-(o as int)) as nat);
        assert(sd.drop_first() =~= d);
        assert forall|t: int| 0 <= t < sd.len() implies is_digit(#[trigger] sd[t]) || sd[t] == '-' by {
            if t > 0 {
                assert(sd[t] == d[t - 1]);
            }
        }
    } else {
        lemma_decimal_roundtrip(o as nat);
        let d = decimal(o as nat);
        assert(is_digit(d[0]));
    }
}

/// A note written at `i`, with reading able to stop after it, reads back
/// as that note.
proof fn lemma_note_at_written(s: Seq<char>, i: int, n: Note)
    requires
        0 <= i,
        i + written_note(n).len() <= s.len(),
        s.subrange(i, i + written_note(n).len()) == written_note(n),
        n.duration >= 1,
        note_stop(s, i + written_note(n).len()),
    ensures
        note_at(s, i) == Some((n, i + written_note(n).len())),
{
    let w = written_note(n);
    let e = i + w.len();
    let acc_t: Seq<char> = match n.accidental {
        Some(a) => seq![crate::fmt::accidental_sign(a)],
        None => Seq::empty(),
    };
    let oct_t: Seq<char> = match n.octave {
        Some(o) => signed_decimal(o as int),
        None => Seq::empty(),
    };
    let m = (n.duration - 1) as nat;
    let til = repeat_char('~', m);
    assert(w == seq![crate::fmt::base_note_letter(n.base)] + acc_t + oct_t + til);
    let i1 = i + 1;
    let i2 = i1 + acc_t.len();
    let i3 = i2 + oct_t.len();
    assert(i3 + m == e);
    assert forall|t: int| 0 <= t < w.len() implies s[i + t] == #[trigger] w[t] by {
        assert(s.subrange(i, e)[t] == s[i + t]);
    }
    // The letter.
    assert(s[i] == w[0]);
    assert(base_note_at(s, i) == Some((n.base, i1)));
    // The accidental.
    if let Some(o) = n.octave {
        lemma_signed_decimal_i8(o);
    }
    assert forall|t: int| i3 <= t < e implies s[t] == '~' by {
        assert(s[t] == w[t - i]);
        assert(w[t - i] == til[t - i3]);
    }
    match n.accidental {
        Some(a) => {
            assert(s[i1] == w[1]);
        },
        None => {
            if i1 < e {
                assert(s[i1] == w[1]);
                if i1 < i3 {
                    assert(w[1] == oct_t[0]);
                }
            }
        },
    }
    assert(accidental_at(s, i1) == (match n.accidental {
        Some(a) => Some((a, i2)),
        None => None::<(Accidental, int)>,
    }));
    // The octave.
    if i3 < s.len() {
        if i3 < e {
            assert(s[i3] == '~');
        }
    }
    match n.octave {
        Some(o) => {
            assert forall|t: int| i2 <= t < i3 implies is_digit(s[t]) || s[t] == '-' by {
                assert(s[t] == w[t - i]);
                assert(w[t - i] == oct_t[t - i2]);
            }
            lemma_signed_run(s, i2, i3);
            assert forall|t: int| 0 <= t < oct_t.len() implies s.subrange(i2, i3)[t] == oct_t[t] by {
                assert(s[i2 + t] == w[i2 + t - i]);
                assert(w[i2 + t - i] == oct_t[t]);
            }
            assert(s.subrange(i2, i3) =~= oct_t);
            assert(octave_at(s, i2) == Some((o, i3)));
        },
        None => {
            lemma_signed_run(s, i2, i2);
            assert(s.subrange(i2, i2) =~= Seq::<char>::empty());
            assert(octave_at(s, i2) is None);
        },
    }
    // The tildes.
    lemma_tilde_run(s, i3, m);
}


/// The texts of two runs of notes, one after the other, are the text of
/// the joined run.
proof fn lemma_written_notes_concat(a: Seq<Note>, b: Seq<Note>)
    ensures
        written_notes(a + b) == written_notes(a) + written_notes(b),
    decreases b.len(),
{
    if b.len() == 0 {
        assert(a + b =~= a);
        assert(written_notes(a) + written_notes(b) =~= written_notes(a));
    } else {
        lemma_written_notes_concat(a, b.drop_last());
        assert((a + b).drop_last() =~= a + b.drop_last());
        assert((a + b).last() == b.last());
        assert(written_notes(a) + written_notes(b) =~= written_notes(a) + written_notes(b.drop_last())
            + written_note(b.last()));
    }
}

/// The letter a note's text starts with can stop the reading of the note
/// before it.
proof fn lemma_letter_stops(s: Seq<char>, e: int, n: Note)
    requires
        0 <= e < s.len(),
        s[e] == written_note(n)[0],
    ensures
        note_stop(s, e),
{
    assert(written_note(n)[0] == crate::fmt::base_note_letter(n.base));
    assert(junk_end(s, e) == e);
}

/// Where `x + y + z` stands at `i`, `y` stands right after `x`.
proof fn lemma_middle(s: Seq<char>, i: int, x: Seq<char>, y: Seq<char>, z: Seq<char>)
    requires
        0 <= i,
        i + (x + y + z).len() <= s.len(),
        s.subrange(i, i + (x + y + z).len()) == x + y + z,
    ensures
        s.subrange(i + x.len(), i + x.len() + y.len()) == y,
{
    let all = x + y + z;
    assert forall|t: int| 0 <= t < y.len() implies s.subrange(i + x.len(), i + x.len() + y.len())[t] == y[t] by {
        assert(s.subrange(i, i + all.len())[x.len() + t] == all[x.len() + t]);
    }
    assert(s.subrange(i + x.len(), i + x.len() + y.len()) =~= y);
}

/// The text of the first `k + 1` notes is that of the first `k` and the
/// text of note `k`; the text of all notes is that of the first `k` and of
/// the rest.
proof fn lemma_take_texts(ns: Seq<Note>, k: int)
    requires
        0 <= k < ns.len(),
    ensures
        written_notes(ns.take(k + 1)) == written_notes(ns.take(k)) + written_note(ns[k]),
        written_notes(ns) == written_notes(ns.take(k)) + written_note(ns[k]) + written_notes(ns.skip(k + 1)),
{
    assert(ns.take(k + 1).drop_last() =~= ns.take(k));
    assert(ns.take(k + 1).last() == ns[k]);
    lemma_written_notes_concat(ns.take(k + 1), ns.skip(k + 1));
    assert(ns.take(k + 1) + ns.skip(k + 1) =~= ns);
}

/// The notes written from position `pos(k)` on read back as the notes of
/// `ns` from `k` on, up to the closing bracket that ends the text.
proof fn lemma_notes_suffix(s: Seq<char>, i: int, ns: Seq<Note>, k: int)
    requires
        0 <= i,
        0 <= k <= ns.len(),
        i + written_notes(ns).len() + 1 == s.len(),
        s.subrange(i, i + written_notes(ns).len()) == written_notes(ns),
        s[i + written_notes(ns).len()] == ']',
        forall|t: int| 0 <= t < ns.len() ==> (#[trigger] ns[t]).duration >= 1,
    ensures
        notes_from(s, i + written_notes(ns.take(k)).len()) == (ns.skip(k), i + written_notes(ns).len()),
    decreases ns.len() - k,
{
    let end = i + written_notes(ns).len();
    let p = i + written_notes(ns.take(k)).len();
    if k == ns.len() {
        assert(ns.take(k) =~= ns);
        assert(ns.skip(k) =~= Seq::<Note>::empty());
        assert(note_at(s, p) is None);
    } else {
        lemma_notes_suffix(s, i, ns, k + 1);
        let n = ns[k];
        let q = i + written_notes(ns.take(k + 1)).len();
        lemma_take_texts(ns, k);
        lemma_middle(s, i, written_notes(ns.take(k)), written_note(n), written_notes(ns.skip(k + 1)));
        assert(q == p + written_note(n).len());
        if k + 1 < ns.len() {
            let n2 = ns[k + 1];
            lemma_take_texts(ns, k + 1);
            lemma_middle(s, i, written_notes(ns.take(k + 1)), written_note(n2), written_notes(ns.skip(k + 2)));
            assert(s.subrange(q, q + written_note(n2).len())[0] == s[q]);
            lemma_letter_stops(s, q, n2);
        } else {
            assert(ns.take(k + 1) =~= ns);
            assert(junk_end(s, q + 1) == q + 1);
            assert(junk_end(s, q) == q + 1);
        }
        lemma_note_at_written(s, p, n);
        assert(ns.skip(k) =~= seq![n] + ns.skip(k + 1));
    }
}

/// Writing a note that lasts at least one beat and reading the text back
/// gives the same note, read to the end of the text.
pub proof fn lemma_written_note_reads_back(n: Note)
    requires
        n.duration >= 1,
    ensures
        note_at(written_note(n), 0) == Some((n, written_note(n).len() as int)),
{
    let w = written_note(n);
    assert(w.subrange(0, w.len() as int) =~= w);
    lemma_note_at_written(w, 0, n);
}

/// Writing an event and reading the text back gives the same event, read
/// to the end of the text, for every event whose notes last at least one
/// beat each, except rests of other than one beat (those are written as
/// one slash per beat, and each slash reads as a rest of its own).
pub proof fn lemma_written_event_reads_back(e: EventModel)
    requires
        e matches EventModel::Rest(d) ==> d == 1,
        forall|t: int| 0 <= t < e.notes().len() ==> (#[trigger] e.notes()[t]).duration >= 1,
    ensures
        event_at(written_event(e), 0) == Some((e, written_event(e).len() as int)),
{
    let w = written_event(e);
    match e {
        EventModel::Rest(d) => {
            assert(w[0] == '/');
        },
        EventModel::Note(n) => {
            assert(e.notes()[0] == n);
            lemma_written_note_reads_back(n);
            assert(w[0] == crate::fmt::base_note_letter(n.base));
        },
        EventModel::Chord(ns) => {
            let wn = written_notes(ns);
            assert(w == seq!['['] + wn + seq![']']);
            assert(w.subrange(1, 1 + wn.len() as int) =~= wn);
            assert(w[1 + wn.len() as int] == ']');
            assert forall|t: int| 0 <= t < ns.len() implies (#[trigger] ns[t]).duration >= 1 by {
                assert(e.notes()[t] == ns[t]);
            }
            lemma_notes_suffix(w, 1, ns, 0);
            assert(ns.take(0) =~= Seq::<Note>::empty());
            assert(ns.skip(0) =~= ns);
            assert(note_at(w, 0) is None);
        },
    }
}

/// A text holding only the text of such an event (see
/// [`lemma_written_event_reads_back`]) parses as a score of one part
/// holding just that event, with no tempo and no instrument.
pub proof fn lemma_written_event_parses(e: EventModel)
    requires
        e matches EventModel::Rest(d) ==> d == 1,
        forall|t: int| 0 <= t < e.notes().len() ==> (#[trigger] e.notes()[t]).duration >= 1,
    ensures
        parse_text(written_event(e)) == Ok::<ScoreModel, usize>(
            ScoreModel {
                bpm: None,
                parts: seq![PartModel { instrument: None, items: seq![PartItemModel::Event(e)] }],
            },
        ),
{
    let w = written_event(e);
    lemma_written_event_reads_back(e);
    let len = w.len() as int;
    match e {
        EventModel::Note(n) => {
            assert(w[0] == crate::fmt::base_note_letter(n.base));
        },
        EventModel::Chord(ns) => {
            assert(w[0] == '[');
        },
        EventModel::Rest(_) => {
            assert(w[0] == '/');
        },
    }
    assert(junk_end(w, 0) == 0);
    assert(digits_end(w, 0) == 0);
    assert(w.subrange(0, 0) =~= Seq::<char>::empty());
    assert(integer_at(w, 0) is None);
    assert(instrument_at(w, 0) is None);
    assert(junk_end(w, len) == len);
    assert(part_item_at(w, len) is None);
    assert(items_from(w, len).0 =~= Seq::<PartItemModel>::empty());
    assert(items_from(w, 0).0 =~= seq![PartItemModel::Event(e)]);
    assert(parts_after(w, len).0 =~= Seq::<PartModel>::empty());
    assert(score_prefix(w).0.parts =~= seq![PartModel { instrument: None, items: seq![PartItemModel::Event(e)] }]);
}

/// The letter that the conversion writes for position `i` of A to G,
/// lower case for the higher octave, reads as that letter.
proof fn lemma_written_letter(i: int, high: bool)
    requires
        0 <= i < 7,
    ensures
        ({
            let c = if high { ascii_lower(step_letter(i)) } else { step_letter(i) };
            &&& letter_note(c) is Some
            &&& letter_note(c)->0.high == high
            &&& letter_note(c)->0.note.spec_chromatic_index() == Step::from_index(i).chromatic()
            &&& !is_digit(c)
            &&& c != '-'
            &&& sign_accidental(c) is None
        }),
{
    assert(ascii_lower('A') == 'a');
    assert(ascii_lower('B') == 'b');
    assert(ascii_lower('C') == 'c');
    assert(ascii_lower('D') == 'd');
    assert(ascii_lower('E') == 'e');
    assert(ascii_lower('F') == 'f');
    assert(ascii_lower('G') == 'g');
}

/// A note as the conversion writes it reads back, through the note reader
/// of the text format, as a one-beat note of the same pitch: its half steps
/// above A4 are the written note's semitones above C0, less 57.
pub proof fn lemma_compiled_note_reads_back(n: CompiledNote, legacy: bool)
    requires
        note_text(n, legacy) is Some,
    ensures
        note_at(note_text(n, legacy)->0, 0) matches Some((m, end)) && end == note_text(n, legacy)->0.len()
            && m.duration == 1 && m.spec_half_step() == n.pitch().semitones() - 57,
{
    let t = note_text(n, legacy)->0;
    let s = n.semitone as int;
    let idx = n.step.index();
    let (index, octave, accidental) = if legacy {
        if s == 0 {
            (idx, n.octave as int, None)
        } else if s == 1 {
            (idx, n.octave as int, Some('#'))
        } else {
            (
                if idx == 0 { 6 } else { idx - 1 },
                if n.step is C { n.octave - 1 } else { n.octave as int },
                if n.step is C || n.step is F { None } else { Some('#') },
            )
        }
    } else {
        (idx, n.octave as int, if s == 0 { None } else if s == -1 { Some('\u{266D}') } else { Some('\u{266F}') })
    };
    let high = octave >= 5;
    let letter = if high { ascii_lower(step_letter(index)) } else { step_letter(index) };
    let acc: Seq<char> = match accidental {
        Some(c) => seq![c],
        None => Seq::empty(),
    };
    let dig: Seq<char> = if octave == 4 || octave == 5 { Seq::empty() } else { decimal(octave as nat) };
    assert(t == seq![letter] + acc + dig);
    lemma_written_letter(index, high);
    let b = letter_note(letter)->0;
    assert(t[0] == letter);
    assert(base_note_at(t, 0) == Some((b, 1int)));
    let i2: int = 1 + acc.len() as int;
    if !(octave == 4 || octave == 5) {
        lemma_decimal_roundtrip(octave as nat);
        assert(dig =~= seq![crate::numtext::digit_char(octave as nat)]);
    }
    assert(t.len() == i2 + dig.len());
    // The accidental.
    let acc_read: Option<crate::types::Accidental> = match accidental {
        Some(c) => sign_accidental(c),
        None => None,
    };
    match accidental {
        Some(c) => {
            assert(t[1] == c);
            assert(accidental_at(t, 1) == Some((acc_read->0, 2int)));
        },
        None => {
            if 1 < t.len() {
                assert(t[1] == dig[0]);
                assert(is_digit(dig[0]));
            }
            assert(accidental_at(t, 1) is None);
        },
    }
    // The octave.
    let oct_read: Option<i8> = if dig.len() == 0 { None } else { Some(octave as i8) };
    if dig.len() == 0 {
        assert(signed_end(t, i2) == i2);
        assert(t.subrange(i2, i2) =~= Seq::<char>::empty());
        assert(octave_at(t, i2) is None);
    } else {
        assert(t[i2] == dig[0]);
        lemma_signed_run(t, i2, i2 + 1);
        assert(t.subrange(i2, i2 + 1) =~= dig);
        assert(dig[0] != '-' && dig[0] != '+');
        assert(parse_i8(dig) == Some(octave as i8));
        assert(octave_at(t, i2) == Some((octave as i8, i2 + 1)));
    }
    // No tildes follow.
    assert(junk_end(t, t.len() as int) == t.len());
    assert(tilde_run(t, t.len() as int) == (0nat, t.len() as int));
    let (m, end) = note_at(t, 0)->0;
    assert(m == Note { base: b, accidental: acc_read, octave: oct_read, duration: 1 });
    assert(m.spec_octave() == octave);
}

} // verus!
