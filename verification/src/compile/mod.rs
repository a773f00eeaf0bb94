//! Conversion of a MusicXML document tree into the text score format.

pub mod output;
pub mod text;
pub mod lines;
pub mod xml;
pub mod read;
pub mod document;

use vstd::prelude::*;

use crate::compile::document::{is_zip_archive_text, musicxml_document, read_musicxml, starts_as_zip_archive};
use crate::compile::lines::{
    bed, join_lines, lemma_join_lines_concat, lemma_lines_concat, lemma_lines_nonempty, lemma_lines_single,
    lemma_post_process_behind, lemma_post_process_tracks, lines, long_rest, merge_rest_lines, post_process,
    rests_apart,
};
use crate::compile::output::{item_events, EventModel, Measure, MeasureItemModel, MeasureModel, Part, PartModel, ScoreModel};
use crate::compile::read::{read_document, read_score};
use crate::compile::text::{
    all_rests, measure_text, measures_text, part_text, parts_text, push_score, repeat_char, score_text,
};
use crate::numtext::{decimal, lemma_decimal_roundtrip};
use crate::compile::xml::XmlScore;
use crate::numtext::string_from_chars;

verus! {

/// The part put in front for padding: one measure holding a one-division
/// rest.
pub open spec fn padding_part() -> PartModel {
    PartModel { transpose: None, instrument: None, measures: seq![MeasureModel::empty().push_event(1)] }
}

/// `parts` with `n` padding parts in front.
pub open spec fn pad_parts(parts: Seq<PartModel>, n: nat) -> Seq<PartModel> {
    Seq::new(n, |i: int| padding_part()) + parts
}

/// `parts` rotated right by `k` places: the last `k` (modulo the length)
/// come first. An empty list stays empty.
pub open spec fn rotate_parts<T>(parts: Seq<T>, k: nat) -> Seq<T> {
    if parts.len() == 0 {
        parts
    } else {
        let cut = parts.len() - k % parts.len();
        parts.skip(cut) + parts.take(cut)
    }
}

/// The text a document converts to: it is read, cleaned up, given
/// `padding` padding parts in front, rotated right by `rotation` places,
/// written out, and its runs of whole-measure rest lines are merged.
/// `None` where a step cannot proceed, or where there is no part to rotate.
pub open spec fn compile_text(doc: XmlScore, padding: u8, rotation: u8, legacy: bool) -> Option<Seq<char>> {
    match read_document(doc) {
        None => None,
        Some(read) => match read.cleanup() {
            None => None,
            Some(clean) => {
                let parts = pad_parts(clean.parts, padding as nat);
                if parts.len() == 0 && rotation > 0 {
                    None
                } else {
                    let arranged = ScoreModel { parts: rotate_parts(parts, rotation as nat), bpm: clean.bpm };
                    match score_text(arranged, legacy) {
                        None => None,
                        Some(t) => post_process(t),
                    }
                }
            },
        },
    }
}

/// The padding part (see [`padding_part`]).
pub fn empty_part() -> (p: Part)
    ensures
        p@ == padding_part(),
{
    let mut m = Measure::new();
    m.append_rest(1);
    let mut p = Part::new();
    p.measures.push(m);
    assert(p@.measures =~= seq![MeasureModel::empty().push_event(1)]);
    p
}

/// Put `n` padding parts in front of `parts`.
fn pad_front(parts: &mut Vec<Part>, n: u8)
    ensures
        final(parts)@.map_values(|p: Part| p@) == pad_parts(old(parts)@.map_values(|p: Part| p@), n as nat),
{
    let ghost orig = old(parts)@.map_values(|p: Part| p@);
    let mut i: u8 = 0;
    assert(pad_parts(orig, 0) =~= orig);
    while i < n
        invariant
            i <= n,
            orig == old(parts)@.map_values(|p: Part| p@),
            parts@.map_values(|p: Part| p@) == pad_parts(orig, i as nat),
        decreases n - i,
    {
        let ghost before = parts@.map_values(|p: Part| p@);
        let e = empty_part();
        parts.insert(0, e);
        let ghost after = parts@.map_values(|p: Part| p@);
        assert(after.len() == before.len() + 1);
        assert forall|j: int| 0 <= j < after.len() implies after[j] == pad_parts(orig, i as nat + 1)[j] by {
            if j > 0 {
                assert(after[j] == before[j - 1]);
            }
        }
        assert(after =~= pad_parts(orig, i as nat + 1));
        i = i + 1;
    }
}

/// Rotate `parts` right by `k` places (see [`rotate_parts`]).
fn rotate_right(parts: &mut Vec<Part>, k: u8)
    ensures
        final(parts)@ == rotate_parts(old(parts)@, k as nat),
{
    let len = parts.len();
    if len == 0 {
        return;
    }
    let cut = len - (k as usize) % len;
    let mut tail = parts.split_off(cut);
    tail.append(parts);
    *parts = tail;
}

/// Convert a document into the text score format (see [`compile_text`]);
/// `None` exactly where [`compile_text`] gives none.
pub fn try_compile(doc: &XmlScore, padding: u8, rotation: u8, legacy_semitones: bool) -> (r: Option<String>)
    ensures
        r matches Some(t) ==> compile_text(*doc, padding, rotation, legacy_semitones) == Some(t@),
        r is None <==> compile_text(*doc, padding, rotation, legacy_semitones) is None,
{
    let mut score = match read_score(doc) {
        None => return None,
        Some(s) => s,
    };
    if !score.try_cleanup() {
        return None;
    }
    let ghost clean = score@;
    pad_front(&mut score.parts, padding);
    if score.parts.len() == 0 && rotation > 0 {
        return None;
    }
    let ghost padded = score.parts@;
    rotate_right(&mut score.parts, rotation);
    assert(score@.parts =~= rotate_parts(pad_parts(clean.parts, padding as nat), rotation as nat)) by {
        assert(score.parts@ == rotate_parts(padded, rotation as nat));
        if padded.len() > 0 {
            let cut = padded.len() - (rotation as nat) % padded.len();
            assert(score.parts@.map_values(|p: Part| p@) =~= padded.map_values(|p: Part| p@).skip(cut)
                + padded.map_values(|p: Part| p@).take(cut));
        }
    }
    let mut text: Vec<char> = Vec::new();
    if !push_score(&mut text, &score, legacy_semitones) {
        return None;
    }
    assert(text@ =~= score_text(score@, legacy_semitones)->0);
    match merge_rest_lines(&text) {
        None => None,
        Some(t) => Some(string_from_chars(&t)),
    }
}

/// Convert a document into the text score format (see [`compile_text`]),
/// on a document for which every step can proceed.
pub fn compile(doc: &XmlScore, padding: u8, rotation: u8, legacy_semitones: bool) -> (r: String)
    requires
        compile_text(*doc, padding, rotation, legacy_semitones) is Some,
    ensures
        r@ == compile_text(*doc, padding, rotation, legacy_semitones)->0,
{
    match try_compile(doc, padding, rotation, legacy_semitones) {
        Some(t) => t,
        None => String::new(),
    }
}

/// Convert MusicXML text into the text score format: the text is read
/// into a document tree (see [`read_musicxml`]), which is then converted
/// (see [`compile_text`]). `None` where the text begins with the zip archive
/// marker (compressed `.mxl` data, which is not read here), where it is not
/// a part-wise score, or where the conversion cannot proceed.
pub fn compile_xml(xml: &str, padding: u8, rotation: u8, legacy_semitones: bool) -> (r: Option<String>)
    ensures
        starts_as_zip_archive(xml@) ==> r is None,
        !starts_as_zip_archive(xml@) ==> match musicxml_document(xml@) {
            None => r is None,
            Some(doc) => {
                &&& r is None <==> compile_text(doc, padding, rotation, legacy_semitones) is None
                &&& r matches Some(t) ==> compile_text(doc, padding, rotation, legacy_semitones)
                    == Some(t@)
            },
        },
{
    if is_zip_archive_text(xml) {
        return None;
    }
    match read_musicxml(xml) {
        None => None,
        Some(doc) => try_compile(&doc, padding, rotation, legacy_semitones),
    }
}

/// Two written tracks joined by a line holding `|`; none where either
/// cannot be written.
pub open spec fn join_tracks(a: Option<Seq<char>>, b: Option<Seq<char>>) -> Option<Seq<char>> {
    match (a, b) {
        (Some(x), Some(y)) => Some(x + seq!['\n', '|', '\n'] + y),
        _ => None,
    }
}

/// The text of `n` blank tracks, each followed by a line holding `|`.
pub open spec fn blank_tracks_text(n: nat) -> Seq<char>
    decreases n,
{
    if n == 0 {
        Seq::empty()
    } else {
        seq!['\u{1F6CF}', '1', '\n', '|', '\n'] + blank_tracks_text((n - 1) as nat)
    }
}

/// The written parts of two runs of parts, one after the other, are the
/// written parts of each, joined by a line holding `|`.
proof fn lemma_parts_text_concat(a: Seq<PartModel>, b: Seq<PartModel>, legacy: bool)
    requires
        a.len() > 0,
        b.len() > 0,
    ensures
        parts_text(a + b, legacy) == join_tracks(parts_text(a, legacy), parts_text(b, legacy)),
    decreases b.len(),
{
    reveal(parts_text);
    assert((a + b).drop_last() =~= a + b.drop_last());
    assert((a + b).last() == b.last());
    if b.len() == 1 {
        assert(b.drop_last() =~= Seq::<PartModel>::empty());
        assert(a + b.drop_last() =~= a);
        match (parts_text(a, legacy), part_text(b.last(), legacy)) {
            (Some(x), Some(y)) => {
                assert(parts_text(b, legacy) == Some(Seq::<char>::empty() + Seq::<char>::empty() + y));
                assert(Seq::<char>::empty() + Seq::<char>::empty() + y =~= y);
            },
            _ => {},
        }
    } else {
        lemma_parts_text_concat(a, b.drop_last(), legacy);
        match (parts_text(a, legacy), parts_text(b.drop_last(), legacy), part_text(b.last(), legacy)) {
            (Some(x), Some(y), Some(z)) => {
                let sep = seq!['\n', '|', '\n'];
                assert((x + sep + y) + sep + z =~= x + sep + (y + sep + z));
            },
            _ => {},
        }
    }
}

/// The padding part is written as a one-measure rest: `🛏1`.
proof fn lemma_padding_part_text(legacy: bool)
    ensures
        part_text(padding_part(), legacy) == Some(seq!['\u{1F6CF}', '1']),
{
    let m = MeasureModel::empty().push_event(1);
    let e = EventModel { duration: 1, notes: Seq::empty(), staccato: false };
    assert(m.items =~= seq![MeasureItemModel::Event(e)]);
    assert(m.items.drop_last() =~= Seq::<MeasureItemModel>::empty());
    assert(item_events(Seq::<MeasureItemModel>::empty()) == Seq::<EventModel>::empty());
    assert(item_events(m.items) == Seq::<EventModel>::empty().push(e));
    assert(Seq::<EventModel>::empty().push(e) =~= seq![e]);
    assert(seq![e].drop_last() =~= Seq::<EventModel>::empty());
    assert(crate::compile::output::event_sum(Seq::<EventModel>::empty()) == 0);
    assert(crate::compile::output::event_sum(seq![e]) == 1);
    assert(m.duration() == 1);
    assert(decimal(1) == seq!['1']);
    assert(repeat_char('~', 0) =~= Seq::<char>::empty());
    assert(m.events()[0].notes.len() == 0);
    assert(all_rests(m));
    let bed_one = seq!['\u{1F6CF}', '1'];
    assert(Seq::<char>::empty() + Seq::<char>::empty() + seq!['\u{1F6CF}'] + seq!['1'] =~= bed_one);
    assert(measure_text(m, legacy) == Some(bed_one));
    let ms = seq![m];
    assert(ms.drop_last() =~= Seq::<MeasureModel>::empty());
    assert(measures_text(Seq::<MeasureModel>::empty(), legacy) == Some(Seq::<char>::empty()));
    assert(Seq::<char>::empty() + Seq::<char>::empty() + bed_one =~= bed_one);
    assert(measures_text(ms, legacy) == Some(bed_one));
    assert(padding_part().measures == ms);
    assert(Seq::<char>::empty() + seq!['\u{1F6CF}'] + seq!['1'] =~= seq!['\u{1F6CF}', '1']);
    assert(Seq::<char>::empty() + Seq::<char>::empty() + seq!['\u{1F6CF}', '1'] =~= seq!['\u{1F6CF}', '1']);
}

proof fn lemma_parts_text_padded(ps: Seq<PartModel>, n: nat, legacy: bool)
    requires
        ps.len() > 0,
    ensures
        parts_text(pad_parts(ps, n), legacy) == (match parts_text(ps, legacy) {
            Some(t) => Some(blank_tracks_text(n) + t),
            None => None::<Seq<char>>,
        }),
    decreases n,
{
    if n == 0 {
        assert(pad_parts(ps, 0) =~= ps);
        match parts_text(ps, legacy) {
            Some(t) => { assert(blank_tracks_text(0) + t =~= t); },
            None => {},
        }
    } else {
        lemma_parts_text_padded(ps, (n - 1) as nat, legacy);
        let rest = pad_parts(ps, (n - 1) as nat);
        assert(pad_parts(ps, n) =~= seq![padding_part()] + rest);
        lemma_parts_text_concat(seq![padding_part()], rest, legacy);
        lemma_padding_part_text(legacy);
        reveal(parts_text);
        assert(seq![padding_part()].drop_last() =~= Seq::<PartModel>::empty());
        assert(parts_text(Seq::<PartModel>::empty(), legacy) == Some(Seq::<char>::empty()));
        assert(parts_text(seq![padding_part()], legacy) == Some(Seq::<char>::empty() + Seq::<char>::empty() + seq!['\u{1F6CF}', '1']));
        assert(Seq::<char>::empty() + Seq::<char>::empty() + seq!['\u{1F6CF}', '1'] =~= seq!['\u{1F6CF}', '1']);
        match parts_text(ps, legacy) {
            Some(t) => {
                assert(seq!['\u{1F6CF}', '1'] + seq!['\n', '|', '\n'] + (blank_tracks_text((n - 1) as nat) + t)
                    =~= blank_tracks_text(n) + t);
            },
            None => {},
        }
    }
}

/// Padding puts blank tracks in front of a score with parts: the written
/// score is its tempo line, then `🛏1` and a line holding `|` per padding
/// part, then its written parts.
pub proof fn lemma_padding_writes_blank_tracks(s: ScoreModel, n: nat, legacy: bool)
    requires
        s.parts.len() > 0,
    ensures
        score_text(ScoreModel { parts: pad_parts(s.parts, n), bpm: s.bpm }, legacy) == (match parts_text(
            s.parts,
            legacy,
        ) {
            Some(t) => Some(
                (match s.bpm {
                    Some(b) => decimal(b as nat).push('\n'),
                    None => Seq::empty(),
                }) + blank_tracks_text(n) + t,
            ),
            None => None::<Seq<char>>,
        }),
{
    lemma_parts_text_padded(s.parts, n, legacy);
    let head: Seq<char> = match s.bpm {
        Some(b) => decimal(b as nat).push('\n'),
        None => Seq::empty(),
    };
    match parts_text(s.parts, legacy) {
        Some(t) => { assert(head + (blank_tracks_text(n) + t) =~= head + blank_tracks_text(n) + t); },
        None => {},
    }
}

/// Rotating by one place more moves the last part of the rotation to the
/// front; rotating by the number of parts changes nothing.
pub proof fn lemma_rotate_one_more<T>(parts: Seq<T>, k: nat)
    requires
        parts.len() > 0,
    ensures
        rotate_parts(parts, k + 1) == seq![rotate_parts(parts, k).last()] + rotate_parts(parts, k).drop_last(),
        rotate_parts(parts, parts.len()) == parts,
{
    let len = parts.len() as int;
    let r = rotate_parts(parts, k);
    let r1 = rotate_parts(parts, k + 1);
    let c = len - (k % (len as nat)) as int;
    let c1 = len - ((k + 1) % (len as nat)) as int;
    assert(((k + 1) % (len as nat)) == (if k % (len as nat) + 1 == len { 0 } else { k % (len as nat) + 1 })) by (nonlinear_arith)
        requires
            len > 0,
    ;
    assert(1 <= c <= len);
    assert(c1 == if c == 1 { len } else { c - 1 });
    assert forall|i: int| 0 <= i < len implies r[i] == parts[if i + c < len { i + c } else { i + c - len }] by {
        if i < len - c {
            assert(r[i] == parts.skip(c)[i]);
        } else {
            assert(r[i] == parts.take(c)[i - (len - c)]);
        }
    }
    assert forall|i: int| 0 <= i < len implies r1[i] == parts[if i + c1 < len { i + c1 } else { i + c1 - len }] by {
        if i < len - c1 {
            assert(r1[i] == parts.skip(c1)[i]);
        } else {
            assert(r1[i] == parts.take(c1)[i - (len - c1)]);
        }
    }
    let rhs = seq![r.last()] + r.drop_last();
    assert forall|i: int| 0 <= i < len implies r1[i] == rhs[i] by {
        if i == 0 {
            assert(rhs[0] == r[len - 1]);
        } else {
            assert(rhs[i] == r[i - 1]);
        }
    }
    assert(r1 =~= rhs);
    assert((len as nat) % (len as nat) == 0) by (nonlinear_arith)
        requires
            len > 0,
    ;
    assert(parts.skip(len) + parts.take(len) =~= parts);
}

/// Rotating by one place more moves the last written track to the front:
/// the written parts are the last part's text, a line holding `|`, and the
/// written parts before it.
pub proof fn lemma_rotation_moves_last_track(parts: Seq<PartModel>, k: nat, legacy: bool)
    requires
        parts.len() >= 2,
    ensures
        parts_text(rotate_parts(parts, k + 1), legacy) == join_tracks(
            part_text(rotate_parts(parts, k).last(), legacy),
            parts_text(rotate_parts(parts, k).drop_last(), legacy),
        ),
{
    lemma_rotate_one_more(parts, k);
    let r = rotate_parts(parts, k);
    assert(r.len() == parts.len());
    lemma_parts_text_concat(seq![r.last()], r.drop_last(), legacy);
    reveal(parts_text);
    assert(seq![r.last()].drop_last() =~= Seq::<PartModel>::empty());
    assert(parts_text(Seq::<PartModel>::empty(), legacy) == Some(Seq::<char>::empty()));
    match part_text(r.last(), legacy) {
        Some(x) => {
            assert(Seq::<char>::empty() + Seq::<char>::empty() + x =~= x);
        },
        None => {},
    }
}

/// Rotations that differ by a multiple of the number of parts give the same
/// converted text.
pub proof fn lemma_rotation_wraps(doc: XmlScore, padding: u8, r1: u8, r2: u8, legacy: bool)
    requires
        read_document(doc) matches Some(rd) && rd.cleanup() matches Some(c) && pad_parts(c.parts, padding as nat).len()
            > 0 && (r1 as nat) % pad_parts(c.parts, padding as nat).len() == (r2 as nat) % pad_parts(c.parts, padding as nat).len(),
    ensures
        compile_text(doc, padding, r1, legacy) == compile_text(doc, padding, r2, legacy),
{
}

/// The document read and cleaned up, as [`compile_text`] has it before
/// padding and rotation.
pub open spec fn cleaned_score(doc: XmlScore) -> Option<ScoreModel> {
    match read_document(doc) {
        Some(read) => read.cleanup(),
        None => None,
    }
}

/// The tempo line that a written score starts with, where it has a tempo.
pub open spec fn tempo_line(bpm: Option<u32>) -> Seq<char> {
    match bpm {
        Some(b) => decimal(b as nat).push('\n'),
        None => Seq::empty(),
    }
}

/// The lines of `n` blank tracks: `🛏1` and `|` in turn.
pub open spec fn blank_track_lines(n: nat) -> Seq<Seq<char>> {
    Seq::new(2 * n, |j: int| if j % 2 == 0 { seq![bed(), '1'] } else { seq!['|'] })
}

proof fn lemma_bar_line_is_no_rest()
    ensures
        long_rest(seq!['|']) is None,
{
    reveal(long_rest);
}

/// Blank tracks split into their lines, and join back into the same text.
proof fn lemma_blank_track_lines(n: nat)
    ensures
        lines(blank_tracks_text(n)) == blank_track_lines(n),
        n > 0 ==> join_lines(blank_track_lines(n)).push('\n') == blank_tracks_text(n),
    decreases n,
{
    let bed_one = seq![bed(), '1'];
    let bar = seq!['|'];
    if n == 0 {
        assert(blank_track_lines(0) =~= Seq::<Seq<char>>::empty());
        assert(lines(Seq::<char>::empty()) == Seq::<Seq<char>>::empty());
    } else {
        lemma_blank_track_lines((n - 1) as nat);
        let p = seq![bed(), '1', '\n', '|', '\n'];
        let rest = blank_tracks_text((n - 1) as nat);
        assert(blank_tracks_text(n) == p + rest);
        lemma_lines_concat(p, rest);
        assert(p =~= bed_one.push('\n') + bar.push('\n'));
        lemma_lines_concat(bed_one.push('\n'), bar.push('\n'));
        lemma_lines_single(bed_one);
        lemma_lines_single(bar);
        let pair = seq![bed_one, bar];
        assert(seq![bed_one] + seq![bar] =~= pair);
        let tail = blank_track_lines((n - 1) as nat);
        assert forall|j: int| 0 <= j < 2 * n implies (pair + tail)[j] == blank_track_lines(n)[j] by {
            if j >= 2 {
                assert((j - 2) % 2 == j % 2);
            }
        }
        assert(pair + tail =~= blank_track_lines(n));
        assert(join_lines(pair) == bed_one.push('\n') + bar) by {
            assert(pair.drop_last() =~= seq![bed_one]);
            assert(join_lines(seq![bed_one]) == bed_one);
            assert(pair.last() == bar);
        }
        if n == 1 {
            assert(tail =~= Seq::<Seq<char>>::empty());
            assert(pair + tail =~= pair);
            assert((bed_one.push('\n') + bar).push('\n') =~= p);
            assert(p + rest =~= p);
        } else {
            lemma_join_lines_concat(pair, tail);
            assert((join_lines(pair).push('\n') + join_lines(tail)).push('\n') =~= p + (join_lines(tail).push(
                '\n',
            )));
        }
    }
}

/// The tempo line and blank tracks in front of a written score: their lines
/// hold no neighbouring rests, the last of them is no rest, and they join
/// back into the same text.
proof fn lemma_tempo_and_blank_lines(bpm: Option<u32>, n: nat)
    requires
        (tempo_line(bpm) + blank_tracks_text(n)).len() > 0,
    ensures
        ({
            let x = tempo_line(bpm) + blank_tracks_text(n);
            &&& x.last() == '\n'
            &&& lines(x).len() > 0
            &&& rests_apart(lines(x), 0)
            &&& long_rest(lines(x).last()) is None
            &&& join_lines(lines(x)).push('\n') == x
        }),
{
    let x = tempo_line(bpm) + blank_tracks_text(n);
    let bl = blank_track_lines(n);
    lemma_blank_track_lines(n);
    lemma_bar_line_is_no_rest();
    assert forall|j: int| 0 <= j && j + 1 < bl.len() implies !(long_rest(#[trigger] bl[j]) is Some && long_rest(
        bl[j + 1],
    ) is Some) by {
        if j % 2 == 0 {
            assert((j + 1) % 2 == 1);
            assert(bl[j + 1] == seq!['|']);
        } else {
            assert(bl[j] == seq!['|']);
        }
    }
    if n > 0 {
        assert((2 * n - 1) % 2 == 1) by (nonlinear_arith)
            requires
                n > 0,
        ;
        assert(bl.last() == seq!['|']);
        assert(blank_tracks_text(n).last() == '\n');
    }
    match bpm {
        None => {
            assert(x =~= blank_tracks_text(n));
        },
        Some(b) => {
            let d = decimal(b as nat);
            lemma_decimal_roundtrip(b as nat);
            assert forall|k: int| 0 <= k < d.len() implies #[trigger] d[k] != '\n' && d[k] != '\r' by {
                assert(crate::numtext::is_digit(d[k]));
            }
            lemma_lines_single(d);
            assert(long_rest(d) is None) by {
                reveal(long_rest);
                assert(crate::numtext::is_digit(d[0]));
            }
            let dl = seq![d];
            if n == 0 {
                assert(x =~= d.push('\n'));
            } else {
                lemma_lines_concat(d.push('\n'), blank_tracks_text(n));
                assert(lines(x) == dl + bl);
                lemma_join_lines_concat(dl, bl);
                assert(join_lines(dl) == d);
                assert((join_lines(dl).push('\n') + join_lines(bl)).push('\n') =~= d.push('\n') + (join_lines(
                    bl,
                ).push('\n')));
                let ls = dl + bl;
                assert forall|j: int| 0 <= j && j + 1 < ls.len() implies !(long_rest(#[trigger] ls[j]) is Some
                    && long_rest(ls[j + 1]) is Some) by {
                    if j > 0 {
                        assert(ls[j] == bl[j - 1]);
                        assert(ls[j + 1] == bl[j]);
                    }
                }
                assert(ls.last() == bl.last());
            }
        },
    }
}

/// Rotating by no place leaves the parts as they are.
proof fn lemma_rotate_none<T>(parts: Seq<T>)
    ensures
        rotate_parts(parts, 0) == parts,
{
    if parts.len() > 0 {
        assert(parts.skip(parts.len() as int) + parts.take(parts.len() as int) =~= parts);
    }
}

/// Padding puts blank tracks in front of the converted text: after the
/// tempo line come `🛏1` and a line holding `|` per padding part, then the
/// text converted without padding, as it goes on after its tempo line. A
/// score whose parts write no text at all is left out: converted without
/// padding, it loses the line break after its tempo line.
pub proof fn lemma_padding_adds_blank_tracks(doc: XmlScore, padding: u8, legacy: bool)
    requires
        cleaned_score(doc) matches Some(c) && c.parts.len() > 0 && parts_text(c.parts, legacy) != Some(
            Seq::<char>::empty(),
        ),
    ensures
        compile_text(doc, 0, 0, legacy) matches Some(s0) ==> s0.take(
            tempo_line(cleaned_score(doc)->0.bpm).len() as int,
        ) == tempo_line(cleaned_score(doc)->0.bpm),
        compile_text(doc, padding, 0, legacy) == match compile_text(doc, 0, 0, legacy) {
            Some(s0) => Some(
                tempo_line(cleaned_score(doc)->0.bpm) + blank_tracks_text(padding as nat) + s0.skip(
                    tempo_line(cleaned_score(doc)->0.bpm).len() as int,
                ),
            ),
            None => None,
        },
{
    let c = cleaned_score(doc)->0;
    let head = tempo_line(c.bpm);
    let n = padding as nat;
    let blanks = blank_tracks_text(n);
    lemma_rotate_none(pad_parts(c.parts, n));
    assert(pad_parts(c.parts, 0) =~= c.parts);
    lemma_rotate_none(c.parts);
    lemma_padding_writes_blank_tracks(c, n, legacy);
    lemma_padding_writes_blank_tracks(c, 0, legacy);
    assert(blank_tracks_text(0) =~= Seq::<char>::empty());
    match parts_text(c.parts, legacy) {
        None => {},
        Some(t) => {
            if t.len() == 0 {
                assert(t =~= Seq::<char>::empty());
            }
            lemma_lines_nonempty(t);
            assert(head + blank_tracks_text(0) + t =~= head + t);
            if head.len() > 0 {
                lemma_tempo_and_blank_lines(c.bpm, 0);
                assert(head + blank_tracks_text(0) =~= head);
                lemma_post_process_behind(head, t);
                assert(head.take(head.len() as int) =~= head);
            }
            if (head + blanks).len() > 0 {
                lemma_tempo_and_blank_lines(c.bpm, n);
                lemma_post_process_behind(head + blanks, t);
            } else {
                assert(head + blanks + t =~= t);
            }
            match post_process(t) {
                None => {},
                Some(pt) => {
                    if head.len() > 0 {
                        assert((head + pt).skip(head.len() as int) =~= pt);
                        assert((head + pt).take(head.len() as int) =~= head);
                    } else {
                        assert(pt.skip(0) =~= pt);
                        assert(pt.take(0) =~= head);
                        assert(head + blanks =~= blanks);
                    }
                    if (head + blanks).len() == 0 {
                        assert(head + blanks + pt =~= pt);
                    }
                },
            }
        },
    }
}

/// A written text with the tempo line in front, where there is one.
pub open spec fn after_tempo(bpm: Option<u32>, t: Option<Seq<char>>) -> Option<Seq<char>> {
    match t {
        Some(x) => Some(tempo_line(bpm) + x),
        None => None,
    }
}

/// A written text with its runs of whole-measure rest lines merged, where
/// there is one.
pub open spec fn tidied(t: Option<Seq<char>>) -> Option<Seq<char>> {
    match t {
        Some(x) => post_process(x),
        None => None,
    }
}

/// Each part that can be written writes to some text that ends in neither
/// a line break nor a carriage return.
pub open spec fn parts_end_cleanly(parts: Seq<PartModel>, legacy: bool) -> bool {
    forall|i: int|
        0 <= i < parts.len() ==> (part_text(#[trigger] parts[i], legacy) matches Some(t) ==> t.len() > 0 && t.last()
            != '\n' && t.last() != '\r')
}

/// The written parts end as their last part does.
proof fn lemma_parts_text_ends_cleanly(ps: Seq<PartModel>, legacy: bool)
    requires
        ps.len() > 0,
        parts_end_cleanly(ps, legacy),
    ensures
        parts_text(ps, legacy) matches Some(t) ==> t.len() > 0 && t.last() != '\n' && t.last() != '\r',
{
    reveal(parts_text);
    assert(ps.last() == ps[ps.len() - 1]);
}

/// Padding parts and rotation keep every part ending cleanly.
proof fn lemma_arranged_parts_end_cleanly(parts: Seq<PartModel>, n: nat, k: nat, legacy: bool)
    requires
        parts_end_cleanly(parts, legacy),
    ensures
        parts_end_cleanly(pad_parts(parts, n), legacy),
        parts_end_cleanly(rotate_parts(pad_parts(parts, n), k), legacy),
{
    let p = pad_parts(parts, n);
    lemma_padding_part_text(legacy);
    assert forall|i: int| 0 <= i < p.len() implies (part_text(#[trigger] p[i], legacy) matches Some(t) ==> t.len() > 0
        && t.last() != '\n' && t.last() != '\r') by {
        if i < n {
            assert(p[i] == padding_part());
        } else {
            assert(p[i] == parts[i - n]);
        }
    }
    if p.len() > 0 {
        let len = p.len() as int;
        let cut = len - (k % (len as nat)) as int;
        let r = rotate_parts(p, k);
        assert forall|i: int| 0 <= i < r.len() implies (part_text(#[trigger] r[i], legacy) matches Some(t) ==> t.len()
            > 0 && t.last() != '\n' && t.last() != '\r') by {
            if i < len - cut {
                assert(r[i] == p.skip(cut)[i]);
                assert(r[i] == p[i + cut]);
            } else {
                assert(r[i] == p.take(cut)[i - (len - cut)]);
                assert(r[i] == p[i - (len - cut)]);
            }
        }
    }
}

/// The tempo line in front of written parts is kept apart when rest lines
/// are merged.
proof fn lemma_post_process_after_tempo(bpm: Option<u32>, t: Seq<char>)
    requires
        t.len() > 0,
    ensures
        post_process(tempo_line(bpm) + t) == after_tempo(bpm, post_process(t)),
{
    let head = tempo_line(bpm);
    lemma_lines_nonempty(t);
    if head.len() > 0 {
        lemma_tempo_and_blank_lines(bpm, 0);
        assert(head + blank_tracks_text(0) =~= head);
        lemma_post_process_behind(head, t);
    } else {
        assert(head + t =~= t);
        match post_process(t) {
            Some(pt) => {
                assert(head + pt =~= pt);
            },
            None => {},
        }
    }
}

/// Two written texts joined by a line holding `|`, behind the tempo line,
/// tidied: each is tidied on its own.
proof fn lemma_tidied_tracks(bpm: Option<u32>, a: Option<Seq<char>>, b: Option<Seq<char>>)
    requires
        a matches Some(x) ==> x.len() > 0 && x.last() != '\n' && x.last() != '\r',
        b matches Some(y) ==> y.len() > 0,
    ensures
        tidied(after_tempo(bpm, join_tracks(a, b))) == after_tempo(bpm, join_tracks(tidied(a), tidied(b))),
{
    match (a, b) {
        (Some(x), Some(y)) => {
            let t = x + seq!['\n', '|', '\n'] + y;
            lemma_post_process_after_tempo(bpm, t);
            lemma_post_process_tracks(x, y);
        },
        _ => {},
    }
}

/// Rotating by one place more moves the last track of the converted text
/// to the front, just after the tempo line: where the text rotated by
/// `rotation` is the tempo line, the tidied text of all parts but the last,
/// a line holding `|` and the tidied text of the last part, the text
/// rotated once more is the tempo line, the last part's tidied text, a line
/// holding `|` and the others'. Runs of whole-measure rests are never
/// merged across tracks. Left out: scores with a part whose text ends in a
/// line break or a carriage return, or is empty.
pub proof fn lemma_rotation_moves_last_track_text(doc: XmlScore, padding: u8, rotation: u8, legacy: bool)
    requires
        rotation < 255,
        cleaned_score(doc) matches Some(c) && pad_parts(c.parts, padding as nat).len() >= 2 && parts_end_cleanly(
            c.parts,
            legacy,
        ),
    ensures
        ({
            let c = cleaned_score(doc)->0;
            let r = rotate_parts(pad_parts(c.parts, padding as nat), rotation as nat);
            &&& compile_text(doc, padding, rotation, legacy) == after_tempo(
                c.bpm,
                join_tracks(tidied(parts_text(r.drop_last(), legacy)), tidied(part_text(r.last(), legacy))),
            )
            &&& compile_text(doc, padding, (rotation + 1) as u8, legacy) == after_tempo(
                c.bpm,
                join_tracks(tidied(part_text(r.last(), legacy)), tidied(parts_text(r.drop_last(), legacy))),
            )
        }),
{
    let c = cleaned_score(doc)->0;
    let n = padding as nat;
    let p = pad_parts(c.parts, n);
    let r = rotate_parts(p, rotation as nat);
    lemma_arranged_parts_end_cleanly(c.parts, n, rotation as nat, legacy);
    lemma_rotate_one_more(p, rotation as nat);
    lemma_rotation_moves_last_track(p, rotation as nat, legacy);
    assert(r.len() == p.len());
    assert(((rotation + 1) as u8) as nat == rotation as nat + 1);
    let front = r.drop_last();
    assert(parts_end_cleanly(front, legacy)) by {
        assert forall|i: int| 0 <= i < front.len() implies (part_text(#[trigger] front[i], legacy) matches Some(t)
            ==> t.len() > 0 && t.last() != '\n' && t.last() != '\r') by {
            assert(front[i] == r[i]);
        }
    }
    lemma_parts_text_ends_cleanly(front, legacy);
    assert(r.last() == r[r.len() - 1]);
    assert(parts_text(r, legacy) == join_tracks(parts_text(front, legacy), part_text(r.last(), legacy))) by {
        reveal(parts_text);
    }
    lemma_tidied_tracks(c.bpm, parts_text(front, legacy), part_text(r.last(), legacy));
    lemma_tidied_tracks(c.bpm, part_text(r.last(), legacy), parts_text(front, legacy));
}

} // verus!
