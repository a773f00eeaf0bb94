//! Planning the playback of a parsed score: which parts are played with
//! which instrument, and when each event of a part starts, how long it
//! lasts and at what loudness.

use vstd::prelude::*;

use crate::duration::{max_nanos, Duration};
use crate::types::{
    items_duration, items_try_duration, tempos_positive, Dynamic, Instrument, Part, PartItem, PartItemModel,
    PartModel, Quaver, Score, ScoreModel,
};

verus! {

/// The instrument part `i` is played with: its own, or a beep for the
/// first part and a keyboard for the others.
pub open spec fn track_instrument(p: PartModel, i: int) -> Instrument {
    match p.instrument {
        Some(x) => x,
        None => if i == 0 { Instrument::Beep } else { Instrument::Keyboard },
    }
}

/// How many parts are played: all of them, or at most `max_tracks`.
pub open spec fn track_count(s: ScoreModel, max_tracks: Option<usize>) -> int {
    match max_tracks {
        Some(m) => if s.parts.len() <= m { s.parts.len() as int } else { m as int },
        None => s.parts.len() as int,
    }
}

/// The instruments of the parts that are played, in order (see
/// [`track_instrument`] and [`track_count`]).
pub fn track_instruments(score: &Score, max_tracks: Option<usize>) -> (r: Vec<Instrument>)
    ensures
        r@.len() == track_count(score@, max_tracks),
        forall|k: int| 0 <= k < r@.len() ==> r@[k] == track_instrument(#[trigger] score@.parts[k], k),
{
    let limit = match max_tracks {
        Some(m) => m,
        None => usize::MAX,
    };
    let mut r: Vec<Instrument> = Vec::new();
    let mut i: usize = 0;
    while i < score.parts.len() && i < limit
        invariant
            i <= score.parts@.len(),
            i <= limit,
            limit == (match max_tracks {
                Some(m) => m,
                None => usize::MAX,
            }),
            r@.len() == i,
            forall|k: int| 0 <= k < i ==> r@[k] == track_instrument(#[trigger] score@.parts[k], k),
        decreases score.parts@.len() - i,
    {
        assert(score@.parts[i as int] == score.parts@[i as int]@);
        let inst = match score.parts[i].instrument {
            Some(x) => x,
            None => if i == 0 { Instrument::Beep } else { Instrument::Keyboard },
        };
        r.push(inst);
        i = i + 1;
    }
    r
}

/// When an event of a part is played: its position among the part's items,
/// its start and length, and the loudness marking in force.
#[derive(Debug, Clone, Copy, PartialEq, Eq, Structural)]
pub struct Cue {
    pub item: usize,
    pub start: Duration,
    pub length: Duration,
    pub loudness: Option<Dynamic>,
}

/// The mathematical value of a [`Cue`], times in nanoseconds.
pub struct CueModel {
    pub item: int,
    pub start: nat,
    pub length: nat,
    pub loudness: Option<Dynamic>,
}

impl View for Cue {
    type V = CueModel;

    open spec fn view(&self) -> CueModel {
        CueModel { item: self.item as int, start: self.start@, length: self.length@, loudness: self.loudness }
    }
}

/// The cues of the events among `items` from position `k` on, the first
/// starting at `start` with quarter notes of `beat` nanoseconds and
/// `loudness` in force: each event starts where the one before ended and
/// lasts its beats; a dynamic sets the loudness and a tempo the beat for
/// what follows.
pub open spec fn cues_from(
    items: Seq<PartItemModel>,
    k: int,
    start: nat,
    beat: nat,
    loudness: Option<Dynamic>,
) -> Seq<CueModel>
    decreases items.len() - k,
{
    if k < 0 || k >= items.len() {
        Seq::empty()
    } else {
        match items[k] {
            PartItemModel::Event(e) => {
                let length = beat * e.beat_count();
                seq![CueModel { item: k, start, length, loudness }] + cues_from(
                    items,
                    k + 1,
                    start + length,
                    beat,
                    loudness,
                )
            },
            PartItemModel::Dynamic(d) => cues_from(items, k + 1, start, beat, Some(d)),
            PartItemModel::Tempo(t) => cues_from(items, k + 1, start, t.spec_duration_of(Quaver::Quarter), loudness),
        }
    }
}

/// The cues of a part played with quarter notes of `beat` nanoseconds,
/// from time zero at no loudness marking.
pub open spec fn part_cues(p: PartModel, beat: nat) -> Seq<CueModel> {
    cues_from(p.items, 0, 0, beat, None)
}

/// The cues of a part can be computed: no tempo item has a zero beat, and
/// the part's events end within a representable duration.
pub open spec fn cues_defined(p: PartModel, beat: nat) -> bool {
    &&& tempos_positive(p.items)
    &&& items_duration(None, p.items, beat) <= max_nanos()
}

proof fn lemma_skip_step(items: Seq<PartItemModel>, i: int)
    requires
        0 <= i < items.len(),
    ensures
        items.skip(i).drop_first() =~= items.skip(i + 1),
        items.skip(i)[0] == items[i],
        items.skip(i).len() == items.len() - i,
{
}

impl Part {
    /// When each event of the part is played (see [`part_cues`]).
    pub fn cues(&self, beat: Duration) -> (r: Vec<Cue>)
        requires
            cues_defined(self@, beat@),
        ensures
            r@.map_values(|c: Cue| c@) == part_cues(self@, beat@),
    {
        let ghost items = self@.items;
        let ghost total = items_duration(None, items, beat@);
        let ghost all = part_cues(self@, beat@);
        let mut beat = beat;
        let mut start = Duration::zero();
        let mut loudness: Option<Dynamic> = None;
        let mut r: Vec<Cue> = Vec::new();
        let n = self.items.len();
        let mut i: usize = 0;
        assert(items.skip(0) =~= items);
        assert(r@.map_values(|c: Cue| c@) + cues_from(items, 0, start@, beat@, loudness) =~= all);
        while i < n
            invariant
                n == self.items@.len(),
                items == self@.items,
                i <= n,
                tempos_positive(items),
                total <= max_nanos(),
                start@ + items_duration(None, items.skip(i as int), beat@) == total,
                r@.map_values(|c: Cue| c@) + cues_from(items, i as int, start@, beat@, loudness) == all,
            decreases n - i,
        {
            proof { lemma_skip_step(items, i as int); }
            let ghost before = r@.map_values(|c: Cue| c@);
            match &self.items[i] {
                PartItem::Event(event) => {
                    let length = beat.mul(event.beat_count());
                    let cue = Cue { item: i, start, length, loudness };
                    r.push(cue);
                    assert(r@.map_values(|c: Cue| c@) =~= before.push(cue@));
                    start = start.add(length);
                    assert(before + (seq![cue@] + cues_from(items, i as int + 1, start@, beat@, loudness))
                        =~= before.push(cue@) + cues_from(items, i as int + 1, start@, beat@, loudness));
                },
                PartItem::Tempo(tempo) => {
                    assert(items[i as int] matches PartItemModel::Tempo(t) && t.beat > 0);
                    beat = tempo.duration_of(Quaver::Quarter);
                },
                PartItem::Dynamic(d) => {
                    loudness = Some(*d);
                },
            }
            i = i + 1;
        }
        assert(cues_from(items, i as int, start@, beat@, loudness) =~= Seq::<CueModel>::empty());
        assert(r@.map_values(|c: Cue| c@) =~= all);
        r
    }

    /// When each event of the part is played (see [`part_cues`]); none where
    /// the cues cannot be computed.
    pub fn try_cues(&self, beat: Duration) -> (r: Option<Vec<Cue>>)
        ensures
            r is Some <==> cues_defined(self@, beat@),
            r matches Some(v) ==> v@.map_values(|c: Cue| c@) == part_cues(self@, beat@),
    {
        if items_try_duration(None, &self.items, beat).is_none() {
            return None;
        }
        Some(self.cues(beat))
    }
}


proof fn lemma_cues_from_contiguous(
    items: Seq<PartItemModel>,
    k: int,
    start: nat,
    beat: nat,
    loudness: Option<Dynamic>,
)
    ensures
        cues_from(items, k, start, beat, loudness).len() > 0 ==> cues_from(items, k, start, beat, loudness)[0].start
            == start,
        forall|j: int|
            0 <= j < cues_from(items, k, start, beat, loudness).len() - 1 ==> (#[trigger] cues_from(
                items,
                k,
                start,
                beat,
                loudness,
            )[j]).start + cues_from(items, k, start, beat, loudness)[j].length == cues_from(
                items,
                k,
                start,
                beat,
                loudness,
            )[j + 1].start,
    decreases items.len() - k,
{
    if k < 0 || k >= items.len() {
    } else {
        match items[k] {
            PartItemModel::Event(e) => {
                let length = beat * e.beat_count();
                lemma_cues_from_contiguous(items, k + 1, start + length, beat, loudness);
                let rest = cues_from(items, k + 1, start + length, beat, loudness);
                let all = cues_from(items, k, start, beat, loudness);
                assert forall|j: int| 0 <= j < all.len() - 1 implies (#[trigger] all[j]).start + all[j].length
                    == all[j + 1].start by {
                    if j > 0 {
                        assert(all[j] == rest[j - 1]);
                        assert(all[j + 1] == rest[j]);
                    }
                }
            },
            PartItemModel::Dynamic(d) => {
                lemma_cues_from_contiguous(items, k + 1, start, beat, Some(d));
            },
            PartItemModel::Tempo(t) => {
                lemma_cues_from_contiguous(items, k + 1, start, t.spec_duration_of(Quaver::Quarter), loudness);
            },
        }
    }
}

/// The events of a part are played back to back: the first starts at time
/// zero and each starts when the one before it ends.
pub proof fn lemma_cues_back_to_back(p: PartModel, beat: nat)
    ensures
        part_cues(p, beat).len() > 0 ==> part_cues(p, beat)[0].start == 0,
        forall|j: int|
            0 <= j < part_cues(p, beat).len() - 1 ==> (#[trigger] part_cues(p, beat)[j]).start + part_cues(
                p,
                beat,
            )[j].length == part_cues(p, beat)[j + 1].start,
{
    lemma_cues_from_contiguous(p.items, 0, 0, beat, None);
}

/// One played part: its position in the score, its instrument and its
/// cues.
pub struct Track {
    pub part: usize,
    pub instrument: Instrument,
    pub cues: Vec<Cue>,
}

/// How a score is played: its tracks, and how long it lasts.
pub struct MixPlan {
    pub tracks: Vec<Track>,
    pub duration: Duration,
}

/// A score can be planned: it has a duration, and every played part has
/// cues at the score's starting beat.
pub open spec fn plan_defined(s: ScoreModel, max_tracks: Option<usize>) -> bool {
    &&& s.duration_defined()
    &&& forall|k: int| 0 <= k < track_count(s, max_tracks) ==> cues_defined(#[trigger] s.parts[k], s.beat())
}

/// Plan the playback of a score: the first parts, at most `max_tracks` of
/// them, each with its instrument (see [`track_instrument`]) and its cues at
/// the quarter note of the starting tempo (see [`part_cues`]), and the
/// duration of the whole score (see [`ScoreModel::duration`]). None where
/// the plan cannot be computed.
pub fn mix_plan(score: &Score, max_tracks: Option<usize>) -> (r: Option<MixPlan>)
    ensures
        r is Some <==> plan_defined(score@, max_tracks),
        r matches Some(plan) ==> {
            &&& plan.tracks@.len() == track_count(score@, max_tracks)
            &&& plan.duration@ == score@.duration()
            &&& forall|k: int|
                0 <= k < plan.tracks@.len() ==> {
                    &&& (#[trigger] plan.tracks@[k]).part == k
                    &&& plan.tracks@[k].instrument == track_instrument(score@.parts[k], k)
                    &&& plan.tracks@[k].cues@.map_values(|c: Cue| c@) == part_cues(score@.parts[k], score@.beat())
                }
        },
{
    let duration = match score.try_duration() {
        Some(d) => d,
        None => return None,
    };
    let tempo = score.initial_tempo();
    let beat = tempo.duration_of(Quaver::Quarter);
    let instruments = track_instruments(score, max_tracks);
    let mut tracks: Vec<Track> = Vec::new();
    let mut i: usize = 0;
    while i < instruments.len()
        invariant
            i <= instruments@.len(),
            instruments@.len() == track_count(score@, max_tracks),
            instruments@.len() <= score.parts@.len(),
            forall|k: int| 0 <= k < instruments@.len() ==> instruments@[k] == track_instrument(#[trigger] score@.parts[k], k),
            beat@ == score@.beat(),
            tracks@.len() == i,
            forall|k: int| 0 <= k < i ==> cues_defined(#[trigger] score@.parts[k], score@.beat()),
            forall|k: int|
                0 <= k < i ==> {
                    &&& (#[trigger] tracks@[k]).part == k
                    &&& tracks@[k].instrument == track_instrument(score@.parts[k], k)
                    &&& tracks@[k].cues@.map_values(|c: Cue| c@) == part_cues(score@.parts[k], score@.beat())
                },
        decreases instruments@.len() - i,
    {
        assert(score@.parts[i as int] == score.parts@[i as int]@);
        let cues = match score.parts[i].try_cues(beat) {
            Some(c) => c,
            None => return None,
        };
        tracks.push(Track { part: i, instrument: instruments[i], cues });
        i = i + 1;
    }
    Some(MixPlan { tracks, duration })
}

/// The loudness marking in force at position `k` of `items`: the last
/// dynamic item before it, if there is one.
pub open spec fn marking_before(items: Seq<PartItemModel>, k: int) -> Option<Dynamic>
    decreases k,
{
    if k <= 0 {
        None
    } else {
        match items[k - 1] {
            PartItemModel::Dynamic(d) => Some(d),
            _ => marking_before(items, k - 1),
        }
    }
}

proof fn lemma_cues_from_loudness(
    items: Seq<PartItemModel>,
    k: int,
    start: nat,
    beat: nat,
    loudness: Option<Dynamic>,
)
    requires
        0 <= k,
        loudness == marking_before(items, k),
    ensures
        forall|j: int|
            0 <= j < cues_from(items, k, start, beat, loudness).len() ==> {
                let c = #[trigger] cues_from(items, k, start, beat, loudness)[j];
                &&& k <= c.item < items.len()
                &&& items[c.item] is Event
                &&& c.loudness == marking_before(items, c.item)
            },
    decreases items.len() - k,
{
    if k < items.len() {
        match items[k] {
            PartItemModel::Event(e) => {
                let length = beat * e.beat_count();
                lemma_cues_from_loudness(items, k + 1, start + length, beat, loudness);
                let rest = cues_from(items, k + 1, start + length, beat, loudness);
                let all = cues_from(items, k, start, beat, loudness);
                assert forall|j: int| 0 < j < all.len() implies #[trigger] all[j] == rest[j - 1] by {}
            },
            PartItemModel::Dynamic(d) => {
                lemma_cues_from_loudness(items, k + 1, start, beat, Some(d));
            },
            PartItemModel::Tempo(t) => {
                lemma_cues_from_loudness(items, k + 1, start, t.spec_duration_of(Quaver::Quarter), loudness);
            },
        }
    }
}

/// Each cue of a part is for one of its events, and is played at the
/// loudness of the most recent dynamic marking before that event in the
/// part: every marking replaces the one before for what follows, and an
/// event before any marking has none.
pub proof fn lemma_cue_loudness_is_latest_marking(p: PartModel, beat: nat)
    ensures
        forall|j: int|
            0 <= j < part_cues(p, beat).len() ==> {
                let c = #[trigger] part_cues(p, beat)[j];
                &&& 0 <= c.item < p.items.len()
                &&& p.items[c.item] is Event
                &&& c.loudness == marking_before(p.items, c.item)
            },
{
    lemma_cues_from_loudness(p.items, 0, 0, beat, None);
}

} // verus!
