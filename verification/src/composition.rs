use crate::time::{
    frac_eq, frac_in_range, frac_le, frac_lt, frac_norm, frac_raw_add, frac_wf, mt_eq, mt_le,
    mt_lt, spec_beat_split, spec_mt_add, spec_mt_add_fits, spec_mt_sub, spec_mt_sub_fits,
    spec_mt_sub_ok, Beat, FracV, MtV, MusicTime, TimeSignature,
};
use vstd::prelude::*;

verus! {

/// The closed set of instruments a track can sound with.
#[derive(Debug, Clone, Copy, PartialEq, Eq, Structural, Hash)]
pub enum Instrument {
    SineWave,
    Piano,
    Bass,
    BongoHigh,
    BongoLow,
    Shaker1,
    Shaker2,
}

/// Offset inside an octave, in the range `[0, 12)`.
pub type NoteNum = u8;

pub type Octave = i8;

impl Instrument {
    pub fn is_percussion(&self) -> (r: bool)
        ensures
            r == false,
    {
        false
    }

    /// All instruments, in declaration order.
    pub fn values() -> (r: Vec<Instrument>)
        ensures
            r@ == seq![
                Instrument::SineWave,
                Instrument::Piano,
                Instrument::Bass,
                Instrument::BongoHigh,
                Instrument::BongoLow,
                Instrument::Shaker1,
                Instrument::Shaker2,
            ],
    {
        let v: Vec<Instrument> = vec![
            Instrument::SineWave,
            Instrument::Piano,
            Instrument::Bass,
            Instrument::BongoHigh,
            Instrument::BongoLow,
            Instrument::Shaker1,
            Instrument::Shaker2,
        ];
        proof {
            assert(v@ =~= seq![
                Instrument::SineWave,
                Instrument::Piano,
                Instrument::Bass,
                Instrument::BongoHigh,
                Instrument::BongoLow,
                Instrument::Shaker1,
                Instrument::Shaker2,
            ]);
        }
        v
    }

    /// The display name of the instrument.
    pub fn name(&self) -> (r: String)
        ensures
            r@ == spec_instrument_name(*self),
    {
        match self {
            Instrument::SineWave => "SineWave".to_owned(),
            Instrument::Piano => "Piano".to_owned(),
            Instrument::Bass => "Bass".to_owned(),
            Instrument::BongoHigh => "BongoHigh".to_owned(),
            Instrument::BongoLow => "BongoLow".to_owned(),
            Instrument::Shaker1 => "Shaker1".to_owned(),
            Instrument::Shaker2 => "Shaker2".to_owned(),
        }
    }

    /// Each instrument with its display name, in declaration order.
    pub fn str_values() -> (r: Vec<(Instrument, String)>)
        ensures
            r@.len() == 7,
            forall|i: int|
                0 <= i < 7 ==> #[trigger] r@[i].0 == Instrument::values_seq()[i] && r@[i].1@
                    == spec_instrument_name(r@[i].0),
    {
        let items = Instrument::values();
        let mut r: Vec<(Instrument, String)> = Vec::new();
        let mut i: usize = 0;
        while i < items.len()
            invariant
                items@ == Instrument::values_seq(),
                i <= items.len(),
                r@.len() == i,
                forall|j: int|
                    0 <= j < i ==> #[trigger] r@[j].0 == Instrument::values_seq()[j] && r@[j].1@
                        == spec_instrument_name(r@[j].0),
            decreases items.len() - i,
        {
            let inst = items[i];
            let nm = inst.name();
            r.push((inst, nm));
            i += 1;
        }
        r
    }

    /// The instruments in declaration order, for specification purposes.
    pub open spec fn values_seq() -> Seq<Instrument> {
        seq![
            Instrument::SineWave,
            Instrument::Piano,
            Instrument::Bass,
            Instrument::BongoHigh,
            Instrument::BongoLow,
            Instrument::Shaker1,
            Instrument::Shaker2,
        ]
    }
}

pub open spec fn spec_instrument_name(i: Instrument) -> Seq<char> {
    match i {
        Instrument::SineWave => "SineWave"@,
        Instrument::Piano => "Piano"@,
        Instrument::Bass => "Bass"@,
        Instrument::BongoHigh => "BongoHigh"@,
        Instrument::BongoLow => "BongoLow"@,
        Instrument::Shaker1 => "Shaker1"@,
        Instrument::Shaker2 => "Shaker2"@,
    }
}

/// A pitch: octave number and offset within the octave.
#[derive(Debug, Clone, Copy, PartialEq, Eq, Structural, Hash)]
pub struct Pitch(pub Octave, pub NoteNum);

impl Pitch {
    /// The MIDI key number for this pitch.
    pub fn to_midi_note(&self) -> (r: u8)
        requires
            0 <= self.0,
            self.0 * 12 + self.1 + 9 <= u8::MAX,
        ensures
            r == self.0 * 12 + self.1 + 9,
    {
        let Pitch(octave, note_num) = *self;
        octave as u8 * 12 + note_num + 9
    }

    /// The conventional letter name of the offset within the octave.
    pub fn letter_name(&self) -> (r: String)
        requires
            self.1 < 12,
        ensures
            r@ == spec_letter_name(self.1),
    {
        let Pitch(_, note_num) = *self;
        match note_num {
            0 => "A".to_owned(),
            1 => "Bb".to_owned(),
            2 => "B".to_owned(),
            3 => "C".to_owned(),
            4 => "C#".to_owned(),
            5 => "D".to_owned(),
            6 => "Eb".to_owned(),
            7 => "E".to_owned(),
            8 => "F".to_owned(),
            9 => "F#".to_owned(),
            10 => "G".to_owned(),
            _ => "Ab".to_owned(),
        }
    }

    /// Shift by a number of semitones, carrying across octaves.
    pub fn transpose(&mut self, semitones: i8)
        requires
            old(self).1 < 12,
            i8::MIN <= old(self).1 + semitones <= i8::MAX,
            i8::MIN <= old(self).0 + (old(self).1 + semitones as int) / 12 <= i8::MAX,
        ensures
            final(self).1 == (old(self).1 + semitones as int) % 12,
            final(self).0 == old(self).0 + (old(self).1 + semitones as int) / 12,
    {
        let Pitch(octave, note_num) = *self;
        let shifted = note_num as i8 + semitones;
        let new_note_num = shifted.checked_rem_euclid(12).unwrap() as u8;
        let new_octave = octave + shifted.checked_div_euclid(12).unwrap();
        *self = Pitch(new_octave, new_note_num);
    }
}

pub open spec fn spec_letter_name(n: NoteNum) -> Seq<char> {
    if n == 0 {
        "A"@
    } else if n == 1 {
        "Bb"@
    } else if n == 2 {
        "B"@
    } else if n == 3 {
        "C"@
    } else if n == 4 {
        "C#"@
    } else if n == 5 {
        "D"@
    } else if n == 6 {
        "Eb"@
    } else if n == 7 {
        "E"@
    } else if n == 8 {
        "F"@
    } else if n == 9 {
        "F#"@
    } else if n == 10 {
        "G"@
    } else {
        "Ab"@
    }
}

/// How a track is keyed when compositions merge.
#[derive(Debug, Clone, Copy, PartialEq, Eq, Structural, Hash)]
pub enum TrackId {
    Instrument(Instrument),
    Custom(usize),
}

pub const MAX_VOLUME: u32 = 100;

/// Loudness on a `[0, MAX_VOLUME]` scale.
#[derive(Debug, Clone, Copy, PartialEq, Eq, Structural, Hash, PartialOrd, Ord)]
pub struct Volume(pub u32);

/// One sounding (or resting) note: where it starts, how long it lasts,
/// how loud, and at which pitch.
#[derive(Debug, Clone, Copy)]
pub struct Event {
    pub start: MusicTime,
    pub duration: Beat,
    pub volume: Volume,
    pub pitch: Pitch,
}

/// Mathematical value of an event.
pub ghost struct EventV {
    pub start: MtV,
    pub duration: FracV,
    pub volume: Volume,
    pub pitch: Pitch,
}

impl View for Event {
    type V = EventV;

    open spec fn view(&self) -> EventV {
        EventV { start: self.start@, duration: self.duration@, volume: self.volume, pitch: self.pitch }
    }
}

/// Events denote the same sound: same start and duration values, same
/// volume and pitch.
pub open spec fn ev_eqv(a: EventV, b: EventV) -> bool {
    mt_eq(a.start, b.start) && frac_eq(a.duration, b.duration) && a.volume == b.volume && a.pitch
        == b.pitch
}

impl PartialEq for Event {
    fn eq(&self, other: &Event) -> (r: bool)
        ensures
            r == ev_eqv(self@, other@),
    {
        self.start == other.start && self.duration == other.duration && self.volume == other.volume
            && self.pitch == other.pitch
    }
}

impl vstd::std_specs::cmp::PartialEqSpecImpl for Event {
    open spec fn obeys_eq_spec() -> bool {
        true
    }

    open spec fn eq_spec(&self, other: &Event) -> bool {
        ev_eqv(self@, other@)
    }
}

/// The total order events are sorted by inside a track: start, then
/// duration, then volume, then pitch.
pub open spec fn spec_event_le(a: EventV, b: EventV) -> bool {
    if !mt_eq(a.start, b.start) {
        mt_lt(a.start, b.start)
    } else if !frac_eq(a.duration, b.duration) {
        frac_lt(a.duration, b.duration)
    } else if a.volume != b.volume {
        a.volume.0 < b.volume.0
    } else {
        pitch_le(a.pitch, b.pitch)
    }
}

pub open spec fn pitch_le(a: Pitch, b: Pitch) -> bool {
    a.0 < b.0 || (a.0 == b.0 && a.1 <= b.1)
}

/// Exec counterpart of `spec_event_le`.
pub fn event_le(a: &Event, b: &Event) -> (r: bool)
    ensures
        r == spec_event_le(a@, b@),
{
    if !(a.start == b.start) {
        a.start.lt(&b.start)
    } else if !(a.duration == b.duration) {
        a.duration.lt(&b.duration)
    } else if a.volume.0 != b.volume.0 {
        a.volume.0 < b.volume.0
    } else {
        a.pitch.0 < b.pitch.0 || (a.pitch.0 == b.pitch.0 && a.pitch.1 <= b.pitch.1)
    }
}

/// Where a stable insertion from the right puts `e` into `s`.
pub open spec fn spec_insert_event(s: Seq<EventV>, e: EventV) -> Seq<EventV>
    decreases s.len(),
{
    if s.len() == 0 {
        seq![e]
    } else if spec_event_le(s.last(), e) {
        s.push(e)
    } else {
        spec_insert_event(s.drop_last(), e).push(s.last())
    }
}

/// Stable insertion sort of events, the order every track keeps.
pub open spec fn spec_sort_events(s: Seq<EventV>) -> Seq<EventV>
    decreases s.len(),
{
    if s.len() == 0 {
        Seq::empty()
    } else {
        spec_insert_event(spec_sort_events(s.drop_last()), s.last())
    }
}

/// Inserting at the position the exec scan finds matches the spec insertion.
proof fn lemma_spec_insert_at(s: Seq<EventV>, e: EventV, j: int)
    requires
        0 <= j <= s.len(),
        forall|k: int| j <= k < s.len() ==> !spec_event_le(#[trigger] s[k], e),
        j > 0 ==> spec_event_le(s[j - 1], e),
    ensures
        spec_insert_event(s, e) == s.subrange(0, j) + seq![e] + s.subrange(j, s.len() as int),
    decreases s.len(),
{
    if s.len() == 0 {
        assert(spec_insert_event(s, e) =~= s.subrange(0, j) + seq![e] + s.subrange(
            j,
            s.len() as int,
        ));
    } else if j == s.len() {
        assert(spec_event_le(s.last(), e));
        assert(spec_insert_event(s, e) =~= s.subrange(0, j) + seq![e] + s.subrange(
            j,
            s.len() as int,
        ));
    } else {
        assert(!spec_event_le(s.last(), e));
        lemma_spec_insert_at(s.drop_last(), e, j);
        assert(spec_insert_event(s, e) =~= s.subrange(0, j) + seq![e] + s.subrange(
            j,
            s.len() as int,
        ));
    }
}

/// The views of a vector of events.
pub open spec fn evs(s: Seq<Event>) -> Seq<EventV> {
    s.map_values(|e: Event| e@)
}

/// Insert `e` into the already sorted `v`, keeping insertion stability.
fn insert_event(v: &mut Vec<Event>, e: Event)
    ensures
        evs(final(v)@) == spec_insert_event(evs(old(v)@), e@),
{
    let mut j: usize = v.len();
    while j > 0 && !event_le(&v[j - 1], &e)
        invariant
            j <= v.len(),
            forall|k: int| j <= k < v.len() ==> !spec_event_le(#[trigger] evs(v@)[k], e@),
        decreases j,
    {
        j -= 1;
    }
    proof {
        lemma_spec_insert_at(evs(v@), e@, j as int);
    }
    v.insert(j, e);
    proof {
        assert(evs(v@) =~= evs(old(v)@).subrange(0, j as int) + seq![e@] + evs(
            old(v)@,
        ).subrange(j as int, old(v)@.len() as int));
    }
}

/// Sort events by `spec_event_le`, stably.
pub fn sort_events(v: &mut Vec<Event>)
    ensures
        evs(final(v)@) == spec_sort_events(evs(old(v)@)),
{
    let mut out: Vec<Event> = Vec::new();
    let mut i: usize = 0;
    while i < v.len()
        invariant
            i <= v.len(),
            evs(out@) == spec_sort_events(evs(v@).subrange(0, i as int)),
        decreases v.len() - i,
    {
        let e = v[i];
        insert_event(&mut out, e);
        proof {
            let pre = evs(v@).subrange(0, i as int);
            let now = evs(v@).subrange(0, i as int + 1);
            assert(now.drop_last() =~= pre);
            assert(now.last() == e@);
        }
        i += 1;
    }
    proof {
        assert(evs(v@).subrange(0, v@.len() as int) =~= evs(v@));
    }
    *v = out;
}

} // verus!

use vstd::prelude::*;

verus! {

/// A per-instrument sequence of sounding events and of rests.
#[derive(Debug, Clone)]
pub struct Track {
    pub identifier: TrackId,
    pub instrument: Instrument,
    pub events: Vec<Event>,
    pub rests: Vec<Event>,
}

/// Mathematical value of a track.
pub ghost struct TrackV {
    pub identifier: TrackId,
    pub instrument: Instrument,
    pub events: Seq<EventV>,
    pub rests: Seq<EventV>,
}

impl View for Track {
    type V = TrackV;

    open spec fn view(&self) -> TrackV {
        TrackV {
            identifier: self.identifier,
            instrument: self.instrument,
            events: evs(self.events@),
            rests: evs(self.rests@),
        }
    }
}

/// Where an event ends: its start advanced by its duration.
pub open spec fn spec_event_end(e: EventV, ts: int) -> MtV {
    spec_mt_add(e.start, spec_beat_split(e.duration, ts), ts)
}

/// The end of the event fits the machine representation.
pub open spec fn spec_event_end_ok(e: EventV, ts: int) -> bool {
    spec_mt_add_fits(e.start, spec_beat_split(e.duration, ts), ts)
}

impl Event {
    /// Where this event stops sounding; `None` exactly when that position
    /// does not fit the representation.
    pub fn get_end(&self, time_signature: TimeSignature) -> (r: Option<MusicTime>)
        requires
            time_signature.0 >= 1,
        ensures
            r is Some <==> spec_event_end_ok(self@, time_signature.0 as int),
            r matches Some(mt) ==> mt@ == spec_event_end(self@, time_signature.0 as int),
    {
        let dur = self.duration.as_music_time(time_signature);
        self.start.with(time_signature).checked_add(dur)
    }
}

/// The earliest start among the events, kept from the first minimum.
pub open spec fn spec_min_start(s: Seq<EventV>) -> Option<MtV>
    decreases s.len(),
{
    if s.len() == 0 {
        None
    } else {
        match spec_min_start(s.drop_last()) {
            None => Some(s.last().start),
            Some(m) => if mt_lt(s.last().start, m) {
                Some(s.last().start)
            } else {
                Some(m)
            },
        }
    }
}

/// The latest end among the events, kept from the last maximum; meaningful
/// when every end fits.
pub open spec fn spec_max_end(s: Seq<EventV>, ts: int) -> Option<MtV>
    decreases s.len(),
{
    if s.len() == 0 {
        None
    } else {
        match spec_max_end(s.drop_last(), ts) {
            None => Some(spec_event_end(s.last(), ts)),
            Some(m) => if mt_le(m, spec_event_end(s.last(), ts)) {
                Some(spec_event_end(s.last(), ts))
            } else {
                Some(m)
            },
        }
    }
}

/// Every event end in the sequence fits the representation.
pub open spec fn spec_ends_ok(s: Seq<EventV>, ts: int) -> bool {
    forall|i: int| 0 <= i < s.len() ==> spec_event_end_ok(#[trigger] s[i], ts)
}

/// The view of an optional music time.
pub open spec fn opt_mt_view(r: Option<MusicTime>) -> Option<MtV> {
    match r {
        Some(m) => Some(m@),
        None => None,
    }
}

/// Combine two optional minima: on a tie the right one wins.
pub open spec fn mt_min_opt(a: Option<MtV>, b: Option<MtV>) -> Option<MtV> {
    match (a, b) {
        (Some(x), Some(y)) => if mt_le(y, x) {
            Some(y)
        } else {
            Some(x)
        },
        (Some(x), None) => Some(x),
        (None, Some(y)) => Some(y),
        (None, None) => None,
    }
}

/// Combine two optional maxima: on a tie the right one wins.
pub open spec fn mt_max_opt(a: Option<MtV>, b: Option<MtV>) -> Option<MtV> {
    match (a, b) {
        (Some(x), Some(y)) => if mt_le(x, y) {
            Some(y)
        } else {
            Some(x)
        },
        (Some(x), None) => Some(x),
        (None, Some(y)) => Some(y),
        (None, None) => None,
    }
}

pub open spec fn spec_track_start(t: TrackV) -> Option<MtV> {
    mt_min_opt(spec_min_start(t.events), spec_min_start(t.rests))
}

/// A sequence of events has an earliest start exactly when it is nonempty.
pub proof fn lemma_min_start_some(s: Seq<EventV>)
    ensures
        spec_min_start(s) is Some <==> s.len() > 0,
    decreases s.len(),
{
    if s.len() > 0 {
        lemma_min_start_some(s.drop_last());
    }
}

/// A sequence of events has a latest end exactly when it is nonempty.
pub proof fn lemma_max_end_some(s: Seq<EventV>, ts: int)
    ensures
        spec_max_end(s, ts) is Some <==> s.len() > 0,
    decreases s.len(),
{
    if s.len() > 0 {
        lemma_max_end_some(s.drop_last(), ts);
    }
}

pub open spec fn spec_track_end(t: TrackV, ts: int) -> Option<MtV> {
    mt_max_opt(spec_max_end(t.events, ts), spec_max_end(t.rests, ts))
}

/// The earliest start in one vector of events.
fn min_start_of(v: &Vec<Event>) -> (r: Option<MusicTime>)
    ensures
        opt_mt_view(r) == spec_min_start(evs(v@)),
{
    let mut acc: Option<MusicTime> = None;
    let mut i: usize = 0;
    while i < v.len()
        invariant
            i <= v.len(),
            opt_mt_view(acc) == spec_min_start(evs(v@).subrange(0, i as int)),
        decreases v.len() - i,
    {
        proof {
            let pre = evs(v@).subrange(0, i as int);
            let now = evs(v@).subrange(0, i as int + 1);
            assert(now.drop_last() =~= pre);
            assert(now.last() == v@[i as int]@);
        }
        let st = v[i].start;
        acc = match acc {
            None => Some(st),
            Some(m) => if st.lt(&m) {
                Some(st)
            } else {
                Some(m)
            },
        };
        i += 1;
    }
    proof {
        assert(evs(v@).subrange(0, v@.len() as int) =~= evs(v@));
    }
    acc
}

/// The latest end in one vector of events; `None` with `ok == false` when
/// some end does not fit.
fn max_end_of(v: &Vec<Event>, time_signature: TimeSignature) -> (r: Option<Option<MusicTime>>)
    requires
        time_signature.0 >= 1,
    ensures
        match r {
            Some(m) => spec_ends_ok(evs(v@), time_signature.0 as int) && opt_mt_view(m)
                == spec_max_end(evs(v@), time_signature.0 as int),
            None => !spec_ends_ok(evs(v@), time_signature.0 as int),
        },
{
    let ghost ts = time_signature.0 as int;
    let mut acc: Option<MusicTime> = None;
    let mut i: usize = 0;
    while i < v.len()
        invariant
            time_signature.0 >= 1,
            ts == time_signature.0 as int,
            i <= v.len(),
            spec_ends_ok(evs(v@).subrange(0, i as int), ts),
            opt_mt_view(acc) == spec_max_end(evs(v@).subrange(0, i as int), ts),
        decreases v.len() - i,
    {
        proof {
            let pre = evs(v@).subrange(0, i as int);
            let now = evs(v@).subrange(0, i as int + 1);
            assert(now.drop_last() =~= pre);
            assert(now.last() == v@[i as int]@);
        }
        let e = v[i];
        match e.get_end(time_signature) {
            None => {
                return None;
            },
            Some(end) => {
                acc = match acc {
                    None => Some(end),
                    Some(m) => if m.le(&end) {
                        Some(end)
                    } else {
                        Some(m)
                    },
                };
            },
        }
        proof {
            let now = evs(v@).subrange(0, i as int + 1);
            assert(forall|k: int|
                0 <= k < now.len() ==> spec_event_end_ok(#[trigger] now[k], ts));
        }
        i += 1;
    }
    proof {
        assert(evs(v@).subrange(0, v@.len() as int) =~= evs(v@));
    }
    Some(acc)
}

impl Track {
    /// The earliest start among events and rests; `None` when there are none.
    pub fn get_start(&self) -> (r: Option<MusicTime>)
        ensures
            opt_mt_view(r) == spec_track_start(self@),
    {
        let a = min_start_of(&self.events);
        let b = min_start_of(&self.rests);
        match (a, b) {
            (Some(x), Some(y)) => if y.le(&x) {
                Some(y)
            } else {
                Some(x)
            },
            (Some(x), None) => Some(x),
            (None, Some(y)) => Some(y),
            (None, None) => None,
        }
    }

    /// The latest end among events and rests; `None` when there are none or
    /// when an end does not fit the representation.
    pub fn get_end(&self, time_signature: TimeSignature) -> (r: Option<MusicTime>)
        requires
            time_signature.0 >= 1,
        ensures
            (spec_ends_ok(self@.events, time_signature.0 as int) && spec_ends_ok(
                self@.rests,
                time_signature.0 as int,
            )) ==> opt_mt_view(r) == spec_track_end(self@, time_signature.0 as int),
            !(spec_ends_ok(self@.events, time_signature.0 as int) && spec_ends_ok(
                self@.rests,
                time_signature.0 as int,
            )) ==> r is None,
    {
        let a = match max_end_of(&self.events, time_signature) {
            None => {
                return None;
            },
            Some(x) => x,
        };
        let b = match max_end_of(&self.rests, time_signature) {
            None => {
                return None;
            },
            Some(x) => x,
        };
        match (a, b) {
            (Some(x), Some(y)) => if x.le(&y) {
                Some(y)
            } else {
                Some(x)
            },
            (Some(x), None) => Some(x),
            (None, Some(y)) => Some(y),
            (None, None) => None,
        }
    }

    /// How long the track lasts: latest end minus earliest start, zero when
    /// the track is empty; `None` when the arithmetic leaves the
    /// representation.
    pub fn get_duration(&self, time_signature: TimeSignature) -> (r: Option<MusicTime>)
        requires
            time_signature.0 >= 1,
        ensures
            r is Some <==> (spec_track_start(self@) is None || {
                &&& spec_ends_ok(self@.events, time_signature.0 as int)
                &&& spec_ends_ok(self@.rests, time_signature.0 as int)
                &&& spec_mt_sub_ok(
                    spec_track_end(self@, time_signature.0 as int).unwrap(),
                    spec_track_start(self@).unwrap(),
                    time_signature.0 as int,
                )
                &&& spec_mt_sub_fits(
                    spec_track_end(self@, time_signature.0 as int).unwrap(),
                    spec_track_start(self@).unwrap(),
                    time_signature.0 as int,
                )
            }),
            spec_track_start(self@) is None ==> (r matches Some(z) && z@ == (MtV {
                m: 0,
                b: FracV { n: 0, d: 1 },
            })),
            (r is Some && spec_track_start(self@) is Some) ==> {
                &&& spec_ends_ok(self@.events, time_signature.0 as int)
                &&& spec_ends_ok(self@.rests, time_signature.0 as int)
                &&& spec_track_end(self@, time_signature.0 as int) is Some
                &&& r.unwrap()@ == spec_mt_sub(
                    spec_track_end(self@, time_signature.0 as int).unwrap(),
                    spec_track_start(self@).unwrap(),
                    time_signature.0 as int,
                )
            },
    {
        let start = match self.get_start() {
            None => {
                return Some(MusicTime::zero());
            },
            Some(s) => s,
        };
        proof {
            lemma_min_start_some(self@.events);
            lemma_min_start_some(self@.rests);
            lemma_max_end_some(self@.events, time_signature.0 as int);
            lemma_max_end_some(self@.rests, time_signature.0 as int);
        }
        let end = match self.get_end(time_signature) {
            None => {
                return None;
            },
            Some(e) => e,
        };
        end.with(time_signature).checked_sub(start)
    }
}

} // verus!

verus! {

/// Whether an event's start falls inside the selection window.
pub open spec fn spec_window(e: EventV, start: MtV, end: MtV, start_exclusive: bool) -> bool {
    (if start_exclusive {
        mt_lt(start, e.start)
    } else {
        mt_le(start, e.start)
    }) && mt_le(e.start, end)
}

/// The events whose starts fall inside the window, in track order.
pub open spec fn spec_filter_window(
    s: Seq<EventV>,
    start: MtV,
    end: MtV,
    start_exclusive: bool,
) -> Seq<EventV>
    decreases s.len(),
{
    if s.len() == 0 {
        Seq::empty()
    } else {
        let rest = spec_filter_window(s.drop_last(), start, end, start_exclusive);
        if spec_window(s.last(), start, end, start_exclusive) {
            rest.push(s.last())
        } else {
            rest
        }
    }
}

/// What a window selection returns: nothing for an empty window, otherwise
/// the matching events sorted.
pub open spec fn spec_events_between(
    t: TrackV,
    start: MtV,
    end: MtV,
    start_exclusive: bool,
) -> Seq<EventV> {
    if (start_exclusive && mt_le(end, start)) || mt_lt(end, start) {
        Seq::empty()
    } else {
        spec_sort_events(spec_filter_window(t.events, start, end, start_exclusive))
    }
}

/// An event sequence with every start advanced by `off`.
pub open spec fn spec_shift_events(s: Seq<EventV>, off: MtV, ts: int) -> Seq<EventV> {
    s.map_values(
        |e: EventV|
            EventV {
                start: spec_mt_add(e.start, off, ts),
                duration: e.duration,
                volume: e.volume,
                pitch: e.pitch,
            },
    )
}

/// Every shifted start fits the representation.
pub open spec fn spec_shift_ok(s: Seq<EventV>, off: MtV, ts: int) -> bool {
    forall|i: int| 0 <= i < s.len() ==> spec_mt_add_fits(#[trigger] s[i].start, off, ts)
}

/// Shift each event of a vector; `None` when a shifted start does not fit.
fn shift_events(v: &Vec<Event>, offset: MusicTime, time_signature: TimeSignature) -> (r: Option<
    Vec<Event>,
>)
    requires
        time_signature.0 >= 1,
    ensures
        match r {
            Some(out) => spec_shift_ok(evs(v@), offset@, time_signature.0 as int) && evs(out@)
                == spec_shift_events(evs(v@), offset@, time_signature.0 as int),
            None => !spec_shift_ok(evs(v@), offset@, time_signature.0 as int),
        },
{
    let ghost ts = time_signature.0 as int;
    let mut out: Vec<Event> = Vec::new();
    let mut i: usize = 0;
    while i < v.len()
        invariant
            time_signature.0 >= 1,
            ts == time_signature.0 as int,
            i <= v.len(),
            evs(out@) =~= spec_shift_events(evs(v@).subrange(0, i as int), offset@, ts),
            forall|k: int| 0 <= k < i ==> spec_mt_add_fits(#[trigger] evs(v@)[k].start, offset@, ts),
        decreases v.len() - i,
    {
        let e = v[i];
        match e.start.with(time_signature).checked_add(offset) {
            None => {
                proof {
                    assert(evs(v@)[i as int] == e@);
                    assert(!spec_mt_add_fits(evs(v@)[i as int].start, offset@, ts));
                }
                return None;
            },
            Some(ns) => {
                let ghost out_pre = evs(out@);
                out.push(
                    Event { start: ns, duration: e.duration, volume: e.volume, pitch: e.pitch },
                );
                proof {
                    let pre = evs(v@).subrange(0, i as int);
                    let now = evs(v@).subrange(0, i as int + 1);
                    assert(now.drop_last() =~= pre);
                    assert(evs(v@)[i as int] == e@);
                    assert(now.last() == e@);
                    let target = spec_shift_events(now, offset@, ts);
                    assert(out_pre.len() == i as int);
                    assert(out@.len() == i + 1);
                    assert(now.len() == i + 1);
                    assert(target.len() == i + 1);
                    assert(evs(out@).len() == target.len());
                    assert forall|k: int| 0 <= k < target.len() implies evs(out@)[k] == target[k] by {
                        if k < i as int {
                            assert(evs(out@)[k] == out_pre[k]);
                            assert(out_pre[k] == spec_shift_events(pre, offset@, ts)[k]);
                            assert(now[k] == pre[k]);
                        } else {
                            assert(evs(out@)[k] == (Event {
                                start: ns,
                                duration: e.duration,
                                volume: e.volume,
                                pitch: e.pitch,
                            })@);
                            assert(target[k] == EventV {
                                start: spec_mt_add(e@.start, offset@, ts),
                                duration: e@.duration,
                                volume: e@.volume,
                                pitch: e@.pitch,
                            });
                        }
                    }
                    assert(evs(out@) =~= target);
                }
            },
        }
        i += 1;
    }
    proof {
        assert(evs(v@).subrange(0, v@.len() as int) =~= evs(v@));
    }
    Some(out)
}

impl Track {
    /// Events (not rests) starting inside the window, sorted; the end is
    /// inclusive, the start optionally exclusive.
    pub fn get_events_starting_between(
        &self,
        start: MusicTime,
        end: MusicTime,
        start_exclusive: bool,
    ) -> (r: Vec<Event>)
        ensures
            evs(r@) == spec_events_between(self@, start@, end@, start_exclusive),
    {
        if (start_exclusive && !start.lt(&end)) || !start.le(&end) {
            let r: Vec<Event> = Vec::new();
            proof {
                assert(evs(r@) =~= Seq::<EventV>::empty());
            }
            return r;
        }
        let mut picked: Vec<Event> = Vec::new();
        let mut i: usize = 0;
        while i < self.events.len()
            invariant
                i <= self.events.len(),
                evs(picked@) =~= spec_filter_window(
                    evs(self.events@).subrange(0, i as int),
                    start@,
                    end@,
                    start_exclusive,
                ),
            decreases self.events.len() - i,
        {
            proof {
                let pre = evs(self.events@).subrange(0, i as int);
                let now = evs(self.events@).subrange(0, i as int + 1);
                assert(now.drop_last() =~= pre);
                assert(now.last() == self.events@[i as int]@);
            }
            let e = self.events[i];
            let inside = if start_exclusive {
                start.lt(&e.start)
            } else {
                start.le(&e.start)
            };
            if inside && e.start.le(&end) {
                picked.push(e);
            }
            i += 1;
        }
        proof {
            assert(evs(self.events@).subrange(0, self.events@.len() as int) =~= evs(
                self.events@,
            ));
        }
        sort_events(&mut picked);
        picked
    }

    /// The same track with every event and rest moved later by `offset`;
    /// `None` when a shifted start does not fit.
    pub fn shifted(&self, offset: MusicTime, time_signature: TimeSignature) -> (r: Option<Track>)
        requires
            time_signature.0 >= 1,
        ensures
            match r {
                Some(t) => {
                    &&& spec_shift_ok(self@.events, offset@, time_signature.0 as int)
                    &&& spec_shift_ok(self@.rests, offset@, time_signature.0 as int)
                    &&& t@.identifier == self@.identifier
                    &&& t@.instrument == self@.instrument
                    &&& t@.events == spec_shift_events(
                        self@.events,
                        offset@,
                        time_signature.0 as int,
                    )
                    &&& t@.rests == spec_shift_events(
                        self@.rests,
                        offset@,
                        time_signature.0 as int,
                    )
                },
                None => !(spec_shift_ok(self@.events, offset@, time_signature.0 as int)
                    && spec_shift_ok(self@.rests, offset@, time_signature.0 as int)),
            },
    {
        let events = match shift_events(&self.events, offset, time_signature) {
            None => {
                return None;
            },
            Some(v) => v,
        };
        let rests = match shift_events(&self.rests, offset, time_signature) {
            None => {
                return None;
            },
            Some(v) => v,
        };
        Some(Track { identifier: self.identifier, instrument: self.instrument, events, rests })
    }

    /// Move every event and rest later by `offset` in place; on `false`
    /// nothing changed because a shifted start would not fit.
    pub fn shift_by(&mut self, offset: MusicTime, time_signature: TimeSignature) -> (ok: bool)
        requires
            time_signature.0 >= 1,
        ensures
            ok ==> {
                &&& final(self)@.identifier == old(self)@.identifier
                &&& final(self)@.instrument == old(self)@.instrument
                &&& final(self)@.events == spec_shift_events(
                    old(self)@.events,
                    offset@,
                    time_signature.0 as int,
                )
                &&& final(self)@.rests == spec_shift_events(
                    old(self)@.rests,
                    offset@,
                    time_signature.0 as int,
                )
            },
            !ok ==> *final(self) == *old(self) && !(spec_shift_ok(
                old(self)@.events,
                offset@,
                time_signature.0 as int,
            ) && spec_shift_ok(old(self)@.rests, offset@, time_signature.0 as int)),
    {
        match self.shifted(offset, time_signature) {
            None => false,
            Some(t) => {
                *self = t;
                true
            },
        }
    }

    /// Merge two tracks of one instrument: events and rests are pooled and
    /// re-sorted; identity comes from the left track.
    pub fn merge(self, rhs: Track) -> (r: Track)
        requires
            self.instrument == rhs.instrument,
        ensures
            r@.identifier == self@.identifier,
            r@.instrument == self@.instrument,
            r@.events == spec_sort_events(self@.events + rhs@.events),
            r@.rests == spec_sort_events(self@.rests + rhs@.rests),
    {
        let ghost ev0 = self@.events;
        let ghost rs0 = self@.rests;
        let ghost rev0 = rhs@.events;
        let ghost rrs0 = rhs@.rests;
        let mut events = self.events;
        let mut rhs_events = rhs.events;
        events.append(&mut rhs_events);
        proof {
            assert(evs(events@) =~= ev0 + rev0);
        }
        sort_events(&mut events);
        let mut rests = self.rests;
        let mut rhs_rests = rhs.rests;
        rests.append(&mut rhs_rests);
        proof {
            assert(evs(rests@) =~= rs0 + rrs0);
        }
        sort_events(&mut rests);
        Track { identifier: self.identifier, instrument: self.instrument, events, rests }
    }
}

} // verus!

verus! {

/// The fully time-resolved, per-instrument set of tracks derived from a
/// terminal music string.
#[derive(Debug, Clone)]
pub struct Composition {
    pub tracks: Vec<Track>,
    pub time_signature: TimeSignature,
}

/// Mathematical value of a composition.
pub ghost struct CompositionV {
    pub tracks: Seq<TrackV>,
    pub time_signature: TimeSignature,
}

/// The views of a vector of tracks.
pub open spec fn tracks_view(s: Seq<Track>) -> Seq<TrackV> {
    s.map_values(|t: Track| t@)
}

impl View for Composition {
    type V = CompositionV;

    open spec fn view(&self) -> CompositionV {
        CompositionV { tracks: tracks_view(self.tracks@), time_signature: self.time_signature }
    }
}

/// The earliest start over all tracks, skipping empty tracks.
pub open spec fn spec_comp_start(ts: Seq<TrackV>) -> Option<MtV>
    decreases ts.len(),
{
    if ts.len() == 0 {
        None
    } else {
        match (spec_comp_start(ts.drop_last()), spec_track_start(ts.last())) {
            (acc, None) => acc,
            (None, Some(x)) => Some(x),
            (Some(m), Some(x)) => if mt_lt(x, m) {
                Some(x)
            } else {
                Some(m)
            },
        }
    }
}

/// The latest end over all tracks, skipping empty tracks; meaningful when
/// every end fits.
pub open spec fn spec_comp_end(ts_seq: Seq<TrackV>, ts: int) -> Option<MtV>
    decreases ts_seq.len(),
{
    if ts_seq.len() == 0 {
        None
    } else {
        match (spec_comp_end(ts_seq.drop_last(), ts), spec_track_end(ts_seq.last(), ts)) {
            (acc, None) => acc,
            (None, Some(x)) => Some(x),
            (Some(m), Some(x)) => if mt_le(m, x) {
                Some(x)
            } else {
                Some(m)
            },
        }
    }
}

/// Every event end in every track fits the representation.
pub open spec fn spec_comp_ends_ok(ts_seq: Seq<TrackV>, ts: int) -> bool {
    forall|i: int|
        0 <= i < ts_seq.len() ==> spec_ends_ok(#[trigger] ts_seq[i].events, ts) && spec_ends_ok(
            ts_seq[i].rests,
            ts,
        )
}

/// How long a track list lasts: latest end minus earliest start, zero when
/// empty; `None` when the arithmetic leaves the representation.
pub open spec fn spec_comp_duration(tracks: Seq<TrackV>, ts: int) -> Option<MtV> {
    if !spec_comp_ends_ok(tracks, ts) {
        None
    } else {
        match (spec_comp_start(tracks), spec_comp_end(tracks, ts)) {
            (Some(s), Some(e)) => {
                if spec_mt_sub_ok(e, s, ts) && spec_mt_sub_fits(e, s, ts) {
                    Some(spec_mt_sub(e, s, ts))
                } else {
                    None
                }
            },
            _ => Some(MtV { m: 0, b: FracV { n: 0, d: 1 } }),
        }
    }
}

impl Composition {
    /// How long the composition lasts: latest track end minus earliest
    /// track start, zero when empty; `None` when arithmetic leaves the
    /// representation.
    pub fn get_duration(&self) -> (r: Option<MusicTime>)
        requires
            self.time_signature.0 >= 1,
        ensures
            opt_mt_view(r) == spec_comp_duration(self@.tracks, self@.time_signature.0 as int),
    {
        let ghost tsv = self@.tracks;
        let ghost tsi = self@.time_signature.0 as int;
        let mut start: Option<MusicTime> = None;
        let mut i: usize = 0;
        while i < self.tracks.len()
            invariant
                i <= self.tracks.len(),
                tsv == self@.tracks,
                opt_mt_view(start) == spec_comp_start(tsv.subrange(0, i as int)),
            decreases self.tracks.len() - i,
        {
            proof {
                let pre = tsv.subrange(0, i as int);
                let now = tsv.subrange(0, i as int + 1);
                assert(now.drop_last() =~= pre);
                assert(now.last() == self.tracks@[i as int]@);
            }
            let t_start = self.tracks[i].get_start();
            start = match (start, t_start) {
                (acc, None) => acc,
                (None, Some(x)) => Some(x),
                (Some(m), Some(x)) => if x.lt(&m) {
                    Some(x)
                } else {
                    Some(m)
                },
            };
            i += 1;
        }
        proof {
            assert(tsv.subrange(0, self.tracks@.len() as int) =~= tsv);
        }
        let mut end: Option<MusicTime> = None;
        let mut j: usize = 0;
        while j < self.tracks.len()
            invariant
                j <= self.tracks.len(),
                tsv == self@.tracks,
                tsi == self@.time_signature.0 as int,
                self.time_signature.0 >= 1,
                spec_comp_ends_ok(tsv.subrange(0, j as int), tsi),
                opt_mt_view(end) == spec_comp_end(tsv.subrange(0, j as int), tsi),
            decreases self.tracks.len() - j,
        {
            proof {
                let pre = tsv.subrange(0, j as int);
                let now = tsv.subrange(0, j as int + 1);
                assert(now.drop_last() =~= pre);
                assert(now.last() == self.tracks@[j as int]@);
            }
            let tr = &self.tracks[j];
            let t_end = tr.get_end(self.time_signature);
            if t_end.is_none() && !(tr.events.len() == 0 && tr.rests.len() == 0) {
                // An end fell outside the representation.
                return None;
            }
            proof {
                let tv = self.tracks@[j as int]@;
                if tr.events.len() == 0 && tr.rests.len() == 0 {
                    assert(tv.events.len() == 0 && tv.rests.len() == 0);
                    assert(spec_ends_ok(tv.events, tsi) && spec_ends_ok(tv.rests, tsi));
                    assert(spec_max_end(tv.events, tsi) is None && spec_max_end(
                        tv.rests,
                        tsi,
                    ) is None);
                    assert(spec_track_end(tv, tsi) is None);
                }
                let now = tsv.subrange(0, j as int + 1);
                assert(forall|k: int|
                    0 <= k < now.len() ==> spec_ends_ok(#[trigger] now[k].events, tsi)
                        && spec_ends_ok(now[k].rests, tsi));
            }
            end = match (end, t_end) {
                (acc, None) => acc,
                (None, Some(x)) => Some(x),
                (Some(m), Some(x)) => if m.le(&x) {
                    Some(x)
                } else {
                    Some(m)
                },
            };
            j += 1;
        }
        proof {
            assert(tsv.subrange(0, self.tracks@.len() as int) =~= tsv);
        }
        match (start, end) {
            (Some(s), Some(e)) => e.with(self.time_signature).checked_sub(s),
            _ => Some(MusicTime::zero()),
        }
    }

    /// Move every track later by `offset`; on `false` nothing changed
    /// because a shifted start would not fit.
    pub fn shift_by(&mut self, offset: MusicTime) -> (ok: bool)
        requires
            old(self).time_signature.0 >= 1,
        ensures
            final(self).time_signature == old(self).time_signature,
            ok ==> {
                &&& final(self)@.tracks.len() == old(self)@.tracks.len()
                &&& forall|i: int|
                    0 <= i < old(self)@.tracks.len() ==> {
                        let t0 = #[trigger] old(self)@.tracks[i];
                        let t1 = final(self)@.tracks[i];
                        &&& t1.identifier == t0.identifier
                        &&& t1.instrument == t0.instrument
                        &&& t1.events == spec_shift_events(
                            t0.events,
                            offset@,
                            old(self).time_signature.0 as int,
                        )
                        &&& t1.rests == spec_shift_events(
                            t0.rests,
                            offset@,
                            old(self).time_signature.0 as int,
                        )
                    }
            },
            !ok ==> *final(self) == *old(self) && exists|i: int|
                0 <= i < old(self)@.tracks.len() && !(spec_shift_ok(
                    (#[trigger] old(self)@.tracks[i]).events,
                    offset@,
                    old(self).time_signature.0 as int,
                ) && spec_shift_ok(
                    old(self)@.tracks[i].rests,
                    offset@,
                    old(self).time_signature.0 as int,
                )),
    {
        let ghost tsv = self@.tracks;
        let ghost tsi = self.time_signature.0 as int;
        let mut out: Vec<Track> = Vec::new();
        let mut i: usize = 0;
        while i < self.tracks.len()
            invariant
                i <= self.tracks.len(),
                tsv == self@.tracks,
                tsi == self.time_signature.0 as int,
                self.time_signature.0 >= 1,
                out@.len() == i,
                forall|k: int|
                    0 <= k < i ==> {
                        let t0 = #[trigger] tsv[k];
                        let t1 = out@.map_values(|t: Track| t@)[k];
                        &&& t1.identifier == t0.identifier
                        &&& t1.instrument == t0.instrument
                        &&& t1.events == spec_shift_events(t0.events, offset@, tsi)
                        &&& t1.rests == spec_shift_events(t0.rests, offset@, tsi)
                    },
            decreases self.tracks.len() - i,
        {
            match self.tracks[i].shifted(offset, self.time_signature) {
                None => {
                    proof {
                        assert(tsv[i as int] == self.tracks@[i as int]@);
                    }
                    return false;
                },
                Some(t) => {
                    out.push(t);
                },
            }
            i += 1;
        }
        self.tracks = out;
        true
    }
}

impl PartialEq for Track {
    /// Tracks compare by identity, instrument, and eventwise value equality.
    fn eq(&self, other: &Track) -> (r: bool)
        ensures
            r == track_eqv(self@, other@),
    {
        if !(self.identifier == other.identifier) || !(self.instrument == other.instrument) {
            return false;
        }
        events_eq(&self.events, &other.events) && events_eq(&self.rests, &other.rests)
    }
}

/// Tracks denote the same music.
pub open spec fn track_eqv(a: TrackV, b: TrackV) -> bool {
    &&& a.identifier == b.identifier
    &&& a.instrument == b.instrument
    &&& events_eqv(a.events, b.events)
    &&& events_eqv(a.rests, b.rests)
}

/// Pointwise event value equality.
pub open spec fn events_eqv(a: Seq<EventV>, b: Seq<EventV>) -> bool {
    a.len() == b.len() && forall|i: int| 0 <= i < a.len() ==> ev_eqv(#[trigger] a[i], b[i])
}

/// Pointwise comparison of event vectors by value.
fn events_eq(a: &Vec<Event>, b: &Vec<Event>) -> (r: bool)
    ensures
        r == events_eqv(evs(a@), evs(b@)),
{
    if a.len() != b.len() {
        return false;
    }
    let mut i: usize = 0;
    while i < a.len()
        invariant
            i <= a.len(),
            a@.len() == b@.len(),
            forall|k: int| 0 <= k < i ==> ev_eqv(#[trigger] evs(a@)[k], evs(b@)[k]),
        decreases a.len() - i,
    {
        if !(a[i] == b[i]) {
            proof {
                assert(evs(a@)[i as int] == a@[i as int]@);
            }
            return false;
        }
        i += 1;
    }
    true
}

impl vstd::std_specs::cmp::PartialEqSpecImpl for Track {
    open spec fn obeys_eq_spec() -> bool {
        true
    }

    open spec fn eq_spec(&self, other: &Track) -> bool {
        track_eqv(self@, other@)
    }
}

/// Compositions denote the same music under the same signature.
pub open spec fn comp_eqv(a: CompositionV, b: CompositionV) -> bool {
    &&& a.time_signature == b.time_signature
    &&& a.tracks.len() == b.tracks.len()
    &&& forall|i: int| 0 <= i < a.tracks.len() ==> track_eqv(#[trigger] a.tracks[i], b.tracks[i])
}

impl PartialEq for Composition {
    fn eq(&self, other: &Composition) -> (r: bool)
        ensures
            r == comp_eqv(self@, other@),
    {
        if !(self.time_signature == other.time_signature) || self.tracks.len()
            != other.tracks.len() {
            return false;
        }
        let mut i: usize = 0;
        while i < self.tracks.len()
            invariant
                i <= self.tracks.len(),
                self.tracks@.len() == other.tracks@.len(),
                forall|k: int|
                    0 <= k < i ==> track_eqv(
                        #[trigger] self@.tracks[k],
                        other@.tracks[k],
                    ),
            decreases self.tracks.len() - i,
        {
            if !(self.tracks[i] == other.tracks[i]) {
                proof {
                    assert(self@.tracks[i as int] == self.tracks@[i as int]@);
                    assert(other@.tracks[i as int] == other.tracks@[i as int]@);
                }
                return false;
            }
            i += 1;
        }
        true
    }
}

impl vstd::std_specs::cmp::PartialEqSpecImpl for Composition {
    open spec fn obeys_eq_spec() -> bool {
        true
    }

    open spec fn eq_spec(&self, other: &Composition) -> bool {
        comp_eqv(self@, other@)
    }
}

} // verus!

verus! {

impl DeepView for Instrument {
    type V = Instrument;

    open spec fn deep_view(&self) -> Instrument {
        *self
    }
}

impl DeepView for Volume {
    type V = Volume;

    open spec fn deep_view(&self) -> Volume {
        *self
    }
}

impl DeepView for Pitch {
    type V = Pitch;

    open spec fn deep_view(&self) -> Pitch {
        *self
    }
}

} // verus!
