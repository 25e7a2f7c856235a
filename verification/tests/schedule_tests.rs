use music_turtles::cfg::MusicString;
use music_turtles::composition::{Event, Instrument, Pitch, Volume};
use music_turtles::schedule::Scheduler;
use music_turtles::time::{Beat, MusicTime, TimeSignature};
use std::str::FromStr;

/// Polled every half beat across a loop boundary, a looping scheduler with
/// a four-beat loop and a one-beat lookahead returns each event of the
/// loop exactly once: the note on the downbeat arrives through the wrapped
/// window, every other note through an ordinary one.
#[test]
fn scheduler_loop_boundary_each_event_once() {
    let ms = MusicString::from_str(":c<1> :d<1>").unwrap();
    let ts = TimeSignature(4, 4);
    let comp = ms.compose(ts, None).unwrap();
    let tracks: Vec<(music_turtles::composition::Track, MusicTime)> =
        comp.tracks.into_iter().map(|t| (t, MusicTime::zero())).collect();
    let mut sched = Scheduler::new(
        ts,
        tracks,
        MusicTime(0, Beat::whole(1)),
        true,
        MusicTime(1, Beat::zero()),
    );
    let mut all: Vec<(Instrument, Event)> = Vec::new();
    for n in 0..8u32 {
        let cur = MusicTime(0, Beat::new(n, 2));
        let batch = sched.next_events(cur).unwrap();
        all.extend(batch);
    }
    let d_ev = Event {
        start: MusicTime(0, Beat::whole(1)),
        duration: Beat::whole(1),
        volume: Volume(50),
        pitch: Pitch(4, 5),
    };
    let c_ev = Event {
        start: MusicTime::zero(),
        duration: Beat::whole(1),
        volume: Volume(50),
        pitch: Pitch(4, 3),
    };
    assert_eq!(all.len(), 2);
    assert!(all[0].0 == Instrument::SineWave);
    assert!(all[0].1 == d_ev);
    assert!(all[1].0 == Instrument::SineWave);
    assert!(all[1].1 == c_ev);
}

/// Without looping the window is start-exclusive and end-inclusive: a poll
/// from cursor zero with one beat of lookahead picks up the note at beat
/// one, and the following window holds nothing.
#[test]
fn scheduler_window_start_exclusive_end_inclusive() {
    let ms = MusicString::from_str(":c<1> :d<1>").unwrap();
    let ts = TimeSignature(4, 4);
    let comp = ms.compose(ts, None).unwrap();
    let tracks: Vec<(music_turtles::composition::Track, MusicTime)> =
        comp.tracks.into_iter().map(|t| (t, MusicTime::zero())).collect();
    let mut sched = Scheduler::new(
        ts,
        tracks,
        MusicTime(0, Beat::whole(1)),
        false,
        MusicTime(1, Beat::zero()),
    );
    let first = sched.next_events(MusicTime::zero()).unwrap();
    assert_eq!(first.len(), 1);
    assert!(first[0].1.start == MusicTime(0, Beat::whole(1)));
    let second = sched.next_events(MusicTime(0, Beat::whole(1))).unwrap();
    assert_eq!(second.len(), 0);
}
