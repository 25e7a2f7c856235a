use music_turtles::cfg::MusicString;
use music_turtles::composition::Instrument;
use music_turtles::time::{Beat, MusicTime, TimeSignature};

#[test]
fn two_notes_in_sequence() {
    // Two one-beat sine-wave notes, starting at beat zero and beat one.
    let ms = MusicString::parse(":c<1> :d<1>").unwrap();
    let comp = ms.compose(TimeSignature::common(), None).unwrap();
    assert_eq!(comp.tracks.len(), 1);
    assert_eq!(comp.tracks[0].instrument, Instrument::SineWave);
    let evs = &comp.tracks[0].events;
    assert_eq!(evs.len(), 2);
    assert_eq!(evs[0].start, MusicTime(0, Beat::zero()));
    assert_eq!(evs[0].duration, Beat::whole(1));
    assert_eq!(evs[1].start, MusicTime(0, Beat::whole(1)));
    assert_eq!(evs[1].duration, Beat::whole(1));
    let d = comp.get_duration().unwrap();
    assert_eq!(d, MusicTime(0, Beat::whole(2)));
}

#[test]
fn split_of_two_repeats() {
    // Two instrument-equal branches of identical total duration.
    let ms = MusicString::parse("{[2][:c] | [2][:g]}").unwrap();
    let comp = ms.compose(TimeSignature::common(), None).unwrap();
    assert_eq!(comp.tracks.len(), 1);
    let evs = &comp.tracks[0].events;
    assert_eq!(evs.len(), 4);
    let d = comp.get_duration().unwrap();
    assert_eq!(d, MusicTime(0, Beat::whole(2)));
    // Both branches start at the same offsets.
    assert_eq!(evs[0].start, MusicTime(0, Beat::zero()));
    assert_eq!(evs[1].start, MusicTime(0, Beat::zero()));
    assert_eq!(evs[2].start, MusicTime(0, Beat::whole(1)));
    assert_eq!(evs[3].start, MusicTime(0, Beat::whole(1)));
}

#[test]
fn split_with_unequal_branches_fails() {
    let ms = MusicString::parse("{:c<2> | :g<1>}").unwrap();
    let r = ms.compose(TimeSignature::common(), None);
    assert!(r.is_err());
}

#[test]
fn repeat_duration_scales() {
    let ms = MusicString::parse("[3][:c<2> :d<2>]").unwrap();
    let comp = ms.compose(TimeSignature::common(), None).unwrap();
    let d = comp.get_duration().unwrap();
    assert_eq!(d, MusicTime(3, Beat::zero()));
}

#[test]
fn rewrite_is_deterministic_without_randomness() {
    let g = music_turtles::cfg::Grammar::parse("start S\nS = :c S :d\n").unwrap();
    let ms = MusicString::parse("S").unwrap();
    let a = ms.parallel_rewrite_n(&g, false, 3);
    let b = ms.parallel_rewrite_n(&g, false, 3);
    let ca = a.compose(TimeSignature::common(), None).unwrap();
    let cb = b.compose(TimeSignature::common(), None).unwrap();
    assert!(ca == cb);
}

#[test]
fn time_arithmetic_borrows_measures() {
    let ts = TimeSignature::common();
    let mt1 = MusicTime(1, Beat::whole(0));
    let mt2 = MusicTime(0, Beat::whole(3));
    assert_eq!(mt1.with(ts).checked_sub(mt2).unwrap(), MusicTime(0, Beat::whole(1)));
    let mt3 = MusicTime(2, Beat::whole(0));
    assert_eq!(mt3.with(ts).checked_sub(mt2).unwrap(), MusicTime(1, Beat::whole(1)));
    let a = MusicTime(0, Beat::new(1, 2));
    let b = MusicTime(0, Beat::new(1, 3));
    let sum = a.with(ts).checked_add(b).unwrap();
    assert_eq!(sum, MusicTime(0, Beat::new(5, 6)));
}
