use crate::composition::{evs, spec_events_between, Event, EventV, Instrument, Track, TrackV};
use crate::time::{
    mt_lt, spec_mt_add, spec_mt_add_fits, spec_mt_sub, spec_mt_sub_fits, spec_mt_sub_ok, FracV,
    MtV, MusicTime, TimeSignature,
};
use vstd::prelude::*;

verus! {

/// The playback cursor state over a compiled score: per track the events
/// already handed out are those at or before its cursor; each poll emits
/// the events of the next lookahead window and advances the cursors.
pub struct Scheduler {
    pub time_signature: TimeSignature,
    pub tracks: Vec<(Track, MusicTime)>,
    pub lookahead: MusicTime,
    pub looped: bool,
    pub loop_time: MusicTime,
}

/// The views of the per-track cursor pairs.
pub open spec fn pairs_view(s: Seq<(Track, MusicTime)>) -> Seq<(TrackV, MtV)> {
    s.map_values(|p: (Track, MusicTime)| (p.0@, p.1@))
}

/// The views of an emitted batch.
pub open spec fn batch_view(s: Seq<(Instrument, Event)>) -> Seq<(Instrument, EventV)> {
    s.map_values(|p: (Instrument, Event)| (p.0, p.1@))
}

/// Each event of one track's selection, tagged with the track's instrument.
pub open spec fn with_instr(i: Instrument, es: Seq<EventV>) -> Seq<(Instrument, EventV)> {
    es.map_values(|e: EventV| (i, e))
}

/// What one poll selects from one track with cursor `c`: the window
/// `(c, wend]` when the window does not wrap; when it wraps, nothing if the
/// unwrapped window end is still behind the cursor, else the tail of the
/// loop `(c, loop_t]` followed by the wrapped head `[zero, wrapped_end]`.
pub open spec fn spec_poll_track(
    t: TrackV,
    c: MtV,
    wend: MtV,
    wrapping: bool,
    loop_t: MtV,
    wrapped_end: MtV,
) -> Seq<EventV> {
    if !wrapping {
        spec_events_between(t, c, wend, true)
    } else if mt_lt(wend, c) {
        Seq::empty()
    } else {
        spec_events_between(t, c, loop_t, true) + spec_events_between(
            t,
            MtV { m: 0, b: FracV { n: 0, d: 1 } },
            wrapped_end,
            false,
        )
    }
}

/// One poll over every track, batches concatenated in track order.
pub open spec fn spec_poll_tracks(
    pairs: Seq<(TrackV, MtV)>,
    wend: MtV,
    wrapping: bool,
    loop_t: MtV,
    wrapped_end: MtV,
) -> Seq<(Instrument, EventV)>
    decreases pairs.len(),
{
    if pairs.len() == 0 {
        Seq::empty()
    } else {
        with_instr(
            pairs[0].0.instrument,
            spec_poll_track(pairs[0].0, pairs[0].1, wend, wrapping, loop_t, wrapped_end),
        ) + spec_poll_tracks(pairs.drop_first(), wend, wrapping, loop_t, wrapped_end)
    }
}

/// Whether a poll at `current` stays inside the machine representation:
/// the window end must fit, and on a wrap the wrapped end must exist, fit,
/// and land inside one loop.
pub open spec fn spec_poll_fits(s: Scheduler, current: MtV) -> bool {
    let tsi = s.time_signature.0 as int;
    &&& spec_mt_add_fits(current, s.lookahead@, tsi)
    &&& {
        let wend = spec_mt_add(current, s.lookahead@, tsi);
        (s.looped && mt_lt(s.loop_time@, wend)) ==> {
            &&& spec_mt_sub_ok(wend, s.loop_time@, tsi)
            &&& spec_mt_sub_fits(wend, s.loop_time@, tsi)
            &&& !mt_lt(s.loop_time@, spec_mt_sub(wend, s.loop_time@, tsi))
        }
    }
}

impl Scheduler {
    pub fn new(
        time_signature: TimeSignature,
        tracks: Vec<(Track, MusicTime)>,
        lookahead: MusicTime,
        looped: bool,
        loop_time: MusicTime,
    ) -> (r: Scheduler)
        ensures
            r.time_signature == time_signature,
            r.tracks == tracks,
            r.lookahead == lookahead,
            r.looped == looped,
            r.loop_time == loop_time,
    {
        Scheduler { time_signature, tracks, lookahead, looped, loop_time }
    }

    /// One poll at an already loop-normalized current music time. Per track
    /// with cursor `c` the batch holds the events of `(c, window_end]`, the
    /// window split at the loop end and continued from zero when it wraps;
    /// every cursor then advances to the (wrapped) window end. `None`
    /// exactly when a computed time leaves the representation or the
    /// lookahead spans more than one whole loop; nothing changes then.
    #[verifier::loop_isolation(false)]
    #[verifier::rlimit(60)]
    pub fn next_events(&mut self, current: MusicTime) -> (r: Option<Vec<(Instrument, Event)>>)
        requires
            old(self).time_signature.0 >= 1,
        ensures
            r is Some <==> spec_poll_fits(*old(self), current@),
            r is None ==> *final(self) == *old(self),
            final(self).time_signature == old(self).time_signature,
            final(self).lookahead == old(self).lookahead,
            final(self).looped == old(self).looped,
            final(self).loop_time == old(self).loop_time,
            r matches Some(batch) ==> ({
                let tsi = old(self).time_signature.0 as int;
                let wend = spec_mt_add(current@, old(self).lookahead@, tsi);
                let wrapping = old(self).looped && mt_lt(old(self).loop_time@, wend);
                let wrapped_end = if wrapping {
                    spec_mt_sub(wend, old(self).loop_time@, tsi)
                } else {
                    wend
                };
                &&& batch_view(batch@) == spec_poll_tracks(
                    pairs_view(old(self).tracks@),
                    wend,
                    wrapping,
                    old(self).loop_time@,
                    wrapped_end,
                )
                &&& final(self).tracks@.len() == old(self).tracks@.len()
                &&& forall|k: int|
                    0 <= k < old(self).tracks@.len() ==> (#[trigger] final(self).tracks@[k]).0
                        == old(self).tracks@[k].0 && final(self).tracks@[k].1@ == (if wrapping {
                        wrapped_end
                    } else {
                        wend
                    })
            }),
    {
        let ghost tsi = self.time_signature.0 as int;
        let wend = match current.with(self.time_signature).checked_add(self.lookahead) {
            None => {
                return None;
            },
            Some(w) => w,
        };
        let wrapping = self.looped && self.loop_time.lt(&wend);
        let wrapped_end = if wrapping {
            match wend.with(self.time_signature).checked_sub(self.loop_time) {
                None => {
                    return None;
                },
                Some(w) => {
                    if self.loop_time.lt(&w) {
                        // The lookahead reaches past a whole further loop.
                        return None;
                    }
                    w
                },
            }
        } else {
            wend
        };
        let ghost pv = pairs_view(self.tracks@);
        let ghost ltv = self.loop_time@;
        let ghost cursor_after = if wrapping {
            wrapped_end@
        } else {
            wend@
        };
        let zero = MusicTime::zero();
        let mut out: Vec<(Instrument, Event)> = Vec::new();
        let mut k: usize = 0;
        proof {
            assert(pv.skip(0) =~= pv);
            assert(batch_view(out@) =~= Seq::<(Instrument, EventV)>::empty());
            assert(batch_view(out@) + spec_poll_tracks(pv, wend@, wrapping, ltv, wrapped_end@)
                =~= spec_poll_tracks(pv, wend@, wrapping, ltv, wrapped_end@));
        }
        while k < self.tracks.len()
            invariant
                k <= self.tracks@.len(),
                self.tracks@.len() == old(self).tracks@.len(),
                self.time_signature == old(self).time_signature,
                self.lookahead == old(self).lookahead,
                self.looped == old(self).looped,
                self.loop_time == old(self).loop_time,
                self.time_signature.0 >= 1,
                tsi == self.time_signature.0 as int,
                ltv == self.loop_time@,
                pv == pairs_view(old(self).tracks@),
                forall|q: int|
                    0 <= q < k ==> (#[trigger] self.tracks@[q]).0 == old(self).tracks@[q].0
                        && self.tracks@[q].1@ == cursor_after,
                forall|q: int|
                    k <= q < self.tracks@.len() ==> #[trigger] self.tracks@[q] == old(
                        self,
                    ).tracks@[q],
                spec_poll_tracks(pv, wend@, wrapping, ltv, wrapped_end@) == batch_view(out@)
                    + spec_poll_tracks(pv.skip(k as int), wend@, wrapping, ltv, wrapped_end@),
            decreases self.tracks@.len() - k,
        {
            proof {
                let suf = pv.skip(k as int);
                assert(suf[0] == pv[k as int]);
                assert(suf.drop_first() =~= pv.skip(k as int + 1));
                assert(pv[k as int] == (
                    old(self).tracks@[k as int].0@,
                    old(self).tracks@[k as int].1@,
                ));
                assert(self.tracks@[k as int] == old(self).tracks@[k as int]);
            }
            let pair = self.tracks.remove(k);
            let (t, c) = pair;
            let selected: Vec<Event> = if !wrapping {
                t.get_events_starting_between(c, wend, true)
            } else if wend.lt(&c) {
                let empty_sel: Vec<Event> = Vec::new();
                proof {
                    assert(evs(empty_sel@) =~= Seq::<EventV>::empty());
                }
                empty_sel
            } else {
                let mut head = t.get_events_starting_between(c, self.loop_time, true);
                let tail = t.get_events_starting_between(zero, wrapped_end, false);
                let ghost hv = evs(head@);
                let ghost tv = evs(tail@);
                let mut tail_mut = tail;
                head.append(&mut tail_mut);
                proof {
                    assert(evs(head@) =~= hv + tv);
                }
                head
            };
            proof {
                assert(evs(selected@) == spec_poll_track(
                    pv[k as int].0,
                    pv[k as int].1,
                    wend@,
                    wrapping,
                    ltv,
                    wrapped_end@,
                ));
            }
            let instr = t.instrument;
            let ghost out_pre = batch_view(out@);
            let mut j: usize = 0;
            while j < selected.len()
                invariant
                    j <= selected@.len(),
                    instr == pv[k as int].0.instrument,
                    batch_view(out@) =~= out_pre + with_instr(instr, evs(selected@)).subrange(
                        0,
                        j as int,
                    ),
                decreases selected@.len() - j,
            {
                let ghost out_before = out@;
                out.push((instr, selected[j]));
                proof {
                    let wi = with_instr(instr, evs(selected@));
                    assert(evs(selected@)[j as int] == selected@[j as int]@);
                    assert(wi[j as int] == (instr, selected@[j as int]@));
                    assert(batch_view(out@) =~= batch_view(out_before).push(
                        (instr, selected@[j as int]@),
                    ));
                    assert(out_pre + wi.subrange(0, j as int + 1) =~= (out_pre + wi.subrange(
                        0,
                        j as int,
                    )).push(wi[j as int]));
                    assert(batch_view(out@) =~= out_pre + wi.subrange(0, j as int + 1));
                }
                j += 1;
            }
            proof {
                let wi = with_instr(instr, evs(selected@));
                assert(wi.subrange(0, selected@.len() as int) =~= wi);
                let rest = spec_poll_tracks(pv.skip(k as int + 1), wend@, wrapping, ltv, wrapped_end@);
                assert(out_pre + wi + rest =~= out_pre + (wi + rest));
            }
            let new_cursor = if wrapping {
                wrapped_end
            } else {
                wend
            };
            self.tracks.insert(k, (t, new_cursor));
            k += 1;
        }
        proof {
            assert(pv.skip(self.tracks@.len() as int) =~= Seq::<(TrackV, MtV)>::empty());
            assert(batch_view(out@) + Seq::<(Instrument, EventV)>::empty() =~= batch_view(out@));
        }
        Some(out)
    }
}

} // verus!
