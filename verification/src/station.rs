//! What becomes of each frame: the table, the counters, the gain loop's meter and
//! the two streams that go out.

use crate::beast::message;
use crate::beast_in::{InFrame, MLAT_MAGIC};
use crate::demod::Frame;
use crate::intake::Meter;
use crate::publish::{emit, offered_on, relay, relayed_on, sent_on, signal_byte, signal_of};
use crate::reduce::{Reducer, after, fresh, leaves_room, passes};
use crate::stats::{History, Stats, nothing, ticked, with_frame};
use crate::track::{
    Aircraft, Position, Report, Sky, Tracker, Verdict, contradicts, heard, hex_of, mlat_offered, names_itself,
    offered,
};
use std::collections::HashSet;
use vstd::prelude::*;

verus! {

broadcast use vstd::std_specs::hash::group_hash_axioms;

/// Aircraft silent for longer than this, milliseconds, leave the table.
pub const SILENT_MS: u64 = 60_000;

/// Everything that a frame leaves a trace in.
pub struct Station {
    pub tracker: Tracker,
    pub stats: Stats,
    pub meter: Meter,
    pub reducer: Reducer,
    /// Frames sent out, in all and since the last second was closed.
    pub frames: u64,
    pub second: u64,
    /// The addresses heard of since the start.
    pub addresses: HashSet<u32>,
}

/// The frame `f` is a long one that carries its address.
pub open spec fn is_squitter(f: Seq<u8>) -> bool {
    f.len() == 14 && (f[0] / 8 == 17 || f[0] / 8 == 18)
}

/// The frame `f` is turned away: it was repaired and contradicts the track of its
/// aircraft.
pub open spec fn is_turned_away(
    s: Sky,
    f: Seq<u8>,
    r: Option<Report>,
    pos: Option<Position>,
    fixed: u8,
    now: u64,
) -> bool {
    names_itself(f) && contradicts(s, f, r, pos, fixed, now)
}

impl Station {
    /// The parts are well formed.
    pub open spec fn wf(&self) -> bool {
        self.tracker.wf() && self.stats.wf()
    }

    /// A station started at `now`, milliseconds, with the tuner at `gain` tenths
    /// of a dB and a reduced stream of this interval.
    pub fn new(now: u64, gain: Option<i32>, interval_ms: u64) -> (s: Station)
        ensures
            s.wf(),
            s.tracker@ == (Sky { aircraft: Map::empty(), messages: 0, rejected: 0 }),
            s.stats@ == (History {
                start: now,
                total: nothing(),
                current: nothing(),
                minute: Seq::empty(),
                last_written: 0,
                gain,
            }),
            s.meter.is_empty(),
            s.reducer@ == fresh(interval_ms),
            s.frames == 0,
            s.second == 0,
            s.addresses@ == Set::<u32>::empty(),
    {
        Station {
            tracker: Tracker::new(),
            stats: Stats::new(now, gain),
            meter: Meter::new(),
            reducer: Reducer::new(interval_ms),
            frames: 0,
            second: 0,
            addresses: HashSet::new(),
        }
    }

    /// A frame off the air at `now`, milliseconds, with the position report it
    /// holds and the position of the pair it completes, if any. One that is turned
    /// away goes on neither stream and counts for nothing. Returns whether it was
    /// sent out.
    pub fn frame(
        &mut self,
        f: &Frame,
        r: Option<Report>,
        pos: Option<Position>,
        now: u64,
        full: &mut Vec<u8>,
        reduced: &mut Vec<u8>,
    ) -> (sent: bool)
        requires
            old(self).wf(),
            f.bytes@.len() == 7 || f.bytes@.len() == 14,
            leaves_room(old(self).reducer@, f.bytes@, now),
        ensures
            final(self).wf(),
            sent == !is_turned_away(old(self).tracker@, f.bytes@, r, pos, f.fixed, now),
            final(self).tracker@ == offered(
                old(self).tracker@,
                f.bytes@,
                r,
                pos,
                f.signal,
                f.fixed,
                now,
            ),
            !sent ==> {
                &&& final(full)@ == old(full)@
                &&& final(reduced)@ == old(reduced)@
                &&& final(self).stats@ == old(self).stats@
                &&& final(self).meter == old(self).meter
                &&& final(self).reducer@ == old(self).reducer@
                &&& final(self).frames == old(self).frames
                &&& final(self).second == old(self).second
                &&& final(self).addresses@ == old(self).addresses@
            },
            sent ==> {
                let m = message(f.bytes@, f.start, signal_of(f.signal));
                &&& final(full)@ == sent_on(old(full)@, f@)
                &&& final(reduced)@ == offered_on(old(reduced)@, old(self).reducer@, f@, now)
                &&& final(full)@ == old(full)@ + m
                &&& final(reduced)@ == if passes(old(self).reducer@, f.bytes@, now) {
                    old(reduced)@ + m
                } else {
                    old(reduced)@
                }
                &&& final(self).stats@ == (History {
                    current: with_frame(old(self).stats@.current, f.signal, f.fixed),
                    ..old(self).stats@
                })
                &&& final(self).meter == (Meter {
                    strong: old(self).meter.strong || signal_of(f.signal) >= 250,
                    ..old(self).meter
                })
                &&& final(self).reducer@ == after(old(self).reducer@, f.bytes@, now)
                &&& final(self).frames == old(self).frames.wrapping_add(1)
                &&& final(self).second == old(self).second.wrapping_add(1)
                &&& final(self).addresses@ == if is_squitter(f.bytes@) {
                    old(self).addresses@.insert(hex_of(f.bytes@))
                } else {
                    old(self).addresses@
                }
            },
    {
        let v: Verdict = self.tracker.offer(f.bytes.as_slice(), r, pos, f.signal, f.fixed, now);
        if v == Verdict::Reject {
            return false;
        }
        self.frames = self.frames.wrapping_add(1);
        self.second = self.second.wrapping_add(1);
        self.stats.frame(f.signal, f.fixed);
        let df: u8 = f.bytes[0] / 8;
        if f.bytes.len() == 14 && (df == 17 || df == 18) {
            let a: u32 = f.bytes[1] as u32 * 0x1_0000 + f.bytes[2] as u32 * 0x100 + f.bytes[3] as u32;
            let _ = self.addresses.insert(a);
        }
        self.meter.frame(signal_byte(f.signal));
        emit(f, &mut self.reducer, now, full, reduced);
        true
    }

    /// A frame received over the network at `now`: a multilateration result, told
    /// by its timestamp, goes to the table with the altitude it holds and the
    /// position of the pair it completes. Everything received goes on the full
    /// stream.
    pub fn received(
        &mut self,
        f: &InFrame,
        alt_ft: Option<i32>,
        pos: Option<(i64, i64)>,
        now: u64,
        full: &mut Vec<u8>,
    )
        requires
            old(self).wf(),
            f.bytes@.len() <= 14,
        ensures
            final(self).wf(),
            final(full)@ == relayed_on(old(full)@, f@),
            final(full)@ == old(full)@ + message(f.bytes@, f.ts, f.signal),
            final(self).tracker@ == if f.ts == MLAT_MAGIC {
                mlat_offered(old(self).tracker@, f.bytes@, alt_ft, pos, now)
            } else {
                old(self).tracker@
            },
            final(self).stats@ == old(self).stats@,
            final(self).meter == old(self).meter,
            final(self).reducer@ == old(self).reducer@,
            final(self).frames == old(self).frames,
            final(self).second == old(self).second,
            final(self).addresses@ == old(self).addresses@,
    {
        if f.is_mlat() {
            self.tracker.offer_mlat(f.bytes.as_slice(), alt_ft, pos, now);
        }
        relay(f, full);
    }

    /// Close a second at `now`: silent aircraft leave the table and the counters
    /// move on. Returns the frames sent out in it, and whether the statistics are
    /// due.
    pub fn close_second(&mut self, now: u64) -> (r: (u64, bool))
        requires
            old(self).wf(),
        ensures
            final(self).wf(),
            r.0 == old(self).second,
            r.1 == (now - old(self).stats@.last_written >= 10_000),
            final(self).tracker@ == (Sky {
                aircraft: heard(old(self).tracker@.aircraft, now, SILENT_MS),
                ..old(self).tracker@
            }),
            final(self).stats@ == ticked(old(self).stats@, now),
            final(self).second == 0,
            final(self).meter == old(self).meter,
            final(self).reducer@ == old(self).reducer@,
            final(self).frames == old(self).frames,
            final(self).addresses@ == old(self).addresses@,
    {
        self.tracker.expire(now, SILENT_MS);
        let due: bool = self.stats.tick(now);
        let n: u64 = self.second;
        self.second = 0;
        (n, due)
    }

    /// How many addresses were heard of since the start.
    pub fn heard_of(&self) -> (n: usize)
        ensures
            n == self.addresses@.len(),
    {
        self.addresses.len()
    }
}

/// An aircraft leaves the table when nothing was heard of it for more than a minute.
pub proof fn law_silence_lasts_a_minute(aircraft: Map<u32, Aircraft>, now: u64, k: u32)
    requires
        aircraft.contains_key(k),
    ensures
        heard(aircraft, now, SILENT_MS).contains_key(k) <==> now <= aircraft[k].last_seen + 60 * 1000,
        heard(aircraft, now, SILENT_MS).contains_key(k) ==> heard(aircraft, now, SILENT_MS)[k] == aircraft[k],
{
}

/// Only a frame of format 17 or 18 that was repaired, for an aircraft whose position is
/// known, is ever turned away, and a frame of 14 bytes of these formats is what makes an
/// address heard of.
pub proof fn law_few_frames_are_turned_away(
    s: Sky,
    f: Seq<u8>,
    r: Option<Report>,
    pos: Option<Position>,
    fixed: u8,
    now: u64,
)
    ensures
        is_turned_away(s, f, r, pos, fixed, now) ==> {
            &&& fixed > 0
            &&& f[0] / 8 == 17 || f[0] / 8 == 18
            &&& s.aircraft.contains_key(hex_of(f))
            &&& s.aircraft[hex_of(f)].lat is Some && s.aircraft[hex_of(f)].lon is Some
            &&& pos matches Some(p) && p.moved_mm > 2_000_000
        },
        is_squitter(f) <==> f.len() == 14 && (f[0] / 8 == 17 || f[0] / 8 == 18),
{
}

} // verus!
