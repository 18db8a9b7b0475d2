//! The aircraft table: what the radio knows about each address it hears.
//! Positions come from even/odd pairs of position messages within 10 s. The
//! table is also the consistency check for repaired position messages: a
//! repaired frame whose decoded position is impossibly far from the aircraft's
//! last one is rejected before it is published.
//!
//! Times are milliseconds, positions billionths of a degree, distances
//! millimeters, levels raw magnitude units scaled by 6336. Turning a pair of
//! messages into a position, and measuring how far apart two positions are,
//! takes trigonometry and is done outside.

use crate::crc::{crc24, crc24_of};
use std::collections::HashMap;
use vstd::prelude::*;
use vstd::std_specs::hash::group_hash_axioms;

verus! {

broadcast use group_hash_axioms;

/// One of a pair of position messages: when it came, and its coordinates as
/// sent.
#[derive(Debug, Clone, Copy, PartialEq, Eq, Structural)]
pub struct Half {
    pub at: u64,
    pub lat: u32,
    pub lon: u32,
}

/// What is known of one aircraft.
#[derive(Debug, Clone, Copy)]
pub struct Aircraft {
    pub hex: u32,
    pub last_seen: u64,
    pub messages: u64,
    /// Last signal level.
    pub signal: u32,
    pub lat: Option<i64>,
    pub lon: Option<i64>,
    pub pos_time: u64,
    /// The current position came from multilateration, not from the aircraft.
    pub pos_mlat: bool,
    pub alt_ft: Option<i32>,
    pub even: Option<Half>,
    pub odd: Option<Half>,
    /// Pair store for multilateration results, kept apart from the aircraft's
    /// own.
    pub mlat_even: Option<Half>,
    pub mlat_odd: Option<Half>,
}

/// An aircraft just heard of.
pub open spec fn newcomer(hex: u32, now: u64, signal: u32) -> Aircraft {
    Aircraft {
        hex,
        last_seen: now,
        messages: 0,
        signal,
        lat: None,
        lon: None,
        pos_time: 0,
        pos_mlat: false,
        alt_ft: None,
        even: None,
        odd: None,
        mlat_even: None,
        mlat_odd: None,
    }
}

impl Aircraft {
    fn new(hex: u32, now: u64, signal: u32) -> (a: Aircraft)
        ensures
            a == newcomer(hex, now, signal),
    {
        Aircraft {
            hex,
            last_seen: now,
            messages: 0,
            signal,
            lat: None,
            lon: None,
            pos_time: 0,
            pos_mlat: false,
            alt_ft: None,
            even: None,
            odd: None,
            mlat_even: None,
            mlat_odd: None,
        }
    }
}

/// An airborne position message.
#[derive(Debug, Clone, Copy)]
pub struct Airborne {
    pub odd: bool,
    pub cpr_lat: u32,
    pub cpr_lon: u32,
    /// The altitude as sent, 12 bits.
    pub ac12: u16,
}

/// The 56 bits of an extended squitter's message.
pub open spec fn message_bits(f: Seq<u8>) -> int {
    (((((f[4] * 256 + f[5]) * 256 + f[6]) * 256 + f[7]) * 256 + f[8]) * 256 + f[9]) * 256 + f[10]
}

/// What an airborne position message says: one of 14 bytes, of format 17 or 18
/// and type 9 to 18, whose checksum comes out.
pub open spec fn airborne_of(f: Seq<u8>) -> Option<Airborne> {
    let me = message_bits(f);
    let tc = me / 0x8_0000_0000_0000 % 32;
    if f.len() == 14 && (f[0] / 8 == 17 || f[0] / 8 == 18) && crc24_of(f) == 0 && 9 <= tc <= 18 {
        Some(
            Airborne {
                odd: me / 0x4_0000_0000 % 2 == 1,
                cpr_lat: (me / 0x2_0000 % 0x2_0000) as u32,
                cpr_lon: (me % 0x2_0000) as u32,
                ac12: (me / 0x10_0000_0000 % 0x1000) as u16,
            },
        )
    } else {
        None
    }
}

/// An airborne position message of format 17 or 18, checksum checked.
pub fn parse_airborne(f: &[u8]) -> (p: Option<Airborne>)
    ensures
        p == airborne_of(f@),
{
    if f.len() != 14 || !(f[0] / 8 == 17 || f[0] / 8 == 18) || crc24(f) != 0 {
        return None;
    }
    let me: u64 = (((((f[4] as u64 * 256 + f[5] as u64) * 256 + f[6] as u64) * 256 + f[7] as u64) * 256
        + f[8] as u64) * 256 + f[9] as u64) * 256 + f[10] as u64;
    let tc: u64 = me / 0x8_0000_0000_0000 % 32;
    if tc < 9 || tc > 18 {
        return None;
    }
    Some(
        Airborne {
            odd: me / 0x4_0000_0000 % 2 == 1,
            cpr_lat: (me / 0x2_0000 % 0x2_0000) as u32,
            cpr_lon: (me % 0x2_0000) as u32,
            ac12: (me / 0x10_0000_0000 % 0x1000) as u16,
        },
    )
}

/// A position report of an aircraft: one half of a pair, and its altitude.
#[derive(Debug, Clone, Copy)]
pub struct Report {
    pub odd: bool,
    pub cpr_lat: u32,
    pub cpr_lon: u32,
    pub alt_ft: Option<i32>,
}

/// The even and the odd half of a pair, and which came last.
#[derive(Debug, Clone, Copy)]
pub struct Pair {
    pub even: (u32, u32),
    pub odd: (u32, u32),
    pub last_odd: bool,
}

/// A position worked out from a pair, and how far it is from the last position
/// of the aircraft, where there is one.
#[derive(Debug, Clone, Copy)]
pub struct Position {
    pub lat: i64,
    pub lon: i64,
    pub moved_mm: u64,
}

/// Halves count as a pair within this many milliseconds.
pub const PAIR_MS: u64 = 10_000;

/// A position that the aircraft sent stands against multilateration for this
/// many milliseconds.
pub const FRESH_MS: u64 = 30_000;

/// Aircraft that can be heard cover at most this many millimeters in a
/// millisecond, and positions are this many millimeters off.
pub const SPEED: u64 = 400;

pub const SLACK_MM: u64 = 2_000_000;

/// The pair that a half completes with the other one before it.
pub open spec fn paired(odd: bool, lat: u32, lon: u32, partner: Option<Half>, now: u64) -> Option<Pair> {
    match partner {
        Some(h) => if now - h.at < PAIR_MS {
            Some(
                if odd {
                    Pair { even: (h.lat, h.lon), odd: (lat, lon), last_odd: true }
                } else {
                    Pair { even: (lat, lon), odd: (h.lat, h.lon), last_odd: false }
                },
            )
        } else {
            None
        },
        None => None,
    }
}

/// The address in the second to fourth byte.
pub open spec fn hex_of(f: Seq<u8>) -> u32 {
    (f[1] * 0x1_0000 + f[2] * 0x100 + f[3]) as u32
}

/// The table as a value.
pub struct Sky {
    pub aircraft: Map<u32, Aircraft>,
    pub messages: u64,
    /// Repaired position messages rejected by the consistency check.
    pub rejected: u64,
}

/// The aircraft `hex`, or a newcomer.
pub open spec fn found(s: Sky, hex: u32, now: u64, signal: u32) -> Aircraft {
    if s.aircraft.contains_key(hex) {
        s.aircraft[hex]
    } else {
        newcomer(hex, now, signal)
    }
}

/// The pair that the report `r` of the aircraft `hex` completes.
pub open spec fn pair_of(s: Sky, hex: u32, r: Report, now: u64) -> Option<Pair> {
    if s.aircraft.contains_key(hex) {
        let a = s.aircraft[hex];
        paired(r.odd, r.cpr_lat, r.cpr_lon, if r.odd { a.even } else { a.odd }, now)
    } else {
        None
    }
}

/// A position is too far from the last one of the aircraft for the time since
/// then.
pub open spec fn is_far(a: Aircraft, moved_mm: u64, now: u64) -> bool {
    let dt = if now > a.pos_time { now - a.pos_time } else { 0 };
    a.lat is Some && a.lon is Some && moved_mm > SPEED * dt + SLACK_MM
}

/// The frame contradicts the aircraft's track: it was repaired, and the position
/// that it completes is too far away.
pub open spec fn contradicts(s: Sky, f: Seq<u8>, r: Option<Report>, pos: Option<Position>, fixed: u8, now: u64) -> bool {
    let hex = hex_of(f);
    &&& f[0] / 8 == 17 || f[0] / 8 == 18
    &&& fixed > 0
    &&& r is Some && pair_of(s, hex, r->0, now) is Some && pos is Some
    &&& is_far(s.aircraft[hex], pos->0.moved_mm, now)
}

/// The aircraft with a report taken in, and the position where there is one.
pub open spec fn with_report(a: Aircraft, r: Report, pos: Option<Position>, now: u64) -> Aircraft {
    let half = Some(Half { at: now, lat: r.cpr_lat, lon: r.cpr_lon });
    let b = Aircraft {
        even: if r.odd { a.even } else { half },
        odd: if r.odd { half } else { a.odd },
        ..a
    };
    match pos {
        Some(p) => Aircraft {
            lat: Some(p.lat),
            lon: Some(p.lon),
            pos_time: now,
            pos_mlat: false,
            alt_ft: if r.alt_ft is Some { r.alt_ft } else { a.alt_ft },
            ..b
        },
        None => b,
    }
}

/// What the frame `f` leaves, when it is not rejected.
pub open spec fn taken(
    s: Sky,
    f: Seq<u8>,
    r: Option<Report>,
    pos: Option<Position>,
    signal: u32,
    now: u64,
) -> Sky {
    let hex = hex_of(f);
    let a = found(s, hex, now, signal);
    let b = match r {
        Some(r) => if f[0] / 8 == 17 || f[0] / 8 == 18 {
            with_report(a, r, if pair_of(s, hex, r, now) is Some { pos } else { None }, now)
        } else {
            a
        },
        None => a,
    };
    Sky {
        aircraft: s.aircraft.insert(
            hex,
            Aircraft { last_seen: now, messages: b.messages.wrapping_add(1), signal, ..b },
        ),
        messages: s.messages.wrapping_add(1),
        ..s
    }
}

/// Formats that carry their address in the clear.
pub open spec fn names_itself(f: Seq<u8>) -> bool {
    f[0] / 8 == 11 || f[0] / 8 == 17 || f[0] / 8 == 18
}

/// What a frame leaves.
pub open spec fn offered(
    s: Sky,
    f: Seq<u8>,
    r: Option<Report>,
    pos: Option<Position>,
    signal: u32,
    fixed: u8,
    now: u64,
) -> Sky {
    if !names_itself(f) {
        s
    } else if contradicts(s, f, r, pos, fixed, now) {
        Sky { rejected: s.rejected.wrapping_add(1), ..s }
    } else {
        taken(s, f, r, pos, signal, now)
    }
}

/// The pair that a multilateration result completes.
pub open spec fn mlat_pair_of(s: Sky, f: Seq<u8>, now: u64) -> Option<Pair> {
    match airborne_of(f) {
        Some(r) => if s.aircraft.contains_key(hex_of(f)) {
            let a = s.aircraft[hex_of(f)];
            paired(r.odd, r.cpr_lat, r.cpr_lon, if r.odd { a.mlat_even } else { a.mlat_odd }, now)
        } else {
            None
        },
        None => None,
    }
}

/// The aircraft has a position of its own that still stands.
pub open spec fn has_own_position(a: Aircraft, now: u64) -> bool {
    !a.pos_mlat && a.lat is Some && now - a.pos_time < FRESH_MS
}

/// The aircraft with a position from multilateration.
pub open spec fn with_mlat(a: Aircraft, alt_ft: Option<i32>, pos: (i64, i64), now: u64) -> Aircraft {
    Aircraft {
        lat: Some(pos.0),
        lon: Some(pos.1),
        pos_time: now,
        pos_mlat: true,
        alt_ft: if a.alt_ft is None { alt_ft } else { a.alt_ft },
        last_seen: if a.last_seen < now { now } else { a.last_seen },
        ..a
    }
}

/// What a multilateration result leaves.
pub open spec fn mlat_offered(
    s: Sky,
    f: Seq<u8>,
    alt_ft: Option<i32>,
    pos: Option<(i64, i64)>,
    now: u64,
) -> Sky {
    match airborne_of(f) {
        None => s,
        Some(r) => {
            let hex = hex_of(f);
            let a = found(s, hex, now, 0);
            let half = Some(Half { at: now, lat: r.cpr_lat, lon: r.cpr_lon });
            let b = Aircraft {
                mlat_even: if r.odd { a.mlat_even } else { half },
                mlat_odd: if r.odd { half } else { a.mlat_odd },
                ..a
            };
            let c = if mlat_pair_of(s, f, now) is Some && pos is Some && !has_own_position(a, now) {
                with_mlat(b, alt_ft, pos->0, now)
            } else {
                b
            };
            Sky { aircraft: s.aircraft.insert(hex, c), ..s }
        },
    }
}

/// The aircraft heard of in the last `ttl` milliseconds.
pub open spec fn heard(aircraft: Map<u32, Aircraft>, now: u64, ttl: u64) -> Map<u32, Aircraft> {
    Map::new(
        |k: u32| aircraft.contains_key(k) && now - aircraft[k].last_seen <= ttl,
        |k: u32| aircraft[k],
    )
}

/// Every aircraft stands under its own address.
pub open spec fn named(aircraft: Map<u32, Aircraft>) -> bool {
    forall|k: u32| #[trigger] aircraft.contains_key(k) ==> aircraft[k].hex == k
}

/// The aircraft `hex` is in `l`.
pub open spec fn is_in(l: Seq<Aircraft>, hex: u32) -> bool {
    exists|i: int| 0 <= i < l.len() && (#[trigger] l[i]).hex == hex
}

/// `l` is all of the aircraft, by address.
pub open spec fn is_list(l: Seq<Aircraft>, aircraft: Map<u32, Aircraft>) -> bool {
    &&& forall|i: int, j: int| 0 <= i < j < l.len() ==> (#[trigger] l[i]).hex < (#[trigger] l[j]).hex
    &&& forall|i: int|
        0 <= i < l.len() ==> aircraft.contains_key((#[trigger] l[i]).hex) && aircraft[l[i].hex] == l[i]
    &&& forall|k: u32| #[trigger]
        aircraft.contains_key(k) ==> is_in(l, k)
}

/// Outcome of offering a frame to the table.
#[derive(Debug, Clone, Copy, PartialEq, Eq, Structural)]
pub enum Verdict {
    Accept,
    /// A repaired position message contradicting the aircraft's track.
    Reject,
}

/// Everything the radio hears of.
pub struct Tracker {
    aircraft: HashMap<u32, Aircraft>,
    messages: u64,
    rejected: u64,
}

impl View for Tracker {
    type V = Sky;

    closed spec fn view(&self) -> Sky {
        Sky { aircraft: self.aircraft@, messages: self.messages, rejected: self.rejected }
    }
}

fn pair_up(odd: bool, lat: u32, lon: u32, partner: Option<Half>, now: u64) -> (p: Option<Pair>)
    ensures
        p == paired(odd, lat, lon, partner, now),
{
    match partner {
        Some(h) => if now < h.at || now - h.at < PAIR_MS {
            if odd {
                Some(Pair { even: (h.lat, h.lon), odd: (lat, lon), last_odd: true })
            } else {
                Some(Pair { even: (lat, lon), odd: (h.lat, h.lon), last_odd: false })
            }
        } else {
            None
        },
        None => None,
    }
}

fn hex(f: &[u8]) -> (h: u32)
    requires
        f@.len() >= 4,
    ensures
        h == hex_of(f@),
{
    f[1] as u32 * 0x1_0000 + f[2] as u32 * 0x100 + f[3] as u32
}

impl Tracker {
    /// Every aircraft stands under its own address.
    pub open spec fn wf(&self) -> bool {
        named(self@.aircraft)
    }

    pub fn new() -> (t: Tracker)
        ensures
            t.wf(),
            t@ == (Sky { aircraft: Map::empty(), messages: 0, rejected: 0 }),
    {
        Tracker { aircraft: HashMap::new(), messages: 0, rejected: 0 }
    }

    /// What is known of an aircraft.
    pub fn get(&self, hex: u32) -> (a: Option<Aircraft>)
        ensures
            a == (if self@.aircraft.contains_key(hex) {
                Some(self@.aircraft[hex])
            } else {
                None
            }),
    {
        match self.aircraft.get(&hex) {
            Some(a) => Some(*a),
            None => None,
        }
    }

    /// The pair that the report `r` of the aircraft `hex` completes.
    pub fn pair(&self, hex: u32, r: &Report, now: u64) -> (p: Option<Pair>)
        ensures
            p == pair_of(self@, hex, *r, now),
    {
        match self.aircraft.get(&hex) {
            Some(a) => pair_up(r.odd, r.cpr_lat, r.cpr_lon, if r.odd { a.even } else { a.odd }, now),
            None => None,
        }
    }

    /// Offer a decoded frame at wall time `now`. `r` is the position report it
    /// holds and `pos` the position of the pair it completes, if any; `fixed` is
    /// the repaired-bit count.
    pub fn offer(
        &mut self,
        f: &[u8],
        r: Option<Report>,
        pos: Option<Position>,
        signal: u32,
        fixed: u8,
        now: u64,
    ) -> (v: Verdict)
        requires
            old(self).wf(),
            f@.len() > 0,
            names_itself(f@) ==> f@.len() >= 4,
        ensures
            final(self).wf(),
            final(self)@ == offered(old(self)@, f@, r, pos, signal, fixed, now),
            v == Verdict::Reject <==> names_itself(f@) && contradicts(
                old(self)@,
                f@,
                r,
                pos,
                fixed,
                now,
            ),
    {
        let df: u8 = f[0] / 8;
        if !(df == 11 || df == 17 || df == 18) {
            // Address-parity frames are admitted upstream.
            return Verdict::Accept;
        }
        let h: u32 = hex(f);
        let known: Option<Aircraft> = self.get(h);
        let mut a: Aircraft = match known {
            Some(a) => a,
            None => Aircraft::new(h, now, signal),
        };
        if df == 17 || df == 18 {
            if let Some(r) = r {
                let fix: Option<Position> = match self.pair(h, &r, now) {
                    Some(_) => pos,
                    None => None,
                };
                if let Some(p) = fix {
                    // Against the last position, allow 400 m/s of travel plus
                    // 2 km. Applied to repaired frames only; a clean checksum is
                    // its own proof.
                    let dt: u64 = if now > a.pos_time { now - a.pos_time } else { 0 };
                    if fixed > 0 && a.lat.is_some() && a.lon.is_some() && p.moved_mm as u128 > SPEED as u128
                        * dt as u128 + SLACK_MM as u128 {
                        self.rejected = self.rejected.wrapping_add(1);
                        return Verdict::Reject;
                    }
                }
                let half: Option<Half> = Some(Half { at: now, lat: r.cpr_lat, lon: r.cpr_lon });
                if r.odd {
                    a.odd = half;
                } else {
                    a.even = half;
                }
                if let Some(p) = fix {
                    a.lat = Some(p.lat);
                    a.lon = Some(p.lon);
                    a.pos_time = now;
                    a.pos_mlat = false;
                    if r.alt_ft.is_some() {
                        a.alt_ft = r.alt_ft;
                    }
                }
            }
        }
        a.last_seen = now;
        a.messages = a.messages.wrapping_add(1);
        a.signal = signal;
        let _ = self.aircraft.insert(h, a);
        self.messages = self.messages.wrapping_add(1);
        Verdict::Accept
    }

    /// The pair that a multilateration result completes.
    pub fn mlat_pair(&self, f: &[u8], now: u64) -> (p: Option<Pair>)
        ensures
            p == mlat_pair_of(self@, f@, now),
    {
        match parse_airborne(f) {
            Some(r) => match self.aircraft.get(&hex(f)) {
                Some(a) => pair_up(
                    r.odd,
                    r.cpr_lat,
                    r.cpr_lon,
                    if r.odd { a.mlat_even } else { a.mlat_odd },
                    now,
                ),
                None => None,
            },
            None => None,
        }
    }

    /// A multilateration result. Paired through its own store; the position
    /// `pos` of the pair is taken only when the aircraft has no position of its
    /// own younger than 30 s. Never counted as a message the aircraft sent.
    /// `alt_ft` is the altitude that the result holds.
    pub fn offer_mlat(&mut self, f: &[u8], alt_ft: Option<i32>, pos: Option<(i64, i64)>, now: u64)
        requires
            old(self).wf(),
        ensures
            final(self).wf(),
            final(self)@ == mlat_offered(old(self)@, f@, alt_ft, pos, now),
    {
        let r: Airborne = match parse_airborne(f) {
            Some(r) => r,
            None => return,
        };
        let h: u32 = hex(f);
        let mut a: Aircraft = match self.get(h) {
            Some(a) => a,
            None => Aircraft::new(h, now, 0),
        };
        let pair: Option<Pair> = self.mlat_pair(f, now);
        let half: Option<Half> = Some(Half { at: now, lat: r.cpr_lat, lon: r.cpr_lon });
        if r.odd {
            a.mlat_odd = half;
        } else {
            a.mlat_even = half;
        }
        if pair.is_some() {
            if let Some((lat, lon)) = pos {
                let own: bool = !a.pos_mlat && a.lat.is_some() && (now < a.pos_time || now - a.pos_time
                    < FRESH_MS);
                if !own {
                    a.lat = Some(lat);
                    a.lon = Some(lon);
                    a.pos_time = now;
                    a.pos_mlat = true;
                    if a.alt_ft.is_none() {
                        a.alt_ft = alt_ft;
                    }
                    if a.last_seen < now {
                        a.last_seen = now;
                    }
                }
            }
        }
        let _ = self.aircraft.insert(h, a);
    }

    /// Drop aircraft silent for more than `ttl` milliseconds.
    pub fn expire(&mut self, now: u64, ttl: u64)
        requires
            old(self).wf(),
        ensures
            final(self).wf(),
            final(self)@ == (Sky { aircraft: heard(old(self)@.aircraft, now, ttl), ..old(self)@ }),
    {
        let ghost full = self.aircraft@;
        let mut kept: HashMap<u32, Aircraft> = HashMap::new();
        for kv in it: self.aircraft.iter()
            invariant
                self.aircraft@ == full,
                forall|j: int|
                    0 <= j < it.seq().len() ==> full.contains_key(*(#[trigger] it.seq()[j]).0)
                        && full[*it.seq()[j].0] == *it.seq()[j].1,
                forall|k: u32| #[trigger]
                    kept@.contains_key(k) ==> full.contains_key(k) && now - full[k].last_seen <= ttl
                        && kept@[k] == full[k],
                forall|j: int|
                    0 <= j < it.index() && now - (*(#[trigger] it.seq()[j]).1).last_seen <= ttl
                        ==> kept@.contains_key(*it.seq()[j].0),
        {
            let (k, a): (&u32, &Aircraft) = kv;
            if now < a.last_seen || now - a.last_seen <= ttl {
                let _ = kept.insert(*k, *a);
            }
        }
        assert forall|k: u32| full.contains_key(k) && now - full[k].last_seen <= ttl implies #[trigger] kept@.contains_key(
            k,
        ) by {}
        self.aircraft = kept;
        assert(self.aircraft@ =~= heard(full, now, ttl));
    }

    /// How many aircraft there are.
    pub fn count(&self) -> (n: usize)
        ensures
            n == self@.aircraft.len(),
    {
        self.aircraft.len()
    }

    pub fn messages(&self) -> (n: u64)
        ensures
            n == self@.messages,
    {
        self.messages
    }

    pub fn rejected(&self) -> (n: u64)
        ensures
            n == self@.rejected,
    {
        self.rejected
    }

    /// The aircraft by address.
    pub fn list(&self) -> (l: Vec<Aircraft>)
        requires
            self.wf(),
        ensures
            is_list(l@, self@.aircraft),
    {
        let mut l: Vec<Aircraft> = Vec::new();
        for kv in it: self.aircraft.iter()
            invariant
                named(self.aircraft@),
                forall|j: int|
                    0 <= j < it.seq().len() ==> self.aircraft@.contains_key(*(#[trigger] it.seq()[j]).0)
                        && self.aircraft@[*it.seq()[j].0] == *it.seq()[j].1,
                forall|i: int, j: int|
                    0 <= i < j < l@.len() ==> (#[trigger] l@[i]).hex < (#[trigger] l@[j]).hex,
                forall|i: int|
                    0 <= i < l@.len() ==> self.aircraft@.contains_key((#[trigger] l@[i]).hex)
                        && self.aircraft@[l@[i].hex] == l@[i],
                forall|j: int|
                    0 <= j < it.index() ==> is_in(l@, *(#[trigger] it.seq()[j]).0),
        {
            let (_, a): (&u32, &Aircraft) = kv;
            let ghost before = l@;
            let n: usize = l.len();
            let mut at: usize = 0;
            while at < n && l[at].hex < a.hex
                invariant
                    n == l@.len(),
                    at <= n,
                    l@ == before,
                    forall|i: int| 0 <= i < at ==> (#[trigger] l@[i]).hex < a.hex,
                decreases n - at,
            {
                at += 1;
            }
            if at == n || l[at].hex != a.hex {
                l.insert(at, *a);
                assert(l@[at as int].hex == a.hex);
                assert forall|k: u32| is_in(before, k) implies #[trigger] is_in(l@, k) by {
                    let i = choose|i: int| 0 <= i < before.len() && (#[trigger] before[i]).hex == k;
                    if i < at {
                        assert(l@[i] == before[i]);
                    } else {
                        assert(l@[i + 1] == before[i]);
                    }
                }
            }
            assert(l@[at as int].hex == a.hex);
            assert(is_in(l@, a.hex));
        }
        assert forall|k: u32| #[trigger] self.aircraft@.contains_key(k) implies is_in(l@, k) by {}
        l
    }
}

/// A frame received clean is never rejected, and a rejected frame leaves what is
/// known of every aircraft as it was.
pub proof fn law_only_repaired_frames_are_rejected(
    s: Sky,
    f: Seq<u8>,
    r: Option<Report>,
    pos: Option<Position>,
    signal: u32,
    fixed: u8,
    now: u64,
)
    ensures
        fixed == 0 ==> !contradicts(s, f, r, pos, fixed, now),
        names_itself(f) && contradicts(s, f, r, pos, fixed, now) ==> {
            let t = offered(s, f, r, pos, signal, fixed, now);
            t.aircraft == s.aircraft && t.messages == s.messages && t.rejected
                == s.rejected.wrapping_add(1)
        },
        !contradicts(s, f, r, pos, fixed, now) ==> offered(s, f, r, pos, signal, fixed, now).rejected
            == s.rejected,
{
}

/// A repaired frame moves an aircraft that has a position by no more than 400
/// m/s since then, and 2 km.
pub proof fn law_repaired_frames_keep_the_track(
    s: Sky,
    f: Seq<u8>,
    r: Report,
    pos: Position,
    signal: u32,
    fixed: u8,
    now: u64,
)
    requires
        f[0] / 8 == 17 || f[0] / 8 == 18,
        fixed > 0,
        s.aircraft.contains_key(hex_of(f)),
        s.aircraft[hex_of(f)].lat is Some,
        s.aircraft[hex_of(f)].lon is Some,
        pair_of(s, hex_of(f), r, now) is Some,
    ensures
        ({
            let a = s.aircraft[hex_of(f)];
            let b = offered(s, f, Some(r), Some(pos), signal, fixed, now).aircraft[hex_of(f)];
            let dt = if now > a.pos_time { now - a.pos_time } else { 0 };
            if pos.moved_mm > 400 * dt + 2_000_000 {
                b == a
            } else {
                b.lat == Some(pos.lat) && b.lon == Some(pos.lon) && b.pos_time == now
            }
        }),
{
}

/// What an aircraft says of its position stands for 30 s against
/// multilateration, and no result counts as a message the aircraft sent.
pub proof fn law_mlat_yields_to_the_aircraft(
    s: Sky,
    f: Seq<u8>,
    alt_ft: Option<i32>,
    pos: Option<(i64, i64)>,
    now: u64,
    k: u32,
)
    requires
        s.aircraft.contains_key(k),
    ensures
        ({
            let t = mlat_offered(s, f, alt_ft, pos, now);
            let (a, b) = (s.aircraft[k], t.aircraft[k]);
            &&& t.aircraft.contains_key(k)
            &&& t.messages == s.messages
            &&& b.messages == a.messages
            &&& b.signal == a.signal
            &&& has_own_position(a, now) ==> b.lat == a.lat && b.lon == a.lon && b.pos_time == a.pos_time
                && !b.pos_mlat && b.alt_ft == a.alt_ft && b.last_seen == a.last_seen
            &&& b.even == a.even && b.odd == a.odd
        }),
{
}

/// An aircraft is forgotten exactly when it has been silent for longer than
/// `ttl`, and until then nothing known of it changes.
pub proof fn law_silent_aircraft_expire(aircraft: Map<u32, Aircraft>, now: u64, ttl: u64, k: u32)
    requires
        aircraft.contains_key(k),
    ensures
        heard(aircraft, now, ttl).contains_key(k) <==> now - aircraft[k].last_seen <= ttl,
        heard(aircraft, now, ttl).contains_key(k) ==> heard(aircraft, now, ttl)[k] == aircraft[k],
{
}

/// A position message says what was put into it: of a frame of format 17 or 18 whose
/// checksum comes out, with a type from 9 to 18, the altitude, the parity and both
/// coordinates come back as they were sent, whatever the bits in between say.
pub proof fn law_position_message_reads_back(
    f: Seq<u8>,
    tc: int,
    status: int,
    alt: int,
    time: int,
    odd: bool,
    lat: int,
    lon: int,
)
    requires
        f.len() == 14,
        f[0] / 8 == 17 || f[0] / 8 == 18,
        crc24_of(f) == 0,
        9 <= tc <= 18,
        0 <= status < 8,
        0 <= alt < 4096,
        0 <= time < 2,
        0 <= lat < 131_072,
        0 <= lon < 131_072,
        f[4] == 8 * tc + status,
        f[5] * 16 + f[6] / 16 == alt,
        f[6] % 16 / 8 == time,
        f[6] % 8 / 4 == if odd { 1int } else { 0 },
        (f[6] % 4) * 32_768 + f[7] * 128 + f[8] / 2 == lat,
        (f[8] % 2) * 65_536 + f[9] * 256 + f[10] == lon,
    ensures
        airborne_of(f) == Some(
            Airborne { odd, cpr_lat: lat as u32, cpr_lon: lon as u32, ac12: alt as u16 },
        ),
{
    let me = message_bits(f);
    let parity = if odd { 1int } else { 0 };
    lemma_message_parts(f[4], f[5], f[6], f[7], f[8], f[9], f[10]);
    assert(me == 0x10_0000_0000 * (4096 * f[4] + alt) + 0x8_0000_0000 * time + 0x4_0000_0000 * parity + 0x2_0000
        * lat + lon);
    lemma_message_layers(me, tc, status, alt, time, parity, lat, lon);
}

proof fn lemma_message_parts(b4: u8, b5: u8, b6: u8, b7: u8, b8: u8, b9: u8, b10: u8)
    ensures
        (((((b4 * 256 + b5) * 256 + b6) * 256 + b7) * 256 + b8) * 256 + b9) * 256 + b10 == 0x10_0000_0000 * (4096 * b4
            + (b5 * 16 + b6 / 16)) + 0x8_0000_0000 * (b6 % 16 / 8) + 0x4_0000_0000 * (b6 % 8 / 4) + 0x2_0000 * ((b6
            % 4) * 32_768 + b7 * 128 + b8 / 2) + ((b8 % 2) * 65_536 + b9 * 256 + b10),
{
    assert(b6 == 16 * (b6 / 16) + 8 * (b6 % 16 / 8) + 4 * (b6 % 8 / 4) + b6 % 4);
    assert(b8 == 2 * (b8 / 2) + b8 % 2);
}

proof fn lemma_message_layers(
    me: int,
    tc: int,
    status: int,
    alt: int,
    time: int,
    parity: int,
    lat: int,
    lon: int,
)
    requires
        0 <= tc < 32,
        0 <= status < 8,
        0 <= alt < 4096,
        0 <= time < 2,
        0 <= parity < 2,
        0 <= lat < 131_072,
        0 <= lon < 131_072,
        me == 0x10_0000_0000 * (4096 * (8 * tc + status) + alt) + 0x8_0000_0000 * time + 0x4_0000_0000 * parity
            + 0x2_0000 * lat + lon,
    ensures
        me % 0x2_0000 == lon,
        me / 0x2_0000 % 0x2_0000 == lat,
        me / 0x4_0000_0000 % 2 == parity,
        me / 0x10_0000_0000 % 0x1000 == alt,
        me / 0x8_0000_0000_0000 % 32 == tc,
{
    let top = 4096 * (8 * tc + status) + alt;
    let high = 4 * top + 2 * time + parity;
    assert(me / 0x2_0000 == 0x2_0000 * high + lat);
    assert(me / 0x4_0000_0000 == high);
    assert(me / 0x10_0000_0000 == top);
    assert(me / 0x8_0000_0000_0000 == tc);
}

/// Position messages that differ in either coordinate, in the parity or in the altitude
/// as sent read differently.
pub proof fn law_position_messages_tell_apart(f: Seq<u8>, g: Seq<u8>)
    requires
        airborne_of(f) is Some,
        airborne_of(f) == airborne_of(g),
    ensures
        f[5] == g[5],
        f[6] / 16 == g[6] / 16,
        f[6] % 8 == g[6] % 8,
        f[7] == g[7],
        f[8] == g[8],
        f[9] == g[9],
        f[10] == g[10],
{
    lemma_fields(f);
    lemma_fields(g);
    lemma_same_altitude(f[5], f[6], g[5], g[6]);
    lemma_same_coordinates(f[6], f[7], f[8], f[9], f[10], g[6], g[7], g[8], g[9], g[10]);
}

proof fn lemma_same_altitude(a: u8, b: u8, c: u8, d: u8)
    requires
        a * 16 + b / 16 == c * 16 + d / 16,
    ensures
        a == c,
        b / 16 == d / 16,
{
}

proof fn lemma_same_coordinates(
    a6: u8,
    a7: u8,
    a8: u8,
    a9: u8,
    a10: u8,
    b6: u8,
    b7: u8,
    b8: u8,
    b9: u8,
    b10: u8,
)
    requires
        (a6 % 4) * 32_768 + a7 * 128 + a8 / 2 == (b6 % 4) * 32_768 + b7 * 128 + b8 / 2,
        (a8 % 2) * 65_536 + a9 * 256 + a10 == (b8 % 2) * 65_536 + b9 * 256 + b10,
        a6 % 8 / 4 == 1 <==> b6 % 8 / 4 == 1,
    ensures
        a6 % 8 == b6 % 8,
        a7 == b7,
        a8 == b8,
        a9 == b9,
        a10 == b10,
{
    assert(a6 % 4 == b6 % 4);
    assert(a8 % 2 == b8 % 2);
}

proof fn lemma_fields(f: Seq<u8>)
    requires
        airborne_of(f) is Some,
    ensures
        ({
            let a = airborne_of(f)->0;
            &&& a.ac12 == f[5] * 16 + f[6] / 16
            &&& a.odd <==> f[6] % 8 / 4 == 1
            &&& a.cpr_lat == (f[6] % 4) * 32_768 + f[7] * 128 + f[8] / 2
            &&& a.cpr_lon == (f[8] % 2) * 65_536 + f[9] * 256 + f[10]
        }),
{
    law_only_position_messages_are_read(f);
    law_position_message_reads_back(
        f,
        f[4] as int / 8,
        f[4] as int % 8,
        f[5] * 16 + f[6] as int / 16,
        f[6] as int % 16 / 8,
        f[6] % 8 / 4 == 1,
        (f[6] as int % 4) * 32_768 + f[7] * 128 + f[8] as int / 2,
        (f[8] as int % 2) * 65_536 + f[9] * 256 + f[10],
    );
}

/// Nothing else is taken for a position message.
pub proof fn law_only_position_messages_are_read(f: Seq<u8>)
    ensures
        airborne_of(f) is Some <==> f.len() == 14 && (f[0] / 8 == 17 || f[0] / 8 == 18) && crc24_of(f) == 0
            && 9 <= f[4] / 8 <= 18,
{
    if f.len() == 14 {
        let me = message_bits(f);
        assert(me / 0x8_0000_0000_0000 % 32 == f[4] / 8);
    }
}

/// Frames have the same address exactly when they agree in the second to fourth byte.
pub proof fn law_address_is_three_bytes(f: Seq<u8>, g: Seq<u8>)
    ensures
        hex_of(f) == hex_of(g) <==> f[1] == g[1] && f[2] == g[2] && f[3] == g[3],
        hex_of(f) < 0x100_0000,
        hex_of(f) / 0x1_0000 == f[1],
        hex_of(f) % 0x100 == f[3],
{
}

/// A report of either parity, without a position.
pub open spec fn report(odd: bool, at: (u32, u32)) -> Report {
    Report { odd, cpr_lat: at.0, cpr_lon: at.1, alt_ft: None }
}

/// The halves of a pair are told apart whichever comes first: once an aircraft has sent
/// one, the other completes the pair within 10 s, with the even half as even and the odd
/// half as odd, and none later. A second half of the same parity completes none by
/// itself.
pub proof fn law_halves_pair_in_either_order(
    s: Sky,
    f: Seq<u8>,
    even: (u32, u32),
    odd: (u32, u32),
    last_odd: bool,
    first: Option<Position>,
    signal: u32,
    then: u64,
    now: u64,
)
    requires
        f[0] / 8 == 17 || f[0] / 8 == 18,
        then <= now,
    ensures
        ({
            let (one, two) = if last_odd { (even, odd) } else { (odd, even) };
            let t = offered(s, f, Some(report(!last_odd, one)), first, signal, 0, then);
            let pair = pair_of(t, hex_of(f), report(last_odd, two), now);
            &&& now - then < 10_000 ==> pair == Some(Pair { even, odd, last_odd })
            &&& now - then >= 10_000 ==> pair is None
            &&& !s.aircraft.contains_key(hex_of(f)) ==> pair_of(
                t,
                hex_of(f),
                report(!last_odd, two),
                now,
            ) is None
        }),
{
}

/// An aircraft that has sent nothing has no half to pair, and neither has one that sent
/// only the same half.
pub proof fn law_pair_takes_both_halves(s: Sky, hex: u32, r: Report, now: u64)
    ensures
        ({
            let a = s.aircraft[hex];
            let stored = if r.odd { a.even } else { a.odd };
            match pair_of(s, hex, r, now) {
                Some(p) => {
                    &&& s.aircraft.contains_key(hex)
                    &&& stored matches Some(h) && now - h.at < 10_000 && if r.odd {
                        p.odd == (r.cpr_lat, r.cpr_lon) && p.even == (h.lat, h.lon) && p.last_odd
                    } else {
                        p.even == (r.cpr_lat, r.cpr_lon) && p.odd == (h.lat, h.lon) && !p.last_odd
                    }
                },
                None => s.aircraft.contains_key(hex) ==> !(stored matches Some(h) && now - h.at < 10_000),
            }
        }),
{
}

/// The halves of multilateration results are told apart whichever comes first, and
/// are kept apart from those that the aircraft sends.
pub proof fn law_mlat_halves_pair_in_either_order(
    s: Sky,
    f: Seq<u8>,
    g: Seq<u8>,
    alt_ft: Option<i32>,
    pos: Option<(i64, i64)>,
    then: u64,
    now: u64,
)
    requires
        airborne_of(f) is Some,
        airborne_of(g) is Some,
        hex_of(f) == hex_of(g),
        airborne_of(f)->0.odd != airborne_of(g)->0.odd,
        then <= now,
    ensures
        ({
            let t = mlat_offered(s, f, alt_ft, pos, then);
            let (a, b) = (airborne_of(f)->0, airborne_of(g)->0);
            let (e, o) = if a.odd { (b, a) } else { (a, b) };
            let pair = mlat_pair_of(t, g, now);
            &&& now - then < 10_000 ==> pair == Some(
                Pair {
                    even: (e.cpr_lat, e.cpr_lon),
                    odd: (o.cpr_lat, o.cpr_lon),
                    last_odd: b.odd,
                },
            )
            &&& now - then >= 10_000 ==> pair is None
            &&& forall|hex: u32, r: Report|
                #![trigger pair_of(t, hex, r, now)]
                pair_of(t, hex, r, now) == pair_of(s, hex, r, now)
        }),
{
    let t = mlat_offered(s, f, alt_ft, pos, then);
    assert forall|hex: u32, r: Report| #[trigger] pair_of(t, hex, r, now) == pair_of(s, hex, r, now) by {
        if hex == hex_of(f) && !s.aircraft.contains_key(hex) {
            assert(t.aircraft[hex].even is None && t.aircraft[hex].odd is None);
        }
    }
}

/// A frame touches no aircraft but its own.
pub proof fn law_others_are_left_alone(
    s: Sky,
    f: Seq<u8>,
    r: Option<Report>,
    pos: Option<Position>,
    alt_ft: Option<i32>,
    mlat: Option<(i64, i64)>,
    signal: u32,
    fixed: u8,
    now: u64,
    k: u32,
)
    requires
        k != hex_of(f),
    ensures
        ({
            let t = offered(s, f, r, pos, signal, fixed, now).aircraft;
            let u = mlat_offered(s, f, alt_ft, mlat, now).aircraft;
            &&& t.contains_key(k) == s.aircraft.contains_key(k)
            &&& t.contains_key(k) ==> t[k] == s.aircraft[k]
            &&& u.contains_key(k) == s.aircraft.contains_key(k)
            &&& u.contains_key(k) ==> u[k] == s.aircraft[k]
        }),
{
}

/// A frame received clean that names its aircraft puts it on the table: heard of now, one
/// message more, at this level, and, where it completes a pair, at the position of the
/// pair, however far away. A frame that names none leaves no trace.
pub proof fn law_clean_frames_are_taken(
    s: Sky,
    f: Seq<u8>,
    r: Option<Report>,
    pos: Option<Position>,
    signal: u32,
    now: u64,
)
    ensures
        ({
            let df = f[0] / 8;
            let hex = hex_of(f);
            let t = offered(s, f, r, pos, signal, 0, now);
            let b = t.aircraft[hex];
            let count = if s.aircraft.contains_key(hex) { s.aircraft[hex].messages } else { 0 };
            &&& df != 11 && df != 17 && df != 18 ==> t == s
            &&& df == 11 || df == 17 || df == 18 ==> {
                &&& t.aircraft.contains_key(hex)
                &&& b.last_seen == now
                &&& b.signal == signal
                &&& b.messages == count.wrapping_add(1)
                &&& t.messages == s.messages.wrapping_add(1)
                &&& t.rejected == s.rejected
            }
            &&& df != 11 && names_itself(f) ==> {
                &&& r is Some && pair_of(s, hex, r->0, now) is Some && pos is Some ==> {
                    &&& b.lat == Some(pos->0.lat)
                    &&& b.lon == Some(pos->0.lon)
                    &&& b.pos_time == now
                    &&& !b.pos_mlat
                    &&& r->0.alt_ft is Some ==> b.alt_ft == r->0.alt_ft
                }
                &&& s.aircraft.contains_key(hex) && (r is None || pos is None || pair_of(
                    s,
                    hex,
                    r->0,
                    now,
                ) is None) ==> {
                    &&& b.lat == s.aircraft[hex].lat
                    &&& b.lon == s.aircraft[hex].lon
                    &&& b.pos_time == s.aircraft[hex].pos_time
                    &&& b.pos_mlat == s.aircraft[hex].pos_mlat
                    &&& b.alt_ft == s.aircraft[hex].alt_ft
                }
            }
        }),
{
}

/// A multilateration result that completes a pair gives its position to an aircraft that
/// has sent none of its own in the last 30 s, marked as such; and an altitude only where
/// none was known.
pub proof fn law_mlat_fills_in(s: Sky, f: Seq<u8>, alt_ft: Option<i32>, pos: (i64, i64), now: u64)
    requires
        mlat_pair_of(s, f, now) is Some,
    ensures
        ({
            let (a, b) = (
                s.aircraft[hex_of(f)],
                mlat_offered(s, f, alt_ft, Some(pos), now).aircraft[hex_of(f)],
            );
            let own = a.lat is Some && !a.pos_mlat && now - a.pos_time < 30_000;
            &&& !own ==> b.lat == Some(pos.0) && b.lon == Some(pos.1) && b.pos_time == now && b.pos_mlat
            &&& own ==> b.lat == a.lat && b.lon == a.lon && b.pos_time == a.pos_time && !b.pos_mlat
            &&& !own && a.alt_ft is None ==> b.alt_ft == alt_ft
            &&& a.alt_ft is Some ==> b.alt_ft == a.alt_ft
            &&& b.messages == a.messages
        }),
{
}

/// A repaired frame counts as a clean one does, unless it completes a pair whose position
/// is too far from where the aircraft last was.
pub proof fn law_repaired_frames_count_alike(
    s: Sky,
    f: Seq<u8>,
    r: Option<Report>,
    pos: Option<Position>,
    signal: u32,
    fixed: u8,
    now: u64,
)
    requires
        ({
            let a = s.aircraft[hex_of(f)];
            let dt = if now > a.pos_time { now - a.pos_time } else { 0 };
            ||| f[0] / 8 == 11
            ||| !s.aircraft.contains_key(hex_of(f)) || a.lat is None || a.lon is None
            ||| r is None || pos is None || pair_of(s, hex_of(f), r->0, now) is None
            ||| pos->0.moved_mm <= 400 * dt + 2_000_000
        }),
    ensures
        offered(s, f, r, pos, signal, fixed, now) == offered(s, f, r, pos, signal, 0, now),
{
}

} // verus!
