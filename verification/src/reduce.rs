//! The reduced stream that aggregators ingest: per aircraft, each class of
//! information is forwarded at most once per interval, so a busy station sends
//! kilobytes rather than megabytes a second. Position messages are always
//! forwarded. Altitude, heading and speed go at 7/8 of the interval, squawk and
//! emergency at 4x, all-call replies at 4x.

use std::collections::HashMap;
use vstd::prelude::*;
use vstd::std_specs::hash::group_hash_axioms;

verus! {

broadcast use group_hash_axioms;

/// What a frame tells.
#[derive(Debug, Clone, Copy, PartialEq, Eq, Structural)]
pub enum Class {
    Position,
    Often,
    Rare,
    AllCall,
    Other,
}

/// Whose slot a frame takes: an aircraft's, or that of all frames without a
/// reliable address, and of which class.
pub struct Slot {
    pub who: Option<u32>,
    pub class: Class,
}

/// The class of an extended squitter by its type code.
pub open spec fn class_of_type(tc: u8) -> Class {
    if 5 <= tc <= 18 || 20 <= tc <= 22 {
        Class::Position
    } else if 1 <= tc <= 4 || tc == 19 {
        Class::Often
    } else if tc == 28 {
        Class::Rare
    } else {
        Class::Other
    }
}

/// The address in the second to fourth byte.
pub open spec fn address_of(f: Seq<u8>) -> u32 {
    (f[1] * 0x1_0000 + f[2] * 0x100 + f[3]) as u32
}

/// The slot of a frame.
pub open spec fn slot_of(f: Seq<u8>) -> Slot {
    let df = f[0] / 8;
    if (df == 17 || df == 18) && f.len() == 14 {
        Slot { who: Some(address_of(f)), class: class_of_type(f[4] / 8) }
    } else if df == 11 {
        Slot { who: Some(address_of(f)), class: Class::AllCall }
    } else if df == 0 {
        Slot { who: None, class: Class::AllCall }
    } else if df == 4 || df == 20 {
        // Altitude reply; an address only through the parity.
        Slot { who: None, class: Class::Often }
    } else if df == 5 || df == 21 {
        // Identity reply.
        Slot { who: None, class: Class::Rare }
    } else {
        Slot { who: None, class: Class::Other }
    }
}

/// The frame has the bytes that its format calls for.
pub open spec fn is_readable(f: Seq<u8>) -> bool {
    f.len() > 0 && (f[0] / 8 == 11 ==> f.len() >= 4)
}

/// How long a slot of a class stays taken.
pub open spec fn step_of(class: Class, interval: int) -> int {
    match class {
        Class::Position => interval * 3 / 8,
        Class::Often => interval * 7 / 8,
        Class::Rare => interval * 4,
        Class::AllCall => interval * 4,
        Class::Other => interval,
    }
}

/// What a reducer remembers: when each taken slot is due again, and when it
/// last forgot the old ones.
pub struct Memory {
    pub interval: u64,
    /// Slots of aircraft.
    pub due: Map<(u32, Class), u64>,
    /// Slots of frames without an address.
    pub anon: Map<Class, u64>,
    pub last_prune: u64,
}

/// When the slot `k` is due: at once if it was never taken.
pub open spec fn due_at(s: Memory, k: Slot) -> u64 {
    match k.who {
        Some(a) => if s.due.contains_key((a, k.class)) {
            s.due[(a, k.class)]
        } else {
            0
        },
        None => if s.anon.contains_key(k.class) {
            s.anon[k.class]
        } else {
            0
        },
    }
}

/// The time at which the slot of a frame falls due again fits in 64 bits. A position
/// message takes no slot.
pub open spec fn leaves_room(s: Memory, f: Seq<u8>, now: u64) -> bool {
    let class = slot_of(f).class;
    class != Class::Position ==> now + step_of(class, s.interval as int) <= u64::MAX
}

/// Whether a frame passes at `now`.
pub open spec fn passes(s: Memory, f: Seq<u8>, now: u64) -> bool {
    let k = slot_of(f);
    k.class == Class::Position || now >= due_at(s, k)
}

/// The slots not yet two minutes overdue.
pub open spec fn recent(due: Map<(u32, Class), u64>, now: u64) -> Map<(u32, Class), u64> {
    Map::new(
        |k: (u32, Class)| due.contains_key(k) && due[k] + 120_000 > now,
        |k: (u32, Class)| due[k],
    )
}

/// What is remembered after a frame at `now`.
pub open spec fn after(s: Memory, f: Seq<u8>, now: u64) -> Memory {
    let k = slot_of(f);
    let next = (now + step_of(k.class, s.interval as int)) as u64;
    if k.class == Class::Position || now < due_at(s, k) {
        s
    } else {
        let due = match k.who {
            Some(a) => s.due.insert((a, k.class), next),
            None => s.due,
        };
        let anon = match k.who {
            Some(a) => s.anon,
            None => s.anon.insert(k.class, next),
        };
        if now > s.last_prune + 60_000 {
            Memory { due: recent(due, now), anon, last_prune: now, ..s }
        } else {
            Memory { due, anon, ..s }
        }
    }
}

/// The slot of a frame.
pub fn classify(f: &[u8]) -> (k: Slot)
    requires
        is_readable(f@),
    ensures
        k == slot_of(f@),
{
    let df: u8 = f[0] / 8;
    if (df == 17 || df == 18) && f.len() == 14 {
        let tc: u8 = f[4] / 8;
        let class: Class = if (5 <= tc && tc <= 18) || (20 <= tc && tc <= 22) {
            Class::Position
        } else if (1 <= tc && tc <= 4) || tc == 19 {
            Class::Often
        } else if tc == 28 {
            Class::Rare
        } else {
            Class::Other
        };
        Slot { who: Some(f[1] as u32 * 0x1_0000 + f[2] as u32 * 0x100 + f[3] as u32), class }
    } else if df == 11 {
        Slot {
            who: Some(f[1] as u32 * 0x1_0000 + f[2] as u32 * 0x100 + f[3] as u32),
            class: Class::AllCall,
        }
    } else if df == 0 {
        Slot { who: None, class: Class::AllCall }
    } else if df == 4 || df == 20 {
        Slot { who: None, class: Class::Often }
    } else if df == 5 || df == 21 {
        Slot { who: None, class: Class::Rare }
    } else {
        Slot { who: None, class: Class::Other }
    }
}

/// Classes as numbers.
pub open spec fn code_of(class: Class) -> u64 {
    match class {
        Class::Position => 0,
        Class::Often => 1,
        Class::Rare => 2,
        Class::AllCall => 3,
        Class::Other => 4,
    }
}

/// The key of an aircraft's slot.
pub open spec fn key_of(k: (u32, Class)) -> u64 {
    (k.0 * 8 + code_of(k.1)) as u64
}

fn code(class: Class) -> (c: u64)
    ensures
        c == code_of(class),
        c < 5,
{
    match class {
        Class::Position => 0,
        Class::Often => 1,
        Class::Rare => 2,
        Class::AllCall => 3,
        Class::Other => 4,
    }
}

/// The slots under the keys of `raw`.
pub open spec fn by_slot(raw: Map<u64, u64>) -> Map<(u32, Class), u64> {
    Map::new(|k: (u32, Class)| raw.contains_key(key_of(k)), |k: (u32, Class)| raw[key_of(k)])
}

/// The classes under the codes of `raw`.
pub open spec fn by_class(raw: Map<u64, u64>) -> Map<Class, u64> {
    Map::new(|c: Class| raw.contains_key(code_of(c)), |c: Class| raw[code_of(c)])
}

/// Decides which frames go into the reduced stream.
pub struct Reducer {
    interval_ms: u64,
    due: HashMap<u64, u64>,
    due_anon: HashMap<u64, u64>,
    last_prune: u64,
}

impl View for Reducer {
    type V = Memory;

    closed spec fn view(&self) -> Memory {
        Memory {
            interval: self.interval_ms,
            due: by_slot(self.due@),
            anon: by_class(self.due_anon@),
            last_prune: self.last_prune,
        }
    }
}

impl Reducer {
    pub fn new(interval_ms: u64) -> (r: Reducer)
        ensures
            r@ == fresh(interval_ms),
    {
        let r: Reducer = Reducer {
            interval_ms,
            due: HashMap::new(),
            due_anon: HashMap::new(),
            last_prune: 0,
        };
        assert(by_slot(r.due@) =~= Map::empty());
        assert(by_class(r.due_anon@) =~= Map::empty());
        r
    }

    /// Whether to forward this frame at wall time `now_ms`.
    pub fn forward(&mut self, f: &[u8], now_ms: u64) -> (yes: bool)
        requires
            is_readable(f@),
            leaves_room(old(self)@, f@, now_ms),
        ensures
            yes == passes(old(self)@, f@, now_ms),
            final(self)@ == after(old(self)@, f@, now_ms),
    {
        let k: Slot = classify(f);
        if k.class == Class::Position {
            return true;
        }
        let iv: u128 = self.interval_ms as u128;
        let step: u128 = match k.class {
            Class::Position => iv * 3 / 8,
            Class::Often => iv * 7 / 8,
            Class::Rare => iv * 4,
            Class::AllCall => iv * 4,
            Class::Other => iv,
        };
        let next: u64 = now_ms + step as u64;
        match k.who {
            Some(a) => {
                let key: u64 = a as u64 * 8 + code(k.class);
                let slot: u64 = match self.due.get(&key) {
                    Some(t) => *t,
                    None => 0,
                };
                if now_ms < slot {
                    return false;
                }
                let ghost was = self.due@;
                let _ = self.due.insert(key, next);
                proof {
                    lemma_slot_insert(was, (a, k.class), next);
                }
            },
            None => {
                let key: u64 = code(k.class);
                let slot: u64 = match self.due_anon.get(&key) {
                    Some(t) => *t,
                    None => 0,
                };
                if now_ms < slot {
                    return false;
                }
                let ghost was = self.due_anon@;
                let _ = self.due_anon.insert(key, next);
                assert(by_class(self.due_anon@) =~= by_class(was).insert(k.class, next));
            },
        }
        if now_ms > 60_000 && self.last_prune < now_ms - 60_000 {
            self.last_prune = now_ms;
            self.prune(now_ms);
        }
        true
    }

    /// Forget the slots two minutes overdue.
    fn prune(&mut self, now: u64)
        ensures
            final(self)@ == (Memory { due: recent(old(self)@.due, now), ..old(self)@ }),
    {
        let ghost full = self.due@;
        let mut kept: HashMap<u64, u64> = HashMap::new();
        for kv in it: self.due.iter()
            invariant
                self.due@ == full,
                forall|j: int|
                    0 <= j < it.seq().len() ==> full.contains_key(*(#[trigger] it.seq()[j]).0)
                        && full[*it.seq()[j].0] == *it.seq()[j].1,
                forall|k: u64| #[trigger]
                    kept@.contains_key(k) ==> full.contains_key(k) && full[k] + 120_000 > now
                        && kept@[k] == full[k],
                forall|j: int|
                    0 <= j < it.index() && *(#[trigger] it.seq()[j]).1 + 120_000 > now
                        ==> kept@.contains_key(*it.seq()[j].0),
        {
            let (k, t): (&u64, &u64) = kv;
            if now < 120_000 || *t > now - 120_000 {
                let _ = kept.insert(*k, *t);
            }
        }
        assert forall|k: u64| full.contains_key(k) && full[k] + 120_000 > now implies #[trigger] kept@.contains_key(
            k,
        ) by {}
        self.due = kept;
        assert(by_slot(self.due@) =~= recent(by_slot(full), now));
    }
}

proof fn lemma_slot_insert(raw: Map<u64, u64>, k: (u32, Class), t: u64)
    ensures
        by_slot(raw.insert(key_of(k), t)) == by_slot(raw).insert(k, t),
{
    let a = by_slot(raw.insert(key_of(k), t));
    let b = by_slot(raw).insert(k, t);
    assert forall|j: (u32, Class)| a.contains_key(j) == b.contains_key(j) && (a.contains_key(j) ==> a[j]
        == b[j]) by {
        if key_of(j) == key_of(k) {
            assert(j.0 == k.0 && j.1 == k.1);
        }
    }
    assert(a =~= b);
}

/// A frame offered at a time.
pub struct Offer {
    pub frame: Seq<u8>,
    pub now: u64,
}

/// What is remembered after `offers` in turn.
pub open spec fn after_all(s: Memory, offers: Seq<Offer>) -> Memory
    decreases offers.len(),
{
    if offers.len() == 0 {
        s
    } else {
        after(after_all(s, offers.drop_last()), offers.last().frame, offers.last().now)
    }
}

/// A slot that is not due yet is not forgotten, and no frame changes it.
proof fn lemma_slot_stays(s: Memory, f: Seq<u8>, now: u64, k: Slot)
    requires
        now < due_at(s, k),
    ensures
        due_at(after(s, f, now), k) == due_at(s, k),
        after(s, f, now).interval == s.interval,
{
}

/// Within the time that its slot stays taken, a class of information on an
/// aircraft is forwarded once: whatever is offered in between, a frame for the
/// same slot does not pass.
pub proof fn law_once_per_interval(s: Memory, f: Seq<u8>, now: u64, offers: Seq<Offer>, g: Seq<u8>, later: u64)
    requires
        slot_of(f).class != Class::Position,
        passes(s, f, now),
        now + step_of(slot_of(f).class, s.interval as int) <= u64::MAX,
        slot_of(g) == slot_of(f),
        forall|j: int|
            0 <= j < offers.len() ==> (#[trigger] offers[j]).now < now + step_of(
                slot_of(f).class,
                s.interval as int,
            ),
        later < now + step_of(slot_of(f).class, s.interval as int),
    ensures
        !passes(after_all(after(s, f, now), offers), g, later),
{
    lemma_taken(s, f, now, offers);
}

proof fn lemma_taken(s: Memory, f: Seq<u8>, now: u64, offers: Seq<Offer>)
    requires
        slot_of(f).class != Class::Position,
        passes(s, f, now),
        now + step_of(slot_of(f).class, s.interval as int) <= u64::MAX,
        forall|j: int|
            0 <= j < offers.len() ==> (#[trigger] offers[j]).now < now + step_of(
                slot_of(f).class,
                s.interval as int,
            ),
    ensures
        due_at(after_all(after(s, f, now), offers), slot_of(f)) == now + step_of(
            slot_of(f).class,
            s.interval as int,
        ),
    decreases offers.len(),
{
    if offers.len() > 0 {
        let first = offers.drop_last();
        assert forall|j: int| 0 <= j < first.len() implies (#[trigger] first[j]).now < now + step_of(
            slot_of(f).class,
            s.interval as int,
        ) by {
            assert(first[j] == offers[j]);
        }
        lemma_taken(s, f, now, first);
        lemma_slot_stays(
            after_all(after(s, f, now), first),
            offers.last().frame,
            offers.last().now,
            slot_of(f),
        );
    }
}

/// What a reducer remembers at first.
pub open spec fn fresh(interval: u64) -> Memory {
    Memory { interval, due: Map::empty(), anon: Map::empty(), last_prune: 0 }
}

/// Of `offers` made in turn, the `j`th passed, and keeps the slot `k` taken at `now`.
pub open spec fn takes(s: Memory, offers: Seq<Offer>, j: int, k: Slot, now: u64) -> bool {
    let o = offers[j];
    &&& slot_of(o.frame) == k
    &&& passes(after_all(s, offers.take(j)), o.frame, o.now)
    &&& now < o.now + step_of(k.class, s.interval as int)
}

/// A slot that is taken was taken by a frame that passed, and falls due a step after
/// it.
proof fn lemma_taken_by(interval: u64, offers: Seq<Offer>, k: Slot, now: u64)
    requires
        k.class != Class::Position,
        forall|j: int|
            0 <= j < offers.len() ==> leaves_room(
                fresh(interval),
                (#[trigger] offers[j]).frame,
                offers[j].now,
            ),
        now < due_at(after_all(fresh(interval), offers), k),
    ensures
        exists|j: int| 0 <= j < offers.len() && #[trigger] takes(fresh(interval), offers, j, k, now),
    decreases offers.len(),
{
    let s = fresh(interval);
    if offers.len() > 0 {
        let (rest, o, n) = (offers.drop_last(), offers.last(), offers.len() - 1);
        let t = after_all(s, rest);
        lemma_interval(s, rest);
        assert(offers.take(n) =~= rest);
        assert(offers[n] == o);
        if slot_of(o.frame) == k && passes(t, o.frame, o.now) {
            assert(takes(s, offers, n, k, now));
        } else {
            assert(due_at(after(t, o.frame, o.now), k) == due_at(t, k) || due_at(
                after(t, o.frame, o.now),
                k,
            ) == 0);
            assert forall|j: int| 0 <= j < rest.len() implies leaves_room(
                s,
                (#[trigger] rest[j]).frame,
                rest[j].now,
            ) by {
                assert(rest[j] == offers[j]);
            }
            lemma_taken_by(interval, rest, k, now);
            let j = choose|j: int| 0 <= j < rest.len() && #[trigger] takes(s, rest, j, k, now);
            assert(rest.take(j) =~= offers.take(j));
            assert(takes(s, offers, j, k, now));
        }
    }
}

proof fn lemma_interval(s: Memory, offers: Seq<Offer>)
    ensures
        after_all(s, offers).interval == s.interval,
    decreases offers.len(),
{
    if offers.len() > 0 {
        lemma_interval(s, offers.drop_last());
    }
}

/// A frame is refused only because an earlier one of its slot passed less than a step
/// before: whatever was offered, and at whatever times, nothing else holds it back.
pub proof fn law_refused_only_after_a_pass(interval: u64, offers: Seq<Offer>, g: Seq<u8>, now: u64)
    requires
        forall|j: int|
            0 <= j < offers.len() ==> leaves_room(
                fresh(interval),
                (#[trigger] offers[j]).frame,
                offers[j].now,
            ),
        !passes(after_all(fresh(interval), offers), g, now),
    ensures
        exists|j: int|
            0 <= j < offers.len() && #[trigger] takes(fresh(interval), offers, j, slot_of(g), now),
{
    lemma_taken_by(interval, offers, slot_of(g), now);
}

proof fn lemma_in_two(s: Memory, a: Seq<Offer>, b: Seq<Offer>)
    ensures
        after_all(s, a + b) == after_all(after_all(s, a), b),
    decreases b.len(),
{
    if b.len() == 0 {
        assert(a + b =~= a);
    } else {
        lemma_in_two(s, a, b.drop_last());
        assert((a + b).drop_last() =~= a + b.drop_last());
        assert((a + b).last() == b.last());
    }
}

/// With offers in the order of their times, a frame passes exactly when none of its
/// slot passed less than a step before. So forgetting the slots that are long overdue
/// changes no answer.
pub proof fn law_forgetting_changes_no_answer(interval: u64, offers: Seq<Offer>, g: Seq<u8>, now: u64)
    requires
        slot_of(g).class != Class::Position,
        forall|j: int|
            0 <= j < offers.len() ==> leaves_room(
                fresh(interval),
                (#[trigger] offers[j]).frame,
                offers[j].now,
            ) && offers[j].now <= now,
        forall|i: int, j: int|
            0 <= i < j < offers.len() ==> (#[trigger] offers[i]).now <= (#[trigger] offers[j]).now,
    ensures
        passes(after_all(fresh(interval), offers), g, now) <==> !exists|j: int|
            0 <= j < offers.len() && #[trigger] takes(fresh(interval), offers, j, slot_of(g), now),
{
    let s = fresh(interval);
    let k = slot_of(g);
    if !passes(after_all(s, offers), g, now) {
        law_refused_only_after_a_pass(interval, offers, g, now);
    } else if exists|j: int| 0 <= j < offers.len() && #[trigger] takes(s, offers, j, k, now) {
        let j = choose|j: int| 0 <= j < offers.len() && #[trigger] takes(s, offers, j, k, now);
        let (before, o, rest) = (offers.take(j), offers[j], offers.skip(j + 1));
        lemma_interval(s, before);
        assert(offers =~= before.push(o) + rest);
        lemma_in_two(s, before.push(o), rest);
        assert(before.push(o).drop_last() =~= before);
        assert forall|i: int| 0 <= i < rest.len() implies (#[trigger] rest[i]).now < o.now + step_of(
            k.class,
            interval as int,
        ) by {
            assert(rest[i] == offers[j + 1 + i]);
        }
        law_once_per_interval(after_all(s, before), o.frame, o.now, rest, g, now);
    }
}

/// Position messages always pass, and take no slot.
pub proof fn law_positions_always_pass(s: Memory, f: Seq<u8>, now: u64)
    requires
        f.len() == 14,
        f[0] / 8 == 17 || f[0] / 8 == 18,
        5 <= f[4] / 8 <= 18 || 20 <= f[4] / 8 <= 22,
    ensures
        passes(s, f, now),
        after(s, f, now) == s,
{
}

/// Every class of information on every aircraft has a slot of its own: two squitters
/// share one only if they name the same aircraft and tell the same class of things.
pub proof fn law_slots_are_by_aircraft(f: Seq<u8>, g: Seq<u8>)
    requires
        f.len() == 14,
        g.len() == 14,
        f[0] / 8 == 17 || f[0] / 8 == 18,
        g[0] / 8 == 17 || g[0] / 8 == 18,
    ensures
        slot_of(f) == slot_of(g) ==> f[1] == g[1] && f[2] == g[2] && f[3] == g[3],
        f[1] == g[1] && f[2] == g[2] && f[3] == g[3] && f[4] / 8 == g[4] / 8 ==> slot_of(f) == slot_of(g),
        slot_of(f).who is Some,
{
}

/// All-call replies take slots of their own, by aircraft; replies whose address is in the
/// parity share those of their class.
pub proof fn law_replies_take_slots_of_their_class(f: Seq<u8>, g: Seq<u8>)
    ensures
        f[0] / 8 == 11 && g[0] / 8 == 11 ==> (slot_of(f) == slot_of(g) <==> f[1] == g[1] && f[2] == g[2] && f[3]
            == g[3]),
        f[0] / 8 == 11 && g.len() == 14 && (g[0] / 8 == 17 || g[0] / 8 == 18) ==> slot_of(f) != slot_of(g),
        f[0] / 8 == 0 || f[0] / 8 == 4 || f[0] / 8 == 5 || f[0] / 8 == 16 || f[0] / 8 == 20 || f[0] / 8 == 21
            ==> slot_of(f).who is None,
        (f[0] / 8 == 4 || f[0] / 8 == 20) && (g[0] / 8 == 5 || g[0] / 8 == 21) ==> slot_of(f) != slot_of(g),
        (f[0] / 8 == 4 || f[0] / 8 == 20) && (g[0] / 8 == 4 || g[0] / 8 == 20) ==> slot_of(f) == slot_of(g),
        (f[0] / 8 == 5 || f[0] / 8 == 21) && (g[0] / 8 == 5 || g[0] / 8 == 21) ==> slot_of(f) == slot_of(g),
        f[0] / 8 == 0 && (g[0] / 8 == 4 || g[0] / 8 == 20 || g[0] / 8 == 5 || g[0] / 8 == 21) ==> slot_of(f)
            != slot_of(g),
{
}

/// How soon a frame of the same slot passes after one that passed, offered nothing in
/// between: a velocity, an identification or an altitude reply after seven eighths of the
/// interval, squawks and emergencies and all-call replies after four of them, anything
/// else after one.
pub proof fn law_rates_by_content(s: Memory, f: Seq<u8>, g: Seq<u8>, now: u64, later: u64)
    requires
        passes(s, f, now),
        leaves_room(s, f, now),
        slot_of(g) == slot_of(f),
        now <= later,
    ensures
        ({
            let (df, tc) = (f[0] / 8, f[4] / 8);
            let squitter = f.len() == 14 && (df == 17 || df == 18);
            let again = passes(after(s, f, now), g, later);
            let (gap, iv) = (later - now, s.interval as int);
            &&& squitter && (1 <= tc <= 4 || tc == 19) || df == 4 || df == 20 ==> (again <==> 8 * gap + 7 >= 7
                * iv)
            &&& squitter && tc == 28 || df == 5 || df == 21 ==> (again <==> gap >= 4 * iv)
            &&& df == 11 || df == 0 ==> (again <==> gap >= 4 * iv)
            &&& squitter && (5 <= tc <= 18 || 20 <= tc <= 22) ==> again
            &&& squitter && (tc == 0 || 23 <= tc <= 27 || tc >= 29) || df == 16 || df == 24 ==> (again <==> gap
                >= iv)
        }),
{
    let k = slot_of(f);
    if k.class != Class::Position {
        let next = now + step_of(k.class, s.interval as int);
        lemma_taken(s, f, now, Seq::<Offer>::empty());
        assert(after_all(after(s, f, now), Seq::<Offer>::empty()) == after(s, f, now));
        assert(due_at(after(s, f, now), k) == next);
    }
}

/// Where more than a minute has passed since slots were last forgotten, a frame that takes
/// one has those forgotten that are two minutes overdue, and no others; else none is.
pub proof fn law_overdue_slots_are_forgotten(s: Memory, f: Seq<u8>, now: u64, a: u32, class: Class)
    requires
        slot_of(f).class != Class::Position,
        passes(s, f, now),
        slot_of(f).who != Some(a) || slot_of(f).class != class,
    ensures
        ({
            let (k, t) = ((a, class), after(s, f, now));
            let due = now > s.last_prune + 60_000;
            &&& t.due.contains_key(k) <==> s.due.contains_key(k) && (due ==> now < s.due[k] + 2 * 60_000)
            &&& t.due.contains_key(k) ==> t.due[k] == s.due[k]
            &&& t.last_prune == if due { now } else { s.last_prune }
            &&& t.interval == s.interval
        }),
{
}

} // verus!
