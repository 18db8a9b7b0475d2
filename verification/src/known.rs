//! Aircraft confirmed by a checked frame, and for how long that counts.

use crate::repair::{below, first_index, rank_of};
use std::collections::HashMap;
use vstd::prelude::*;
use vstd::std_specs::hash::group_hash_axioms;

verus! {

broadcast use group_hash_axioms;

/// Address-parity frames are accepted only for aircraft confirmed within this
/// many samples (60 s).
pub const KNOWN_WINDOW: u64 = 144_000_000;

/// A confirmation at sample `t` still counts at sample `now`.
pub open spec fn fresh(t: u64, now: u64) -> bool {
    now - t < KNOWN_WINDOW
}

/// The aircraft `a` is confirmed at sample `now`.
pub open spec fn is_confirmed(known: Map<u32, u64>, a: u32, now: u64) -> bool {
    known.contains_key(a) && fresh(known[a], now)
}

/// How many bits of `x` are set.
pub open spec fn ones(x: u32) -> nat
    decreases x,
{
    if x == 0 {
        0
    } else {
        (x % 2) as nat + ones(x / 2)
    }
}

/// Some confirmed aircraft is within `bits` flips of `a`.
pub open spec fn is_near(known: Map<u32, u64>, a: u32, now: u64, bits: u32) -> bool {
    exists|k: u32| #[trigger] is_confirmed(known, k, now) && ones(k ^ a) <= bits
}

/// Above this many aircraft the table is cleared of stale ones.
pub const KNOWN_LIMIT: usize = 4096;

/// The part of `known` that still counts at sample `now`.
pub open spec fn still_confirmed(known: Map<u32, u64>, now: u64) -> Map<u32, u64> {
    Map::new(|k: u32| is_confirmed(known, k, now), |k: u32| known[k])
}

/// The table after `a` is confirmed at sample `now`.
pub open spec fn confirmed_after(known: Map<u32, u64>, a: u32, now: u64) -> Map<u32, u64> {
    let full = known.insert(a, now);
    if full.len() > KNOWN_LIMIT {
        still_confirmed(full, now)
    } else {
        full
    }
}

/// One low-confidence flip moves the recovered address `a` onto the confirmed
/// aircraft `k`.
pub open spec fn leads_to(
    known: Map<u32, u64>,
    a: u32,
    now: u64,
    syn: Seq<u32>,
    conf: Seq<u32>,
    ap_fix: usize,
    k: u32,
) -> bool {
    &&& is_confirmed(known, k, now)
    &&& syn.index_of_first(k ^ a) matches Some(i) && below(conf, conf[i]) < ap_fix
}

/// The least address a low-confidence flip can lead to.
pub open spec fn least_toward(
    known: Map<u32, u64>,
    a: u32,
    now: u64,
    syn: Seq<u32>,
    conf: Seq<u32>,
    ap_fix: usize,
) -> Option<u32> {
    if exists|k: u32| #[trigger] leads_to(known, a, now, syn, conf, ap_fix, k) {
        Some(
            choose|k: u32| #[trigger]
                leads_to(known, a, now, syn, conf, ap_fix, k) && forall|j: u32| #[trigger]
                    leads_to(known, a, now, syn, conf, ap_fix, j) ==> k <= j,
        )
    } else {
        None
    }
}

/// Where a flip leads to some address, it leads to a least one.
pub proof fn lemma_least_toward(
    known: Map<u32, u64>,
    a: u32,
    now: u64,
    syn: Seq<u32>,
    conf: Seq<u32>,
    ap_fix: usize,
)
    ensures
        least_toward(known, a, now, syn, conf, ap_fix) matches Some(k) ==> {
            &&& leads_to(known, a, now, syn, conf, ap_fix, k)
            &&& forall|j: u32| #[trigger] leads_to(known, a, now, syn, conf, ap_fix, j) ==> k <= j
        },
{
    if exists|k: u32| #[trigger] leads_to(known, a, now, syn, conf, ap_fix, k) {
        let k = choose|k: u32| #[trigger] leads_to(known, a, now, syn, conf, ap_fix, k);
        lemma_least_from(known, a, now, syn, conf, ap_fix, k);
    }
}

proof fn lemma_least_from(
    known: Map<u32, u64>,
    a: u32,
    now: u64,
    syn: Seq<u32>,
    conf: Seq<u32>,
    ap_fix: usize,
    k: u32,
)
    requires
        leads_to(known, a, now, syn, conf, ap_fix, k),
    ensures
        exists|least: u32| #[trigger]
            leads_to(known, a, now, syn, conf, ap_fix, least) && forall|j: u32| #[trigger]
                leads_to(known, a, now, syn, conf, ap_fix, j) ==> least <= j,
    decreases k,
{
    if exists|j: u32| j < k && #[trigger] leads_to(known, a, now, syn, conf, ap_fix, j) {
        let j = choose|j: u32| j < k && #[trigger] leads_to(known, a, now, syn, conf, ap_fix, j);
        lemma_least_from(known, a, now, syn, conf, ap_fix, j);
    }
}

fn count_ones(x: u32) -> (n: u32)
    ensures
        n == ones(x),
{
    let mut rest: u32 = x;
    let mut n: u32 = 0;
    let ghost mut left: nat = 32;
    assert(x < vstd::arithmetic::power2::pow2(32)) by {
        vstd::arithmetic::power2::lemma2_to64();
    }
    while rest != 0
        invariant
            n + ones(rest) == ones(x),
            n + left <= 32,
            rest < vstd::arithmetic::power2::pow2(left),
        decreases rest,
    {
        proof {
            if left == 0 {
                vstd::arithmetic::power2::lemma2_to64();
            } else {
                vstd::arithmetic::power2::lemma_pow2_unfold(left);
                left = (left - 1) as nat;
            }
        }
        n += rest % 2;
        rest = rest / 2;
    }
    n
}

/// Confirmed aircraft: address and the sample of the last confirmation.
pub struct Known {
    map: HashMap<u32, u64>,
}

impl View for Known {
    type V = Map<u32, u64>;

    closed spec fn view(&self) -> Map<u32, u64> {
        self.map@
    }
}

impl Known {
    pub fn new() -> (k: Known)
        ensures
            k@ == Map::<u32, u64>::empty(),
    {
        Known { map: HashMap::new() }
    }

    /// Whether `a` is confirmed at sample `now`.
    pub fn confirmed(&self, a: u32, now: u64) -> (yes: bool)
        ensures
            yes == is_confirmed(self@, a, now),
    {
        match self.map.get(&a) {
            Some(t) => now.saturating_sub(*t) < KNOWN_WINDOW,
            None => false,
        }
    }

    /// Whether some confirmed aircraft is within `bits` flips of `a`.
    pub fn near(&self, a: u32, now: u64, bits: u32) -> (yes: bool)
        ensures
            yes == is_near(self@, a, now, bits),
    {
        for kv in it: self.map.iter()
            invariant
                forall|j: int|
                    0 <= j < it.index() ==> !(fresh(*(#[trigger] it.seq()[j]).1, now) && ones(
                        *it.seq()[j].0 ^ a,
                    ) <= bits),
        {
            let (k, t): (&u32, &u64) = kv;
            if now.saturating_sub(*t) < KNOWN_WINDOW && count_ones(*k ^ a) <= bits {
                assert(is_confirmed(self@, *k, now));
                return true;
            }
        }
        assert forall|k: u32| #[trigger] is_confirmed(self@, k, now) implies ones(k ^ a) > bits by {
            assert(self.map@.contains_key(k));
        }
        false
    }

    /// Note that `a` was confirmed at sample `now`. A crowded table forgets
    /// the aircraft whose confirmation no longer counts.
    pub fn confirm(&mut self, a: u32, now: u64)
        ensures
            final(self)@ == confirmed_after(old(self)@, a, now),
    {
        let _ = self.map.insert(a, now);
        let ghost full = self.map@;
        if self.map.len() > KNOWN_LIMIT {
            let mut kept: HashMap<u32, u64> = HashMap::new();
            for kv in it: self.map.iter()
                invariant
                    self.map@ == full,
                    forall|j: int|
                        0 <= j < it.seq().len() ==> full.contains_key(*(#[trigger] it.seq()[j]).0)
                            && full[*it.seq()[j].0] == *it.seq()[j].1,
                    forall|k: u32| #[trigger]
                        kept@.contains_key(k) ==> is_confirmed(full, k, now) && kept@[k] == full[k],
                    forall|j: int|
                        0 <= j < it.index() && fresh(*(#[trigger] it.seq()[j]).1, now)
                            ==> kept@.contains_key(*it.seq()[j].0),
            {
                let (k, t): (&u32, &u64) = kv;
                if now.saturating_sub(*t) < KNOWN_WINDOW {
                    let _ = kept.insert(*k, *t);
                }
            }
            assert forall|k: u32| is_confirmed(full, k, now) implies #[trigger] kept@.contains_key(k) by {
                assert(full.contains_key(k));
            }
            self.map = kept;
            assert(self.map@ =~= still_confirmed(full, now));
        }
    }

    /// The bit whose flip moves the recovered address `a` onto a confirmed
    /// aircraft, provided it is one of the `ap_fix` least confident; where
    /// several aircraft qualify, toward the least address.
    pub fn toward(&self, a: u32, now: u64, syn: &Vec<u32>, conf: &Vec<u32>, ap_fix: usize) -> (bit:
        Option<usize>)
        requires
            syn@.len() == conf@.len(),
        ensures
            match bit {
                Some(i) => least_toward(self@, a, now, syn@, conf@, ap_fix) matches Some(k)
                    && syn@.index_of_first(k ^ a) == Some(i as int),
                None => least_toward(self@, a, now, syn@, conf@, ap_fix) is None,
            },
    {
        let mut best: Option<(u32, usize)> = None;
        for kv in it: self.map.iter()
            invariant
                syn@.len() == conf@.len(),
                forall|j: int|
                    0 <= j < it.seq().len() ==> self.map@.contains_key(*(#[trigger] it.seq()[j]).0)
                        && self.map@[*it.seq()[j].0] == *it.seq()[j].1,
                match best {
                    Some((k, i)) => leads_to(self@, a, now, syn@, conf@, ap_fix, k)
                        && syn@.index_of_first(k ^ a) == Some(i as int) && forall|j: int|
                        0 <= j < it.index() && leads_to(
                            self@,
                            a,
                            now,
                            syn@,
                            conf@,
                            ap_fix,
                            *(#[trigger] it.seq()[j]).0,
                        ) ==> k <= *it.seq()[j].0,
                    None => forall|j: int|
                        0 <= j < it.index() ==> !leads_to(
                            self@,
                            a,
                            now,
                            syn@,
                            conf@,
                            ap_fix,
                            *(#[trigger] it.seq()[j]).0,
                        ),
                },
        {
            let (k, t): (&u32, &u64) = kv;
            let sooner: bool = match best {
                Some((b, _)) => *k < b,
                None => true,
            };
            if sooner && now.saturating_sub(*t) < KNOWN_WINDOW {
                proof {
                    syn@.index_of_first_ensures(*k ^ a);
                }
                if let Some(i) = first_index(syn, *k ^ a) {
                    if rank_of(conf, conf[i]) < ap_fix {
                        best = Some((*k, i));
                    }
                }
            }
        }
        proof {
            assert forall|k: u32| #[trigger] leads_to(self@, a, now, syn@, conf@, ap_fix, k) implies (
            best matches Some((b, _)) && b <= k) by {
                assert(self.map@.contains_key(k));
            }
        }
        match best {
            Some((_, i)) => Some(i),
            None => None,
        }
    }
}

} // verus!
