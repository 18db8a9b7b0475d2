//! Why a known frame was or was not found near a given position.

use crate::decode_laws::{as_unsure, lemma_place, less_sure};
use crate::params::{Params, Slicer};
use crate::preamble::{
    Levels, energy, fine_at, gate, gate_at, grid_at, half_bit, lemma_levels, levels_of, passes,
    preamble_levels, spike_count, spikes, stands_out,
};
use crate::repair::{by_confidence, confidence_order, lemma_order_facts};
use crate::slicer::{bit_of, frame_bit, frame_confidence};
use crate::demod::LONG_SAMPLES;
use vstd::prelude::*;

verus! {

/// What a probe finds.
#[derive(Debug, Clone)]
pub struct Probe {
    /// Whether a nearby sample passes the cheap gate.
    pub precheck: bool,
    /// Whether a nearby start passes the fine test.
    pub preamble: bool,
    /// The best start, in fifths of a sample; the given position where no
    /// preamble was accepted.
    pub best_start: u64,
    /// How far its pulses stand above its gaps, scaled by 396.
    pub best_score: u32,
    /// Bit errors against the expected bytes at that start.
    pub bit_errors: usize,
    /// Rank (0 = least confident) of each wrong bit in the confidence order.
    pub error_ranks: Vec<usize>,
    /// Mean pulse and gap level, scaled by 396.
    pub pulse_level: u32,
    pub gap_level: u32,
}

/// The squares of how far the samples [a, b) lie from the level `g`, both
/// scaled by 396, summed.
pub open spec fn squares(m: Seq<u16>, a: int, b: int, g: int) -> int
    decreases b - a,
{
    if b <= a {
        0
    } else {
        squares(m, a, b - 1, g) + (396 * m[b - 1] - g) * (396 * m[b - 1] - g)
    }
}

/// The pulses stand above the gaps by `sigmas` 256ths of the standard
/// deviation of the eleven gap samples of a preamble at sample `i`.
pub open spec fn above_noise(m: Seq<u16>, i: int, l: Levels, sigmas: u32) -> bool {
    let spread = squares(m, i + 4, i + 8, l.gap as int) + squares(m, i + 12, i + 19, l.gap as int);
    let height = l.pulse_mean - l.gap;
    11 * 65536 * (height * height) >= (sigmas * sigmas) * spread
}

/// The fine test at `st` fifths, with the test against noise where it is on.
pub open spec fn accepted(p: Params, m: Seq<u16>, st: int) -> bool {
    let l = levels_of(m, st);
    stands_out(l, p.preamble_ratio) && (p.noise_sigmas > 0 ==> above_noise(
        m,
        st / 5,
        l,
        p.noise_sigmas,
    ))
}

/// How far the pulses of a start stand above its gaps.
pub open spec fn height(m: Seq<u16>, st: int) -> int {
    levels_of(m, st).pulse_mean - levels_of(m, st).gap
}

/// The accepted start in [from, to) whose pulses stand highest, the first of
/// equals.
pub open spec fn best_in(p: Params, m: Seq<u16>, from: int, to: int) -> Option<int>
    decreases to - from,
{
    if to <= from {
        None
    } else {
        let best = best_in(p, m, from, to - 1);
        if accepted(p, m, to - 1) && (best matches Some(b) ==> height(m, to - 1) > height(m, b)) {
            Some(to - 1)
        } else {
            best
        }
    }
}

/// The first sample looked at around `pos` fifths: two before it.
pub open spec fn first_near(pos: int) -> int {
    if pos / 5 >= 2 { pos / 5 - 2 } else { 0 }
}

/// The sample after the last one looked at: two after `pos`, and none that
/// leaves too little room for a frame.
pub open spec fn last_near(m: Seq<u16>, pos: int) -> int {
    let room = m.len() - LONG_SAMPLES - 1;
    let to = pos / 5 + 3;
    if to < room { to } else { room }
}

/// The start a probe settles on: the best preamble, or else the position.
pub open spec fn settled(p: Params, m: Seq<u16>, pos: int) -> int {
    match best_in(p, m, 5 * first_near(pos), 5 * last_near(m, pos)) {
        Some(st) => st,
        None => pos,
    }
}

/// Some sample in [from, to) passes the cheap gate.
pub open spec fn gated(p: Params, m: Seq<u16>, from: int, to: int) -> bool {
    exists|s: int|
        from <= s < to && #[trigger] gate(m, s, p.precheck_ratio) && spikes(m, s) <= p.gap_spikes
}

/// Energy in the first half of bit `b` of a frame at `st`.
pub open spec fn early(m: Seq<u16>, st: int, b: int) -> int {
    energy(m, st + 96 + 12 * b, st + 102 + 12 * b)
}

/// Energy in the second half of bit `b` of a frame at `st`.
pub open spec fn late(m: Seq<u16>, st: int, b: int) -> int {
    energy(m, st + 102 + 12 * b, st + 108 + 12 * b)
}

/// How clearly bit `b` is decided.
pub open spec fn margin(m: Seq<u16>, st: int, b: int) -> u32 {
    (if early(m, st, b) > late(m, st, b) {
        early(m, st, b) - late(m, st, b)
    } else {
        late(m, st, b) - early(m, st, b)
    }) as u32
}

/// The margins of `n` bits.
pub open spec fn margins(m: Seq<u16>, st: int, n: nat) -> Seq<u32> {
    Seq::new(n, |b: int| margin(m, st, b))
}

/// The bits below `n` that read otherwise than in `expected`.
pub open spec fn wrong_bits(m: Seq<u16>, st: int, expected: Seq<u8>, n: int) -> Seq<usize>
    decreases n,
{
    if n <= 0 {
        Seq::empty()
    } else {
        let rest = wrong_bits(m, st, expected, n - 1);
        if (early(m, st, n - 1) > late(m, st, n - 1)) != frame_bit(expected, n - 1) {
            rest.push((n - 1) as usize)
        } else {
            rest
        }
    }
}

/// Where each of `bits` stands in the confidence order of `conf`.
pub open spec fn ranks(conf: Seq<u32>, bits: Seq<usize>) -> Seq<usize> {
    Seq::new(bits.len(), |k: int| confidence_order(conf).index_of_first(bits[k])->0 as usize)
}

/// What a probe around `pos` for the frame `expected` reports.
pub open spec fn probed(p: Params, m: Seq<u16>, pos: u64, expected: Seq<u8>, r: Probe) -> bool {
    let from = first_near(pos as int);
    let to = last_near(m, pos as int);
    let wrong = wrong_bits(m, r.best_start as int, expected, 8 * expected.len() as int);
    &&& r.precheck == gated(p, m, from, to)
    &&& r.best_start == settled(p, m, pos as int)
    &&& match best_in(p, m, 5 * from, 5 * to) {
        Some(st) => r.preamble && r.best_score == height(m, st) && r.pulse_level == levels_of(
            m,
            st,
        ).pulse_mean,
        None => !r.preamble && r.best_score == 0 && r.pulse_level == 0,
    }
    &&& r.gap_level == levels_of(m, r.best_start as int).gap
    &&& r.bit_errors == wrong.len()
    &&& r.error_ranks@ == ranks(margins(m, r.best_start as int, 8 * expected.len()), wrong)
}

/// Squares over a range, computed.
fn squares_of(m: &[u16], a: usize, b: usize, g: u32) -> (s: u128)
    requires
        a <= b <= m@.len(),
        b - a <= 16,
        g <= 396 * 65535,
    ensures
        s == squares(m@, a as int, b as int, g as int),
        s <= (b - a) * 0x40_0000_0000_0000,
{
    let mut s: u128 = 0;
    for k in a..b
        invariant
            a <= b <= m@.len(),
            b - a <= 16,
            g <= 396 * 65535,
            s == squares(m@, a as int, k as int, g as int),
            s <= (k - a) * 0x40_0000_0000_0000,
    {
        let x: u32 = 396 * (m[k] as u32);
        let d: u128 = if x > g { (x - g) as u128 } else { (g - x) as u128 };
        assert(d * d <= 0x200_0000 * 0x200_0000) by (nonlinear_arith)
            requires
                d <= 0x200_0000,
        ;
        assert(d * d == (x - g) * (x - g)) by (nonlinear_arith)
            requires
                d == x - g || d == g - x,
        ;
        s = s + d * d;
    }
    s
}

/// The cheap gate at sample `i`: the gap samples set the level, and at most
/// `gap_spikes` of them exceed the weakest pulse.
pub fn precheck(p: &Params, m: &[u16], i: usize) -> (ok: bool)
    requires
        i + 19 <= m@.len(),
    ensures
        ok == (spikes(m@, i as int) <= p.gap_spikes && gate(m@, i as int, p.precheck_ratio)),
{
    spike_count(m, i) <= p.gap_spikes && gate_at(m, i, p.precheck_ratio)
}

/// The fine test at `st` fifths: the levels where it passes.
pub fn preamble(p: &Params, m: &[u16], st: u64) -> (l: Option<Levels>)
    requires
        st + 96 <= 5 * m@.len() <= u64::MAX,
    ensures
        match l {
            Some(l) => accepted(*p, m@, st as int) && l == levels_of(m@, st as int),
            None => !accepted(*p, m@, st as int),
        },
{
    let n: usize = m.len();
    let l: Levels = preamble_levels(m, st);
    proof {
        lemma_levels(m@, st as int);
    }
    if !passes(&l, p.preamble_ratio) {
        return None;
    }
    if p.noise_sigmas > 0 {
        let i: usize = (st / 5) as usize;
        let spread: u128 = squares_of(m, i + 4, i + 8, l.gap) + squares_of(m, i + 12, i + 19, l.gap);
        let k: u128 = p.noise_sigmas as u128;
        let h: u128 = l.pulse_mean as u128 - l.gap as u128;
        assert(h * h <= 0xFFFF_FFFF * 0xFFFF_FFFF) by (nonlinear_arith)
            requires
                h <= 0xFFFF_FFFF,
        ;
        assert(k * k <= 0xFFFF_FFFF * 0xFFFF_FFFF) by (nonlinear_arith)
            requires
                k <= 0xFFFF_FFFF,
        ;
        // Twelve bits are left above a product of this size.
        assert((k * k) * spread <= (0xFFFF_FFFF * 0xFFFF_FFFF) * 0xFFF_FFFF_FFFF_FFFF) by (nonlinear_arith)
            requires
                0 <= k * k <= 0xFFFF_FFFF * 0xFFFF_FFFF,
                0 <= spread <= 0xFFF_FFFF_FFFF_FFFF,
        ;
        if 11 * 65536 * (h * h) < (k * k) * spread {
            return None;
        }
    }
    Some(l)
}

/// The bits of a frame at `start` that read otherwise than in `expected`, and
/// how clearly each of its bits is decided.
fn compare(m: &[u16], start: u64, expected: &[u8]) -> (r: (Vec<usize>, Vec<u32>))
    requires
        5 * m@.len() <= u64::MAX,
        start + 96 + 96 * expected@.len() <= 5 * m@.len(),
    ensures
        r.0@ == wrong_bits(m@, start as int, expected@, 8 * expected@.len() as int),
        r.1@ == margins(m@, start as int, 8 * expected@.len()),
        forall|k: int| 0 <= k < r.0@.len() ==> #[trigger] r.0@[k] < 8 * expected@.len(),
{
    let n: usize = m.len();
    assert(96 * expected@.len() <= 5 * n);
    let nbits: usize = 8 * expected.len();
    let mut wrong: Vec<usize> = Vec::new();
    let mut conf: Vec<u32> = Vec::new();
    for b in 0..nbits
        invariant
            nbits == 8 * expected@.len(),
            5 * m@.len() <= u64::MAX,
            start + 96 + 96 * expected@.len() <= 5 * m@.len(),
            wrong@ == wrong_bits(m@, start as int, expected@, b as int),
            conf@ == margins(m@, start as int, b as nat),
            forall|k: int| 0 <= k < wrong@.len() ==> #[trigger] wrong@[k] < b,
    {
        let t0: u64 = start + 96 + 12 * (b as u64);
        let (a, c): (u32, u32) = (half_bit(m, t0), half_bit(m, t0 + 6));
        conf.push(if a > c { a - c } else { c - a });
        assert(conf@ =~= margins(m@, start as int, (b + 1) as nat));
        let bit: bool = (expected[b / 8] >> ((7 - b % 8) as u8)) & 1 == 1;
        if (a > c) != bit {
            wrong.push(b);
        }
    }
    (wrong, conf)
}

/// Where `x` stands in `order`.
fn position(order: &Vec<usize>, x: usize) -> (at: usize)
    requires
        order@.contains(x),
    ensures
        order@.index_of_first(x) == Some(at as int),
{
    let n: usize = order.len();
    let mut k: usize = 0;
    while order[k] != x
        invariant
            n == order@.len(),
            order@.contains(x),
            k < order@.len(),
            forall|j: int| 0 <= j < k ==> #[trigger] order@[j] != x,
        decreases order@.len() - k,
    {
        k += 1;
    }
    proof {
        order@.index_of_first_ensures(x);
    }
    k
}

/// Evaluate the candidate around `pos` (fifths of a sample) for a frame known
/// to be `expected`.
pub fn probe_at(p: &Params, m: &[u16], pos: u64, expected: &[u8]) -> (r: Probe)
    requires
        5 * m@.len() <= u64::MAX,
        settled(*p, m@, pos as int) + 96 + 96 * expected@.len() <= 5 * m@.len(),
    ensures
        probed(*p, m@, pos, expected@, r),
{
    let n: usize = m.len();
    let i0: u64 = pos / 5;
    let from: u64 = if i0 >= 2 { i0 - 2 } else { 0 };
    let room: u64 = if n > LONG_SAMPLES { (n - LONG_SAMPLES - 1) as u64 } else { 0 };
    let to: u64 = if i0 + 3 < room { i0 + 3 } else { room };
    let mut pre: bool = false;
    let mut best: Option<(u64, Levels)> = None;
    let mut s: u64 = from;
    while s < to
        invariant
            n == m@.len(),
            5 * n <= u64::MAX,
            to + LONG_SAMPLES + 1 <= n || to <= from,
            from <= s,
            s <= to || to <= from && s == from,
            pre == gated(*p, m@, from as int, s as int),
            match best {
                Some((b, l)) => best_in(*p, m@, 5 * from, 5 * s) == Some(b as int) && l == levels_of(
                    m@,
                    b as int,
                ) && l.gap <= l.pulse_mean,
                None => best_in(*p, m@, 5 * from, 5 * s) is None,
            },
        decreases to - s,
    {
        if precheck(p, m, s as usize) {
            pre = true;
            assert(gate(m@, s as int, p.precheck_ratio));
        }
        let mut st: u64 = 5 * s;
        while st < 5 * s + 5
            invariant
                n == m@.len(),
                5 * n <= u64::MAX,
                s + LONG_SAMPLES + 1 < n,
                5 * from <= 5 * s <= st <= 5 * s + 5,
                match best {
                    Some((b, l)) => best_in(*p, m@, 5 * from, st as int) == Some(b as int) && l
                        == levels_of(m@, b as int) && l.gap <= l.pulse_mean,
                    None => best_in(*p, m@, 5 * from, st as int) is None,
                },
            decreases 5 * s + 5 - st,
        {
            if let Some(l) = preamble(p, m, st) {
                proof {
                    lemma_levels(m@, st as int);
                }
                let higher: bool = match best {
                    Some((_, b)) => l.pulse_mean as i64 - l.gap as i64 > b.pulse_mean as i64 - b.gap as i64,
                    None => true,
                };
                if higher {
                    best = Some((st, l));
                }
            }
            st += 1;
        }
        s += 1;
    }
    let found: bool = best.is_some();
    let (start, score, level): (u64, u32, u32) = match best {
        Some((b, l)) => (b, l.pulse_mean - l.gap, l.pulse_mean),
        None => (pos, 0, 0),
    };
    let gap: u32 = preamble_levels(m, start).gap;
    let (wrong, conf): (Vec<usize>, Vec<u32>) = compare(m, start, expected);
    let order: Vec<usize> = by_confidence(&conf);
    let mut ranked: Vec<usize> = Vec::new();
    proof {
        lemma_order_facts(conf@);
    }
    for k in 0..wrong.len()
        invariant
            order@ == confidence_order(conf@),
            forall|x: usize| x < conf@.len() ==> #[trigger] order@.contains(x),
            forall|j: int| 0 <= j < wrong@.len() ==> #[trigger] wrong@[j] < conf@.len(),
            ranked@.len() == k,
            forall|j: int|
                0 <= j < k ==> #[trigger] ranked@[j] == confidence_order(conf@).index_of_first(
                    wrong@[j],
                )->0,
    {
        ranked.push(position(&order, wrong[k]));
    }
    assert(ranked@ =~= ranks(conf@, wrong@));
    Probe {
        precheck: pre,
        preamble: found,
        best_start: start,
        best_score: score,
        bit_errors: wrong.len(),
        error_ranks: ranked,
        pulse_level: level,
        gap_level: gap,
    }
}

/// The start a search settles on lies in its range and is accepted, no other
/// accepted start there stands higher nor one before it as high, and none was accepted
/// where it settles on none.
pub proof fn law_best_stands_highest(p: Params, m: Seq<u16>, from: int, to: int, st: int)
    requires
        from <= st < to,
        accepted(p, m, st),
    ensures
        best_in(p, m, from, to) matches Some(b) && from <= b < to && accepted(p, m, b) && height(m, st)
            <= height(m, b) && (height(m, st) == height(m, b) ==> b <= st),
    decreases to - from,
{
    lemma_best_in(p, m, from, to - 1);
    if st < to - 1 {
        law_best_stands_highest(p, m, from, to - 1, st);
    }
}

proof fn lemma_best_in(p: Params, m: Seq<u16>, from: int, to: int)
    ensures
        best_in(p, m, from, to) matches Some(b) ==> from <= b < to && accepted(p, m, b),
    decreases to - from,
{
    if from < to {
        lemma_best_in(p, m, from, to - 1);
    }
}

/// A probe at a position that leaves room for the expected frame has room for
/// it wherever it settles.
pub proof fn law_probe_has_room(p: Params, m: Seq<u16>, pos: int, n: int)
    requires
        0 <= n <= 14,
        pos + 96 + 96 * n <= 5 * m.len(),
    ensures
        settled(p, m, pos) + 96 + 96 * n <= 5 * m.len(),
{
    lemma_best_in(p, m, 5 * first_near(pos), 5 * last_near(m, pos));
}

/// The fine test on the grid of fifths is the fine test, where the samples reach
/// and the test against noise is off.
pub proof fn law_grid_test_is_the_fine_test(p: Params, m: Seq<u16>, st: int)
    requires
        p.noise_sigmas == 0,
        st / 5 + 21 <= m.len(),
        0 <= st <= u64::MAX,
    ensures
        match grid_at(m, st, p.preamble_ratio) {
            Some(h) => accepted(p, m, st) && h.start == st && h.score() == height(m, st),
            None => !accepted(p, m, st),
        },
{
}

/// At a whole sample, with the test of uniformity off, the fixed weights give
/// what the grid gives.
pub proof fn law_fixed_weights_agree_with_the_grid(m: Seq<u16>, i: int, ratio: u32)
    requires
        0 <= i,
        i + 21 <= m.len(),
    ensures
        fine_at(m, i, ratio, 0) == grid_at(m, 5 * i, ratio),
{
}

proof fn lemma_wrong_bits(m: Seq<u16>, st: int, expected: Seq<u8>, n: int, b: int)
    requires
        0 <= n <= usize::MAX,
        0 <= b,
    ensures
        ({
            let wrong = wrong_bits(m, st, expected, n);
            &&& wrong.contains(b as usize) && b < n <==> b < n && (early(m, st, b) > late(m, st, b)) != frame_bit(
                expected,
                b,
            )
            &&& forall|k: int| 0 <= k < wrong.len() ==> #[trigger] wrong[k] < n
            &&& forall|j: int, k: int| 0 <= j < k < wrong.len() ==> #[trigger] wrong[j] < #[trigger] wrong[k]
        }),
    decreases n,
{
    if n > 0 {
        let rest = wrong_bits(m, st, expected, n - 1);
        let wrong = wrong_bits(m, st, expected, n);
        lemma_wrong_bits(m, st, expected, n - 1, b);
        if b < n - 1 && rest.contains(b as usize) {
            let k = rest.index_of(b as usize);
            assert(wrong[k] == b);
        }
        if b == n - 1 && wrong.len() > rest.len() {
            assert(wrong[rest.len() as int] == b);
        }
        if b < n && wrong.contains(b as usize) {
            let k = wrong.index_of(b as usize);
            if k < rest.len() {
                assert(rest[k] == b as usize);
            }
        }
    }
}

/// The bits that a probe reports are those that the slicer reads otherwise than expected,
/// each once and in their order, and its margins are the slicer's confidence.
pub proof fn law_probe_reads_as_the_slicer(p: Params, m: Seq<u16>, st: int, expected: Seq<u8>, b: int)
    requires
        p.slicer == Slicer::Box,
        8 * expected.len() <= usize::MAX,
        0 <= b < 8 * expected.len(),
    ensures
        ({
            let wrong = wrong_bits(m, st, expected, 8 * expected.len() as int);
            &&& wrong.contains(b as usize) <==> bit_of(p, m, st, b) != frame_bit(expected, b)
            &&& forall|j: int, k: int| 0 <= j < k < wrong.len() ==> #[trigger] wrong[j] < #[trigger] wrong[k]
            &&& forall|k: int| 0 <= k < wrong.len() ==> #[trigger] wrong[k] < 8 * expected.len()
            &&& margins(m, st, 8 * expected.len()) == frame_confidence(p, m, st, expected.len())
        }),
{
    lemma_wrong_bits(m, st, expected, 8 * expected.len() as int, b);
    assert(margins(m, st, 8 * expected.len()) =~= frame_confidence(p, m, st, expected.len()));
}

/// The rank of a wrong bit is how many are less confident, or more where others are as
/// confident as it is.
pub proof fn law_ranks_count_the_less_sure(conf: Seq<u32>, bits: Seq<usize>, k: int)
    requires
        conf.len() <= usize::MAX,
        0 <= k < bits.len(),
        bits[k] < conf.len(),
    ensures
        ranks(conf, bits).len() == bits.len(),
        less_sure(conf, conf[bits[k] as int]).len() <= ranks(conf, bits)[k],
        ranks(conf, bits)[k] < as_unsure(conf, conf[bits[k] as int]).len(),
{
    let order = confidence_order(conf);
    lemma_order_facts(conf);
    assert(order.contains(bits[k]));
    order.index_of_first_ensures(bits[k]);
    lemma_place(conf, order.index_of_first(bits[k])->0);
}

/// A probe looks at the sample of its position and two either way, as far as a whole frame
/// follows. It settles on an accepted start there than which none stands higher, or else on
/// the position; and the cheap gate is passed where one of these samples passes it.
pub proof fn law_probe_looks_two_samples_around(p: Params, m: Seq<u16>, pos: int, st: int)
    requires
        0 <= pos,
        0 <= st,
        -2 <= st / 5 - pos / 5 <= 2,
        st / 5 < m.len() - 292,
    ensures
        ({
            let b = settled(p, m, pos);
            &&& accepted(p, m, st) ==> accepted(p, m, b) && height(m, st) <= height(m, b)
            &&& b == pos || accepted(p, m, b) && -2 <= b / 5 - pos / 5 <= 2 && 0 <= b / 5 < m.len() - 292
            &&& gate(m, st / 5, p.precheck_ratio) && spikes(m, st / 5) <= p.gap_spikes ==> gated(
                p,
                m,
                first_near(pos),
                last_near(m, pos),
            )
            &&& gated(p, m, first_near(pos), last_near(m, pos)) ==> exists|s: int|
                -2 <= s - pos / 5 <= 2 && 0 <= s < m.len() - 292 && #[trigger] gate(m, s, p.precheck_ratio)
                    && spikes(m, s) <= p.gap_spikes
        }),
{
    let (from, to) = (5 * first_near(pos), 5 * last_near(m, pos));
    lemma_best_in(p, m, from, to);
    assert(from <= st < to);
    if accepted(p, m, st) {
        law_best_stands_highest(p, m, from, to, st);
    }
}

proof fn lemma_squares(m: Seq<u16>, a: int, b: int, g: int, d: int)
    requires
        a <= b,
        0 <= d,
    ensures
        (forall|k: int| a <= k < b ==> -d <= 396 * (#[trigger] m[k]) - g <= d) ==> squares(m, a, b, g) <= (b - a) * (d
            * d),
        (forall|k: int| a <= k < b ==> 396 * (#[trigger] m[k]) - g <= -d || 396 * m[k] - g >= d) ==> squares(
            m,
            a,
            b,
            g,
        ) >= (b - a) * (d * d),
    decreases b - a,
{
    if a < b {
        lemma_squares(m, a, b - 1, g, d);
        let x = 396 * m[b - 1] - g;
        assert((b - a) * (d * d) == (b - 1 - a) * (d * d) + d * d) by (nonlinear_arith);
        if -d <= x <= d {
            assert(x * x <= d * d) by (nonlinear_arith)
                requires
                    -d <= x <= d,
            ;
        }
        if x <= -d || x >= d {
            assert(x * x >= d * d) by (nonlinear_arith)
                requires
                    x <= -d || x >= d,
                    0 <= d,
            ;
        }
    } else {
        assert(b - a == 0 && 0 * (d * d) == 0);
    }
}

/// The test against noise compares the height of the pulses with how far the eleven gap
/// samples stray from their mean: it passes where none strays by more than `d` and the
/// height is at least `sigmas` 256ths of that, and fails where each strays by `d` or more
/// and the height is less.
pub proof fn law_noise_test_is_by_standard_deviation(m: Seq<u16>, i: int, l: Levels, sigmas: u32, d: int)
    requires
        0 <= d,
        l.gap <= l.pulse_mean,
    ensures
        ({
            let height = l.pulse_mean - l.gap;
            let inside = |k: int| -d <= 396 * m[k] - l.gap <= d;
            let outside = |k: int| 396 * m[k] - l.gap <= -d || 396 * m[k] - l.gap >= d;
            &&& (forall|k: int| i + 4 <= k < i + 8 || i + 12 <= k < i + 19 ==> #[trigger] inside(k)) && 256 * height
                >= sigmas * d ==> above_noise(m, i, l, sigmas)
            &&& (forall|k: int| i + 4 <= k < i + 8 || i + 12 <= k < i + 19 ==> #[trigger] outside(k)) && 256 * height
                < sigmas * d ==> !above_noise(m, i, l, sigmas)
        }),
{
    let (g, h, n) = (l.gap as int, l.pulse_mean - l.gap, sigmas as int);
    let spread = squares(m, i + 4, i + 8, g) + squares(m, i + 12, i + 19, g);
    let inside = |k: int| -d <= 396 * m[k] - l.gap <= d;
    let outside = |k: int| 396 * m[k] - l.gap <= -d || 396 * m[k] - l.gap >= d;
    lemma_squares(m, i + 4, i + 8, g, d);
    lemma_squares(m, i + 12, i + 19, g, d);
    let four = (i + 8) - (i + 4);
    let seven = (i + 19) - (i + 12);
    assert(four * (d * d) == 4 * (d * d) && seven * (d * d) == 7 * (d * d)) by (nonlinear_arith)
        requires
            four == 4,
            seven == 7,
    ;
    if (forall|k: int| i + 4 <= k < i + 8 || i + 12 <= k < i + 19 ==> #[trigger] inside(k)) && 256 * h >= n * d {
        assert forall|k: int| i + 4 <= k < i + 8 || i + 12 <= k < i + 19 implies -d <= 396 * (#[trigger] m[k]) - g
            <= d by {
            assert(inside(k));
        }
        assert(spread <= 11 * (d * d));
        assert(11 * 65536 * (h * h) >= (n * n) * spread) by (nonlinear_arith)
            requires
                0 <= h,
                0 <= n,
                0 <= d,
                256 * h >= n * d,
                spread <= 11 * (d * d),
        {
            assert((256 * h) * (256 * h) >= (n * d) * (n * d));
            assert((n * n) * spread <= (n * n) * (11 * (d * d)));
            assert((n * d) * (n * d) == (n * n) * (d * d));
        }
    }
    if (forall|k: int| i + 4 <= k < i + 8 || i + 12 <= k < i + 19 ==> #[trigger] outside(k)) && 256 * h < n * d {
        assert forall|k: int| i + 4 <= k < i + 8 || i + 12 <= k < i + 19 implies 396 * (#[trigger] m[k]) - g <= -d
            || 396 * m[k] - g >= d by {
            assert(outside(k));
        }
        assert(spread >= 11 * (d * d));
        assert(11 * 65536 * (h * h) < (n * n) * spread) by (nonlinear_arith)
            requires
                0 <= h,
                0 <= n,
                0 <= d,
                256 * h < n * d,
                spread >= 11 * (d * d),
        {
            assert((256 * h) * (256 * h) < (n * d) * (n * d));
            assert((n * n) * spread >= (n * n) * (11 * (d * d)));
            assert((n * d) * (n * d) == (n * n) * (d * d));
        }
    }
}

} // verus!
