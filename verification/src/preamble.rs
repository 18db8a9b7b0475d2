//! Finding preambles: a cheap integer gate over every sample, then the fine
//! test of pulse against gap energy.
//!
//! Samples arrive at 2.4 per microsecond, so half a microsecond is 6 fifths of
//! a sample and every boundary of the waveform lies on the grid of fifths. The
//! preamble has pulses at 0, 1.0, 3.5 and 4.5 us, each 0.5 us wide; data
//! follows from 8 us.

use vstd::prelude::*;
use vstd::slice::slice_subrange;

verus! {

/// Energy of the stream over the interval [a, b), in fifths of a sample,
/// treating each sample as the level over its own interval.
pub open spec fn energy(m: Seq<u16>, a: int, b: int) -> int
    decreases b - a,
{
    if b <= a {
        0
    } else {
        energy(m, a, b - 1) + m[(b - 1) / 5] as int
    }
}

/// Sum of the samples [a, b).
pub open spec fn sum(m: Seq<u16>, a: int, b: int) -> int
    decreases b - a,
{
    if b <= a {
        0
    } else {
        sum(m, a, b - 1) + m[b - 1] as int
    }
}

pub open spec fn larger(a: int, b: int) -> int {
    if a > b { a } else { b }
}

pub open spec fn smaller(a: int, b: int) -> int {
    if a < b { a } else { b }
}

/// The stronger of two neighbouring samples.
pub open spec fn pair_max(m: Seq<u16>, j: int) -> int {
    larger(m[j] as int, m[j + 1] as int)
}

/// The pulses' strongest samples, summed, for a preamble at sample `j`.
pub open spec fn pulse_peaks(m: Seq<u16>, j: int) -> int {
    pair_max(m, j) + pair_max(m, j + 2) + pair_max(m, j + 8) + pair_max(m, j + 10)
}

/// The eleven samples inside the two long gaps, summed.
pub open spec fn gap_sum(m: Seq<u16>, j: int) -> int {
    sum(m, j + 4, j + 8) + sum(m, j + 12, j + 19)
}

/// The cheap gate at sample `j`: the mean of the pulses' strongest samples
/// exceeds `ratio` 256ths of the mean of the gap samples.
pub open spec fn gate(m: Seq<u16>, j: int, ratio: u32) -> bool {
    pulse_peaks(m, j) * 11 * 256 > 4 * ratio * gap_sum(m, j)
}

/// The weakest of the four pulses' strongest samples.
pub open spec fn weakest_peak(m: Seq<u16>, j: int) -> int {
    smaller(
        smaller(pair_max(m, j), pair_max(m, j + 2)),
        smaller(pair_max(m, j + 8), pair_max(m, j + 10)),
    )
}

/// How many of the samples [a, b) exceed `level`.
pub open spec fn above(m: Seq<u16>, a: int, b: int, level: int) -> nat
    decreases b - a,
{
    if b <= a {
        0
    } else {
        above(m, a, b - 1, level) + if m[b - 1] > level { 1nat } else { 0nat }
    }
}

/// Gap samples that exceed the weakest pulse.
pub open spec fn spikes(m: Seq<u16>, j: int) -> nat {
    let level = weakest_peak(m, j);
    above(m, j + 4, j + 8, level) + above(m, j + 12, j + 19, level)
}

/// Energies of the four preamble pulses for a start at `st` fifths.
pub open spec fn pulse(m: Seq<u16>, st: int, k: int) -> int {
    let at = if k == 0 {
        0int
    } else if k == 1 {
        12
    } else if k == 2 {
        42
    } else {
        54
    };
    energy(m, st + at, st + at + 6)
}

/// Energy of the preamble gaps for a start at `st` fifths.
pub open spec fn gaps(m: Seq<u16>, st: int) -> int {
    energy(m, st + 6, st + 12) + energy(m, st + 18, st + 42) + energy(m, st + 60, st + 96)
}

/// Pulse and gap levels of a preamble. A pulse lasts 6 fifths and the gaps 66
/// in all: levels are scaled by 396 so that both stay integers.
#[derive(Clone, Copy)]
pub struct Levels {
    pub pulse_mean: u32,
    pub gap: u32,
    pub pulse_min: u32,
    pub pulse_max: u32,
}

/// The levels of a preamble starting at `st` fifths.
#[verifier::opaque]
pub open spec fn levels_of(m: Seq<u16>, st: int) -> Levels {
    let (p0, p1, p2, p3) = (
        pulse(m, st, 0) * 66,
        pulse(m, st, 1) * 66,
        pulse(m, st, 2) * 66,
        pulse(m, st, 3) * 66,
    );
    Levels {
        pulse_mean: ((p0 + p1 + p2 + p3) / 4) as u32,
        gap: (gaps(m, st) * 6) as u32,
        pulse_min: smaller(smaller(p0, p1), smaller(p2, p3)) as u32,
        pulse_max: larger(larger(p0, p1), larger(p2, p3)) as u32,
    }
}

/// One raw magnitude unit (16 scaled) as a level.
pub const FLOOR: u32 = 6336;

/// A preamble found: where it starts (fifths of a sample), and its mean pulse
/// and gap levels, scaled by 396.
#[derive(Clone, Copy)]
pub struct Hit {
    pub start: u64,
    pub pulse: u32,
    pub gap: u32,
}

impl Hit {
    /// How far the pulses stand above the gaps.
    pub open spec fn score(&self) -> int {
        self.pulse - self.gap
    }
}

/// The fine test on the levels of a preamble: every pulse above the gap level,
/// and the pulse mean at least `ratio` 256ths of it, one raw unit at the least.
pub open spec fn stands_out(l: Levels, ratio: u32) -> bool {
    &&& l.pulse_min > l.gap
    &&& l.pulse_mean * 256 >= ratio * larger(l.gap as int, FLOOR as int)
}

/// The weakest pulse is at least `uniformity` 256ths of the strongest.
pub open spec fn even_pulses(l: Levels, uniformity: u32) -> bool {
    l.pulse_min * 256 >= uniformity * l.pulse_max
}

/// The fine test at sample `i`.
pub open spec fn fine_at(m: Seq<u16>, i: int, ratio: u32, uniformity: u32) -> Option<Hit> {
    let l = levels_of(m, 5 * i);
    if even_pulses(l, uniformity) && stands_out(l, ratio) {
        Some(Hit { start: (5 * i) as u64, pulse: l.pulse_mean, gap: l.gap })
    } else {
        None
    }
}

/// The fine test at `st` fifths, for phases between samples.
pub open spec fn grid_at(m: Seq<u16>, st: int, ratio: u32) -> Option<Hit> {
    let l = levels_of(m, st);
    if st / 5 + 21 <= m.len() && stands_out(l, ratio) {
        Some(Hit { start: st as u64, pulse: l.pulse_mean, gap: l.gap })
    } else {
        None
    }
}

pub proof fn lemma_energy_split(m: Seq<u16>, a: int, b: int, c: int)
    requires
        a <= b <= c,
    ensures
        energy(m, a, c) == energy(m, a, b) + energy(m, b, c),
    decreases c - b,
{
    if b < c {
        lemma_energy_split(m, a, b, c - 1);
    }
}

/// A half bit covers two samples, with weights set by its phase.
pub proof fn lemma_half_bit(m: Seq<u16>, i: int, k: int)
    requires
        0 <= k < 5,
    ensures
        k == 0 ==> energy(m, 5 * i, 5 * i + 6) == 5 * m[i] + m[i + 1],
        k == 1 ==> energy(m, 5 * i + 1, 5 * i + 7) == 4 * m[i] + 2 * m[i + 1],
        k == 2 ==> energy(m, 5 * i + 2, 5 * i + 8) == 3 * m[i] + 3 * m[i + 1],
        k == 3 ==> energy(m, 5 * i + 3, 5 * i + 9) == 2 * m[i] + 4 * m[i + 1],
        k == 4 ==> energy(m, 5 * i + 4, 5 * i + 10) == m[i] + 5 * m[i + 1],
{
    reveal_with_fuel(energy, 7);
    let f = 5 * i + k;
    assert(f / 5 == i);
    assert((f + 5) / 5 == i + 1);
    assert((f + 1) / 5 == if k + 1 < 5 { i } else { i + 1 });
    assert((f + 2) / 5 == if k + 2 < 5 { i } else { i + 1 });
    assert((f + 3) / 5 == if k + 3 < 5 { i } else { i + 1 });
    assert((f + 4) / 5 == if k + 4 < 5 { i } else { i + 1 });
}

pub proof fn lemma_energy_bound(m: Seq<u16>, a: int, b: int)
    requires
        a <= b,
    ensures
        0 <= energy(m, a, b) <= (b - a) * 65535,
    decreases b - a,
{
    if a < b {
        lemma_energy_bound(m, a, b - 1);
    }
}

/// Energy over the half bit starting `k` fifths into sample `i`: two samples
/// with integer weights set by the phase. A third sample is never reached.
pub fn half_bit_at(m: &[u16], i: usize, k: usize) -> (e: u32)
    requires
        k < 5,
        i + 1 < m@.len(),
    ensures
        e == energy(m@, 5 * i + k, 5 * i + k + 6),
        e <= 6 * 65535,
{
    proof {
        lemma_half_bit(m@, i as int, k as int);
        lemma_energy_bound(m@, 5 * i + k, 5 * i + k + 6);
    }
    let (a, b): (u32, u32) = (m[i] as u32, m[i + 1] as u32);
    if k == 0 {
        5 * a + b
    } else if k == 1 {
        4 * a + 2 * b
    } else if k == 2 {
        3 * a + 3 * b
    } else if k == 3 {
        2 * a + 4 * b
    } else {
        a + 5 * b
    }
}

/// Energy over the half bit starting at `f` fifths.
pub fn half_bit(m: &[u16], f: u64) -> (e: u32)
    requires
        f + 6 <= 5 * m@.len(),
    ensures
        e == energy(m@, f as int, f + 6),
        e <= 6 * 65535,
{
    let n: usize = m.len();
    assert(f / 5 < n);
    half_bit_at(m, (f / 5) as usize, (f % 5) as usize)
}

fn min2(a: u32, b: u32) -> (c: u32)
    ensures
        c == smaller(a as int, b as int),
{
    if a < b { a } else { b }
}

fn max2(a: u32, b: u32) -> (c: u32)
    ensures
        c == larger(a as int, b as int),
{
    if a > b { a } else { b }
}

fn levels_from(p0: u32, p1: u32, p2: u32, p3: u32, g: u32) -> (l: Levels)
    requires
        p0 <= 6 * 65535,
        p1 <= 6 * 65535,
        p2 <= 6 * 65535,
        p3 <= 6 * 65535,
        g <= 66 * 65535,
    ensures
        l.pulse_mean == (p0 * 66 + p1 * 66 + p2 * 66 + p3 * 66) / 4,
        l.gap == g * 6,
        l.pulse_min == smaller(smaller(p0 * 66, p1 * 66), smaller(p2 * 66, p3 * 66)),
        l.pulse_max == larger(larger(p0 * 66, p1 * 66), larger(p2 * 66, p3 * 66)),
{
    let (l0, l1, l2, l3): (u32, u32, u32, u32) = (p0 * 66, p1 * 66, p2 * 66, p3 * 66);
    Levels {
        pulse_mean: (l0 + l1 + l2 + l3) / 4,
        gap: g * 6,
        pulse_min: min2(min2(l0, l1), min2(l2, l3)),
        pulse_max: max2(max2(l0, l1), max2(l2, l3)),
    }
}

pub proof fn lemma_gaps(m: Seq<u16>, st: int)
    ensures
        gaps(m, st) == energy(m, st + 6, st + 12) + energy(m, st + 18, st + 24) + energy(
            m,
            st + 24,
            st + 30,
        ) + energy(m, st + 30, st + 36) + energy(m, st + 36, st + 42) + energy(m, st + 60, st + 66)
            + energy(m, st + 66, st + 72) + energy(m, st + 72, st + 78) + energy(
            m,
            st + 78,
            st + 84,
        ) + energy(m, st + 84, st + 90) + energy(m, st + 90, st + 96),
{
    lemma_energy_split(m, st + 18, st + 24, st + 42);
    lemma_energy_split(m, st + 24, st + 30, st + 42);
    lemma_energy_split(m, st + 30, st + 36, st + 42);
    lemma_energy_split(m, st + 60, st + 66, st + 96);
    lemma_energy_split(m, st + 66, st + 72, st + 96);
    lemma_energy_split(m, st + 72, st + 78, st + 96);
    lemma_energy_split(m, st + 78, st + 84, st + 96);
    lemma_energy_split(m, st + 84, st + 90, st + 96);
}

/// Pulse and gap levels at a start on the grid of fifths.
pub fn preamble_levels(m: &[u16], st: u64) -> (l: Levels)
    requires
        st + 96 <= 5 * m@.len() <= u64::MAX,
    ensures
        l == levels_of(m@, st as int),
{
    reveal(levels_of);
    let p0: u32 = half_bit(m, st);
    let p1: u32 = half_bit(m, st + 12);
    let p2: u32 = half_bit(m, st + 42);
    let p3: u32 = half_bit(m, st + 54);
    let g: u32 = half_bit(m, st + 6) + half_bit(m, st + 18) + half_bit(m, st + 24) + half_bit(
        m,
        st + 30,
    ) + half_bit(m, st + 36) + half_bit(m, st + 60) + half_bit(m, st + 66) + half_bit(m, st + 72)
        + half_bit(m, st + 78) + half_bit(m, st + 84) + half_bit(m, st + 90);
    proof {
        lemma_gaps(m@, st as int);
    }
    levels_from(p0, p1, p2, p3, g)
}

proof fn lemma_window_energy(m: Seq<u16>, i: int, n: int, a: int, b: int)
    requires
        0 <= i,
        i + n <= m.len(),
        0 <= a,
        b <= 5 * n,
    ensures
        energy(m.subrange(i, i + n), a, b) == energy(m, 5 * i + a, 5 * i + b),
    decreases b - a,
{
    if a < b {
        lemma_window_energy(m, i, n, a, b - 1);
        assert((5 * i + b - 1) / 5 == i + (b - 1) / 5);
        assert(0 <= (b - 1) / 5 < n);
    }
}

proof fn lemma_window_levels(m: Seq<u16>, i: int, n: int)
    requires
        0 <= i,
        20 <= n,
        i + n <= m.len(),
    ensures
        levels_of(m.subrange(i, i + n), 0) == levels_of(m, 5 * i),
{
    reveal(levels_of);
    lemma_window_energy(m, i, n, 0, 6);
    lemma_window_energy(m, i, n, 12, 18);
    lemma_window_energy(m, i, n, 42, 48);
    lemma_window_energy(m, i, n, 54, 60);
    lemma_window_energy(m, i, n, 6, 12);
    lemma_window_energy(m, i, n, 18, 42);
    lemma_window_energy(m, i, n, 60, 96);
}

/// The levels of a preamble at the first sample of `w`, as fixed weights in
/// fifths of a sample: no loops, integer arithmetic.
pub fn preamble_int(w: &[u16]) -> (l: Levels)
    requires
        w@.len() >= 20,
    ensures
        l == levels_of(w@, 0),
{
    let (m0, m1, m2, m3): (u32, u32, u32, u32) = (w[0] as u32, w[1] as u32, w[2] as u32, w[3] as u32);
    let (m4, m5, m6, m7): (u32, u32, u32, u32) = (w[4] as u32, w[5] as u32, w[6] as u32, w[7] as u32);
    let (m8, m9, m10, m11): (u32, u32, u32, u32) = (
        w[8] as u32,
        w[9] as u32,
        w[10] as u32,
        w[11] as u32,
    );
    let (m12, m13, m14, m15): (u32, u32, u32, u32) = (
        w[12] as u32,
        w[13] as u32,
        w[14] as u32,
        w[15] as u32,
    );
    let (m16, m17, m18, m19): (u32, u32, u32, u32) = (
        w[16] as u32,
        w[17] as u32,
        w[18] as u32,
        w[19] as u32,
    );
    let p0: u32 = 5 * m0 + m1;
    let p1: u32 = 3 * m2 + 3 * m3;
    let p2: u32 = 3 * m8 + 3 * m9;
    let p3: u32 = m10 + 5 * m11;
    let g: u32 = 4 * m1 + 2 * m2 + 2 * m3 + 5 * (m4 + m5 + m6 + m7) + 2 * m8 + 5 * (m12 + m13 + m14
        + m15 + m16 + m17 + m18) + m19;
    proof {
        let m = w@;
        lemma_half_bit(m, 0, 0);
        lemma_half_bit(m, 2, 2);
        lemma_half_bit(m, 8, 2);
        lemma_half_bit(m, 10, 4);
        lemma_gaps(m, 0);
        lemma_half_bit(m, 1, 1);
        lemma_half_bit(m, 3, 3);
        lemma_half_bit(m, 4, 4);
        lemma_half_bit(m, 6, 0);
        lemma_half_bit(m, 7, 1);
        lemma_half_bit(m, 12, 0);
        lemma_half_bit(m, 13, 1);
        lemma_half_bit(m, 14, 2);
        lemma_half_bit(m, 15, 3);
        lemma_half_bit(m, 16, 4);
        lemma_half_bit(m, 18, 0);
    }
    reveal(levels_of);
    levels_from(p0, p1, p2, p3, g)
}

/// The fine test on levels.
pub fn passes(l: &Levels, ratio: u32) -> (ok: bool)
    ensures
        ok == stands_out(*l, ratio),
{
    let floor: u32 = max2(l.gap, FLOOR);
    assert(ratio * floor <= 0xFFFF_FFFFu32 * 0xFFFF_FFFFu32) by (nonlinear_arith)
        requires
            ratio <= 0xFFFF_FFFF,
            floor <= 0xFFFF_FFFF,
    ;
    l.pulse_min > l.gap && l.pulse_mean as u64 * 256 >= ratio as u64 * floor as u64
}

/// The uniformity test on levels.
fn uniform(l: &Levels, uniformity: u32) -> (ok: bool)
    ensures
        ok == even_pulses(*l, uniformity),
{
    let top: u32 = l.pulse_max;
    assert(uniformity * top <= 0xFFFF_FFFFu32 * 0xFFFF_FFFFu32) by (nonlinear_arith)
        requires
            uniformity <= 0xFFFF_FFFF,
            top <= 0xFFFF_FFFF,
    ;
    l.pulse_min as u64 * 256 >= uniformity as u64 * top as u64
}

/// The fine preamble test at sample `i`.
pub fn fine(m: &[u16], i: usize, ratio: u32, uniformity: u32) -> (hit: Option<Hit>)
    requires
        i + 20 <= m@.len(),
        5 * m@.len() <= u64::MAX,
    ensures
        hit == fine_at(m@, i as int, ratio, uniformity),
{
    let n: usize = m.len();
    assert(i + 20 <= n);
    let l: Levels = preamble_int(slice_subrange(m, i, i + 20));
    proof {
        lemma_window_levels(m@, i as int, 20);
    }
    if uniform(&l, uniformity) && passes(&l, ratio) {
        Some(Hit { start: 5 * (i as u64), pulse: l.pulse_mean, gap: l.gap })
    } else {
        None
    }
}

/// The fine preamble test at a start on the grid of fifths.
pub fn preamble_grid(m: &[u16], st: u64, ratio: u32) -> (hit: Option<Hit>)
    requires
        5 * m@.len() <= u64::MAX,
    ensures
        hit == grid_at(m@, st as int, ratio),
{
    if st / 5 >= m.len() as u64 || m.len() as u64 - st / 5 < 21 {
        return None;
    }
    let l: Levels = preamble_levels(m, st);
    if passes(&l, ratio) {
        Some(Hit { start: st, pulse: l.pulse_mean, gap: l.gap })
    } else {
        None
    }
}

pub proof fn lemma_sum_bound(m: Seq<u16>, a: int, b: int)
    requires
        a <= b,
    ensures
        0 <= sum(m, a, b) <= (b - a) * 65535,
    decreases b - a,
{
    if a < b {
        lemma_sum_bound(m, a, b - 1);
    }
}

pub proof fn lemma_sum_split(m: Seq<u16>, a: int, b: int, c: int)
    requires
        a <= b <= c,
    ensures
        sum(m, a, c) == sum(m, a, b) + sum(m, b, c),
    decreases c - b,
{
    if b < c {
        lemma_sum_split(m, a, b, c - 1);
    }
}

pub proof fn lemma_window_sum(m: Seq<u16>, i: int, n: int, a: int, b: int)
    requires
        0 <= i,
        i + n <= m.len(),
        0 <= a,
        b <= n,
    ensures
        sum(m.subrange(i, i + n), a, b) == sum(m, i + a, i + b),
    decreases b - a,
{
    if a < b {
        lemma_window_sum(m, i, n, a, b - 1);
    }
}

/// The pre-check looks at 19 samples, wherever they lie.
pub proof fn lemma_window_gate(m: Seq<u16>, i: int, n: int, j: int, ratio: u32)
    requires
        0 <= i,
        0 <= j,
        j + 19 <= n,
        i + n <= m.len(),
    ensures
        gate(m.subrange(i, i + n), j, ratio) == gate(m, i + j, ratio),
{
    lemma_window_sum(m, i, n, j + 4, j + 8);
    lemma_window_sum(m, i, n, j + 12, j + 19);
}

/// The three passes over one sub-block: pairwise maxima, prefix sums, and
/// the hit mask.
pub fn gate_passes(
    span: &[u16],
    len: usize,
    ratio: u32,
    pmax: &mut Vec<u16>,
    cum: &mut Vec<u32>,
    hits: &mut Vec<u8>,
)
    requires
        len + 18 <= span@.len(),
        sum(span@, 0, span@.len() as int) <= u32::MAX,
    ensures
        final(pmax)@.len() == span@.len() - 1,
        forall|j: int| 0 <= j < span@.len() - 1 ==> #[trigger] final(pmax)@[j] == pair_max(span@, j),
        final(cum)@.len() == span@.len() + 1,
        forall|j: int| 0 <= j <= span@.len() ==> #[trigger] final(cum)@[j] == sum(span@, 0, j),
        final(hits)@.len() == len,
        forall|j: int|
            0 <= j < len ==> #[trigger] final(hits)@[j] == if gate(span@, j, ratio) {
                1u8
            } else {
                0u8
            },
{
    let total: usize = span.len();
    let n: usize = total - 1;
    pmax.clear();
    cum.clear();
    hits.clear();
    let mut acc: u32 = 0;
    cum.push(0);
    for j in 0..span.len()
        invariant
            sum(span@, 0, span@.len() as int) <= u32::MAX,
            cum@.len() == j + 1,
            acc == sum(span@, 0, j as int),
            forall|k: int| 0 <= k <= j ==> #[trigger] cum@[k] == sum(span@, 0, k),
    {
        proof {
            lemma_sum_split(span@, 0, j + 1, span@.len() as int);
            lemma_sum_bound(span@, j + 1, span@.len() as int);
        }
        acc = acc + span[j] as u32;
        cum.push(acc);
    }
    for j in 0..n
        invariant
            n == span@.len() - 1,
            pmax@.len() == j,
            forall|k: int| 0 <= k < j ==> #[trigger] pmax@[k] == pair_max(span@, k),
    {
        let (x, y): (u16, u16) = (span[j], span[j + 1]);
        pmax.push(if x > y { x } else { y });
    }
    for j in 0..len
        invariant
            total == span@.len(),
            n == total - 1,
            len + 18 <= total,
            pmax@.len() == n,
            cum@.len() == span@.len() + 1,
            forall|k: int| 0 <= k < n ==> #[trigger] pmax@[k] == pair_max(span@, k),
            forall|k: int| 0 <= k <= span@.len() ==> #[trigger] cum@[k] == sum(span@, 0, k),
            hits@.len() == j,
            forall|k: int|
                0 <= k < j ==> #[trigger] hits@[k] == if gate(span@, k, ratio) {
                    1u8
                } else {
                    0u8
                },
    {
        let psum: u32 = pmax[j] as u32 + pmax[j + 2] as u32 + pmax[j + 8] as u32 + pmax[j + 10] as u32;
        proof {
            lemma_sum_split(span@, 0, j + 4, j + 8);
            lemma_sum_split(span@, 0, j + 12, j + 19);
            lemma_sum_bound(span@, j + 4, j + 8);
            lemma_sum_bound(span@, j + 12, j + 19);
        }
        let gsum: u32 = (cum[j + 8] - cum[j + 4]) + (cum[j + 19] - cum[j + 12]);
        assert(ratio * gsum <= 0xFFFF_FFFFu32 * 0xF_FFFFu32) by (nonlinear_arith)
            requires
                ratio <= 0xFFFF_FFFF,
                gsum <= 0xF_FFFF,
        ;
        assert(4 * ratio * gsum == 4 * (ratio * gsum)) by (nonlinear_arith);
        let hit: bool = psum as u64 * 2816 > 4 * (ratio as u64 * gsum as u64);
        hits.push(if hit { 1 } else { 0 });
    }
}

/// Index of the first nonzero byte of `hits` at or after `from`, eight bytes
/// at a time where they are clear.
pub fn next_hit(hits: &[u8], from: usize) -> (at: Option<usize>)
    ensures
        match at {
            Some(k) => from <= k < hits@.len() && hits@[k as int] != 0 && forall|j: int|
                from <= j < k ==> #[trigger] hits@[j] == 0,
            None => forall|j: int| from <= j < hits@.len() ==> #[trigger] hits@[j] == 0,
        },
{
    let mut j: usize = from;
    let n: usize = hits.len();
    while j < n
        invariant
            n == hits@.len(),
            from <= j,
            forall|k: int| from <= k < j && k < n ==> #[trigger] hits@[k] == 0,
        decreases n - j,
    {
        if n - j >= 8 && hits[j] == 0 && hits[j + 1] == 0 && hits[j + 2] == 0 && hits[j + 3] == 0
            && hits[j + 4] == 0 && hits[j + 5] == 0 && hits[j + 6] == 0 && hits[j + 7] == 0 {
            j += 8;
        } else {
            if hits[j] != 0 {
                return Some(j);
            }
            j += 1;
        }
    }
    None
}

fn peak(m: &[u16], j: usize) -> (p: u16)
    requires
        j + 1 < m@.len(),
    ensures
        p == pair_max(m@, j as int),
{
    if m[j] > m[j + 1] { m[j] } else { m[j + 1] }
}

fn least(a: u16, b: u16) -> (c: u16)
    ensures
        c == smaller(a as int, b as int),
{
    if a < b { a } else { b }
}

/// How many of the samples [a, b) exceed `level`.
fn count_above(m: &[u16], a: usize, b: usize, level: u16) -> (n: usize)
    requires
        a <= b <= m@.len(),
    ensures
        n == above(m@, a as int, b as int, level as int),
        n <= b - a,
{
    let mut n: usize = 0;
    for k in a..b
        invariant
            a <= b <= m@.len(),
            n == above(m@, a as int, k as int, level as int),
            n <= k - a,
    {
        if m[k] > level {
            n += 1;
        }
    }
    n
}

/// How many gap samples exceed the weakest pulse of a preamble at sample `j`.
pub fn spike_count(m: &[u16], j: usize) -> (n: usize)
    requires
        j + 19 <= m@.len(),
    ensures
        n == spikes(m@, j as int),
{
    let n: usize = m.len();
    assert(j + 19 <= n);
    let level: u16 = least(
        least(peak(m, j), peak(m, j + 2)),
        least(peak(m, j + 8), peak(m, j + 10)),
    );
    count_above(m, j + 4, j + 8, level) + count_above(m, j + 12, j + 19, level)
}

/// The cheap gate at sample `j`, on its own.
pub fn gate_at(m: &[u16], j: usize, ratio: u32) -> (ok: bool)
    requires
        j + 19 <= m@.len(),
    ensures
        ok == gate(m@, j as int, ratio),
{
    let n: usize = m.len();
    assert(j + 19 <= n);
    let psum: u32 = peak(m, j) as u32 + peak(m, j + 2) as u32 + peak(m, j + 8) as u32 + peak(m, j + 10)
        as u32;
    proof {
        reveal_with_fuel(sum, 8);
    }
    let gsum: u32 = m[j + 4] as u32 + m[j + 5] as u32 + m[j + 6] as u32 + m[j + 7] as u32 + m[j + 12]
        as u32 + m[j + 13] as u32 + m[j + 14] as u32 + m[j + 15] as u32 + m[j + 16] as u32 + m[j
        + 17] as u32 + m[j + 18] as u32;
    assert(ratio * gsum <= 0xFFFF_FFFFu32 * 0xF_FFFFu32) by (nonlinear_arith)
        requires
            ratio <= 0xFFFF_FFFF,
            gsum <= 0xF_FFFF,
    ;
    assert(4 * ratio * gsum == 4 * (ratio * gsum)) by (nonlinear_arith);
    psum as u64 * 2816 > 4 * (ratio as u64 * gsum as u64)
}

/// Levels are those of 16-bit samples, and the weakest pulse is no stronger
/// than the mean.
pub proof fn lemma_levels(m: Seq<u16>, st: int)
    ensures
        levels_of(m, st).gap <= 396 * 65535,
        levels_of(m, st).pulse_mean <= 396 * 65535,
        levels_of(m, st).pulse_min <= levels_of(m, st).pulse_mean,
{
    reveal(levels_of);
    lemma_energy_bound(m, st, st + 6);
    lemma_energy_bound(m, st + 12, st + 18);
    lemma_energy_bound(m, st + 42, st + 48);
    lemma_energy_bound(m, st + 54, st + 60);
    lemma_energy_bound(m, st + 6, st + 12);
    lemma_energy_bound(m, st + 18, st + 42);
    lemma_energy_bound(m, st + 60, st + 96);
}

/// The cheap gate compares means: where the stronger sample of each pulse is `x` and every
/// gap sample is `g`, it passes when `x` exceeds `ratio` 256ths of `g`.
pub proof fn law_gate_compares_means(m: Seq<u16>, j: int, ratio: u32, x: u16, g: u16)
    requires
        m[j] <= x && m[j + 1] <= x && (m[j] == x || m[j + 1] == x),
        m[j + 2] <= x && m[j + 3] <= x && (m[j + 2] == x || m[j + 3] == x),
        m[j + 8] <= x && m[j + 9] <= x && (m[j + 8] == x || m[j + 9] == x),
        m[j + 10] <= x && m[j + 11] <= x && (m[j + 10] == x || m[j + 11] == x),
        forall|k: int| j + 4 <= k < j + 8 || j + 12 <= k < j + 19 ==> #[trigger] m[k] == g,
    ensures
        gate(m, j, ratio) <==> 256 * x > ratio * g,
{
    reveal_with_fuel(sum, 8);
    assert(gap_sum(m, j) == 11 * g);
    let (r, y) = (ratio as int, g as int);
    assert(4 * r * (11 * y) == 44 * (r * y)) by (nonlinear_arith);
}

/// Stronger pulses pass where weaker ones do, and quieter gaps where louder ones do.
pub proof fn law_gate_is_monotone(m: Seq<u16>, n: Seq<u16>, j: int, ratio: u32)
    requires
        gate(m, j, ratio),
        forall|k: int| j <= k < j + 4 || j + 8 <= k < j + 12 ==> #[trigger] n[k] >= m[k],
        forall|k: int| j + 4 <= k < j + 8 || j + 12 <= k < j + 19 ==> #[trigger] n[k] <= m[k],
    ensures
        gate(n, j, ratio),
{
    reveal_with_fuel(sum, 8);
    let (a, b, r) = (gap_sum(m, j), gap_sum(n, j), ratio as int);
    assert(n[j] >= m[j] && n[j + 1] >= m[j + 1] && n[j + 2] >= m[j + 2] && n[j + 3] >= m[j + 3]);
    assert(n[j + 8] >= m[j + 8] && n[j + 9] >= m[j + 9] && n[j + 10] >= m[j + 10] && n[j + 11] >= m[j + 11]);
    assert(n[j + 4] <= m[j + 4] && n[j + 5] <= m[j + 5] && n[j + 6] <= m[j + 6] && n[j + 7] <= m[j + 7]);
    assert(n[j + 12] <= m[j + 12] && n[j + 13] <= m[j + 13] && n[j + 14] <= m[j + 14] && n[j + 15] <= m[j + 15]);
    assert(n[j + 16] <= m[j + 16] && n[j + 17] <= m[j + 17] && n[j + 18] <= m[j + 18]);
    assert(b <= a);
    assert(4 * r * b <= 4 * r * a) by (nonlinear_arith)
        requires
            b <= a,
            r >= 0,
    ;
}

/// The pulses and the gaps of a preamble make up the whole of its 96 fifths of a sample,
/// but for the short gap before the last pulse.
pub proof fn law_pulses_and_gaps_are_the_preamble(m: Seq<u16>, st: int)
    ensures
        pulse(m, st, 0) + pulse(m, st, 1) + pulse(m, st, 2) + pulse(m, st, 3) + gaps(m, st) == energy(
            m,
            st,
            st + 96,
        ) - energy(m, st + 48, st + 54),
{
    lemma_energy_split(m, st, st + 6, st + 96);
    lemma_energy_split(m, st + 6, st + 12, st + 96);
    lemma_energy_split(m, st + 12, st + 18, st + 96);
    lemma_energy_split(m, st + 18, st + 42, st + 96);
    lemma_energy_split(m, st + 42, st + 48, st + 96);
    lemma_energy_split(m, st + 48, st + 54, st + 96);
    lemma_energy_split(m, st + 54, st + 60, st + 96);
}

/// The levels of a preamble are means over its fifths, scaled by 396: the gap level that
/// of the 66 fifths of its gaps, the pulse level that of the 24 of its pulses, and the
/// weakest and the strongest of the four of six fifths each.
pub proof fn law_levels_are_means(m: Seq<u16>, st: int)
    ensures
        ({
            let l = levels_of(m, st);
            let (a, b, c, d) = (
                energy(m, st, st + 6),
                energy(m, st + 12, st + 18),
                energy(m, st + 42, st + 48),
                energy(m, st + 54, st + 60),
            );
            &&& 66 * l.gap == 396 * (energy(m, st, st + 96) - energy(m, st + 48, st + 54) - a - b - c - d)
            &&& 24 * l.pulse_mean <= 396 * (a + b + c + d) < 24 * (l.pulse_mean + 1)
            &&& 6 * l.pulse_min <= 396 * a && 6 * l.pulse_min <= 396 * b && 6 * l.pulse_min <= 396 * c && 6
                * l.pulse_min <= 396 * d
            &&& 6 * l.pulse_max >= 396 * a && 6 * l.pulse_max >= 396 * b && 6 * l.pulse_max >= 396 * c && 6
                * l.pulse_max >= 396 * d
            &&& l.pulse_min <= l.pulse_mean <= l.pulse_max
            &&& 6 * l.pulse_min == 396 * a || 6 * l.pulse_min == 396 * b || 6 * l.pulse_min == 396 * c || 6
                * l.pulse_min == 396 * d
            &&& 6 * l.pulse_max == 396 * a || 6 * l.pulse_max == 396 * b || 6 * l.pulse_max == 396 * c || 6
                * l.pulse_max == 396 * d
        }),
{
    reveal(levels_of);
    law_pulses_and_gaps_are_the_preamble(m, st);
    lemma_energy_bound(m, st, st + 6);
    lemma_energy_bound(m, st + 12, st + 18);
    lemma_energy_bound(m, st + 42, st + 48);
    lemma_energy_bound(m, st + 54, st + 60);
    lemma_energy_bound(m, st + 6, st + 12);
    lemma_energy_bound(m, st + 18, st + 42);
    lemma_energy_bound(m, st + 60, st + 96);
}

/// Energy is the level times the time over an even stream, and it goes with the stream.
pub proof fn law_energy_is_level_times_time(m: Seq<u16>, a: int, n: nat, x: u16, j: int)
    requires
        0 <= j <= m.len(),
        5 * j <= a,
        a + n <= 5 * m.len(),
    ensures
        (forall|k: int| a / 5 <= k < m.len() ==> #[trigger] m[k] == x) ==> energy(m, a, a + n) == n * x,
        energy(m.skip(j), a - 5 * j, a - 5 * j + n) == energy(m, a, a + n),
    decreases n,
{
    if n > 0 {
        law_energy_is_level_times_time(m, a, (n - 1) as nat, x, j);
        assert((a - 5 * j + n - 1) / 5 == (a + n - 1) / 5 - j);
        assert(a / 5 <= (a + n - 1) / 5 < m.len());
        assert(n * x == (n - 1) * x + x) by (nonlinear_arith);
    }
    assert(0 * x == 0) by (nonlinear_arith);
}

/// The fine test: every pulse above the gap level, their mean at least `ratio` 256ths of
/// it and of one raw unit, and the weakest at least `uniformity` 256ths of the strongest.
/// A hit is at the sample it was tested at, with the levels found there.
pub proof fn law_fine_test(m: Seq<u16>, i: int, ratio: u32, uniformity: u32)
    requires
        0 <= 5 * i <= u64::MAX,
    ensures
        ({
            let l = levels_of(m, 5 * i);
            match fine_at(m, i, ratio, uniformity) {
                Some(h) => {
                    &&& l.pulse_min > l.gap
                    &&& 256 * l.pulse_mean >= ratio * l.gap
                    &&& 256 * l.pulse_mean >= ratio * (16 * 396)
                    &&& 256 * l.pulse_min >= uniformity * l.pulse_max
                    &&& h.start == 5 * i
                    &&& h.pulse == l.pulse_mean
                    &&& h.gap == l.gap
                },
                None => {
                    ||| l.pulse_min <= l.gap
                    ||| 256 * l.pulse_mean < ratio * l.gap
                    ||| 256 * l.pulse_mean < ratio * (16 * 396)
                    ||| 256 * l.pulse_min < uniformity * l.pulse_max
                },
            }
        }),
{
    let l = levels_of(m, 5 * i);
    let (r, g) = (ratio as int, l.gap as int);
    assert(g >= 6336 ==> r * g >= r * 6336) by (nonlinear_arith)
        requires
            r >= 0,
    ;
    assert(g <= 6336 ==> r * g <= r * 6336) by (nonlinear_arith)
        requires
            r >= 0,
    ;
}

/// A gap sample is a spike when it exceeds both samples of some pulse: there is none
/// exactly when all of the eleven stay at or below one sample of each pulse, and there
/// are never more than eleven.
pub proof fn law_spikes_exceed_the_weakest_pulse(m: Seq<u16>, j: int)
    ensures
        spikes(m, j) == 0 <==> forall|k: int|
            (j + 4 <= k < j + 8 || j + 12 <= k < j + 19) ==> {
                &&& #[trigger] m[k] <= m[j] || m[k] <= m[j + 1]
                &&& m[k] <= m[j + 2] || m[k] <= m[j + 3]
                &&& m[k] <= m[j + 8] || m[k] <= m[j + 9]
                &&& m[k] <= m[j + 10] || m[k] <= m[j + 11]
            },
        spikes(m, j) <= 11,
{
    let level = weakest_peak(m, j);
    lemma_above(m, j + 4, j + 8, level);
    lemma_above(m, j + 12, j + 19, level);
    assert forall|k: int| #![trigger m[k]] m[k] <= level <==> {
        &&& m[k] <= m[j] || m[k] <= m[j + 1]
        &&& m[k] <= m[j + 2] || m[k] <= m[j + 3]
        &&& m[k] <= m[j + 8] || m[k] <= m[j + 9]
        &&& m[k] <= m[j + 10] || m[k] <= m[j + 11]
    } by {}
}

proof fn lemma_above(m: Seq<u16>, a: int, b: int, level: int)
    requires
        a <= b,
    ensures
        above(m, a, b, level) == 0 <==> forall|k: int| a <= k < b ==> #[trigger] m[k] <= level,
        above(m, a, b, level) <= b - a,
    decreases b - a,
{
    if a < b {
        lemma_above(m, a, b - 1, level);
        if above(m, a, b, level) > 0 && above(m, a, b - 1, level) == 0 {
            assert(m[b - 1] > level);
        }
    }
}

} // verus!
