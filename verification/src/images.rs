//! A frame that starts between two fifths of a sample: what the samples hold of it,
//! and how preambles around its start show and score.

use crate::preamble::{
    FLOOR, energy, gaps, larger, lemma_energy_bound, lemma_gaps, lemma_half_bit, levels_of, pulse,
    stands_out,
};
use crate::reception::{
    gap_lit, half_lit, hit_at, in_pulse, least_lit, lemma_lit, lemma_samples_0, lemma_samples_1,
    lemma_samples_2, lemma_samples_3, lemma_samples_4, lemma_spread, lit, one, pulses_lit, score_lit,
};
use vstd::arithmetic::div_mod::lemma_fundamental_div_mod_converse;
use vstd::prelude::*;

verus! {

/// How many of the `len` parts from `t` on lie in a pulse of `f`, with `n` parts to a
/// fifth of a sample.
pub open spec fn lit_parts(f: Seq<u8>, n: int, t: int, len: int) -> int
    decreases len,
{
    if len <= 0 {
        0
    } else {
        lit_parts(f, n, t, len - 1) + one(in_pulse(f, (t + len - 1) / n))
    }
}

/// The samples `m` hold the frame `f`, whose preamble starts at `st` parts, `n` of
/// them to a fifth of a sample, and nothing else: each part in a pulse adds `step` to
/// the level `floor`.
pub open spec fn holds_from(m: Seq<u16>, n: int, st: int, f: Seq<u8>, floor: int, step: int) -> bool {
    forall|j: int|
        0 <= j < m.len() ==> #[trigger] m[j] == floor + step * lit_parts(f, n, 5 * n * j - st, 5 * n)
}

proof fn lemma_parts_same(f: Seq<u8>, n: int, t: int, len: int, c: int)
    requires
        0 < n,
        0 <= len,
        n * c <= t,
        t + len <= n * c + n,
    ensures
        lit_parts(f, n, t, len) == len * one(in_pulse(f, c)),
    decreases len,
{
    if len > 0 {
        lemma_parts_same(f, n, t, len - 1, c);
        let x = t + len - 1;
        assert(n * c == c * n) by (nonlinear_arith);
        lemma_fundamental_div_mod_converse(x, n, c, x - n * c);
        let y = one(in_pulse(f, c));
        assert(len * y == (len - 1) * y + y) by (nonlinear_arith);
    }
    assert(len == 0 ==> len * one(in_pulse(f, c)) == 0) by (nonlinear_arith);
}

proof fn lemma_parts_split(f: Seq<u8>, n: int, t: int, a: int, b: int)
    requires
        0 <= a,
        0 <= b,
    ensures
        lit_parts(f, n, t, a + b) == lit_parts(f, n, t, a) + lit_parts(f, n, t + a, b),
    decreases b,
{
    if b > 0 {
        lemma_parts_split(f, n, t, a, b - 1);
    }
}

/// A sample that begins `r` parts before the fifth `q` holds what one at that fifth
/// and one a fifth before it hold, in the measure in which it is between them.
proof fn lemma_parts(f: Seq<u8>, n: int, q: int, r: int)
    requires
        0 <= r < n,
    ensures
        lit_parts(f, n, n * q - r, 5 * n) == (n - r) * lit(f, q) + r * lit(f, q - 1),
{
    reveal(lit);
    let t = n * q - r;
    let (i0, i1, i2) = (one(in_pulse(f, q - 1)), one(in_pulse(f, q)), one(in_pulse(f, q + 1)));
    let (i3, i4, i5) = (one(in_pulse(f, q + 2)), one(in_pulse(f, q + 3)), one(in_pulse(f, q + 4)));
    lemma_parts_split(f, n, t, 4 * n + r, n - r);
    lemma_parts_split(f, n, t, 3 * n + r, n);
    lemma_parts_split(f, n, t, 2 * n + r, n);
    lemma_parts_split(f, n, t, n + r, n);
    lemma_parts_split(f, n, t, r, n);
    assert(n * (q - 1) == n * q - n) by (nonlinear_arith);
    assert(n * (q + 1) == n * q + n) by (nonlinear_arith);
    assert(n * (q + 2) == n * q + 2 * n) by (nonlinear_arith);
    assert(n * (q + 3) == n * q + 3 * n) by (nonlinear_arith);
    assert(n * (q + 4) == n * q + 4 * n) by (nonlinear_arith);
    lemma_parts_same(f, n, t, r, q - 1);
    lemma_parts_same(f, n, t + r, n, q);
    lemma_parts_same(f, n, t + n + r, n, q + 1);
    lemma_parts_same(f, n, t + 2 * n + r, n, q + 2);
    lemma_parts_same(f, n, t + 3 * n + r, n, q + 3);
    lemma_parts_same(f, n, t + 4 * n + r, n - r, q + 4);
    assert(lit(f, q) == i1 + i2 + i3 + i4 + i5);
    assert(lit(f, q - 1) == i0 + i1 + i2 + i3 + i4);
    assert((n - r) * (i1 + i2 + i3 + i4 + i5) + r * (i0 + i1 + i2 + i3 + i4) == r * i0 + n * i1 + n * i2 + n
        * i3 + n * i4 + (n - r) * i5) by (nonlinear_arith);
}

/// The samples `m` hold two images of the frame `f`: one at `a` fifths that adds `u`
/// for each fifth in a pulse, and one a fifth later that adds `v`.
pub open spec fn mixes(m: Seq<u16>, a: int, f: Seq<u8>, floor: int, u: int, v: int) -> bool {
    forall|j: int| 0 <= j < m.len() ==> #[trigger] m[j] == floor + u * lit(f, 5 * j - a) + v * lit(f, 5 * j - a - 1)
}

/// A frame that starts between two fifths looks like two images at them.
pub proof fn lemma_between(m: Seq<u16>, n: int, st: int, f: Seq<u8>, floor: int, step: int)
    requires
        0 < n,
        holds_from(m, n, st, f, floor, step),
    ensures
        mixes(m, st / n, f, floor, (n - st % n) * step, st % n * step),
{
    let (a, r) = (st / n, st % n);
    assert(st == n * a + r && 0 <= r < n) by (nonlinear_arith)
        requires
            0 < n,
            a == st / n,
            r == st % n,
    ;
    assert forall|j: int| 0 <= j < m.len() implies #[trigger] m[j] == floor + (n - r) * step * lit(
        f,
        5 * j - a,
    ) + r * step * lit(f, 5 * j - a - 1) by {
        let q = 5 * j - a;
        assert(5 * n * j - st == n * q - r) by (nonlinear_arith)
            requires
                st == n * a + r,
                q == 5 * j - a,
        ;
        lemma_parts(f, n, q, r);
        let (x, y) = (lit(f, q), lit(f, q - 1));
        assert(step * ((n - r) * x + r * y) == (n - r) * step * x + r * step * y) by (nonlinear_arith);
    }
}

/// The energy of pulses in the half bit `e` fifths after a sample, of a frame that
/// starts `q` fifths after it.
pub open spec fn half_of(f: Seq<u8>, q: int, e: int) -> int {
    half_lit(f, q % 5, e - q)
}

/// The energy in the gaps of a preamble `e` fifths after the sample.
pub open spec fn gap_of(f: Seq<u8>, q: int, e: int) -> int {
    gap_lit(f, q % 5, e - q)
}

/// The energy in its pulses.
pub open spec fn pulses_of(f: Seq<u8>, q: int, e: int) -> int {
    pulses_lit(f, q % 5, e - q)
}

/// The energy in its weakest pulse.
pub open spec fn least_of(f: Seq<u8>, q: int, e: int) -> int {
    least_lit(f, q % 5, e - q)
}

/// Twice its score.
pub open spec fn score_of(f: Seq<u8>, q: int, e: int) -> int {
    score_lit(f, q % 5, e - q)
}

pub proof fn lemma_half_mix(m: Seq<u16>, i: int, k: int, f: Seq<u8>, floor: int, u: int, v: int, e: int)
    requires
        mixes(m, 5 * i + k, f, floor, u, v),
        0 <= k < 5,
        0 <= 5 * i + e,
        (5 * i + e) / 5 + 1 < m.len(),
    ensures
        energy(m, 5 * i + e, 5 * i + e + 6) == 6 * floor + u * half_of(f, k, e) + v * half_of(f, k + 1, e),
{
    reveal(half_lit);
    let t = 5 * i + e;
    let (y, r) = (t / 5, t % 5);
    lemma_half_bit(m, y, r);
    assert((k % 5 + (e - k)) % 5 == r);
    assert(((k + 1) % 5 + (e - (k + 1))) % 5 == r);
    let a = 5 * i + k;
    let (a0, b0) = (lit(f, 5 * y - a), lit(f, 5 * (y + 1) - a));
    let (a1, b1) = (lit(f, 5 * y - a - 1), lit(f, 5 * (y + 1) - a - 1));
    assert(5 * y - a == e - k - r && 5 * (y + 1) - a == e - k - r + 5);
    assert(m[y] == floor + u * a0 + v * a1 && m[y + 1] == floor + u * b0 + v * b1);
    assert(r == 0 || r == 1 || r == 2 || r == 3 || r == 4);
    lemma_weights(u, a0, b0);
    lemma_weights(v, a1, b1);
}

proof fn lemma_weights(x: int, a: int, b: int)
    by (nonlinear_arith)
    ensures
        x * (5 * a + b) == 5 * (x * a) + x * b,
        x * (4 * a + 2 * b) == 4 * (x * a) + 2 * (x * b),
        x * (3 * a + 3 * b) == 3 * (x * a) + 3 * (x * b),
        x * (2 * a + 4 * b) == 2 * (x * a) + 4 * (x * b),
        x * (a + 5 * b) == x * a + 5 * (x * b),
{
}

pub proof fn lemma_eleven(
    x: int,
    g0: int,
    g1: int,
    g2: int,
    g3: int,
    g4: int,
    g5: int,
    g6: int,
    g7: int,
    g8: int,
    g9: int,
    g10: int,
)
    by (nonlinear_arith)
    ensures
        x * (g0 + g1 + g2 + g3 + g4 + g5 + g6 + g7 + g8 + g9 + g10) == x * g0 + x * g1 + x * g2 + x * g3 + x
            * g4 + x * g5 + x * g6 + x * g7 + x * g8 + x * g9 + x * g10,
{
}

/// The level `u` of one image and `v` of the other at no more than theirs.
pub proof fn lemma_below(u: int, v: int, a: int, b: int, c: int, d: int)
    by (nonlinear_arith)
    requires
        0 <= u,
        0 <= v,
        a <= c,
        b <= d,
    ensures
        u * a + v * b <= u * c + v * d,
{
}

/// The levels of a preamble `e` fifths after sample `i`.
pub proof fn lemma_levels_mix(m: Seq<u16>, i: int, k: int, f: Seq<u8>, floor: int, u: int, v: int, e: int)
    requires
        mixes(m, 5 * i + k, f, floor, u, v),
        0 <= floor,
        0 <= u,
        0 <= v,
        0 <= k < 5,
        0 <= 5 * i + e,
        (5 * i + e) / 5 + 20 <= m.len(),
    ensures
        ({
            let l = levels_of(m, 5 * i + e);
            let sum = u * pulses_of(f, k, e) + v * pulses_of(f, k + 1, e);
            &&& l.gap == 396 * floor + 6 * (u * gap_of(f, k, e) + v * gap_of(f, k + 1, e))
            &&& l.pulse_min >= 396 * floor + 66 * (u * least_of(f, k, e) + v * least_of(f, k + 1, e))
            &&& l.pulse_min <= 396 * floor + 66 * (u * half_of(f, k, e) + v * half_of(f, k + 1, e))
            &&& 2 * l.pulse_mean <= 792 * floor + 33 * sum < 2 * l.pulse_mean + 2
        }),
{
    reveal(levels_of);
    reveal(gap_lit);
    reveal(pulses_lit);
    reveal(least_lit);
    let (q, t) = (k + 1, 5 * i + e);
    lemma_half_mix(m, i, k, f, floor, u, v, e);
    lemma_half_mix(m, i, k, f, floor, u, v, e + 12);
    lemma_half_mix(m, i, k, f, floor, u, v, e + 42);
    lemma_half_mix(m, i, k, f, floor, u, v, e + 54);
    lemma_half_mix(m, i, k, f, floor, u, v, e + 6);
    lemma_half_mix(m, i, k, f, floor, u, v, e + 18);
    lemma_half_mix(m, i, k, f, floor, u, v, e + 24);
    lemma_half_mix(m, i, k, f, floor, u, v, e + 30);
    lemma_half_mix(m, i, k, f, floor, u, v, e + 36);
    lemma_half_mix(m, i, k, f, floor, u, v, e + 60);
    lemma_half_mix(m, i, k, f, floor, u, v, e + 66);
    lemma_half_mix(m, i, k, f, floor, u, v, e + 72);
    lemma_half_mix(m, i, k, f, floor, u, v, e + 78);
    lemma_half_mix(m, i, k, f, floor, u, v, e + 84);
    lemma_half_mix(m, i, k, f, floor, u, v, e + 90);
    lemma_gaps(m, t);
    lemma_energy_bound(m, t, t + 6);
    lemma_energy_bound(m, t + 12, t + 18);
    lemma_energy_bound(m, t + 42, t + 48);
    lemma_energy_bound(m, t + 54, t + 60);
    lemma_energy_bound(m, t + 6, t + 12);
    lemma_energy_bound(m, t + 18, t + 42);
    lemma_energy_bound(m, t + 60, t + 96);
    let (h0, h1) = (half_of(f, k, e), half_of(f, k, e + 12));
    let (h2, h3) = (half_of(f, k, e + 42), half_of(f, k, e + 54));
    let (i0, i1) = (half_of(f, q, e), half_of(f, q, e + 12));
    let (i2, i3) = (half_of(f, q, e + 42), half_of(f, q, e + 54));
    lemma_spread(u, h0, h1, h2, h3);
    lemma_spread(v, i0, i1, i2, i3);
    lemma_eleven(
        u,
        half_of(f, k, e + 6),
        half_of(f, k, e + 18),
        half_of(f, k, e + 24),
        half_of(f, k, e + 30),
        half_of(f, k, e + 36),
        half_of(f, k, e + 60),
        half_of(f, k, e + 66),
        half_of(f, k, e + 72),
        half_of(f, k, e + 78),
        half_of(f, k, e + 84),
        half_of(f, k, e + 90),
    );
    lemma_eleven(
        v,
        half_of(f, q, e + 6),
        half_of(f, q, e + 18),
        half_of(f, q, e + 24),
        half_of(f, q, e + 30),
        half_of(f, q, e + 36),
        half_of(f, q, e + 60),
        half_of(f, q, e + 66),
        half_of(f, q, e + 72),
        half_of(f, q, e + 78),
        half_of(f, q, e + 84),
        half_of(f, q, e + 90),
    );
    assert(gaps(m, t) == 66 * floor + u * gap_of(f, k, e) + v * gap_of(f, q, e));
    let (x, y) = (least_of(f, k, e), least_of(f, q, e));
    lemma_below(u, v, x, y, h0, i0);
    lemma_below(u, v, x, y, h1, i1);
    lemma_below(u, v, x, y, h2, i2);
    lemma_below(u, v, x, y, h3, i3);
    assert(pulse(m, t, 0) == energy(m, t, t + 6) && pulse(m, t, 1) == energy(m, t + 12, t + 18));
    assert(pulse(m, t, 2) == energy(m, t + 42, t + 48) && pulse(m, t, 3) == energy(m, t + 54, t + 60));
}

/// A preamble that shows more of the pulses of the two images scores higher.
pub proof fn lemma_loses(
    m: Seq<u16>,
    i: int,
    k: int,
    f: Seq<u8>,
    floor: int,
    u: int,
    v: int,
    d: int,
    e: int,
    x: int,
    y: int,
)
    requires
        mixes(m, 5 * i + k, f, floor, u, v),
        0 <= floor,
        0 <= u,
        0 <= v,
        0 <= k < 5,
        0 <= 5 * i + d,
        (5 * i + d) / 5 + 20 <= m.len(),
        0 <= 5 * i + e ==> (5 * i + e) / 5 + 20 <= m.len(),
        score_of(f, k, d) >= score_of(f, k, e) + x,
        score_of(f, k + 1, d) >= score_of(f, k + 1, e) + y,
        u * x + v * y >= 2,
    ensures
        0 <= 5 * i + e ==> hit_at(m, 5 * i + d).score() > hit_at(m, 5 * i + e).score(),
{
    reveal(score_lit);
    if 0 <= 5 * i + e {
        lemma_levels_mix(m, i, k, f, floor, u, v, d);
        lemma_levels_mix(m, i, k, f, floor, u, v, e);
        let (p0, g0, p1, g1) = (
            pulses_of(f, k, d),
            gap_of(f, k, d),
            pulses_of(f, k + 1, d),
            gap_of(f, k + 1, d),
        );
        let (r0, s0, r1, s1) = (
            pulses_of(f, k, e),
            gap_of(f, k, e),
            pulses_of(f, k + 1, e),
            gap_of(f, k + 1, e),
        );
        lemma_below(
            u,
            v,
            33 * r0 - 12 * s0 + x,
            33 * r1 - 12 * s1 + y,
            33 * p0 - 12 * g0,
            33 * p1 - 12 * g1,
        );
        lemma_score_terms(u, p0, g0, 0);
        lemma_score_terms(v, p1, g1, 0);
        lemma_score_terms(u, r0, s0, x);
        lemma_score_terms(v, r1, s1, y);
    }
}

proof fn lemma_score_terms(w: int, p: int, g: int, x: int)
    by (nonlinear_arith)
    ensures
        w * (33 * p - 12 * g + x) == 33 * (w * p) - 12 * (w * g) + w * x,
        w * (33 * p - 12 * g) == 33 * (w * p) - 12 * (w * g),
{
}

/// What the two images show of a preamble is enough to stand out.
pub proof fn lemma_stands_out_mix(
    m: Seq<u16>,
    i: int,
    k: int,
    f: Seq<u8>,
    floor: int,
    u: int,
    v: int,
    e: int,
    ratio: u32,
    p0: int,
    p1: int,
    g0: int,
    g1: int,
    l0: int,
    l1: int,
)
    requires
        mixes(m, 5 * i + k, f, floor, u, v),
        0 <= floor,
        0 <= u,
        0 <= v,
        0 <= k < 5,
        0 <= 5 * i + e,
        (5 * i + e) / 5 + 20 <= m.len(),
        ratio <= 409,
        pulses_of(f, k, e) >= p0 && pulses_of(f, k + 1, e) >= p1,
        gap_of(f, k, e) <= g0 && gap_of(f, k + 1, e) <= g1,
        least_of(f, k, e) >= l0 && least_of(f, k + 1, e) >= l1,
        11 * (u * l0 + v * l1) > u * g0 + v * g1,
        4224 * (24 * floor + u * p0 + v * p1) >= 2454 * (66 * floor + u * g0 + v * g1) + 128,
        4224 * (24 * floor + u * p0 + v * p1) >= 2_591_552,
    ensures
        stands_out(levels_of(m, 5 * i + e), ratio),
{
    lemma_levels_mix(m, i, k, f, floor, u, v, e);
    let (k0, k1) = (k, k + 1);
    lemma_below(u, v, p0, p1, pulses_of(f, k0, e), pulses_of(f, k1, e));
    lemma_below(u, v, gap_of(f, k0, e), gap_of(f, k1, e), g0, g1);
    lemma_below(u, v, l0, l1, least_of(f, k0, e), least_of(f, k1, e));
    let lv = levels_of(m, 5 * i + e);
    let top = larger(lv.gap as int, FLOOR as int);
    assert(ratio * top <= 409 * top) by (nonlinear_arith)
        requires
            0 <= ratio <= 409,
            top >= 0,
    ;
}

/// The samples before a frame hold nothing of it, and no sample holds more than five
/// fifths of a pulse.
proof fn lemma_outer_samples(f: Seq<u8>)
    ensures
        forall|t: int| t <= -5 ==> #[trigger] lit(f, t) == 0,
        forall|t: int| 0 <= #[trigger] lit(f, t) <= 5,
{
    lemma_lit(f);
}

/// The half bit `e` fifths after a sample, `r` fifths into the sample `y` after it, as
/// weights on two samples.
pub proof fn lemma_half_at(f: Seq<u8>, q: int, e: int, y: int, r: int)
    requires
        e == 5 * y + r,
        0 <= r < 5,
    ensures
        half_of(f, q, e) == (5 - r) * lit(f, 5 * y - q) + (1 + r) * lit(f, 5 * y - q + 5),
{
    reveal(half_lit);
    assert((q % 5 + (e - q)) % 5 == r);
    let (a, b) = (lit(f, 5 * y - q), lit(f, 5 * y - q + 5));
    assert(e - q - r == 5 * y - q);
    assert(r == 0 || r == 1 || r == 2 || r == 3 || r == 4);
    assert((5 - r) * a + (1 + r) * b == if r == 0 {
        5 * a + b
    } else if r == 1 {
        4 * a + 2 * b
    } else if r == 2 {
        3 * a + 3 * b
    } else if r == 3 {
        2 * a + 4 * b
    } else {
        a + 5 * b
    }) by (nonlinear_arith)
        requires
            0 <= r < 5,
    ;
}

/// A preamble that starts with a sample, as weights on the samples.
proof fn lemma_weights_at_0(f: Seq<u8>, q: int, y: int)
    ensures
        ({
            let t = 5 * y - q;
            &&& pulses_of(f, q, 5 * y) == 5 * lit(f, t) + lit(f, t + 5) + 3 * lit(f, t + 10)
                + 3 * lit(f, t + 15) + 3 * lit(f, t + 40) + 3 * lit(f, t + 45) + lit(f, t + 50)
                + 5 * lit(f, t + 55)
            &&& gap_of(f, q, 5 * y) == 4 * lit(f, t + 5) + 2 * lit(f, t + 10) + 2 * lit(f, t + 15)
                + 5 * lit(f, t + 20) + 5 * lit(f, t + 25) + 5 * lit(f, t + 30) + 5 * lit(f, t + 35)
                + 2 * lit(f, t + 40) + 5 * lit(f, t + 60) + 5 * lit(f, t + 65) + 5 * lit(f, t + 70)
                + 5 * lit(f, t + 75) + 5 * lit(f, t + 80) + 5 * lit(f, t + 85) + 5 * lit(f, t + 90)
                + lit(f, t + 95)
        }),
{
    reveal(gap_lit);
    reveal(pulses_lit);
    lemma_half_at(f, q, 5 * y + 0, y, 0);
    lemma_half_at(f, q, 5 * y + 6, y + 1, 1);
    lemma_half_at(f, q, 5 * y + 12, y + 2, 2);
    lemma_half_at(f, q, 5 * y + 18, y + 3, 3);
    lemma_half_at(f, q, 5 * y + 24, y + 4, 4);
    lemma_half_at(f, q, 5 * y + 30, y + 6, 0);
    lemma_half_at(f, q, 5 * y + 36, y + 7, 1);
    lemma_half_at(f, q, 5 * y + 42, y + 8, 2);
    lemma_half_at(f, q, 5 * y + 54, y + 10, 4);
    lemma_half_at(f, q, 5 * y + 60, y + 12, 0);
    lemma_half_at(f, q, 5 * y + 66, y + 13, 1);
    lemma_half_at(f, q, 5 * y + 72, y + 14, 2);
    lemma_half_at(f, q, 5 * y + 78, y + 15, 3);
    lemma_half_at(f, q, 5 * y + 84, y + 16, 4);
    lemma_half_at(f, q, 5 * y + 90, y + 18, 0);
}

/// A preamble that starts a fifth into a sample, as weights on the samples.
proof fn lemma_weights_at_1(f: Seq<u8>, q: int, y: int)
    ensures
        ({
            let t = 5 * y - q;
            &&& pulses_of(f, q, 5 * y + 1) == 4 * lit(f, t) + 2 * lit(f, t + 5) + 2 * lit(f, t + 10)
                + 4 * lit(f, t + 15) + 2 * lit(f, t + 40) + 4 * lit(f, t + 45) + 5 * lit(f, t + 55)
                + lit(f, t + 60)
            &&& gap_of(f, q, 5 * y + 1) == 3 * lit(f, t + 5) + 3 * lit(f, t + 10) + lit(f, t + 15)
                + 5 * lit(f, t + 20) + 5 * lit(f, t + 25) + 5 * lit(f, t + 30) + 5 * lit(f, t + 35)
                + 3 * lit(f, t + 40) + 4 * lit(f, t + 60) + 5 * lit(f, t + 65) + 5 * lit(f, t + 70)
                + 5 * lit(f, t + 75) + 5 * lit(f, t + 80) + 5 * lit(f, t + 85) + 5 * lit(f, t + 90)
                + 2 * lit(f, t + 95)
        }),
{
    reveal(gap_lit);
    reveal(pulses_lit);
    lemma_half_at(f, q, 5 * y + 1, y, 1);
    lemma_half_at(f, q, 5 * y + 7, y + 1, 2);
    lemma_half_at(f, q, 5 * y + 13, y + 2, 3);
    lemma_half_at(f, q, 5 * y + 19, y + 3, 4);
    lemma_half_at(f, q, 5 * y + 25, y + 5, 0);
    lemma_half_at(f, q, 5 * y + 31, y + 6, 1);
    lemma_half_at(f, q, 5 * y + 37, y + 7, 2);
    lemma_half_at(f, q, 5 * y + 43, y + 8, 3);
    lemma_half_at(f, q, 5 * y + 55, y + 11, 0);
    lemma_half_at(f, q, 5 * y + 61, y + 12, 1);
    lemma_half_at(f, q, 5 * y + 67, y + 13, 2);
    lemma_half_at(f, q, 5 * y + 73, y + 14, 3);
    lemma_half_at(f, q, 5 * y + 79, y + 15, 4);
    lemma_half_at(f, q, 5 * y + 85, y + 17, 0);
    lemma_half_at(f, q, 5 * y + 91, y + 18, 1);
}

/// A preamble that starts two fifths into a sample, as weights on the samples.
proof fn lemma_weights_at_2(f: Seq<u8>, q: int, y: int)
    ensures
        ({
            let t = 5 * y - q;
            &&& pulses_of(f, q, 5 * y + 2) == 3 * lit(f, t) + 3 * lit(f, t + 5) + lit(f, t + 10)
                + 5 * lit(f, t + 15) + lit(f, t + 40) + 5 * lit(f, t + 45) + 4 * lit(f, t + 55)
                + 2 * lit(f, t + 60)
            &&& gap_of(f, q, 5 * y + 2) == 2 * lit(f, t + 5) + 4 * lit(f, t + 10) + 5 * lit(f, t + 20)
                + 5 * lit(f, t + 25) + 5 * lit(f, t + 30) + 5 * lit(f, t + 35) + 4 * lit(f, t + 40)
                + 3 * lit(f, t + 60) + 5 * lit(f, t + 65) + 5 * lit(f, t + 70) + 5 * lit(f, t + 75)
                + 5 * lit(f, t + 80) + 5 * lit(f, t + 85) + 5 * lit(f, t + 90) + 3 * lit(f, t + 95)
        }),
{
    reveal(gap_lit);
    reveal(pulses_lit);
    lemma_half_at(f, q, 5 * y + 2, y, 2);
    lemma_half_at(f, q, 5 * y + 8, y + 1, 3);
    lemma_half_at(f, q, 5 * y + 14, y + 2, 4);
    lemma_half_at(f, q, 5 * y + 20, y + 4, 0);
    lemma_half_at(f, q, 5 * y + 26, y + 5, 1);
    lemma_half_at(f, q, 5 * y + 32, y + 6, 2);
    lemma_half_at(f, q, 5 * y + 38, y + 7, 3);
    lemma_half_at(f, q, 5 * y + 44, y + 8, 4);
    lemma_half_at(f, q, 5 * y + 56, y + 11, 1);
    lemma_half_at(f, q, 5 * y + 62, y + 12, 2);
    lemma_half_at(f, q, 5 * y + 68, y + 13, 3);
    lemma_half_at(f, q, 5 * y + 74, y + 14, 4);
    lemma_half_at(f, q, 5 * y + 80, y + 16, 0);
    lemma_half_at(f, q, 5 * y + 86, y + 17, 1);
    lemma_half_at(f, q, 5 * y + 92, y + 18, 2);
}

/// A preamble that starts three fifths into a sample, as weights on the samples.
proof fn lemma_weights_at_3(f: Seq<u8>, q: int, y: int)
    ensures
        ({
            let t = 5 * y - q;
            &&& pulses_of(f, q, 5 * y + 3) == 2 * lit(f, t) + 4 * lit(f, t + 5) + 5 * lit(f, t + 15)
                + lit(f, t + 20) + 5 * lit(f, t + 45) + lit(f, t + 50) + 3 * lit(f, t + 55)
                + 3 * lit(f, t + 60)
            &&& gap_of(f, q, 5 * y + 3) == lit(f, t + 5) + 5 * lit(f, t + 10) + 4 * lit(f, t + 20)
                + 5 * lit(f, t + 25) + 5 * lit(f, t + 30) + 5 * lit(f, t + 35) + 5 * lit(f, t + 40)
                + 2 * lit(f, t + 60) + 5 * lit(f, t + 65) + 5 * lit(f, t + 70) + 5 * lit(f, t + 75)
                + 5 * lit(f, t + 80) + 5 * lit(f, t + 85) + 5 * lit(f, t + 90) + 4 * lit(f, t + 95)
        }),
{
    reveal(gap_lit);
    reveal(pulses_lit);
    lemma_half_at(f, q, 5 * y + 3, y, 3);
    lemma_half_at(f, q, 5 * y + 9, y + 1, 4);
    lemma_half_at(f, q, 5 * y + 15, y + 3, 0);
    lemma_half_at(f, q, 5 * y + 21, y + 4, 1);
    lemma_half_at(f, q, 5 * y + 27, y + 5, 2);
    lemma_half_at(f, q, 5 * y + 33, y + 6, 3);
    lemma_half_at(f, q, 5 * y + 39, y + 7, 4);
    lemma_half_at(f, q, 5 * y + 45, y + 9, 0);
    lemma_half_at(f, q, 5 * y + 57, y + 11, 2);
    lemma_half_at(f, q, 5 * y + 63, y + 12, 3);
    lemma_half_at(f, q, 5 * y + 69, y + 13, 4);
    lemma_half_at(f, q, 5 * y + 75, y + 15, 0);
    lemma_half_at(f, q, 5 * y + 81, y + 16, 1);
    lemma_half_at(f, q, 5 * y + 87, y + 17, 2);
    lemma_half_at(f, q, 5 * y + 93, y + 18, 3);
}

/// A preamble that starts four fifths into a sample, as weights on the samples.
proof fn lemma_weights_at_4(f: Seq<u8>, q: int, y: int)
    ensures
        ({
            let t = 5 * y - q;
            &&& pulses_of(f, q, 5 * y + 4) == lit(f, t) + 5 * lit(f, t + 5) + 4 * lit(f, t + 15)
                + 2 * lit(f, t + 20) + 4 * lit(f, t + 45) + 2 * lit(f, t + 50) + 2 * lit(f, t + 55)
                + 4 * lit(f, t + 60)
            &&& gap_of(f, q, 5 * y + 4) == 5 * lit(f, t + 10) + lit(f, t + 15) + 3 * lit(f, t + 20)
                + 5 * lit(f, t + 25) + 5 * lit(f, t + 30) + 5 * lit(f, t + 35) + 5 * lit(f, t + 40)
                + lit(f, t + 45) + lit(f, t + 60) + 5 * lit(f, t + 65) + 5 * lit(f, t + 70)
                + 5 * lit(f, t + 75) + 5 * lit(f, t + 80) + 5 * lit(f, t + 85) + 5 * lit(f, t + 90)
                + 5 * lit(f, t + 95)
        }),
{
    reveal(gap_lit);
    reveal(pulses_lit);
    lemma_half_at(f, q, 5 * y + 4, y, 4);
    lemma_half_at(f, q, 5 * y + 10, y + 2, 0);
    lemma_half_at(f, q, 5 * y + 16, y + 3, 1);
    lemma_half_at(f, q, 5 * y + 22, y + 4, 2);
    lemma_half_at(f, q, 5 * y + 28, y + 5, 3);
    lemma_half_at(f, q, 5 * y + 34, y + 6, 4);
    lemma_half_at(f, q, 5 * y + 40, y + 8, 0);
    lemma_half_at(f, q, 5 * y + 46, y + 9, 1);
    lemma_half_at(f, q, 5 * y + 58, y + 11, 3);
    lemma_half_at(f, q, 5 * y + 64, y + 12, 4);
    lemma_half_at(f, q, 5 * y + 70, y + 14, 0);
    lemma_half_at(f, q, 5 * y + 76, y + 15, 1);
    lemma_half_at(f, q, 5 * y + 82, y + 16, 2);
    lemma_half_at(f, q, 5 * y + 88, y + 17, 3);
    lemma_half_at(f, q, 5 * y + 94, y + 18, 4);
}

/// The energies that preambles show of a frame that starts with a sample.
proof fn lemma_energies_0(f: Seq<u8>)
    ensures
        pulses_of(f, 0, -5) == 34 && gap_of(f, 0, -5) == 68,
        pulses_of(f, 0, -2) == 74 && gap_of(f, 0, -2) == 32,
        pulses_of(f, 0, -1) == 83 && gap_of(f, 0, -1) == 25,
        pulses_of(f, 0, 0) == 88 && gap_of(f, 0, 0) == 22 + lit(f, 95),
        pulses_of(f, 0, 1) == 83 && gap_of(f, 0, 1) == 24 + 2 * lit(f, 95),
        pulses_of(f, 0, 2) == 74 && gap_of(f, 0, 2) == 26 + 3 * lit(f, 95),
        pulses_of(f, 0, 5) == 34 && gap_of(f, 0, 5) == 39 + 5 * lit(f, 95) + lit(f, 100),
        pulses_of(f, 0, 10) == 36 && gap_of(f, 0, 10) == 44 + 5 * lit(f, 95) + 5 * lit(f, 100) + lit(f, 105),
{
    lemma_samples_0(f);
    lemma_outer_samples(f);
    lemma_weights_at_0(f, 0, -1);
    lemma_weights_at_3(f, 0, -1);
    lemma_weights_at_4(f, 0, -1);
    lemma_weights_at_0(f, 0, 0);
    lemma_weights_at_1(f, 0, 0);
    lemma_weights_at_2(f, 0, 0);
    lemma_weights_at_0(f, 0, 1);
    lemma_weights_at_0(f, 0, 2);
}

/// How that preamble scores off its place, and what it shows there.
pub proof fn lemma_scores_from_0(f: Seq<u8>)
    ensures
        score_of(f, 0, 0) >= score_of(f, 0, 1) + 2,
        score_of(f, 0, 0) >= score_of(f, 0, 5) + 2,
        score_of(f, 0, 0) >= score_of(f, 0, 10) + 2,
        score_of(f, 0, 0) >= score_of(f, 0, -2) + 2,
        score_of(f, 0, 0) >= score_of(f, 0, -1) + 2,
        score_of(f, 0, 0) >= score_of(f, 0, 2) + 400,
        score_of(f, 0, 1) >= score_of(f, 0, -2) + 2,
        score_of(f, 0, 1) >= score_of(f, 0, -1) - 100,
        score_of(f, 0, 1) >= score_of(f, 0, 2) + 2,
        pulses_of(f, 0, 0) >= 83 && gap_of(f, 0, 0) <= 32,
        pulses_of(f, 0, 1) >= 83 && gap_of(f, 0, 1) <= 32,
{
    reveal(score_lit);
    lemma_energies_0(f);
    lemma_samples_0(f);
    lemma_outer_samples(f);
}

/// How its weakest pulse looks there.
pub proof fn lemma_pulses_from_0(f: Seq<u8>)
    ensures
        least_of(f, 0, 0) >= 18,
        least_of(f, 0, 1) >= 18,
        11 * half_of(f, 0, -5) <= gap_of(f, 0, -5),
{
    reveal(least_lit);
    lemma_energies_0(f);
    lemma_samples_0(f);
    lemma_outer_samples(f);
    lemma_half_at(f, 0, 0, 0, 0);
    lemma_half_at(f, 0, 12, 2, 2);
    lemma_half_at(f, 0, 42, 8, 2);
    lemma_half_at(f, 0, 54, 10, 4);
    lemma_half_at(f, 0, 1, 0, 1);
    lemma_half_at(f, 0, 13, 2, 3);
    lemma_half_at(f, 0, 43, 8, 3);
    lemma_half_at(f, 0, 55, 11, 0);
    lemma_half_at(f, 0, -5, -1, 0);
}

/// The energies that preambles show of a frame that starts a fifth into a sample.
proof fn lemma_energies_1(f: Seq<u8>)
    ensures
        pulses_of(f, 1, -5) == 26 && gap_of(f, 1, -5) == 74,
        pulses_of(f, 1, -2) == 59 && gap_of(f, 1, -2) == 45,
        pulses_of(f, 1, -1) == 72 && gap_of(f, 1, -1) == 36,
        pulses_of(f, 1, 0) == 83 && gap_of(f, 1, 0) == 29 + lit(f, 94),
        pulses_of(f, 1, 1) == 86 && gap_of(f, 1, 1) == 26 + 2 * lit(f, 94),
        pulses_of(f, 1, 2) == 84 && gap_of(f, 1, 2) == 23 + 3 * lit(f, 94),
        pulses_of(f, 1, 5) == 46 && gap_of(f, 1, 5) == 34 + 5 * lit(f, 94) + lit(f, 99),
        pulses_of(f, 1, 10) == 30 && gap_of(f, 1, 10) == 46 + 5 * lit(f, 94) + 5 * lit(f, 99) + lit(f, 104),
{
    lemma_samples_1(f);
    lemma_outer_samples(f);
    lemma_weights_at_0(f, 1, -1);
    lemma_weights_at_3(f, 1, -1);
    lemma_weights_at_4(f, 1, -1);
    lemma_weights_at_0(f, 1, 0);
    lemma_weights_at_1(f, 1, 0);
    lemma_weights_at_2(f, 1, 0);
    lemma_weights_at_0(f, 1, 1);
    lemma_weights_at_0(f, 1, 2);
}

/// How that preamble scores off its place, and what it shows there.
pub proof fn lemma_scores_from_1(f: Seq<u8>)
    ensures
        score_of(f, 1, 0) >= score_of(f, 1, 5) + 2,
        score_of(f, 1, 0) >= score_of(f, 1, 10) + 2,
        score_of(f, 1, 0) >= score_of(f, 1, -2) + 2,
        score_of(f, 1, 0) >= score_of(f, 1, -1) + 2,
        score_of(f, 1, 0) >= score_of(f, 1, 2) - 110,
        score_of(f, 1, 1) >= score_of(f, 1, -2) + 2,
        score_of(f, 1, 1) >= score_of(f, 1, -1) + 400,
        score_of(f, 1, 1) >= score_of(f, 1, 2) + 2,
        score_of(f, 1, 1) >= score_of(f, 1, 0) + 2,
        pulses_of(f, 1, 0) >= 83 && gap_of(f, 1, 0) <= 32,
        pulses_of(f, 1, 1) >= 83 && gap_of(f, 1, 1) <= 32,
        pulses_of(f, 1, 2) >= 83 && gap_of(f, 1, 2) <= 32,
{
    reveal(score_lit);
    lemma_energies_1(f);
    lemma_samples_1(f);
    lemma_outer_samples(f);
}

/// How its weakest pulse looks there.
pub proof fn lemma_pulses_from_1(f: Seq<u8>)
    ensures
        least_of(f, 1, 0) >= 18,
        least_of(f, 1, 1) >= 18,
        least_of(f, 1, 2) >= 18,
        11 * half_of(f, 1, -5) <= gap_of(f, 1, -5),
{
    reveal(least_lit);
    lemma_energies_1(f);
    lemma_samples_1(f);
    lemma_outer_samples(f);
    lemma_half_at(f, 1, 0, 0, 0);
    lemma_half_at(f, 1, 12, 2, 2);
    lemma_half_at(f, 1, 42, 8, 2);
    lemma_half_at(f, 1, 54, 10, 4);
    lemma_half_at(f, 1, 1, 0, 1);
    lemma_half_at(f, 1, 13, 2, 3);
    lemma_half_at(f, 1, 43, 8, 3);
    lemma_half_at(f, 1, 55, 11, 0);
    lemma_half_at(f, 1, 2, 0, 2);
    lemma_half_at(f, 1, 14, 2, 4);
    lemma_half_at(f, 1, 44, 8, 4);
    lemma_half_at(f, 1, 56, 11, 1);
    lemma_half_at(f, 1, -5, -1, 0);
}

/// The energies that preambles show of a frame that starts two fifths into a sample.
proof fn lemma_energies_2(f: Seq<u8>)
    ensures
        pulses_of(f, 2, -5) == 23 && gap_of(f, 2, -5) == 75,
        pulses_of(f, 2, -2) == 44 && gap_of(f, 2, -2) == 56,
        pulses_of(f, 2, -1) == 59 && gap_of(f, 2, -1) == 46,
        pulses_of(f, 2, 0) == 74 && gap_of(f, 2, 0) == 36 + lit(f, 93),
        pulses_of(f, 2, 1) == 84 && gap_of(f, 2, 1) == 28 + 2 * lit(f, 93),
        pulses_of(f, 2, 2) == 90 && gap_of(f, 2, 2) == 20 + 3 * lit(f, 93),
        pulses_of(f, 2, 3) == 86 && gap_of(f, 2, 3) == 17 + 4 * lit(f, 93),
        pulses_of(f, 2, 4) == 74 && gap_of(f, 2, 4) == 22 + 5 * lit(f, 93),
        pulses_of(f, 2, 5) == 60 && gap_of(f, 2, 5) == 29 + 5 * lit(f, 93) + lit(f, 98),
        pulses_of(f, 2, 6) == 44 && gap_of(f, 2, 6) == 38 + 5 * lit(f, 93) + 2 * lit(f, 98),
        pulses_of(f, 2, 7) == 30 && gap_of(f, 2, 7) == 47 + 5 * lit(f, 93) + 3 * lit(f, 98),
        pulses_of(f, 2, 10) == 24 && gap_of(f, 2, 10) == 50 + 5 * lit(f, 93) + 5 * lit(f, 98) + lit(f, 103),
        pulses_of(f, 2, 15) == 43 && gap_of(f, 2, 15) == 38 + 5 * lit(f, 93) + 5 * lit(f, 98)
            + 5 * lit(f, 103) + lit(f, 108),
{
    lemma_samples_2(f);
    lemma_outer_samples(f);
    lemma_weights_at_0(f, 2, -1);
    lemma_weights_at_3(f, 2, -1);
    lemma_weights_at_4(f, 2, -1);
    lemma_weights_at_0(f, 2, 0);
    lemma_weights_at_1(f, 2, 0);
    lemma_weights_at_2(f, 2, 0);
    lemma_weights_at_3(f, 2, 0);
    lemma_weights_at_4(f, 2, 0);
    lemma_weights_at_0(f, 2, 1);
    lemma_weights_at_1(f, 2, 1);
    lemma_weights_at_2(f, 2, 1);
    lemma_weights_at_0(f, 2, 2);
    lemma_weights_at_0(f, 2, 3);
}

/// How that preamble scores off its place, and what it shows there.
pub proof fn lemma_scores_from_2(f: Seq<u8>)
    ensures
        score_of(f, 2, 2) >= score_of(f, 2, 3) + 2,
        score_of(f, 2, 0) >= score_of(f, 2, 5) + 2,
        score_of(f, 2, 0) >= score_of(f, 2, 10) + 2,
        score_of(f, 2, 5) >= score_of(f, 2, 10) + 2,
        score_of(f, 2, 5) >= score_of(f, 2, 15) + 2,
        score_of(f, 2, 1) >= score_of(f, 2, -2) + 2,
        score_of(f, 2, 1) >= score_of(f, 2, -1) + 2,
        score_of(f, 2, 1) >= score_of(f, 2, 0) + 2,
        score_of(f, 2, 2) >= score_of(f, 2, -2) + 2,
        score_of(f, 2, 2) >= score_of(f, 2, -1) + 2,
        score_of(f, 2, 2) >= score_of(f, 2, 0) + 2,
        score_of(f, 2, 2) >= score_of(f, 2, 1) + 2,
        score_of(f, 2, 3) >= score_of(f, 2, 4) + 2,
        score_of(f, 2, 3) >= score_of(f, 2, 5) + 2,
        score_of(f, 2, 3) >= score_of(f, 2, 6) + 2,
        score_of(f, 2, 3) >= score_of(f, 2, 7) + 2,
        pulses_of(f, 2, 0) >= 74 && gap_of(f, 2, 0) <= 38,
        pulses_of(f, 2, 5) >= 60 && gap_of(f, 2, 5) <= 44,
        pulses_of(f, 2, 1) >= 83 && gap_of(f, 2, 1) <= 32,
        pulses_of(f, 2, 2) >= 83 && gap_of(f, 2, 2) <= 32,
        pulses_of(f, 2, 3) >= 83 && gap_of(f, 2, 3) <= 32,
{
    reveal(score_lit);
    lemma_energies_2(f);
    lemma_samples_2(f);
    lemma_outer_samples(f);
}

/// How its weakest pulse looks there.
pub proof fn lemma_pulses_from_2(f: Seq<u8>)
    ensures
        least_of(f, 2, 0) >= 18,
        least_of(f, 2, 5) >= 14,
        least_of(f, 2, 1) >= 18,
        least_of(f, 2, 2) >= 18,
        least_of(f, 2, 3) >= 18,
        11 * half_of(f, 2, -5) <= gap_of(f, 2, -5),
{
    reveal(least_lit);
    lemma_energies_2(f);
    lemma_samples_2(f);
    lemma_outer_samples(f);
    lemma_half_at(f, 2, 0, 0, 0);
    lemma_half_at(f, 2, 12, 2, 2);
    lemma_half_at(f, 2, 42, 8, 2);
    lemma_half_at(f, 2, 54, 10, 4);
    lemma_half_at(f, 2, 1, 0, 1);
    lemma_half_at(f, 2, 13, 2, 3);
    lemma_half_at(f, 2, 43, 8, 3);
    lemma_half_at(f, 2, 55, 11, 0);
    lemma_half_at(f, 2, 2, 0, 2);
    lemma_half_at(f, 2, 14, 2, 4);
    lemma_half_at(f, 2, 44, 8, 4);
    lemma_half_at(f, 2, 56, 11, 1);
    lemma_half_at(f, 2, 3, 0, 3);
    lemma_half_at(f, 2, 15, 3, 0);
    lemma_half_at(f, 2, 45, 9, 0);
    lemma_half_at(f, 2, 57, 11, 2);
    lemma_half_at(f, 2, 5, 1, 0);
    lemma_half_at(f, 2, 17, 3, 2);
    lemma_half_at(f, 2, 47, 9, 2);
    lemma_half_at(f, 2, 59, 11, 4);
    lemma_half_at(f, 2, -5, -1, 0);
}

/// The energies that preambles show of a frame that starts three fifths into a sample.
proof fn lemma_energies_3(f: Seq<u8>)
    ensures
        pulses_of(f, 3, -5) == 24 && gap_of(f, 3, -5) == 76,
        pulses_of(f, 3, -2) == 30 && gap_of(f, 3, -2) == 68,
        pulses_of(f, 3, -1) == 44 && gap_of(f, 3, -1) == 58,
        pulses_of(f, 3, 0) == 60 && gap_of(f, 3, 0) == 46 + lit(f, 92),
        pulses_of(f, 3, 1) == 74 && gap_of(f, 3, 1) == 34 + 2 * lit(f, 92),
        pulses_of(f, 3, 2) == 86 && gap_of(f, 3, 2) == 22 + 3 * lit(f, 92),
        pulses_of(f, 3, 3) == 90 && gap_of(f, 3, 3) == 14 + 4 * lit(f, 92),
        pulses_of(f, 3, 4) == 84 && gap_of(f, 3, 4) == 16 + 5 * lit(f, 92),
        pulses_of(f, 3, 5) == 74 && gap_of(f, 3, 5) == 22 + 5 * lit(f, 92) + lit(f, 97),
        pulses_of(f, 3, 6) == 59 && gap_of(f, 3, 6) == 31 + 5 * lit(f, 92) + 2 * lit(f, 97),
        pulses_of(f, 3, 7) == 44 && gap_of(f, 3, 7) == 40 + 5 * lit(f, 92) + 3 * lit(f, 97),
        pulses_of(f, 3, 10) == 23 && gap_of(f, 3, 10) == 49 + 5 * lit(f, 92) + 5 * lit(f, 97) + lit(f, 102),
        pulses_of(f, 3, 15) == 44 && gap_of(f, 3, 15) == 40 + 5 * lit(f, 92) + 5 * lit(f, 97)
            + 5 * lit(f, 102) + lit(f, 107),
{
    lemma_samples_3(f);
    lemma_outer_samples(f);
    lemma_weights_at_0(f, 3, -1);
    lemma_weights_at_3(f, 3, -1);
    lemma_weights_at_4(f, 3, -1);
    lemma_weights_at_0(f, 3, 0);
    lemma_weights_at_1(f, 3, 0);
    lemma_weights_at_2(f, 3, 0);
    lemma_weights_at_3(f, 3, 0);
    lemma_weights_at_4(f, 3, 0);
    lemma_weights_at_0(f, 3, 1);
    lemma_weights_at_1(f, 3, 1);
    lemma_weights_at_2(f, 3, 1);
    lemma_weights_at_0(f, 3, 2);
    lemma_weights_at_0(f, 3, 3);
}

/// How that preamble scores off its place, and what it shows there.
pub proof fn lemma_scores_from_3(f: Seq<u8>)
    ensures
        score_of(f, 3, 0) >= score_of(f, 3, 10) + 2,
        score_of(f, 3, 5) >= score_of(f, 3, 0) + 2,
        score_of(f, 3, 5) >= score_of(f, 3, 10) + 2,
        score_of(f, 3, 5) >= score_of(f, 3, 15) + 2,
        score_of(f, 3, 2) >= score_of(f, 3, -2) + 2,
        score_of(f, 3, 2) >= score_of(f, 3, -1) + 2,
        score_of(f, 3, 2) >= score_of(f, 3, 0) + 2,
        score_of(f, 3, 2) >= score_of(f, 3, 1) + 2,
        score_of(f, 3, 3) >= score_of(f, 3, 4) + 2,
        score_of(f, 3, 3) >= score_of(f, 3, 5) + 2,
        score_of(f, 3, 3) >= score_of(f, 3, 6) + 2,
        score_of(f, 3, 3) >= score_of(f, 3, 7) + 2,
        pulses_of(f, 3, 0) >= 60 && gap_of(f, 3, 0) <= 47,
        pulses_of(f, 3, 5) >= 74 && gap_of(f, 3, 5) <= 32,
        pulses_of(f, 3, 2) >= 83 && gap_of(f, 3, 2) <= 32,
        pulses_of(f, 3, 3) >= 83 && gap_of(f, 3, 3) <= 32,
        pulses_of(f, 3, 4) >= 83 && gap_of(f, 3, 4) <= 32,
        pulses_of(f, 3, 2) >= pulses_of(f, 3, 0) && gap_of(f, 3, 2) <= gap_of(f, 3, 0),
{
    reveal(score_lit);
    lemma_energies_3(f);
    lemma_samples_3(f);
    lemma_outer_samples(f);
}

/// How its weakest pulse looks there.
pub proof fn lemma_pulses_from_3(f: Seq<u8>)
    ensures
        least_of(f, 3, 0) >= 14,
        least_of(f, 3, 5) >= 18,
        least_of(f, 3, 2) >= 18,
        least_of(f, 3, 3) >= 18,
        least_of(f, 3, 4) >= 18,
        11 * half_of(f, 3, -5) <= gap_of(f, 3, -5),
        11 * least_of(f, 3, 2) > gap_of(f, 3, 2),
{
    reveal(least_lit);
    lemma_energies_3(f);
    lemma_samples_3(f);
    lemma_outer_samples(f);
    lemma_half_at(f, 3, 0, 0, 0);
    lemma_half_at(f, 3, 12, 2, 2);
    lemma_half_at(f, 3, 42, 8, 2);
    lemma_half_at(f, 3, 54, 10, 4);
    lemma_half_at(f, 3, 2, 0, 2);
    lemma_half_at(f, 3, 14, 2, 4);
    lemma_half_at(f, 3, 44, 8, 4);
    lemma_half_at(f, 3, 56, 11, 1);
    lemma_half_at(f, 3, 3, 0, 3);
    lemma_half_at(f, 3, 15, 3, 0);
    lemma_half_at(f, 3, 45, 9, 0);
    lemma_half_at(f, 3, 57, 11, 2);
    lemma_half_at(f, 3, 4, 0, 4);
    lemma_half_at(f, 3, 16, 3, 1);
    lemma_half_at(f, 3, 46, 9, 1);
    lemma_half_at(f, 3, 58, 11, 3);
    lemma_half_at(f, 3, 5, 1, 0);
    lemma_half_at(f, 3, 17, 3, 2);
    lemma_half_at(f, 3, 47, 9, 2);
    lemma_half_at(f, 3, 59, 11, 4);
    lemma_half_at(f, 3, -5, -1, 0);
}

/// The energies that preambles show of a frame that starts four fifths into a sample.
proof fn lemma_energies_4(f: Seq<u8>)
    ensures
        pulses_of(f, 4, -5) == 30 && gap_of(f, 4, -5) == 74,
        pulses_of(f, 4, -2) == 24 && gap_of(f, 4, -2) == 76,
        pulses_of(f, 4, -1) == 33 && gap_of(f, 4, -1) == 69,
        pulses_of(f, 4, 0) == 46 && gap_of(f, 4, 0) == 58,
        pulses_of(f, 4, 1) == 60 && gap_of(f, 4, 1) == 45,
        pulses_of(f, 4, 2) == 74 && gap_of(f, 4, 2) == 32,
        pulses_of(f, 4, 3) == 84 && gap_of(f, 4, 3) == 21,
        pulses_of(f, 4, 4) == 86 && gap_of(f, 4, 4) == 18,
        pulses_of(f, 4, 5) == 83 && gap_of(f, 4, 5) == 20 + lit(f, 96),
        pulses_of(f, 4, 6) == 72 && gap_of(f, 4, 6) == 26 + 2 * lit(f, 96),
        pulses_of(f, 4, 7) == 59 && gap_of(f, 4, 7) == 32 + 3 * lit(f, 96),
        pulses_of(f, 4, 10) == 26 && gap_of(f, 4, 10) == 44 + 5 * lit(f, 96) + lit(f, 101),
        pulses_of(f, 4, 15) == 40 && gap_of(f, 4, 15) == 42 + 5 * lit(f, 96) + 5 * lit(f, 101) + lit(f, 106),
{
    lemma_samples_4(f);
    lemma_outer_samples(f);
    lemma_weights_at_0(f, 4, -1);
    lemma_weights_at_3(f, 4, -1);
    lemma_weights_at_4(f, 4, -1);
    lemma_weights_at_0(f, 4, 0);
    lemma_weights_at_1(f, 4, 0);
    lemma_weights_at_2(f, 4, 0);
    lemma_weights_at_3(f, 4, 0);
    lemma_weights_at_4(f, 4, 0);
    lemma_weights_at_0(f, 4, 1);
    lemma_weights_at_1(f, 4, 1);
    lemma_weights_at_2(f, 4, 1);
    lemma_weights_at_0(f, 4, 2);
    lemma_weights_at_0(f, 4, 3);
}

/// How that preamble scores off its place, and what it shows there.
pub proof fn lemma_scores_from_4(f: Seq<u8>)
    ensures
        score_of(f, 4, 4) >= score_of(f, 4, 5) + 2,
        score_of(f, 4, 5) >= score_of(f, 4, 0) + 2,
        score_of(f, 4, 5) >= score_of(f, 4, 10) + 2,
        score_of(f, 4, 5) >= score_of(f, 4, 15) + 2,
        score_of(f, 4, 2) >= score_of(f, 4, -2) + 2,
        score_of(f, 4, 2) >= score_of(f, 4, -1) + 2,
        score_of(f, 4, 2) >= score_of(f, 4, 0) + 2,
        score_of(f, 4, 2) >= score_of(f, 4, 1) + 2,
        score_of(f, 4, 3) >= score_of(f, 4, 5) + 2,
        score_of(f, 4, 3) >= score_of(f, 4, 6) + 2,
        score_of(f, 4, 3) >= score_of(f, 4, 7) + 2,
        score_of(f, 4, 4) >= score_of(f, 4, 3) + 2,
        score_of(f, 4, 4) >= score_of(f, 4, 6) + 400,
        score_of(f, 4, 4) >= score_of(f, 4, 7) + 2,
        score_of(f, 4, 5) >= score_of(f, 4, 3) - 100,
        score_of(f, 4, 5) >= score_of(f, 4, 6) + 2,
        score_of(f, 4, 5) >= score_of(f, 4, 7) + 2,
        pulses_of(f, 4, 5) >= 74 && gap_of(f, 4, 5) <= 38,
        pulses_of(f, 4, 3) >= 83 && gap_of(f, 4, 3) <= 32,
        pulses_of(f, 4, 4) >= 83 && gap_of(f, 4, 4) <= 32,
        pulses_of(f, 4, 5) >= 83 && gap_of(f, 4, 5) <= 32,
        pulses_of(f, 4, 2) >= pulses_of(f, 4, 0) && gap_of(f, 4, 2) <= gap_of(f, 4, 0),
{
    reveal(score_lit);
    lemma_energies_4(f);
    lemma_samples_4(f);
    lemma_outer_samples(f);
}

/// How its weakest pulse looks there.
pub proof fn lemma_pulses_from_4(f: Seq<u8>)
    ensures
        least_of(f, 4, 5) >= 18,
        least_of(f, 4, 3) >= 18,
        least_of(f, 4, 4) >= 18,
        least_of(f, 4, 5) >= 18,
        11 * half_of(f, 4, -5) <= gap_of(f, 4, -5),
        11 * least_of(f, 4, 2) > gap_of(f, 4, 2),
{
    reveal(least_lit);
    lemma_energies_4(f);
    lemma_samples_4(f);
    lemma_outer_samples(f);
    lemma_half_at(f, 4, 2, 0, 2);
    lemma_half_at(f, 4, 14, 2, 4);
    lemma_half_at(f, 4, 44, 8, 4);
    lemma_half_at(f, 4, 56, 11, 1);
    lemma_half_at(f, 4, 3, 0, 3);
    lemma_half_at(f, 4, 15, 3, 0);
    lemma_half_at(f, 4, 45, 9, 0);
    lemma_half_at(f, 4, 57, 11, 2);
    lemma_half_at(f, 4, 4, 0, 4);
    lemma_half_at(f, 4, 16, 3, 1);
    lemma_half_at(f, 4, 46, 9, 1);
    lemma_half_at(f, 4, 58, 11, 3);
    lemma_half_at(f, 4, 5, 1, 0);
    lemma_half_at(f, 4, 17, 3, 2);
    lemma_half_at(f, 4, 47, 9, 2);
    lemma_half_at(f, 4, 59, 11, 4);
    lemma_half_at(f, 4, -5, -1, 0);
}

/// The energies that preambles show of a frame that starts with the next sample.
proof fn lemma_energies_5(f: Seq<u8>)
    ensures
        pulses_of(f, 5, -5) == 36 && gap_of(f, 5, -5) == 72,
        pulses_of(f, 5, -2) == 23 && gap_of(f, 5, -2) == 79,
        pulses_of(f, 5, -1) == 26 && gap_of(f, 5, -1) == 76,
        pulses_of(f, 5, 0) == 34 && gap_of(f, 5, 0) == 68,
        pulses_of(f, 5, 1) == 46 && gap_of(f, 5, 1) == 56,
        pulses_of(f, 5, 2) == 60 && gap_of(f, 5, 2) == 44,
        pulses_of(f, 5, 3) == 74 && gap_of(f, 5, 3) == 32,
        pulses_of(f, 5, 4) == 83 && gap_of(f, 5, 4) == 25,
        pulses_of(f, 5, 5) == 88 && gap_of(f, 5, 5) == 22 + lit(f, 95),
        pulses_of(f, 5, 6) == 83 && gap_of(f, 5, 6) == 24 + 2 * lit(f, 95),
        pulses_of(f, 5, 7) == 74 && gap_of(f, 5, 7) == 26 + 3 * lit(f, 95),
        pulses_of(f, 5, 10) == 34 && gap_of(f, 5, 10) == 39 + 5 * lit(f, 95) + lit(f, 100),
        pulses_of(f, 5, 15) == 36 && gap_of(f, 5, 15) == 44 + 5 * lit(f, 95) + 5 * lit(f, 100) + lit(f, 105),
{
    lemma_samples_0(f);
    lemma_outer_samples(f);
    lemma_weights_at_0(f, 5, -1);
    lemma_weights_at_3(f, 5, -1);
    lemma_weights_at_4(f, 5, -1);
    lemma_weights_at_0(f, 5, 0);
    lemma_weights_at_1(f, 5, 0);
    lemma_weights_at_2(f, 5, 0);
    lemma_weights_at_3(f, 5, 0);
    lemma_weights_at_4(f, 5, 0);
    lemma_weights_at_0(f, 5, 1);
    lemma_weights_at_1(f, 5, 1);
    lemma_weights_at_2(f, 5, 1);
    lemma_weights_at_0(f, 5, 2);
    lemma_weights_at_0(f, 5, 3);
}

/// How that preamble scores off its place, and what it shows there.
pub proof fn lemma_scores_from_5(f: Seq<u8>)
    ensures
        score_of(f, 5, 5) >= score_of(f, 5, 0) + 2,
        score_of(f, 5, 5) >= score_of(f, 5, 10) + 2,
        score_of(f, 5, 5) >= score_of(f, 5, 15) + 2,
        score_of(f, 5, 2) >= score_of(f, 5, -2) + 2,
        score_of(f, 5, 2) >= score_of(f, 5, -1) + 2,
        score_of(f, 5, 2) >= score_of(f, 5, 0) + 2,
        score_of(f, 5, 2) >= score_of(f, 5, 1) + 2,
        score_of(f, 5, 4) >= score_of(f, 5, 3) + 2,
        score_of(f, 5, 4) >= score_of(f, 5, 6) - 20,
        score_of(f, 5, 4) >= score_of(f, 5, 7) + 2,
        score_of(f, 5, 5) >= score_of(f, 5, 3) + 400,
        score_of(f, 5, 5) >= score_of(f, 5, 6) + 2,
        score_of(f, 5, 5) >= score_of(f, 5, 7) + 2,
        pulses_of(f, 5, 5) >= 74 && gap_of(f, 5, 5) <= 38,
        pulses_of(f, 5, 4) >= 83 && gap_of(f, 5, 4) <= 32,
        pulses_of(f, 5, 5) >= 83 && gap_of(f, 5, 5) <= 32,
        pulses_of(f, 5, 2) >= pulses_of(f, 5, 0) && gap_of(f, 5, 2) <= gap_of(f, 5, 0),
{
    reveal(score_lit);
    lemma_energies_5(f);
    lemma_samples_0(f);
    lemma_outer_samples(f);
}

/// How its weakest pulse looks there.
pub proof fn lemma_pulses_from_5(f: Seq<u8>)
    ensures
        least_of(f, 5, 5) >= 18,
        least_of(f, 5, 4) >= 18,
        least_of(f, 5, 5) >= 18,
        11 * half_of(f, 5, -5) <= gap_of(f, 5, -5),
        11 * least_of(f, 5, 2) > gap_of(f, 5, 2),
{
    reveal(least_lit);
    lemma_energies_5(f);
    lemma_samples_0(f);
    lemma_outer_samples(f);
    lemma_half_at(f, 5, 2, 0, 2);
    lemma_half_at(f, 5, 14, 2, 4);
    lemma_half_at(f, 5, 44, 8, 4);
    lemma_half_at(f, 5, 56, 11, 1);
    lemma_half_at(f, 5, 4, 0, 4);
    lemma_half_at(f, 5, 16, 3, 1);
    lemma_half_at(f, 5, 46, 9, 1);
    lemma_half_at(f, 5, 58, 11, 3);
    lemma_half_at(f, 5, 5, 1, 0);
    lemma_half_at(f, 5, 17, 3, 2);
    lemma_half_at(f, 5, 47, 9, 2);
    lemma_half_at(f, 5, 59, 11, 4);
    lemma_half_at(f, 5, -5, -1, 0);
}

} // verus!
