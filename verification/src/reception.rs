//! What is sent comes out: a lone frame over an even noise floor is the one
//! frame that a run finds, bit for bit and to the fifth of a sample.

use crate::demod::{
    FrameView, LONG_SAMPLES, SUB, Scan, State, Stats, address_field, better, block_end, entered, format_at,
    format_of, frame_len, gated_fine, is_checked, looked, phase_fine, refined, run_of, scan_end, scanned,
    span_of, stepped,
};
use crate::demod_laws::{is_genuine, law_clean_frame_is_emitted, lemma_format};
use crate::known::is_confirmed;
use crate::params::{Params, Slicer};
use crate::preamble::{
    FLOOR, Hit, above, energy, fine_at, gap_sum, gaps, gate, grid_at, larger, lemma_energy_bound, lemma_gaps,
    lemma_half_bit, levels_of, pair_max, pulse, smaller, spikes, stands_out, sum, weakest_peak,
};
use crate::slicer::{first_half, frame_bit, frame_bytes, law_slice_reads_what_was_sent, second_half};
use vstd::prelude::*;

verus! {

/// The fifth of a sample `t` after the start of the preamble of `f` lies in a
/// pulse: one of the preamble, or that of a bit, in its first half for a one and
/// in its second for a zero.
pub open spec fn in_pulse(f: Seq<u8>, t: int) -> bool {
    ||| 0 <= t < 6
    ||| 12 <= t < 18
    ||| 42 <= t < 48
    ||| 54 <= t < 60
    ||| 96 <= t < 96 + 96 * f.len() && ((t - 96) % 12 < 6) == frame_bit(f, (t - 96) / 12)
}

pub open spec fn one(yes: bool) -> int {
    if yes { 1 } else { 0 }
}

/// How many fifths of the sample that begins at `t` lie in a pulse.
#[verifier::opaque]
pub open spec fn lit(f: Seq<u8>, t: int) -> int {
    one(in_pulse(f, t)) + one(in_pulse(f, t + 1)) + one(in_pulse(f, t + 2)) + one(in_pulse(f, t + 3))
        + one(in_pulse(f, t + 4))
}

/// The samples `m` hold the frame `f`, whose preamble starts at `st` fifths, and
/// nothing else: each fifth in a pulse adds `step` to the level `floor`.
pub open spec fn holds(m: Seq<u16>, st: int, f: Seq<u8>, floor: int, step: int) -> bool {
    forall|j: int| 0 <= j < m.len() ==> #[trigger] m[j] == floor + step * lit(f, 5 * j - st)
}

/// The energy of pulses in the half bit `u` fifths after the start of the
/// preamble, which is `k` fifths into a sample.
#[verifier::opaque]
pub open spec fn half_lit(f: Seq<u8>, k: int, u: int) -> int {
    let r = (k + u) % 5;
    let (a, b) = (lit(f, u - r), lit(f, u - r + 5));
    if r == 0 {
        5 * a + b
    } else if r == 1 {
        4 * a + 2 * b
    } else if r == 2 {
        3 * a + 3 * b
    } else if r == 3 {
        2 * a + 4 * b
    } else {
        a + 5 * b
    }
}

/// The energy of pulses in the preamble gaps, `d` fifths off.
#[verifier::opaque]
pub open spec fn gap_lit(f: Seq<u8>, k: int, d: int) -> int {
    half_lit(f, k, d + 6) + half_lit(f, k, d + 18) + half_lit(f, k, d + 24) + half_lit(f, k, d + 30)
        + half_lit(f, k, d + 36) + half_lit(f, k, d + 60) + half_lit(f, k, d + 66) + half_lit(
        f,
        k,
        d + 72,
    ) + half_lit(f, k, d + 78) + half_lit(f, k, d + 84) + half_lit(f, k, d + 90)
}

/// The energy in the preamble pulses, `d` fifths off.
#[verifier::opaque]
pub open spec fn pulses_lit(f: Seq<u8>, k: int, d: int) -> int {
    half_lit(f, k, d) + half_lit(f, k, d + 12) + half_lit(f, k, d + 42) + half_lit(f, k, d + 54)
}

/// The energy in the weakest preamble pulse, `d` fifths off.
#[verifier::opaque]
pub open spec fn least_lit(f: Seq<u8>, k: int, d: int) -> int {
    smaller(
        smaller(half_lit(f, k, d), half_lit(f, k, d + 12)),
        smaller(half_lit(f, k, d + 42), half_lit(f, k, d + 54)),
    )
}

/// The stronger of the two samples from `t` on.
spec fn peak_lit(f: Seq<u8>, t: int) -> int {
    larger(lit(f, t), lit(f, t + 5))
}

/// The pulses' strongest samples, for a preamble at the sample that begins at
/// `c`.
#[verifier::opaque]
spec fn peaks_lit(f: Seq<u8>, c: int) -> int {
    peak_lit(f, c) + peak_lit(f, c + 10) + peak_lit(f, c + 40) + peak_lit(f, c + 50)
}

/// The weakest of them.
#[verifier::opaque]
spec fn weakest_lit(f: Seq<u8>, c: int) -> int {
    smaller(
        smaller(peak_lit(f, c), peak_lit(f, c + 10)),
        smaller(peak_lit(f, c + 40), peak_lit(f, c + 50)),
    )
}

/// The samples inside the two long gaps.
#[verifier::opaque]
spec fn quiet_lit(f: Seq<u8>, c: int) -> int {
    lit(f, c + 20) + lit(f, c + 25) + lit(f, c + 30) + lit(f, c + 35) + lit(f, c + 60) + lit(f, c + 65)
        + lit(f, c + 70) + lit(f, c + 75) + lit(f, c + 80) + lit(f, c + 85) + lit(f, c + 90)
}

/// Twice the score of a preamble `d` fifths off.
#[verifier::opaque]
pub open spec fn score_lit(f: Seq<u8>, k: int, d: int) -> int {
    33 * pulses_lit(f, k, d) - 12 * gap_lit(f, k, d)
}

proof fn lemma_half_lit(m: Seq<u16>, st: int, f: Seq<u8>, floor: int, step: int, u: int)
    requires
        holds(m, st, f, floor, step),
        0 <= st + u,
        (st + u) / 5 + 1 < m.len(),
    ensures
        energy(m, st + u, st + u + 6) == 6 * floor + step * half_lit(f, st % 5, u),
{
    reveal(half_lit);
    let t = st + u;
    let (q, r) = (t / 5, t % 5);
    lemma_half_bit(m, q, r);
    assert((st % 5 + u) % 5 == r);
    assert(5 * q - st == u - r && 5 * (q + 1) - st == u - r + 5);
    let (a, b) = (lit(f, u - r), lit(f, u - r + 5));
    assert(m[q] == floor + step * a && m[q + 1] == floor + step * b);
    assert(r == 0 || r == 1 || r == 2 || r == 3 || r == 4);
    assert(step * (5 * a + b) == 5 * (step * a) + step * b) by (nonlinear_arith);
    assert(step * (4 * a + 2 * b) == 4 * (step * a) + 2 * (step * b)) by (nonlinear_arith);
    assert(step * (3 * a + 3 * b) == 3 * (step * a) + 3 * (step * b)) by (nonlinear_arith);
    assert(step * (2 * a + 4 * b) == 2 * (step * a) + 4 * (step * b)) by (nonlinear_arith);
    assert(step * (a + 5 * b) == step * a + 5 * (step * b)) by (nonlinear_arith);
}

/// How many fifths of the sample that begins at `t` lie in a pulse that begins
/// at `p`.
pub open spec fn shared(t: int, p: int) -> int {
    if t <= p - 5 || t >= p + 6 {
        0
    } else if t < p {
        t + 5 - p
    } else if t <= p + 1 {
        5
    } else {
        p + 6 - t
    }
}

/// A sample that ends before the data holds what it shares with the preamble.
pub proof fn lemma_lit(f: Seq<u8>)
    ensures
        forall|t: int| 0 <= #[trigger] lit(f, t) <= 5,
        forall|t: int|
            t <= 91 ==> #[trigger] lit(f, t) == shared(t, 0) + shared(t, 12) + shared(t, 42) + shared(t, 54),
        forall|t: int| 91 < t <= 95 ==> #[trigger] lit(f, t) <= t - 91,
{
    reveal(lit);
}

/// What the samples hold of a preamble that starts with a sample.
pub proof fn lemma_samples_0(f: Seq<u8>)
    ensures
        lit(f, -5) == 0,
        lit(f, 0) == 5,
        lit(f, 5) == 1,
        lit(f, 10) == 3,
        lit(f, 15) == 3,
        lit(f, 20) == 0,
        lit(f, 25) == 0,
        lit(f, 30) == 0,
        lit(f, 35) == 0,
        lit(f, 40) == 3,
        lit(f, 45) == 3,
        lit(f, 50) == 1,
        lit(f, 55) == 5,
        lit(f, 60) == 0,
        lit(f, 65) == 0,
        lit(f, 70) == 0,
        lit(f, 75) == 0,
        lit(f, 80) == 0,
        lit(f, 85) == 0,
        lit(f, 90) == 0,
        0 <= lit(f, 95) <= 4,
        0 <= lit(f, 100) <= 5,
        0 <= lit(f, 105) <= 5,
        0 <= lit(f, 110) <= 5,
{
    lemma_lit(f);
}

/// What the tests see of a preamble that starts with a sample.
#[verifier::spinoff_prover]
#[verifier::rlimit(40)]
proof fn lemma_scores_0(f: Seq<u8>)
    ensures
        score_lit(f, 0, 0) >= 2 + score_lit(f, 0, -2),
        score_lit(f, 0, 0) >= 2 + score_lit(f, 0, -1),
        score_lit(f, 0, 0) >= 2 + score_lit(f, 0, 1),
        score_lit(f, 0, 0) >= 2 + score_lit(f, 0, 2),
        score_lit(f, 0, 0) >= 2 + score_lit(f, 0, 5),
        score_lit(f, 0, 0) >= 2 + score_lit(f, 0, 10),
        peaks_lit(f, 0) >= 16,
        weakest_lit(f, 0) >= 3,
        quiet_lit(f, 0) <= 2,
        11 * half_lit(f, 0, -5) <= gap_lit(f, 0, -5),
        least_lit(f, 0, 0) >= 18,
        pulses_lit(f, 0, 0) >= 74,
        gap_lit(f, 0, 0) <= 38,
{
    reveal(half_lit);
    reveal(gap_lit);
    reveal(pulses_lit);
    reveal(least_lit);
    reveal(score_lit);
    reveal(peaks_lit);
    reveal(weakest_lit);
    reveal(quiet_lit);
    lemma_samples_0(f);
}

/// What the samples hold of a preamble that starts a fifth into a sample.
pub proof fn lemma_samples_1(f: Seq<u8>)
    ensures
        lit(f, -6) == 0,
        lit(f, -1) == 4,
        lit(f, 4) == 2,
        lit(f, 9) == 2,
        lit(f, 14) == 4,
        lit(f, 19) == 0,
        lit(f, 24) == 0,
        lit(f, 29) == 0,
        lit(f, 34) == 0,
        lit(f, 39) == 2,
        lit(f, 44) == 4,
        lit(f, 49) == 0,
        lit(f, 54) == 5,
        lit(f, 59) == 1,
        lit(f, 64) == 0,
        lit(f, 69) == 0,
        lit(f, 74) == 0,
        lit(f, 79) == 0,
        lit(f, 84) == 0,
        lit(f, 89) == 0,
        0 <= lit(f, 94) <= 3,
        0 <= lit(f, 99) <= 5,
        0 <= lit(f, 104) <= 5,
        0 <= lit(f, 109) <= 5,
{
    lemma_lit(f);
}

/// What the tests see of a preamble that starts a fifth into a sample.
#[verifier::spinoff_prover]
#[verifier::rlimit(40)]
proof fn lemma_scores_1(f: Seq<u8>)
    ensures
        score_lit(f, 1, 0) >= 2 + score_lit(f, 1, -3),
        score_lit(f, 1, 0) >= 2 + score_lit(f, 1, -2),
        score_lit(f, 1, 0) >= 2 + score_lit(f, 1, -1),
        score_lit(f, 1, 0) >= 2 + score_lit(f, 1, 1),
        score_lit(f, 1, 0) >= 2 + score_lit(f, 1, 4),
        score_lit(f, 1, 0) >= 2 + score_lit(f, 1, 9),
        score_lit(f, 1, -1) >= 2 + score_lit(f, 1, 4),
        score_lit(f, 1, -1) >= 2 + score_lit(f, 1, 9),
        peaks_lit(f, -1) >= 16,
        weakest_lit(f, -1) >= 3,
        quiet_lit(f, -1) <= 2,
        11 * half_lit(f, 1, -6) <= gap_lit(f, 1, -6),
        least_lit(f, 1, -1) >= 18,
        pulses_lit(f, 1, -1) >= 74,
        gap_lit(f, 1, -1) <= 38,
        least_lit(f, 1, 0) >= 18,
        pulses_lit(f, 1, 0) >= 74,
        gap_lit(f, 1, 0) <= 38,
{
    reveal(half_lit);
    reveal(gap_lit);
    reveal(pulses_lit);
    reveal(least_lit);
    reveal(score_lit);
    reveal(peaks_lit);
    reveal(weakest_lit);
    reveal(quiet_lit);
    lemma_samples_1(f);
}

/// What the samples hold of a preamble that starts two fifths into a sample.
pub proof fn lemma_samples_2(f: Seq<u8>)
    ensures
        lit(f, -7) == 0,
        lit(f, -2) == 3,
        lit(f, 3) == 3,
        lit(f, 8) == 1,
        lit(f, 13) == 5,
        lit(f, 18) == 0,
        lit(f, 23) == 0,
        lit(f, 28) == 0,
        lit(f, 33) == 0,
        lit(f, 38) == 1,
        lit(f, 43) == 5,
        lit(f, 48) == 0,
        lit(f, 53) == 4,
        lit(f, 58) == 2,
        lit(f, 63) == 0,
        lit(f, 68) == 0,
        lit(f, 73) == 0,
        lit(f, 78) == 0,
        lit(f, 83) == 0,
        lit(f, 88) == 0,
        0 <= lit(f, 93) <= 2,
        0 <= lit(f, 98) <= 5,
        0 <= lit(f, 103) <= 5,
        0 <= lit(f, 108) <= 5,
{
    lemma_lit(f);
}

/// What the tests see of a preamble that starts two fifths into a sample.
#[verifier::spinoff_prover]
#[verifier::rlimit(40)]
proof fn lemma_scores_2(f: Seq<u8>)
    ensures
        score_lit(f, 2, 0) >= 2 + score_lit(f, 2, -4),
        score_lit(f, 2, 0) >= 2 + score_lit(f, 2, -3),
        score_lit(f, 2, 0) >= 2 + score_lit(f, 2, -2),
        score_lit(f, 2, 0) >= 2 + score_lit(f, 2, -1),
        score_lit(f, 2, 0) >= 2 + score_lit(f, 2, 3),
        score_lit(f, 2, 0) >= 2 + score_lit(f, 2, 8),
        score_lit(f, 2, -2) >= 2 + score_lit(f, 2, 3),
        score_lit(f, 2, -2) >= 2 + score_lit(f, 2, 8),
        peaks_lit(f, -2) >= 16,
        weakest_lit(f, -2) >= 3,
        quiet_lit(f, -2) <= 2,
        11 * half_lit(f, 2, -7) <= gap_lit(f, 2, -7),
        least_lit(f, 2, -2) >= 18,
        pulses_lit(f, 2, -2) >= 74,
        gap_lit(f, 2, -2) <= 38,
        least_lit(f, 2, 0) >= 18,
        pulses_lit(f, 2, 0) >= 74,
        gap_lit(f, 2, 0) <= 38,
{
    reveal(half_lit);
    reveal(gap_lit);
    reveal(pulses_lit);
    reveal(least_lit);
    reveal(score_lit);
    reveal(peaks_lit);
    reveal(weakest_lit);
    reveal(quiet_lit);
    lemma_samples_2(f);
}

/// What the samples hold of a preamble that starts three fifths into a sample.
pub proof fn lemma_samples_3(f: Seq<u8>)
    ensures
        lit(f, -8) == 0,
        lit(f, -3) == 2,
        lit(f, 2) == 4,
        lit(f, 7) == 0,
        lit(f, 12) == 5,
        lit(f, 17) == 1,
        lit(f, 22) == 0,
        lit(f, 27) == 0,
        lit(f, 32) == 0,
        lit(f, 37) == 0,
        lit(f, 42) == 5,
        lit(f, 47) == 1,
        lit(f, 52) == 3,
        lit(f, 57) == 3,
        lit(f, 62) == 0,
        lit(f, 67) == 0,
        lit(f, 72) == 0,
        lit(f, 77) == 0,
        lit(f, 82) == 0,
        lit(f, 87) == 0,
        0 <= lit(f, 92) <= 1,
        0 <= lit(f, 97) <= 5,
        0 <= lit(f, 102) <= 5,
        0 <= lit(f, 107) <= 5,
{
    lemma_lit(f);
}

/// What the tests see of a preamble that starts three fifths into a sample.
#[verifier::spinoff_prover]
#[verifier::rlimit(40)]
proof fn lemma_scores_3(f: Seq<u8>)
    ensures
        score_lit(f, 3, 0) >= 2 + score_lit(f, 3, -3),
        score_lit(f, 3, 0) >= 2 + score_lit(f, 3, 1),
        score_lit(f, 3, 0) >= 2 + score_lit(f, 3, 2),
        score_lit(f, 3, 0) >= 2 + score_lit(f, 3, 3),
        score_lit(f, 3, 0) >= 2 + score_lit(f, 3, 4),
        score_lit(f, 3, 0) >= 2 + score_lit(f, 3, 7),
        score_lit(f, 3, 0) >= 2 + score_lit(f, 3, 12),
        score_lit(f, 3, 2) >= 2 + score_lit(f, 3, -3),
        score_lit(f, 3, 2) >= 2 + score_lit(f, 3, 7),
        score_lit(f, 3, 2) >= 2 + score_lit(f, 3, 12),
        peaks_lit(f, 2) >= 16,
        weakest_lit(f, 2) >= 3,
        quiet_lit(f, 2) <= 2,
        11 * half_lit(f, 3, -8) <= gap_lit(f, 3, -8),
        least_lit(f, 3, 0) >= 18,
        pulses_lit(f, 3, 0) >= 74,
        gap_lit(f, 3, 0) <= 38,
        least_lit(f, 3, 2) >= 18,
        pulses_lit(f, 3, 2) >= 74,
        gap_lit(f, 3, 2) <= 38,
{
    reveal(half_lit);
    reveal(gap_lit);
    reveal(pulses_lit);
    reveal(least_lit);
    reveal(score_lit);
    reveal(peaks_lit);
    reveal(weakest_lit);
    reveal(quiet_lit);
    lemma_samples_3(f);
}

/// What the samples hold of a preamble that starts four fifths into a sample.
pub proof fn lemma_samples_4(f: Seq<u8>)
    ensures
        lit(f, -9) == 0,
        lit(f, -4) == 1,
        lit(f, 1) == 5,
        lit(f, 6) == 0,
        lit(f, 11) == 4,
        lit(f, 16) == 2,
        lit(f, 21) == 0,
        lit(f, 26) == 0,
        lit(f, 31) == 0,
        lit(f, 36) == 0,
        lit(f, 41) == 4,
        lit(f, 46) == 2,
        lit(f, 51) == 2,
        lit(f, 56) == 4,
        lit(f, 61) == 0,
        lit(f, 66) == 0,
        lit(f, 71) == 0,
        lit(f, 76) == 0,
        lit(f, 81) == 0,
        lit(f, 86) == 0,
        lit(f, 91) == 0,
        0 <= lit(f, 96) <= 5,
        0 <= lit(f, 101) <= 5,
        0 <= lit(f, 106) <= 5,
{
    lemma_lit(f);
}

/// What the tests see of a preamble that starts four fifths into a sample.
#[verifier::spinoff_prover]
#[verifier::rlimit(40)]
proof fn lemma_scores_4(f: Seq<u8>)
    ensures
        score_lit(f, 4, 0) >= 2 + score_lit(f, 4, -4),
        score_lit(f, 4, 0) >= 2 + score_lit(f, 4, -1),
        score_lit(f, 4, 0) >= 2 + score_lit(f, 4, 1),
        score_lit(f, 4, 0) >= 2 + score_lit(f, 4, 2),
        score_lit(f, 4, 0) >= 2 + score_lit(f, 4, 3),
        score_lit(f, 4, 0) >= 2 + score_lit(f, 4, 6),
        score_lit(f, 4, 0) >= 2 + score_lit(f, 4, 11),
        score_lit(f, 4, 1) >= 2 + score_lit(f, 4, -4),
        score_lit(f, 4, 1) >= 2 + score_lit(f, 4, 6),
        score_lit(f, 4, 1) >= 2 + score_lit(f, 4, 11),
        peaks_lit(f, 1) >= 16,
        weakest_lit(f, 1) >= 3,
        quiet_lit(f, 1) <= 2,
        11 * half_lit(f, 4, -9) <= gap_lit(f, 4, -9),
        least_lit(f, 4, 0) >= 18,
        pulses_lit(f, 4, 0) >= 74,
        gap_lit(f, 4, 0) <= 38,
        least_lit(f, 4, 1) >= 18,
        pulses_lit(f, 4, 1) >= 74,
        gap_lit(f, 4, 1) <= 38,
{
    reveal(half_lit);
    reveal(gap_lit);
    reveal(pulses_lit);
    reveal(least_lit);
    reveal(score_lit);
    reveal(peaks_lit);
    reveal(weakest_lit);
    reveal(quiet_lit);
    lemma_samples_4(f);
}

pub proof fn lemma_spread(step: int, a: int, b: int, c: int, d: int)
    by (nonlinear_arith)
    ensures
        step * (a + b + c + d) == step * a + step * b + step * c + step * d,
{
}

/// The levels of a preamble `d` fifths off the start of the frame that `m` holds.
proof fn lemma_levels_lit(m: Seq<u16>, st: int, f: Seq<u8>, floor: int, step: int, d: int)
    requires
        holds(m, st, f, floor, step),
        0 <= floor,
        0 < step,
        0 <= st + d,
        (st + d) / 5 + 20 <= m.len(),
    ensures
        ({
            let l = levels_of(m, st + d);
            let k = st % 5;
            &&& l.gap == 396 * floor + 6 * (step * gap_lit(f, k, d))
            &&& l.pulse_min == 396 * floor + 66 * (step * least_lit(f, k, d))
            &&& 2 * l.pulse_mean <= 792 * floor + 33 * (step * pulses_lit(f, k, d)) < 2 * l.pulse_mean + 2
        }),
{
    reveal(levels_of);
    reveal(gap_lit);
    reveal(pulses_lit);
    reveal(least_lit);
    let (k, t) = (st % 5, st + d);
    let (e0, e1) = (energy(m, t, t + 6), energy(m, t + 12, t + 18));
    let (e2, e3) = (energy(m, t + 42, t + 48), energy(m, t + 54, t + 60));
    lemma_half_lit(m, st, f, floor, step, d);
    lemma_half_lit(m, st, f, floor, step, d + 12);
    lemma_half_lit(m, st, f, floor, step, d + 42);
    lemma_half_lit(m, st, f, floor, step, d + 54);
    lemma_half_lit(m, st, f, floor, step, d + 6);
    lemma_half_lit(m, st, f, floor, step, d + 18);
    lemma_half_lit(m, st, f, floor, step, d + 24);
    lemma_half_lit(m, st, f, floor, step, d + 30);
    lemma_half_lit(m, st, f, floor, step, d + 36);
    lemma_half_lit(m, st, f, floor, step, d + 60);
    lemma_half_lit(m, st, f, floor, step, d + 66);
    lemma_half_lit(m, st, f, floor, step, d + 72);
    lemma_half_lit(m, st, f, floor, step, d + 78);
    lemma_half_lit(m, st, f, floor, step, d + 84);
    lemma_half_lit(m, st, f, floor, step, d + 90);
    lemma_gaps(m, t);
    lemma_energy_bound(m, t, t + 6);
    lemma_energy_bound(m, t + 12, t + 18);
    lemma_energy_bound(m, t + 42, t + 48);
    lemma_energy_bound(m, t + 54, t + 60);
    lemma_energy_bound(m, t + 6, t + 12);
    lemma_energy_bound(m, t + 18, t + 42);
    lemma_energy_bound(m, t + 60, t + 96);
    let (h0, h1) = (half_lit(f, k, d), half_lit(f, k, d + 12));
    let (h2, h3) = (half_lit(f, k, d + 42), half_lit(f, k, d + 54));
    lemma_spread(step, h0, h1, h2, h3);
    let (g0, g1) = (half_lit(f, k, d + 6), half_lit(f, k, d + 18));
    let (g2, g3) = (half_lit(f, k, d + 24), half_lit(f, k, d + 30));
    let (g4, g5) = (half_lit(f, k, d + 36), half_lit(f, k, d + 60));
    let (g6, g7) = (half_lit(f, k, d + 66), half_lit(f, k, d + 72));
    let (g8, g9, g10) = (half_lit(f, k, d + 78), half_lit(f, k, d + 84), half_lit(f, k, d + 90));
    lemma_spread(step, g0, g1, g2, g3);
    lemma_spread(step, g4, g5, g6, g7);
    lemma_spread(step, g8, g9, g10, 0);
    lemma_spread(step, g0 + g1 + g2 + g3, g4 + g5 + g6 + g7, g8 + g9 + g10 + 0, 0);
    assert(step * 0 == 0);
    assert(gaps(m, t) == 66 * floor + step * gap_lit(f, k, d));
    lemma_least(step, h0, h1);
    lemma_least(step, h2, h3);
    lemma_least(step, smaller(h0, h1), smaller(h2, h3));
    assert(pulse(m, t, 0) == e0 && pulse(m, t, 1) == e1 && pulse(m, t, 2) == e2 && pulse(m, t, 3) == e3);
}

proof fn lemma_least(step: int, a: int, b: int)
    requires
        0 < step,
    ensures
        step * smaller(a, b) == smaller(step * a, step * b),
{
    assert(a < b ==> step * a < step * b) by (nonlinear_arith)
        requires
            0 < step,
    ;
    assert(a >= b ==> step * a >= step * b) by (nonlinear_arith)
        requires
            0 < step,
    ;
}

/// A preamble that shows more of the pulses scores higher.
proof fn lemma_beats(m: Seq<u16>, st: int, f: Seq<u8>, floor: int, step: int, d: int, e: int)
    requires
        holds(m, st, f, floor, step),
        0 <= floor,
        0 < step,
        0 <= st + d,
        (st + d) / 5 + 20 <= m.len(),
        0 <= st + e,
        (st + e) / 5 + 20 <= m.len(),
        score_lit(f, st % 5, d) >= 2 + score_lit(f, st % 5, e),
    ensures
        levels_of(m, st + d).pulse_mean - levels_of(m, st + d).gap > levels_of(m, st + e).pulse_mean
            - levels_of(m, st + e).gap,
{
    reveal(score_lit);
    let k = st % 5;
    lemma_levels_lit(m, st, f, floor, step, d);
    lemma_levels_lit(m, st, f, floor, step, e);
    let (h0, g0, h1, g1) = (pulses_lit(f, k, d), gap_lit(f, k, d), pulses_lit(f, k, e), gap_lit(f, k, e));
    assert(step * (33 * h0 - 12 * g0) >= step * (33 * h1 - 12 * g1) + 2 * step) by (nonlinear_arith)
        requires
            33 * h0 - 12 * g0 >= 2 + (33 * h1 - 12 * g1),
            0 < step,
    ;
    assert(step * (33 * h0 - 12 * g0) == 33 * (step * h0) - 12 * (step * g0)) by (nonlinear_arith);
    assert(step * (33 * h1 - 12 * g1) == 33 * (step * h1) - 12 * (step * g1)) by (nonlinear_arith);
}

proof fn lemma_energy_floor(m: Seq<u16>, a: int, n: nat, floor: int)
    requires
        0 <= a,
        a + n <= 5 * m.len(),
        forall|j: int| a / 5 <= j < m.len() ==> #[trigger] m[j] >= floor,
    ensures
        energy(m, a, a + n) >= n * floor,
    decreases n,
{
    if n > 0 {
        lemma_energy_floor(m, a, (n - 1) as nat, floor);
        assert(n * floor == (n - 1) * floor + floor) by (nonlinear_arith);
    }
    assert(n == 0 ==> n * floor == 0) by (nonlinear_arith);
}

/// No preamble stands out where its first or its second pulse is at the noise
/// floor.
pub proof fn lemma_flat(m: Seq<u16>, j: int, floor: int, ratio: u32, uniformity: u32)
    requires
        0 <= j,
        j + 20 <= m.len(),
        forall|x: int| j <= x < m.len() ==> #[trigger] m[x] >= floor,
        m[j] == floor && m[j + 1] == floor || m[j + 2] == floor && m[j + 3] == floor,
    ensures
        fine_at(m, j, ratio, uniformity) is None,
{
    reveal(levels_of);
    let t = 5 * j;
    lemma_half_bit(m, j, 0);
    lemma_half_bit(m, j + 2, 2);
    lemma_energy_floor(m, t + 6, 6, floor);
    lemma_energy_floor(m, t + 18, 24, floor);
    lemma_energy_floor(m, t + 60, 36, floor);
    lemma_energy_bound(m, t, t + 6);
    lemma_energy_bound(m, t + 12, t + 18);
    lemma_energy_bound(m, t + 42, t + 48);
    lemma_energy_bound(m, t + 54, t + 60);
    lemma_energy_bound(m, t + 6, t + 12);
    lemma_energy_bound(m, t + 18, t + 42);
    lemma_energy_bound(m, t + 60, t + 96);
}

/// What the tables say, for a frame `k` fifths into a sample: none stands out
/// a sample before; at the nearest sample, `c` fifths off, and at the start
/// itself one does.
spec fn charted(f: Seq<u8>, k: int, c: int) -> bool {
    &&& 11 * half_lit(f, k, -k - 5) <= gap_lit(f, k, -k - 5)
    &&& least_lit(f, k, 0) >= 18 && pulses_lit(f, k, 0) >= 74 && gap_lit(f, k, 0) <= 38
    &&& least_lit(f, k, c) >= 18 && pulses_lit(f, k, c) >= 74 && gap_lit(f, k, c) <= 38
    &&& c != 0 ==> score_lit(f, k, 0) >= 2 + score_lit(f, k, c)
    &&& c != 1 ==> score_lit(f, k, 0) >= 2 + score_lit(f, k, c - 1)
    &&& c != -1 ==> score_lit(f, k, 0) >= 2 + score_lit(f, k, c + 1)
    &&& c != 2 ==> score_lit(f, k, 0) >= 2 + score_lit(f, k, c - 2)
    &&& c != -2 ==> score_lit(f, k, 0) >= 2 + score_lit(f, k, c + 2)
    &&& peaks_lit(f, c) >= 16 && weakest_lit(f, c) >= 3 && quiet_lit(f, c) <= 2
    &&& score_lit(f, k, c) >= 2 + score_lit(f, k, c + 5)
    &&& k <= 2 ==> c == -k && score_lit(f, k, c) >= 2 + score_lit(f, k, c + 10)
    &&& k >= 3 ==> c == 5 - k && score_lit(f, k, c) >= 2 + score_lit(f, k, c - 5) && score_lit(f, k, c)
        >= 2 + score_lit(f, k, c + 10)
}

/// How far the nearest sample is from a start `k` fifths into one.
pub open spec fn nearest(k: int) -> int {
    if k <= 2 { -k } else { 5 - k }
}

proof fn lemma_charted(f: Seq<u8>, k: int)
    requires
        0 <= k < 5,
    ensures
        charted(f, k, nearest(k)),
{
    if k == 0 {
        lemma_scores_0(f);
    } else if k == 1 {
        lemma_scores_1(f);
    } else if k == 2 {
        lemma_scores_2(f);
    } else if k == 3 {
        lemma_scores_3(f);
    } else {
        lemma_scores_4(f);
    }
}

/// A preamble that starts at `st` passes the tests at the nearest sample, and the
/// fine test at its start, which lies among the phases tested around that sample.
pub open spec fn is_clear(p: Params, m: Seq<u16>, st: int) -> bool {
    let j = (st + nearest(st % 5)) / 5;
    &&& gate(m, j, p.precheck_ratio)
    &&& spikes(m, j) <= p.gap_spikes
    &&& fine_at(m, j, p.preamble_ratio, p.pulse_uniformity) is Some
    &&& grid_at(m, st, p.preamble_ratio) is Some
    &&& p.phase_span >= 2 || -1 <= nearest(st % 5) <= 1
}

/// A preamble with strong pulses and weak gaps stands out.
proof fn lemma_stands_out(m: Seq<u16>, st: int, f: Seq<u8>, floor: int, step: int, d: int, ratio: u32)
    requires
        holds(m, st, f, floor, step),
        0 <= floor <= 3 * step,
        9 <= step,
        0 <= st + d,
        (st + d) / 5 + 20 <= m.len(),
        least_lit(f, st % 5, d) >= 18,
        pulses_lit(f, st % 5, d) >= 74,
        gap_lit(f, st % 5, d) <= 38,
        ratio <= 409,
    ensures
        stands_out(levels_of(m, st + d), ratio),
{
    let k = st % 5;
    lemma_levels_lit(m, st, f, floor, step, d);
    let l = levels_of(m, st + d);
    let (a, h, g) = (least_lit(f, k, d), pulses_lit(f, k, d), gap_lit(f, k, d));
    assert(step * a >= 18 * step && step * h >= 74 * step && step * g <= 38 * step) by (nonlinear_arith)
        requires
            a >= 18,
            h >= 74,
            g <= 38,
            step >= 0,
    ;
    let top = larger(l.gap as int, FLOOR as int);
    assert(ratio * top <= 409 * top) by (nonlinear_arith)
        requires
            0 <= ratio <= 409,
            top >= 0,
    ;
}

/// The hit of a preamble at `t` fifths.
pub open spec fn hit_at(m: Seq<u16>, t: int) -> Hit {
    Hit { start: t as u64, pulse: levels_of(m, t).pulse_mean, gap: levels_of(m, t).gap }
}

/// Of the samples next to the start of the frame, refining picks the nearest.
proof fn lemma_nearest_wins(
    p: Params,
    m: Seq<u16>,
    st: int,
    f: Seq<u8>,
    floor: int,
    step: int,
    j: int,
    block_end: int,
    h: Hit,
)
    requires
        holds(m, st, f, floor, step),
        0 <= floor,
        0 < step,
        0 <= st,
        st / 5 + 30 <= m.len(),
        5 * m.len() <= u64::MAX,
        5 * j == st + nearest(st % 5) || st % 5 >= 3 && j == st / 5 && gated_fine(p, m, j + 1, block_end)
            is Some,
        fine_at(m, j, p.preamble_ratio, p.pulse_uniformity) == Some(h),
    ensures
        better(
            better(h, gated_fine(p, m, j + 1, block_end)),
            gated_fine(p, m, j + 2, block_end),
        ) == hit_at(m, st + nearest(st % 5)),
{
    let k = st % 5;
    let c = nearest(k);
    lemma_charted(f, k);
    lemma_beats(m, st, f, floor, step, c, c + 5);
    lemma_beats(m, st, f, floor, step, c, c + 10);
    if k >= 3 {
        lemma_beats(m, st, f, floor, step, c, c - 5);
    }
    let near = (st + c) / 5;
    assert(5 * near == st + c && 5 * (near + 1) == st + (c + 5) && 5 * (near + 2) == st + (c + 10) && 5 * (
    near - 1) == st + (c - 5));
}

/// A phase other than the start of the frame does not beat it.
proof fn lemma_phase_loses(p: Params, m: Seq<u16>, st: int, f: Seq<u8>, floor: int, step: int, d: int)
    requires
        holds(m, st, f, floor, step),
        0 <= floor,
        0 < step,
        0 <= st,
        -4 <= d <= 4,
        st / 5 + 30 <= m.len(),
        5 * m.len() <= u64::MAX,
        st + d < 0 || score_lit(f, st % 5, 0) >= 2 + score_lit(f, st % 5, d),
    ensures
        st + d >= 0 ==> hit_at(m, st).score() > hit_at(m, st + d).score(),
{
    if st + d >= 0 {
        lemma_beats(m, st, f, floor, step, 0, d);
    }
}

/// Refining from a sample at or next to the start of the frame leads to that
/// start.
proof fn lemma_refined_to_start(
    p: Params,
    m: Seq<u16>,
    st: int,
    f: Seq<u8>,
    floor: int,
    step: int,
    j: int,
    block_end: int,
    h: Hit,
)
    requires
        holds(m, st, f, floor, step),
        0 <= floor,
        0 < step,
        is_clear(p, m, st),
        0 <= st,
        st / 5 + 30 <= m.len(),
        5 * m.len() <= u64::MAX,
        5 * j == st + nearest(st % 5) || st % 5 >= 3 && j == st / 5 && gated_fine(p, m, j + 1, block_end)
            is Some,
        fine_at(m, j, p.preamble_ratio, p.pulse_uniformity) == Some(h),
    ensures
        refined(p, m, j, block_end, h).start == st,
{
    reveal(refined);
    let k = st % 5;
    let c = nearest(k);
    lemma_charted(f, k);
    lemma_nearest_wins(p, m, st, f, floor, step, j, block_end, h);
    if c != 0 {
        lemma_phase_loses(p, m, st, f, floor, step, c);
    }
    if c != 1 {
        lemma_phase_loses(p, m, st, f, floor, step, c - 1);
    }
    if c != -1 {
        lemma_phase_loses(p, m, st, f, floor, step, c + 1);
    }
    if c != 2 {
        lemma_phase_loses(p, m, st, f, floor, step, c - 2);
    }
    if c != -2 {
        lemma_phase_loses(p, m, st, f, floor, step, c + 2);
    }
    let s0 = (st + c) as u64;
    assert(phase_fine(p, m, s0, -c) == Some(hit_at(m, st)));
    assert forall|d: int| #[trigger] phase_fine(p, m, s0, d) is Some implies phase_fine(p, m, s0, d) == Some(
        hit_at(m, st + c + d),
    ) by {}
}

proof fn lemma_most(step: int, a: int, b: int)
    requires
        0 < step,
    ensures
        step * larger(a, b) == larger(step * a, step * b),
{
    lemma_least(step, a, b);
    assert(step * larger(a, b) + step * smaller(a, b) == step * a + step * b) by (nonlinear_arith)
        requires
            larger(a, b) + smaller(a, b) == a + b,
    ;
}

pub proof fn lemma_none_above(m: Seq<u16>, a: int, b: int, level: int)
    requires
        forall|j: int| a <= j < b ==> #[trigger] m[j] <= level,
    ensures
        above(m, a, b, level) == 0,
    decreases b - a,
{
    if a < b {
        lemma_none_above(m, a, b - 1, level);
    }
}

/// The stronger of two neighbouring samples.
proof fn lemma_pair_lit(m: Seq<u16>, st: int, f: Seq<u8>, floor: int, step: int, y: int)
    requires
        holds(m, st, f, floor, step),
        0 < step,
        0 <= y,
        y + 2 <= m.len(),
    ensures
        pair_max(m, y) == floor + step * peak_lit(f, 5 * y - st),
{
    let t = 5 * y - st;
    assert(5 * (y + 1) - st == t + 5);
    assert(m[y] == floor + step * lit(f, t) && m[y + 1] == floor + step * lit(f, t + 5));
    lemma_most(step, lit(f, t), lit(f, t + 5));
}

/// The samples inside the gaps of a strong preamble at sample `j`, each on its own.
#[verifier::rlimit(30)]
proof fn lemma_quiet_each(m: Seq<u16>, st: int, f: Seq<u8>, floor: int, step: int, j: int, y: int)
    requires
        holds(m, st, f, floor, step),
        0 < step,
        0 <= j,
        j + 20 <= m.len(),
        quiet_lit(f, 5 * j - st) <= 2,
        j + 4 <= y < j + 8 || j + 12 <= y < j + 19,
    ensures
        m[y] <= floor + 2 * step,
{
    reveal(quiet_lit);
    lemma_lit(f);
    let c = 5 * j - st;
    let n = lit(f, 5 * y - st);
    assert(y == j + 4 || y == j + 5 || y == j + 6 || y == j + 7 || y == j + 12 || y == j + 13 || y == j + 14
        || y == j + 15 || y == j + 16 || y == j + 17 || y == j + 18);
    assert(n <= quiet_lit(f, c));
    assert(step * n <= 2 * step) by (nonlinear_arith)
        requires
            n <= 2,
            step >= 0,
    ;
}

/// The pre-check lets a strong preamble at sample `j` through.
proof fn lemma_gate_lit(m: Seq<u16>, st: int, f: Seq<u8>, floor: int, step: int, j: int, ratio: u32)
    requires
        holds(m, st, f, floor, step),
        0 <= floor <= 3 * step,
        9 <= step,
        0 <= j,
        j + 20 <= m.len(),
        peaks_lit(f, 5 * j - st) >= 16,
        weakest_lit(f, 5 * j - st) >= 3,
        quiet_lit(f, 5 * j - st) <= 2,
        ratio <= 512,
    ensures
        gate(m, j, ratio),
        spikes(m, j) == 0,
{
    let c = 5 * j - st;
    let (p0, p1, p2, p3) = (peak_lit(f, c), peak_lit(f, c + 10), peak_lit(f, c + 40), peak_lit(f, c + 50));
    assert(5 * (j + 2) - st == c + 10 && 5 * (j + 8) - st == c + 40 && 5 * (j + 10) - st == c + 50);
    lemma_pair_lit(m, st, f, floor, step, j);
    lemma_pair_lit(m, st, f, floor, step, j + 2);
    lemma_pair_lit(m, st, f, floor, step, j + 8);
    lemma_pair_lit(m, st, f, floor, step, j + 10);
    let (peaks, weakest) = (peaks_lit(f, c), weakest_lit(f, c));
    assert(peaks == p0 + p1 + p2 + p3 && weakest == smaller(smaller(p0, p1), smaller(p2, p3))) by {
        reveal(peaks_lit);
        reveal(weakest_lit);
    }
    lemma_spread(step, p0, p1, p2, p3);
    lemma_least(step, p0, p1);
    lemma_least(step, p2, p3);
    lemma_least(step, smaller(p0, p1), smaller(p2, p3));
    assert(step * peaks >= 16 * step && step * weakest >= 3 * step) by (nonlinear_arith)
        requires
            peaks >= 16,
            weakest >= 3,
            step >= 0,
    ;
    let level = weakest_peak(m, j);
    assert forall|y: int| j + 4 <= y < j + 8 || j + 12 <= y < j + 19 implies #[trigger] m[y] <= level by {
        lemma_quiet_each(m, st, f, floor, step, j, y);
    }
    lemma_none_above(m, j + 4, j + 8, level);
    lemma_none_above(m, j + 12, j + 19, level);
    lemma_quiet_sum(m, st, f, floor, step, j);
    let g = gap_sum(m, j);
    assert(4 * ratio * g <= 2048 * (11 * floor + 2 * step)) by (nonlinear_arith)
        requires
            0 <= ratio <= 512,
            g <= 11 * floor + 2 * step,
            floor >= 0,
            step >= 0,
    ;
}

proof fn lemma_quiet_sum(m: Seq<u16>, st: int, f: Seq<u8>, floor: int, step: int, j: int)
    requires
        holds(m, st, f, floor, step),
        0 <= j,
        j + 20 <= m.len(),
        0 <= step,
        quiet_lit(f, 5 * j - st) <= 2,
    ensures
        gap_sum(m, j) <= 11 * floor + 2 * step,
{
    reveal(quiet_lit);
    let c = 5 * j - st;
    reveal_with_fuel(sum, 8);
    let (a4, a5, a6, a7) = (lit(f, c + 20), lit(f, c + 25), lit(f, c + 30), lit(f, c + 35));
    let (a12, a13, a14, a15) = (lit(f, c + 60), lit(f, c + 65), lit(f, c + 70), lit(f, c + 75));
    let (a16, a17, a18) = (lit(f, c + 80), lit(f, c + 85), lit(f, c + 90));
    assert(m[j + 4] == floor + step * a4 && m[j + 5] == floor + step * a5 && m[j + 6] == floor + step * a6
        && m[j + 7] == floor + step * a7);
    assert(m[j + 12] == floor + step * a12 && m[j + 13] == floor + step * a13 && m[j + 14] == floor + step
        * a14 && m[j + 15] == floor + step * a15);
    assert(m[j + 16] == floor + step * a16 && m[j + 17] == floor + step * a17 && m[j + 18] == floor + step
        * a18);
    lemma_spread(step, a4, a5, a6, a7);
    lemma_spread(step, a12, a13, a14, a15);
    lemma_spread(step, a16, a17, a18, 0);
    lemma_spread(step, a4 + a5 + a6 + a7, a12 + a13 + a14 + a15, a16 + a17 + a18 + 0, 0);
    assert(step * 0 == 0);
    let n = quiet_lit(f, c);
    assert(step * n <= 2 * step) by (nonlinear_arith)
        requires
            n <= 2,
            step >= 0,
    ;
}

/// The samples around bit `b`, which begins at `t`: what they hold of its own
/// pulse, and what they may hold of its neighbours'.
proof fn lemma_bit_samples(f: Seq<u8>, b: int, t: int)
    requires
        0 <= b < 8 * f.len(),
        t == 96 + 12 * b,
    ensures
        frame_bit(f, b) ==> {
            &&& lit(f, t - 4) >= 1 && lit(f, t - 3) >= 2 && lit(f, t - 2) >= 3 && lit(f, t - 1) >= 4
            &&& lit(f, t) == 5 && lit(f, t + 1) == 5 && lit(f, t + 2) == 4 && lit(f, t + 3) == 3
            &&& lit(f, t + 4) == 2 && lit(f, t + 5) == 1 && lit(f, t + 6) == 0 && lit(f, t + 7) == 0
            &&& lit(f, t + 8) <= 1 && lit(f, t + 9) <= 2 && lit(f, t + 10) <= 3 && lit(f, t + 11) <= 4
        },
        !frame_bit(f, b) ==> {
            &&& lit(f, t - 4) <= 4 && lit(f, t - 3) <= 3 && lit(f, t - 2) <= 2 && lit(f, t - 1) <= 1
            &&& lit(f, t) == 0 && lit(f, t + 1) == 0 && lit(f, t + 2) == 1 && lit(f, t + 3) == 2
            &&& lit(f, t + 4) == 3 && lit(f, t + 5) == 4 && lit(f, t + 6) == 5 && lit(f, t + 7) == 5
            &&& lit(f, t + 8) >= 4 && lit(f, t + 9) >= 3 && lit(f, t + 10) >= 2 && lit(f, t + 11) >= 1
        },
{
    reveal(lit);
    let own = frame_bit(f, b);
    assert forall|e: int| 0 <= e < 12 implies #[trigger] in_pulse(f, t + e) == ((e < 6) == own) by {
        assert((t + e - 96) % 12 == e && (t + e - 96) / 12 == b);
    }
    assert(in_pulse(f, t + 0) == own && in_pulse(f, t + 1) == own && in_pulse(f, t + 2) == own);
    assert(in_pulse(f, t + 3) == own && in_pulse(f, t + 4) == own && in_pulse(f, t + 5) == own);
    assert(in_pulse(f, t + 6) != own && in_pulse(f, t + 7) != own && in_pulse(f, t + 8) != own);
    assert(in_pulse(f, t + 9) != own && in_pulse(f, t + 10) != own && in_pulse(f, t + 11) != own);
}

/// Each bit has more energy in the half that holds its pulse.
proof fn lemma_bit_lit(f: Seq<u8>, k: int, b: int)
    requires
        0 <= k < 5,
        0 <= b < 8 * f.len(),
    ensures
        frame_bit(f, b) ==> half_lit(f, k, 96 + 12 * b) > half_lit(f, k, 102 + 12 * b),
        !frame_bit(f, b) ==> half_lit(f, k, 96 + 12 * b) < half_lit(f, k, 102 + 12 * b),
{
    reveal(half_lit);
    let t = 96 + 12 * b;
    lemma_bit_samples(f, b, t);
    let r = (k + t) % 5;
    assert((k + t + 6) % 5 == if r == 4 { 0 } else { r + 1 });
    assert(r == 0 || r == 1 || r == 2 || r == 3 || r == 4);
}

/// The frame is sliced as it was sent.
proof fn lemma_sliced(p: Params, m: Seq<u16>, st: int, f: Seq<u8>, floor: int, step: int)
    requires
        holds(m, st, f, floor, step),
        0 < step,
        p.slicer == Slicer::Box,
        0 <= st,
        st + 97 + 96 * f.len() <= 5 * m.len() - 5,
        f.len() > 0,
    ensures
        frame_bytes(p, m, st, f.len()) == f,
        format_at(p, m, st) == format_of(f),
{
    let k = st % 5;
    assert forall|b: int| 0 <= b < 8 * f.len() implies #[trigger] frame_bit(f, b) == (first_half(p, m, st, b)
        > second_half(p, m, st, b)) by {
        lemma_bit_lit(f, k, b);
        lemma_half_lit(m, st, f, floor, step, 96 + 12 * b);
        lemma_half_lit(m, st, f, floor, step, 102 + 12 * b);
        let (x, y) = (half_lit(f, k, 96 + 12 * b), half_lit(f, k, 102 + 12 * b));
        assert(x > y ==> step * x > step * y) by (nonlinear_arith)
            requires
                step > 0,
        ;
        assert(x < y ==> step * x < step * y) by (nonlinear_arith)
            requires
                step > 0,
        ;
    }
    law_slice_reads_what_was_sent(p, m, st, f);
    lemma_format(p, m, st, f.len());
}

/// A sample holds the noise floor at the least, and nothing else before and after
/// the frame.
pub proof fn lemma_unlit(f: Seq<u8>, t: int)
    ensures
        0 <= lit(f, t) <= 5,
        t <= -5 || t >= 96 + 96 * f.len() ==> lit(f, t) == 0,
{
    reveal(lit);
}

/// No preamble stands out before the frame starts or after it ends.
proof fn lemma_silence(p: Params, m: Seq<u16>, st: int, f: Seq<u8>, floor: int, step: int, x: int)
    requires
        holds(m, st, f, floor, step),
        0 <= floor,
        0 < step,
        0 <= st,
        0 <= x,
        x + 20 <= m.len(),
        x < st / 5 || x >= st / 5 + span_of(f.len() as int),
    ensures
        fine_at(m, x, p.preamble_ratio, p.pulse_uniformity) is None,
{
    assert forall|y: int| 0 <= y < m.len() implies #[trigger] m[y] >= floor && (5 * y - st <= -5 || 5 * y - st
        >= 96 + 96 * f.len() ==> m[y] == floor) by {
        lemma_unlit(f, 5 * y - st);
        let n = lit(f, 5 * y - st);
        assert(step * n >= 0 && (n == 0 ==> step * n == 0)) by (nonlinear_arith)
            requires
                step > 0,
                n >= 0,
        ;
    }
    if x == st / 5 - 1 {
        let (k, d) = (st % 5, -(st % 5) - 5);
        lemma_charted(f, k);
        reveal(least_lit);
        lemma_levels_lit(m, st, f, floor, step, d);
        let (a, h, g) = (least_lit(f, k, d), half_lit(f, k, d), gap_lit(f, k, d));
        assert(66 * (step * a) <= 6 * (step * g)) by (nonlinear_arith)
            requires
                a <= h,
                11 * h <= g,
                step > 0,
        ;
    } else {
        lemma_flat(m, x, floor, p.preamble_ratio, p.pulse_uniformity);
    }
}

/// Where no preamble stands out there is no frame.
pub proof fn lemma_nothing_there(s: State, p: Params, m: Seq<u16>, base: int, x: int, block_end: int)
    requires
        fine_at(m, x, p.preamble_ratio, p.pulse_uniformity) is None,
    ensures
        looked(s, p, m, base, x, block_end).frame is None,
        looked(s, p, m, base, x, block_end).next == x + 1,
        looked(s, p, m, base, x, block_end).s.known == s.known,
{
    reveal(looked);
}

/// A scan that has passed over nothing but whole sub-blocks.
pub open spec fn aligned(c: Scan) -> bool {
    c.sub == -1 && c.i == 0 || c.sub >= 0 && c.sub % (SUB as int) == 0 && c.sub <= c.i <= c.sub + SUB
}

/// A scan passes over samples at which no preamble stands out.
pub proof fn lemma_passed(c: Scan, p: Params, m: Seq<u16>, base: int, to: int) -> (d: Scan)
    requires
        0 <= c.i <= to <= scan_end(m),
        forall|x: int|
            c.i <= x < to ==> #[trigger] fine_at(m, x, p.preamble_ratio, p.pulse_uniformity) is None,
    ensures
        scanned(c, p, m, base) == scanned(d, p, m, base),
        d.i == to,
        d.out == c.out,
        d.s.known == c.s.known,
        aligned(c) ==> aligned(d),
    decreases to - c.i,
{
    if c.i == to {
        c
    } else {
        reveal(stepped);
        let e = entered(c, m);
        lemma_nothing_there(e.s, p, m, base, c.i, block_end(m, e.sub));
        assert(fine_at(m, c.i, p.preamble_ratio, p.pulse_uniformity) is None);
        lemma_passed(stepped(c, p, m, base), p, m, base, to)
    }
}

/// The frame that `m` holds, as it is received at sample `j`.
proof fn lemma_caught(
    s: State,
    p: Params,
    m: Seq<u16>,
    base: int,
    st: int,
    f: Seq<u8>,
    floor: int,
    step: int,
    j: int,
    block_end: int,
)
    requires
        holds(m, st, f, floor, step),
        0 <= floor,
        0 < step,
        is_clear(p, m, st),
        p.slicer == Slicer::Box,
        f.len() == frame_len(format_of(f)),
        is_genuine(s.known, f, (base + st / 5) as u64),
        0 <= base,
        0 <= st,
        (st + nearest(st % 5)) / 5 < scan_end(m),
        5 * (base + m.len()) + 3000 <= u64::MAX,
        5 * j == st + nearest(st % 5) || st % 5 >= 3 && j == st / 5 && j + 1 < block_end,
    ensures
        ({
            let a = looked(s, p, m, base, j, block_end);
            match a.frame {
                Some(g) => {
                    &&& g.start == 5 * base + st
                    &&& g.bytes == f
                    &&& g.fixed == 0
                    &&& a.next == st / 5 + span_of(f.len() as int)
                    &&& is_checked(format_of(f)) ==> is_confirmed(
                        a.s.known,
                        address_field(f),
                        (base + st / 5) as u64,
                    )
                },
                None => 5 * j != st + nearest(st % 5) && a.next == j + 1 && a.s.known == s.known,
            }
        }),
{
    reveal(looked);
    let k = st % 5;
    let c = nearest(k);
    let near = (st + c) / 5;
    assert(5 * near == st + c);
    lemma_sliced(p, m, st, f, floor, step);
    if gate(m, j, p.precheck_ratio) && spikes(m, j) <= p.gap_spikes {
        if let Some(h) = fine_at(m, j, p.preamble_ratio, p.pulse_uniformity) {
            lemma_refined_to_start(p, m, st, f, floor, step, j, block_end, h);
            let s1 = State {
                stats: Stats { precheck_hits: s.stats.precheck_hits.wrapping_add(1), ..s.stats },
                ..s
            };
            let s2 = State {
                stats: Stats { preamble_hits: s1.stats.preamble_hits.wrapping_add(1), ..s1.stats },
                ..s1
            };
            law_clean_frame_is_emitted(s2, p, m, base, refined(p, m, j, block_end, h), j);
        }
    }
}

/// An even noise floor gives no frames.
pub proof fn law_silence_gives_nothing(s: State, p: Params, m: Seq<u16>, base: int, floor: int)
    requires
        forall|j: int| 0 <= j < m.len() ==> #[trigger] m[j] == floor,
    ensures
        run_of(s, p, m, base).1 == Seq::<FrameView>::empty(),
        run_of(s, p, m, base).0.known == s.known,
{
    if m.len() >= LONG_SAMPLES + 2 {
        let s1 = State {
            stats: Stats { samples: s.stats.samples.wrapping_add(scan_end(m) as u64), ..s.stats },
            ..s
        };
        let c = Scan { s: s1, i: 0, sub: -1, out: Seq::<FrameView>::empty() };
        assert forall|x: int| 0 <= x < scan_end(m) implies #[trigger] fine_at(
            m,
            x,
            p.preamble_ratio,
            p.pulse_uniformity,
        ) is None by {
            lemma_flat(m, x, floor, p.preamble_ratio, p.pulse_uniformity);
        }
        let d = lemma_passed(c, p, m, base, scan_end(m));
    }
}

/// Where the pulses add five thirds of the noise floor at the least, and 45 units
/// of magnitude, a preamble anywhere on the grid of fifths passes the tests of the
/// default settings.
pub proof fn law_strong_preamble_is_clear(
    p: Params,
    m: Seq<u16>,
    st: int,
    f: Seq<u8>,
    floor: int,
    step: int,
)
    requires
        holds(m, st, f, floor, step),
        0 <= floor <= 3 * step,
        9 <= step,
        p.precheck_ratio <= 512,
        p.preamble_ratio <= 409,
        p.pulse_uniformity == 0,
        p.phase_span >= 2,
        0 <= st,
        st / 5 + 30 <= m.len(),
    ensures
        is_clear(p, m, st),
{
    let k = st % 5;
    let c = nearest(k);
    let near = (st + c) / 5;
    assert(5 * near == st + c);
    lemma_charted(f, k);
    lemma_gate_lit(m, st, f, floor, step, near, p.precheck_ratio);
    lemma_stands_out(m, st, f, floor, step, c, p.preamble_ratio);
    lemma_stands_out(m, st, f, floor, step, 0, p.preamble_ratio);
}

/// A lone frame over an even noise floor is received wherever its preamble passes
/// the tests: a run emits it, as it was sent and with the time at which it was
/// sent, and nothing else; a frame whose checksum stands on its own confirms its
/// aircraft. The frame has such a checksum or comes from a confirmed aircraft, and
/// starts anywhere on the grid of fifths whose nearest sample is before the samples
/// end by the length of the longest frame. Left out are starts in the last sample of
/// a sub-block that are closer to the next sample: their time may come out early.
pub proof fn law_lone_frame_is_received(
    s: State,
    p: Params,
    m: Seq<u16>,
    base: int,
    st: int,
    f: Seq<u8>,
    floor: int,
    step: int,
)
    requires
        holds(m, st, f, floor, step),
        0 <= floor,
        0 < step,
        is_clear(p, m, st),
        p.slicer == Slicer::Box,
        f.len() == frame_len(format_of(f)),
        is_genuine(s.known, f, (base + st / 5) as u64),
        0 <= base,
        0 <= st,
        (st + nearest(st % 5)) / 5 < scan_end(m),
        m.len() >= LONG_SAMPLES + 2,
        st % 5 >= 3 ==> (st / 5) % (SUB as int) != SUB - 1,
        5 * (base + m.len()) + 3000 <= u64::MAX,
    ensures
        ({
            let (after, out) = run_of(s, p, m, base);
            &&& out.len() == 1
            &&& out[0].start == 5 * base + st
            &&& out[0].bytes == f
            &&& out[0].fixed == 0
            &&& is_checked(format_of(f)) ==> is_confirmed(
                after.known,
                address_field(f),
                (base + st / 5) as u64,
            )
        }),
{
    let s1 = State {
        stats: Stats { samples: s.stats.samples.wrapping_add(scan_end(m) as u64), ..s.stats },
        ..s
    };
    let c0 = Scan { s: s1, i: 0, sub: -1, out: Seq::<FrameView>::empty() };
    let i = st / 5;
    assert forall|x: int| 0 <= x < i implies #[trigger] fine_at(
        m,
        x,
        p.preamble_ratio,
        p.pulse_uniformity,
    ) is None by {
        lemma_silence(p, m, st, f, floor, step, x);
    }
    let c1 = lemma_passed(c0, p, m, base, i);
    reveal(stepped);
    let e1 = entered(c1, m);
    lemma_caught(e1.s, p, m, base, st, f, floor, step, i, block_end(m, e1.sub));
    let c2 = stepped(c1, p, m, base);
    assert(scanned(c1, p, m, base) == scanned(c2, p, m, base));
    let c3 = if looked(e1.s, p, m, base, i, block_end(m, e1.sub)).frame is Some {
        c2
    } else {
        let e2 = entered(c2, m);
        lemma_caught(e2.s, p, m, base, st, f, floor, step, i + 1, block_end(m, e2.sub));
        assert(scanned(c2, p, m, base) == scanned(stepped(c2, p, m, base), p, m, base));
        stepped(c2, p, m, base)
    };
    assert(c3.out.len() == 1);
    if c3.i < scan_end(m) {
        assert forall|x: int| c3.i <= x < scan_end(m) implies #[trigger] fine_at(
            m,
            x,
            p.preamble_ratio,
            p.pulse_uniformity,
        ) is None by {
            lemma_silence(p, m, st, f, floor, step, x);
        }
        let c4 = lemma_passed(c3, p, m, base, scan_end(m));
    }
}

} // verus!
