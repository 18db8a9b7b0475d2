//! A lone frame is received wherever it starts, between the fifths of a sample too,
//! with a time that is off by half a sample at the most.

use crate::demod::{
    FrameView, LONG_SAMPLES, SUB, Scan, State, Stats, address_field, better, block_end, entered, format_at,
    format_of, frame_len, gated_fine, is_checked, looked, phase_fine, refined, run_of, scan_end, scanned,
    span_of, stepped,
};
use crate::demod_laws::{is_genuine, law_clean_frame_is_emitted, lemma_format};
use crate::images::{
    gap_of, half_of, holds_from, least_of, lemma_below, lemma_between, lemma_eleven, lemma_half_at, lemma_half_mix,
    lemma_levels_mix, lemma_loses, lemma_pulses_from_0, lemma_pulses_from_1,
    lemma_pulses_from_2, lemma_pulses_from_3, lemma_pulses_from_4, lemma_pulses_from_5,
    lemma_scores_from_0, lemma_scores_from_1, lemma_scores_from_2, lemma_scores_from_3,
    lemma_scores_from_4, lemma_scores_from_5, lemma_stands_out_mix, mixes, pulses_of, score_of,
};
use crate::known::is_confirmed;
use crate::params::{Params, Slicer};
use crate::preamble::{
    FLOOR, Hit, fine_at, gap_sum, gate, grid_at, larger, levels_of, pair_max, spikes,
    stands_out, sum, weakest_peak,
};
use crate::reception::{
    hit_at, in_pulse, lemma_flat, lemma_none_above, lemma_passed, lemma_samples_0, lemma_samples_1,
    lemma_samples_2, lemma_samples_3, lemma_samples_4, lemma_spread, lemma_unlit, lit, one,
};
use crate::slicer::{first_half, frame_bit, frame_bytes, law_slice_reads_what_was_sent, second_half};
use vstd::prelude::*;

verus! {

/// The samples `y` after one, in each of the pulses of a preamble, show it well of a
/// frame that starts `q` fifths after that one.
spec fn loud(f: Seq<u8>, q: int, y: (int, int, int, int)) -> bool {
    let (a, b, c, d) = (
        lit(f, 5 * y.0 - q),
        lit(f, 5 * y.1 - q),
        lit(f, 5 * y.2 - q),
        lit(f, 5 * y.3 - q),
    );
    a >= 3 && b >= 3 && c >= 3 && d >= 3 && a + b + c + d >= 16
}

/// The samples in the long gaps of a preamble `j` samples after one show little of a
/// frame that starts `q` fifths after that one.
spec fn quiet(f: Seq<u8>, q: int, j: int) -> bool {
    let t = 5 * j - q;
    &&& lit(f, t + 20) <= 3 && lit(f, t + 25) <= 3 && lit(f, t + 30) <= 3 && lit(f, t + 35) <= 3
    &&& lit(f, t + 60) <= 3 && lit(f, t + 65) <= 3 && lit(f, t + 70) <= 3 && lit(f, t + 75) <= 3
    &&& lit(f, t + 80) <= 3 && lit(f, t + 85) <= 3 && lit(f, t + 90) <= 3
    &&& lit(f, t + 20) + lit(f, t + 25) + lit(f, t + 30) + lit(f, t + 35) + lit(f, t + 60) + lit(f, t + 65)
        + lit(f, t + 70) + lit(f, t + 75) + lit(f, t + 80) + lit(f, t + 85) + lit(f, t + 90) <= 4
}

proof fn lemma_sample(m: Seq<u16>, i: int, k: int, f: Seq<u8>, floor: int, u: int, v: int, y: int)
    requires
        mixes(m, 5 * i + k, f, floor, u, v),
        0 <= i + y < m.len(),
    ensures
        m[i + y] == floor + u * lit(f, 5 * y - k) + v * lit(f, 5 * y - (k + 1)),
{
    assert(5 * (i + y) - (5 * i + k) == 5 * y - k);
}

proof fn lemma_loud_sample(m: Seq<u16>, i: int, k: int, f: Seq<u8>, floor: int, u: int, v: int, y: int)
    requires
        mixes(m, 5 * i + k, f, floor, u, v),
        0 <= i + y < m.len(),
        0 <= u,
        0 <= v,
        lit(f, 5 * y - k) >= 3,
        lit(f, 5 * y - (k + 1)) >= 3,
    ensures
        m[i + y] >= floor + 3 * u + 3 * v,
{
    lemma_sample(m, i, k, f, floor, u, v, y);
    lemma_below(u, v, 3, 3, lit(f, 5 * y - k), lit(f, 5 * y - (k + 1)));
}

proof fn lemma_quiet_sample(m: Seq<u16>, i: int, k: int, f: Seq<u8>, floor: int, u: int, v: int, y: int)
    requires
        mixes(m, 5 * i + k, f, floor, u, v),
        0 <= i + y < m.len(),
        0 <= u,
        0 <= v,
        lit(f, 5 * y - k) <= 3,
        lit(f, 5 * y - (k + 1)) <= 3,
    ensures
        m[i + y] <= floor + 3 * u + 3 * v,
{
    lemma_sample(m, i, k, f, floor, u, v, y);
    lemma_below(u, v, lit(f, 5 * y - k), lit(f, 5 * y - (k + 1)), 3, 3);
}

/// The gaps of a preamble that both images leave quiet add up to little.
proof fn lemma_quiet_sum(m: Seq<u16>, i: int, k: int, f: Seq<u8>, floor: int, u: int, v: int, j: int)
    requires
        mixes(m, 5 * i + k, f, floor, u, v),
        0 <= i + j,
        i + j + 20 <= m.len(),
        0 <= u,
        0 <= v,
        quiet(f, k, j),
        quiet(f, k + 1, j),
    ensures
        gap_sum(m, i + j) <= 11 * floor + 4 * u + 4 * v,
{
    reveal_with_fuel(sum, 8);
    let (s, t) = (5 * j - k, 5 * j - (k + 1));
    lemma_sample(m, i, k, f, floor, u, v, j + 4);
    lemma_sample(m, i, k, f, floor, u, v, j + 5);
    lemma_sample(m, i, k, f, floor, u, v, j + 6);
    lemma_sample(m, i, k, f, floor, u, v, j + 7);
    lemma_sample(m, i, k, f, floor, u, v, j + 12);
    lemma_sample(m, i, k, f, floor, u, v, j + 13);
    lemma_sample(m, i, k, f, floor, u, v, j + 14);
    lemma_sample(m, i, k, f, floor, u, v, j + 15);
    lemma_sample(m, i, k, f, floor, u, v, j + 16);
    lemma_sample(m, i, k, f, floor, u, v, j + 17);
    lemma_sample(m, i, k, f, floor, u, v, j + 18);
    lemma_eleven(
        u,
        lit(f, s + 20),
        lit(f, s + 25),
        lit(f, s + 30),
        lit(f, s + 35),
        lit(f, s + 60),
        lit(f, s + 65),
        lit(f, s + 70),
        lit(f, s + 75),
        lit(f, s + 80),
        lit(f, s + 85),
        lit(f, s + 90),
    );
    lemma_eleven(
        v,
        lit(f, t + 20),
        lit(f, t + 25),
        lit(f, t + 30),
        lit(f, t + 35),
        lit(f, t + 60),
        lit(f, t + 65),
        lit(f, t + 70),
        lit(f, t + 75),
        lit(f, t + 80),
        lit(f, t + 85),
        lit(f, t + 90),
    );
    lemma_below(
        u,
        v,
        lit(f, s + 20) + lit(f, s + 25) + lit(f, s + 30) + lit(f, s + 35) + lit(f, s + 60) + lit(f, s + 65)
            + lit(f, s + 70) + lit(f, s + 75) + lit(f, s + 80) + lit(f, s + 85) + lit(f, s + 90),
        lit(f, t + 20) + lit(f, t + 25) + lit(f, t + 30) + lit(f, t + 35) + lit(f, t + 60) + lit(f, t + 65)
            + lit(f, t + 70) + lit(f, t + 75) + lit(f, t + 80) + lit(f, t + 85) + lit(f, t + 90),
        4,
        4,
    );
}

/// The pre-check lets through a preamble that both images show well.
proof fn lemma_gate_mix(
    m: Seq<u16>,
    i: int,
    k: int,
    f: Seq<u8>,
    floor: int,
    u: int,
    v: int,
    j: int,
    y: (int, int, int, int),
    ratio: u32,
)
    requires
        mixes(m, 5 * i + k, f, floor, u, v),
        0 <= i + j,
        i + j + 20 <= m.len(),
        0 < u,
        0 <= v,
        0 <= floor <= 3 * (u + v),
        j <= y.0 <= j + 1,
        j + 2 <= y.1 <= j + 3,
        j + 8 <= y.2 <= j + 9,
        j + 10 <= y.3 <= j + 11,
        loud(f, k, y),
        loud(f, k + 1, y),
        quiet(f, k, j),
        quiet(f, k + 1, j),
        ratio <= 512,
    ensures
        gate(m, i + j, ratio),
        spikes(m, i + j) == 0,
{
    lemma_loud_sample(m, i, k, f, floor, u, v, y.0);
    lemma_loud_sample(m, i, k, f, floor, u, v, y.1);
    lemma_loud_sample(m, i, k, f, floor, u, v, y.2);
    lemma_loud_sample(m, i, k, f, floor, u, v, y.3);
    lemma_sample(m, i, k, f, floor, u, v, y.0);
    lemma_sample(m, i, k, f, floor, u, v, y.1);
    lemma_sample(m, i, k, f, floor, u, v, y.2);
    lemma_sample(m, i, k, f, floor, u, v, y.3);
    let (a, b) = (lit(f, 5 * y.0 - k), lit(f, 5 * y.1 - k));
    let (c, d) = (lit(f, 5 * y.2 - k), lit(f, 5 * y.3 - k));
    let (e, g) = (lit(f, 5 * y.0 - (k + 1)), lit(f, 5 * y.1 - (k + 1)));
    let (h, l) = (lit(f, 5 * y.2 - (k + 1)), lit(f, 5 * y.3 - (k + 1)));
    lemma_spread(u, a, b, c, d);
    lemma_spread(v, e, g, h, l);
    lemma_below(u, v, 16, 16, a + b + c + d, e + g + h + l);
    let x = i + j;
    assert(pair_max(m, x) >= m[i + y.0] && pair_max(m, x + 2) >= m[i + y.1] && pair_max(m, x + 8) >= m[i
        + y.2] && pair_max(m, x + 10) >= m[i + y.3]);
    let level = weakest_peak(m, x);
    assert(level >= floor + 3 * u + 3 * v);
    assert forall|z: int| x + 4 <= z < x + 8 || x + 12 <= z < x + 19 implies #[trigger] m[z] <= level by {
        let y = z - i;
        assert(y == j + 4 || y == j + 5 || y == j + 6 || y == j + 7 || y == j + 12 || y == j + 13 || y == j
            + 14 || y == j + 15 || y == j + 16 || y == j + 17 || y == j + 18);
        lemma_quiet_sample(m, i, k, f, floor, u, v, y);
    }
    lemma_none_above(m, x + 4, x + 8, level);
    lemma_none_above(m, x + 12, x + 19, level);
    lemma_quiet_sum(m, i, k, f, floor, u, v, j);
    let s = gap_sum(m, x);
    assert(4 * ratio * s <= 2048 * (11 * floor + 4 * u + 4 * v)) by (nonlinear_arith)
        requires
            0 <= ratio <= 512,
            s <= 11 * floor + 4 * u + 4 * v,
            floor >= 0,
            u >= 0,
            v >= 0,
    ;
}

/// No preamble stands out before a frame starts or after it ends.
proof fn lemma_silence_mix(
    p: Params,
    m: Seq<u16>,
    i: int,
    k: int,
    f: Seq<u8>,
    floor: int,
    u: int,
    v: int,
    x: int,
)
    requires
        mixes(m, 5 * i + k, f, floor, u, v),
        0 <= k < 5,
        0 <= floor,
        0 <= u,
        0 <= v,
        0 <= x,
        x + 20 <= m.len(),
        x < i || x >= i + span_of(f.len() as int),
    ensures
        fine_at(m, x, p.preamble_ratio, p.pulse_uniformity) is None,
{
    let a = 5 * i + k;
    assert forall|y: int| 0 <= y < m.len() implies #[trigger] m[y] >= floor && (5 * y - a <= -5 || 5 * y - a
        >= 97 + 96 * f.len() ==> m[y] == floor) by {
        lemma_unlit(f, 5 * y - a);
        lemma_unlit(f, 5 * y - a - 1);
        lemma_below(u, v, 0, 0, lit(f, 5 * y - a), lit(f, 5 * y - a - 1));
        if 5 * y - a <= -5 || 5 * y - a >= 97 + 96 * f.len() {
            lemma_below(u, v, lit(f, 5 * y - a), lit(f, 5 * y - a - 1), 0, 0);
        }
    }
    if x == i - 1 {
        lemma_levels_mix(m, i, k, f, floor, u, v, -5);
        if k == 0 {
            lemma_pulses_from_0(f);
            lemma_pulses_from_1(f);
        } else if k == 1 {
            lemma_pulses_from_1(f);
            lemma_pulses_from_2(f);
        } else if k == 2 {
            lemma_pulses_from_2(f);
            lemma_pulses_from_3(f);
        } else if k == 3 {
            lemma_pulses_from_3(f);
            lemma_pulses_from_4(f);
        } else {
            lemma_pulses_from_4(f);
            lemma_pulses_from_5(f);
        }
        let (h0, h1) = (half_of(f, k, -5), half_of(f, k + 1, -5));
        lemma_below(u, v, 11 * h0, 11 * h1, gap_of(f, k, -5), gap_of(f, k + 1, -5));
        assert(u * (11 * h0) + v * (11 * h1) == 11 * (u * h0 + v * h1)) by (nonlinear_arith);
    } else {
        lemma_flat(m, x, floor, p.preamble_ratio, p.pulse_uniformity);
    }
}

/// Refining picks the best of the samples that pass, then the best of the phases
/// around it that pass.
proof fn lemma_refined_best(p: Params, m: Seq<u16>, j: int, block_end: int, h: Hit) -> (r: (int, int))
    requires
        p.phase_span >= 2,
        0 <= j,
        j + 30 <= m.len(),
        5 * m.len() <= u64::MAX,
        fine_at(m, j, p.preamble_ratio, p.pulse_uniformity) == Some(h),
    ensures
        r.0 == 5 * j || r.0 == 5 * j + 5 && gated_fine(p, m, j + 1, block_end) is Some || r.0 == 5 * j + 10
            && gated_fine(p, m, j + 2, block_end) is Some,
        hit_at(m, r.0).score() >= hit_at(m, 5 * j).score(),
        gated_fine(p, m, j + 1, block_end) is Some ==> hit_at(m, r.0).score() >= hit_at(m, 5 * j + 5).score(),
        -2 <= r.1 - r.0 <= 2,
        0 <= r.1,
        refined(p, m, j, block_end, h) == hit_at(m, r.1),
        hit_at(m, r.1).score() >= hit_at(m, r.0).score(),
        forall|t: int|
            -2 <= t - r.0 <= 2 && 0 <= t && grid_at(m, t, p.preamble_ratio) is Some ==> hit_at(m, r.1).score()
                >= (#[trigger] hit_at(m, t)).score(),
{
    reveal(refined);
    let h1 = better(h, gated_fine(p, m, j + 1, block_end));
    let h2 = better(h1, gated_fine(p, m, j + 2, block_end));
    let b = h2.start as int;
    assert(h == hit_at(m, 5 * j));
    assert(h2 == hit_at(m, b));
    let s0 = h2.start;
    assert forall|d: int| #[trigger] phase_fine(p, m, s0, d) is Some implies phase_fine(p, m, s0, d) == Some(
        hit_at(m, b + d),
    ) by {}
    let t = refined(p, m, j, block_end, h).start as int;
    assert forall|x: int|
        -2 <= x - b <= 2 && 0 <= x && grid_at(m, x, p.preamble_ratio) is Some implies hit_at(m, t).score() >= (
    #[trigger] hit_at(m, x)).score() by {
        assert(phase_fine(p, m, s0, x - b) == Some(hit_at(m, x)));
        let d = x - b;
        assert(d == -2 || d == -1 || d == 0 || d == 1 || d == 2);
    }
    (b, t)
}

/// Refining leads to the start of a frame that starts with a sample or in the fifth after it.
proof fn lemma_start_0(
    p: Params,
    m: Seq<u16>,
    i: int,
    f: Seq<u8>,
    floor: int,
    u: int,
    v: int,
    j: int,
    block_end: int,
    h: Hit,
)
    requires
        mixes(m, 5 * i + 0, f, floor, u, v),
        0 <= floor,
        0 < u,
        0 <= v,
        p.phase_span >= 2,
        0 <= i,
        i + 50 <= m.len(),
        5 * m.len() <= u64::MAX,
        grid_at(m, 5 * i + 0, p.preamble_ratio) is Some,
        v > 0 ==> grid_at(m, 5 * i + 1, p.preamble_ratio) is Some,
        fine_at(m, j, p.preamble_ratio, p.pulse_uniformity) == Some(h),
        j == i,
    ensures
        ({
            let t = refined(p, m, j, block_end, h).start;
            t == 5 * i || t == 5 * i + 1 && v > 0
        }),
{
    lemma_scores_from_0(f);
    lemma_scores_from_1(f);
    let (b, t) = lemma_refined_best(p, m, j, block_end, h);
    lemma_loses(m, i, 0, f, floor, u, v, 0, 5, 2, 2);
    lemma_loses(m, i, 0, f, floor, u, v, 0, 10, 2, 2);
    if v <= u {
        lemma_loses(m, i, 0, f, floor, u, v, 0, -2, 2, 2);
        lemma_loses(m, i, 0, f, floor, u, v, 0, -1, 2, 2);
        lemma_loses(m, i, 0, f, floor, u, v, 0, 2, 400, -110);
    } else {
        lemma_loses(m, i, 0, f, floor, u, v, 1, -2, 2, 2);
        lemma_loses(m, i, 0, f, floor, u, v, 1, -1, -100, 400);
        lemma_loses(m, i, 0, f, floor, u, v, 1, 2, 2, 2);
    }
    if v == 0 {
        let y = score_of(f, 1, 0) - score_of(f, 1, 1);
        assert(v * y == 0) by (nonlinear_arith)
            requires
                v == 0,
        ;
        lemma_loses(m, i, 0, f, floor, u, v, 0, 1, 2, y);
    }
    assert(t == 5 * i - 2 || t == 5 * i - 1 || t == 5 * i || t == 5 * i + 1 || t == 5 * i + 2);
}

/// Refining leads to the start of a frame that starts in the second fifth of a sample.
proof fn lemma_start_1(
    p: Params,
    m: Seq<u16>,
    i: int,
    f: Seq<u8>,
    floor: int,
    u: int,
    v: int,
    j: int,
    block_end: int,
    h: Hit,
)
    requires
        mixes(m, 5 * i + 1, f, floor, u, v),
        0 <= floor,
        0 < u,
        0 <= v,
        p.phase_span >= 2,
        0 <= i,
        i + 50 <= m.len(),
        5 * m.len() <= u64::MAX,
        grid_at(m, 5 * i + 1, p.preamble_ratio) is Some,
        v > 0 ==> grid_at(m, 5 * i + 2, p.preamble_ratio) is Some,
        fine_at(m, j, p.preamble_ratio, p.pulse_uniformity) == Some(h),
        j == i,
    ensures
        ({
            let t = refined(p, m, j, block_end, h).start;
            t == 5 * i + 1 || t == 5 * i + 2 && v > 0
        }),
{
    lemma_scores_from_1(f);
    lemma_scores_from_2(f);
    let (b, t) = lemma_refined_best(p, m, j, block_end, h);
    lemma_loses(m, i, 1, f, floor, u, v, 0, 5, 2, 2);
    lemma_loses(m, i, 1, f, floor, u, v, 0, 10, 2, 2);
    lemma_loses(m, i, 1, f, floor, u, v, 1, -2, 2, 2);
    lemma_loses(m, i, 1, f, floor, u, v, 1, -1, 2, 2);
    lemma_loses(m, i, 1, f, floor, u, v, 1, 0, 2, 2);
    if v == 0 {
        let y = score_of(f, 2, 1) - score_of(f, 2, 2);
        assert(v * y == 0) by (nonlinear_arith)
            requires
                v == 0,
        ;
        lemma_loses(m, i, 1, f, floor, u, v, 1, 2, 2, y);
    }
    assert(t == 5 * i - 2 || t == 5 * i - 1 || t == 5 * i || t == 5 * i + 1 || t == 5 * i + 2);
}

/// Refining leads to the start of a frame that starts in the third fifth of a sample.
proof fn lemma_start_2(
    p: Params,
    m: Seq<u16>,
    i: int,
    f: Seq<u8>,
    floor: int,
    u: int,
    v: int,
    j: int,
    block_end: int,
    h: Hit,
)
    requires
        mixes(m, 5 * i + 2, f, floor, u, v),
        0 <= floor,
        0 < u,
        0 <= v,
        p.phase_span >= 2,
        0 <= i,
        i + 50 <= m.len(),
        5 * m.len() <= u64::MAX,
        grid_at(m, 5 * i + 2, p.preamble_ratio) is Some,
        v > 0 ==> grid_at(m, 5 * i + 3, p.preamble_ratio) is Some,
        fine_at(m, j, p.preamble_ratio, p.pulse_uniformity) == Some(h),
        j == i || j == i + 1 && v > 0,
    ensures
        ({
            let t = refined(p, m, j, block_end, h).start;
            t == 5 * i + 2 || t == 5 * i + 3 && v > 0
        }),
{
    lemma_scores_from_2(f);
    lemma_scores_from_3(f);
    let (b, t) = lemma_refined_best(p, m, j, block_end, h);
    lemma_loses(m, i, 2, f, floor, u, v, 0, 10, 2, 2);
    lemma_loses(m, i, 2, f, floor, u, v, 5, 10, 2, 2);
    lemma_loses(m, i, 2, f, floor, u, v, 5, 15, 2, 2);
    if v == 0 {
        let y = score_of(f, 3, 0) - score_of(f, 3, 5);
        assert(v * y == 0) by (nonlinear_arith)
            requires
                v == 0,
        ;
        lemma_loses(m, i, 2, f, floor, u, v, 0, 5, 2, y);
    }
    assert(b == 5 * i || b == 5 * i + 5 && v > 0);
    if b == 5 * i {
        lemma_loses(m, i, 2, f, floor, u, v, 2, -2, 2, 2);
        lemma_loses(m, i, 2, f, floor, u, v, 2, -1, 2, 2);
        lemma_loses(m, i, 2, f, floor, u, v, 2, 0, 2, 2);
        lemma_loses(m, i, 2, f, floor, u, v, 2, 1, 2, 2);
        assert(t == 5 * i - 2 || t == 5 * i - 1 || t == 5 * i || t == 5 * i + 1 || t == 5 * i + 2);
    } else {
        lemma_loses(m, i, 2, f, floor, u, v, 3, 4, 2, 2);
        lemma_loses(m, i, 2, f, floor, u, v, 3, 5, 2, 2);
        lemma_loses(m, i, 2, f, floor, u, v, 3, 6, 2, 2);
        lemma_loses(m, i, 2, f, floor, u, v, 3, 7, 2, 2);
        assert(t == 5 * i + 3 || t == 5 * i + 4 || t == 5 * i + 5 || t == 5 * i + 6 || t == 5 * i + 7);
    }
}

/// Refining leads to the start of a frame that starts in the fourth fifth of a sample.
proof fn lemma_start_3(
    p: Params,
    m: Seq<u16>,
    i: int,
    f: Seq<u8>,
    floor: int,
    u: int,
    v: int,
    j: int,
    block_end: int,
    h: Hit,
)
    requires
        mixes(m, 5 * i + 3, f, floor, u, v),
        0 <= floor,
        0 < u,
        0 <= v,
        p.phase_span >= 2,
        0 <= i,
        i + 50 <= m.len(),
        5 * m.len() <= u64::MAX,
        grid_at(m, 5 * i + 3, p.preamble_ratio) is Some,
        v > 0 ==> grid_at(m, 5 * i + 4, p.preamble_ratio) is Some,
        fine_at(m, j, p.preamble_ratio, p.pulse_uniformity) == Some(h),
        j == i + 1 || j == i && gated_fine(p, m, i + 1, block_end) is Some,
    ensures
        ({
            let t = refined(p, m, j, block_end, h).start;
            t == 5 * i + 3 || t == 5 * i + 4 && v > 0
        }),
{
    lemma_scores_from_3(f);
    lemma_scores_from_4(f);
    let (b, t) = lemma_refined_best(p, m, j, block_end, h);
    lemma_loses(m, i, 3, f, floor, u, v, 5, 0, 2, 2);
    lemma_loses(m, i, 3, f, floor, u, v, 5, 10, 2, 2);
    lemma_loses(m, i, 3, f, floor, u, v, 5, 15, 2, 2);
    lemma_loses(m, i, 3, f, floor, u, v, 3, 5, 2, 2);
    lemma_loses(m, i, 3, f, floor, u, v, 3, 6, 2, 2);
    lemma_loses(m, i, 3, f, floor, u, v, 3, 7, 2, 2);
    if v == 0 {
        let y = score_of(f, 4, 3) - score_of(f, 4, 4);
        assert(v * y == 0) by (nonlinear_arith)
            requires
                v == 0,
        ;
        lemma_loses(m, i, 3, f, floor, u, v, 3, 4, 2, y);
    }
    assert(t == 5 * i + 3 || t == 5 * i + 4 || t == 5 * i + 5 || t == 5 * i + 6 || t == 5 * i + 7);
}

/// Refining leads to the start of a frame that starts in the last fifth of a sample.
proof fn lemma_start_4(
    p: Params,
    m: Seq<u16>,
    i: int,
    f: Seq<u8>,
    floor: int,
    u: int,
    v: int,
    j: int,
    block_end: int,
    h: Hit,
)
    requires
        mixes(m, 5 * i + 4, f, floor, u, v),
        0 <= floor,
        0 < u,
        0 <= v,
        p.phase_span >= 2,
        0 <= i,
        i + 50 <= m.len(),
        5 * m.len() <= u64::MAX,
        grid_at(m, 5 * i + 4, p.preamble_ratio) is Some,
        v > 0 ==> grid_at(m, 5 * i + 5, p.preamble_ratio) is Some,
        fine_at(m, j, p.preamble_ratio, p.pulse_uniformity) == Some(h),
        j == i + 1 || j == i && gated_fine(p, m, i + 1, block_end) is Some,
    ensures
        ({
            let t = refined(p, m, j, block_end, h).start;
            t == 5 * i + 4 || t == 5 * i + 5 && v > 0
        }),
{
    lemma_scores_from_4(f);
    lemma_scores_from_5(f);
    let (b, t) = lemma_refined_best(p, m, j, block_end, h);
    lemma_loses(m, i, 4, f, floor, u, v, 5, 0, 2, 2);
    lemma_loses(m, i, 4, f, floor, u, v, 5, 10, 2, 2);
    lemma_loses(m, i, 4, f, floor, u, v, 5, 15, 2, 2);
    if v <= u {
        lemma_loses(m, i, 4, f, floor, u, v, 4, 3, 2, 2);
        lemma_loses(m, i, 4, f, floor, u, v, 4, 6, 400, -20);
        lemma_loses(m, i, 4, f, floor, u, v, 4, 7, 2, 2);
    } else {
        lemma_loses(m, i, 4, f, floor, u, v, 5, 3, -100, 400);
        lemma_loses(m, i, 4, f, floor, u, v, 5, 6, 2, 2);
        lemma_loses(m, i, 4, f, floor, u, v, 5, 7, 2, 2);
    }
    if v == 0 {
        let y = score_of(f, 5, 4) - score_of(f, 5, 5);
        assert(v * y == 0) by (nonlinear_arith)
            requires
                v == 0,
        ;
        lemma_loses(m, i, 4, f, floor, u, v, 4, 5, 2, y);
    }
    assert(t == 5 * i + 3 || t == 5 * i + 4 || t == 5 * i + 5 || t == 5 * i + 6 || t == 5 * i + 7);
}

/// Where a preamble stands out at a sample, one two fifths after it stands out too, of a
/// frame that starts later.
proof fn lemma_two_after(
    p: Params,
    m: Seq<u16>,
    i: int,
    k: int,
    f: Seq<u8>,
    floor: int,
    u: int,
    v: int,
)
    requires
        mixes(m, 5 * i + k, f, floor, u, v),
        k == 3 || k == 4,
        0 <= floor,
        0 < u,
        0 <= v,
        0 <= i,
        i + 50 <= m.len(),
        stands_out(levels_of(m, 5 * i), p.preamble_ratio),
    ensures
        grid_at(m, 5 * i + 2, p.preamble_ratio) is Some,
{
    lemma_levels_mix(m, i, k, f, floor, u, v, 0);
    lemma_levels_mix(m, i, k, f, floor, u, v, 2);
    if k == 3 {
        lemma_scores_from_3(f);
        lemma_pulses_from_3(f);
        lemma_scores_from_4(f);
        lemma_pulses_from_4(f);
    } else {
        lemma_scores_from_4(f);
        lemma_pulses_from_4(f);
        lemma_scores_from_5(f);
        lemma_pulses_from_5(f);
    }
    let q = k + 1;
    lemma_below(u, v, pulses_of(f, k, 0), pulses_of(f, q, 0), pulses_of(f, k, 2), pulses_of(f, q, 2));
    lemma_below(u, v, gap_of(f, k, 2), gap_of(f, q, 2), gap_of(f, k, 0), gap_of(f, q, 0));
    let (x, y, a, b) = (least_of(f, k, 2), least_of(f, q, 2), gap_of(f, k, 2), gap_of(f, q, 2));
    assert(11 * (u * x + v * y) > u * a + v * b) by (nonlinear_arith)
        requires
            11 * x > a,
            11 * y > b,
            u > 0,
            v >= 0,
    ;
    let (s, t) = (levels_of(m, 5 * i), levels_of(m, 5 * i + 2));
    let (c, d) = (larger(s.gap as int, FLOOR as int), larger(t.gap as int, FLOOR as int));
    assert(p.preamble_ratio * d <= p.preamble_ratio * c) by (nonlinear_arith)
        requires
            d <= c,
            p.preamble_ratio >= 0,
    ;
}

/// Where the next sample is not looked at, refining leads two fifths into a sample in
/// which a frame starts later.
proof fn lemma_start_early(
    p: Params,
    m: Seq<u16>,
    i: int,
    k: int,
    f: Seq<u8>,
    floor: int,
    u: int,
    v: int,
    block_end: int,
    h: Hit,
)
    requires
        mixes(m, 5 * i + k, f, floor, u, v),
        k == 3 || k == 4,
        0 <= floor,
        0 < u,
        0 <= v,
        p.phase_span >= 2,
        0 <= i,
        i + 50 <= m.len(),
        5 * m.len() <= u64::MAX,
        block_end <= i + 1,
        fine_at(m, i, p.preamble_ratio, p.pulse_uniformity) == Some(h),
    ensures
        refined(p, m, i, block_end, h).start == 5 * i + 2,
{
    let (b, t) = lemma_refined_best(p, m, i, block_end, h);
    lemma_two_after(p, m, i, k, f, floor, u, v);
    if k == 3 {
        lemma_scores_from_3(f);
        lemma_scores_from_4(f);
    } else {
        lemma_scores_from_4(f);
        lemma_scores_from_5(f);
    }
    lemma_loses(m, i, k, f, floor, u, v, 2, -2, 2, 2);
    lemma_loses(m, i, k, f, floor, u, v, 2, -1, 2, 2);
    lemma_loses(m, i, k, f, floor, u, v, 2, 0, 2, 2);
    lemma_loses(m, i, k, f, floor, u, v, 2, 1, 2, 2);
    assert(t == 5 * i - 2 || t == 5 * i - 1 || t == 5 * i || t == 5 * i + 1 || t == 5 * i + 2);
}

/// The pulses around bit `b`, which begins at `t`: its own half, the half of the bit
/// before that it follows, and the half of the next that it precedes.
proof fn lemma_around(f: Seq<u8>, b: int, t: int)
    requires
        0 <= b < 8 * f.len(),
        t == 96 + 12 * b,
    ensures
        forall|e: int| 0 <= e < 12 ==> #[trigger] in_pulse(f, t + e) == ((e < 6) == frame_bit(f, b)),
        forall|e: int| -6 <= e < 0 ==> #[trigger] in_pulse(f, t + e) == in_pulse(f, t - 1),
        !(in_pulse(f, t - 7) && in_pulse(f, t - 1)),
        forall|e: int| 12 <= e < 18 ==> #[trigger] in_pulse(f, t + e) == in_pulse(f, t + 12),
{
    assert forall|e: int| 0 <= e < 12 implies #[trigger] in_pulse(f, t + e) == ((e < 6) == frame_bit(f, b)) by {
        assert((t + e - 96) % 12 == e && (t + e - 96) / 12 == b);
    }
    assert forall|e: int| -12 <= e < 0 && b > 0 implies #[trigger] in_pulse(f, t + e) == ((e < -6)
        == frame_bit(f, b - 1)) by {
        assert((t + e - 96) % 12 == e + 12 && (t + e - 96) / 12 == b - 1);
    }
    assert forall|e: int| 12 <= e < 18 && b + 1 < 8 * f.len() implies #[trigger] in_pulse(f, t + e)
        == frame_bit(f, b + 1) by {
        assert((t + e - 96) % 12 == e - 12 && (t + e - 96) / 12 == b + 1);
    }
    if b > 0 {
        assert(in_pulse(f, t + (-7)) == frame_bit(f, b - 1));
        assert(in_pulse(f, t + (-1)) != frame_bit(f, b - 1));
    }
}

/// What the samples around bit `b` hold, in terms of those pulses.
proof fn lemma_around_samples(f: Seq<u8>, b: int, t: int)
    requires
        0 <= b < 8 * f.len(),
        t == 96 + 12 * b,
    ensures
        ({
            let (c, p, n) = (one(in_pulse(f, t - 7)), one(in_pulse(f, t - 1)), one(in_pulse(f, t + 12)));
            let a = one(frame_bit(f, b));
            let z = 1 - a;
            &&& c + p <= 1
            &&& lit(f, t - 7) == c + 4 * p && lit(f, t - 6) == 5 * p && lit(f, t - 5) == 5 * p
            &&& lit(f, t - 4) == 4 * p + a && lit(f, t - 3) == 3 * p + 2 * a && lit(f, t - 2) == 2 * p + 3 * a
            &&& lit(f, t - 1) == p + 4 * a && lit(f, t) == 5 * a && lit(f, t + 1) == 5 * a
            &&& lit(f, t + 2) == 4 * a + z && lit(f, t + 3) == 3 * a + 2 * z && lit(f, t + 4) == 2 * a + 3 * z
            &&& lit(f, t + 5) == a + 4 * z && lit(f, t + 6) == 5 * z && lit(f, t + 7) == 5 * z
            &&& lit(f, t + 8) == 4 * z + n && lit(f, t + 9) == 3 * z + 2 * n && lit(f, t + 10) == 2 * z + 3 * n
            &&& lit(f, t + 11) == z + 4 * n && lit(f, t + 12) == 5 * n
        }),
{
    reveal(lit);
    lemma_around(f, b, t);
    assert(in_pulse(f, t + (-6)) == in_pulse(f, t - 1) && in_pulse(f, t + (-5)) == in_pulse(f, t - 1));
    assert(in_pulse(f, t + (-4)) == in_pulse(f, t - 1) && in_pulse(f, t + (-3)) == in_pulse(f, t - 1));
    assert(in_pulse(f, t + (-2)) == in_pulse(f, t - 1));
    assert(in_pulse(f, t + 0) == frame_bit(f, b) && in_pulse(f, t + 1) == frame_bit(f, b));
    assert(in_pulse(f, t + 2) == frame_bit(f, b) && in_pulse(f, t + 3) == frame_bit(f, b));
    assert(in_pulse(f, t + 4) == frame_bit(f, b) && in_pulse(f, t + 5) == frame_bit(f, b));
    assert(in_pulse(f, t + 6) != frame_bit(f, b) && in_pulse(f, t + 7) != frame_bit(f, b));
    assert(in_pulse(f, t + 8) != frame_bit(f, b) && in_pulse(f, t + 9) != frame_bit(f, b));
    assert(in_pulse(f, t + 10) != frame_bit(f, b) && in_pulse(f, t + 11) != frame_bit(f, b));
    assert(in_pulse(f, t + 13) == in_pulse(f, t + 12) && in_pulse(f, t + 14) == in_pulse(f, t + 12));
    assert(in_pulse(f, t + 15) == in_pulse(f, t + 12) && in_pulse(f, t + 16) == in_pulse(f, t + 12));
}

/// By how much the half that holds the pulse of a bit outweighs the other at the least,
/// `o` fifths off.
spec fn clearance(o: int) -> int {
    if o == 0 {
        8
    } else if o == -1 || o == 1 {
        6
    } else if o == -2 {
        4
    } else {
        -2
    }
}

/// How far the first half of bit `b` outweighs the second, sliced `e` fifths after a
/// sample, of a frame that starts `q` fifths after it.
spec fn tilt(f: Seq<u8>, q: int, e: int, b: int) -> int {
    half_of(f, q, e + 96 + 12 * b) - half_of(f, q, e + 102 + 12 * b)
}

proof fn lemma_tilt(f: Seq<u8>, q: int, e: int, b: int)
    requires
        0 <= b < 8 * f.len(),
        -3 <= e - q <= 1,
    ensures
        frame_bit(f, b) ==> tilt(f, q, e, b) >= clearance(e - q),
        !frame_bit(f, b) ==> tilt(f, q, e, b) <= -clearance(e - q),
{
    let t = 96 + 12 * b;
    let x = e + t;
    let (y, r) = (x / 5, x % 5);
    let o = e - q;
    lemma_around_samples(f, b, t);
    assert(5 * y - q == t + o - r);
    if r == 0 {
        lemma_half_at(f, q, x, y, 0);
        lemma_half_at(f, q, x + 6, y + 1, 1);
    } else if r == 1 {
        lemma_half_at(f, q, x, y, 1);
        lemma_half_at(f, q, x + 6, y + 1, 2);
    } else if r == 2 {
        lemma_half_at(f, q, x, y, 2);
        lemma_half_at(f, q, x + 6, y + 1, 3);
    } else if r == 3 {
        lemma_half_at(f, q, x, y, 3);
        lemma_half_at(f, q, x + 6, y + 1, 4);
    } else {
        lemma_half_at(f, q, x, y, 4);
        lemma_half_at(f, q, x + 6, y + 2, 0);
    }
    assert(o == -3 || o == -2 || o == -1 || o == 0 || o == 1);
}

/// A frame is sliced as it was sent at the fifths around its start, and two fifths into
/// a sample in which it starts later, though not much later.
proof fn lemma_sliced_mix(
    p: Params,
    m: Seq<u16>,
    i: int,
    k: int,
    f: Seq<u8>,
    floor: int,
    u: int,
    v: int,
    e: int,
)
    requires
        mixes(m, 5 * i + k, f, floor, u, v),
        0 <= k < 5,
        0 < u,
        0 <= v,
        p.slicer == Slicer::Box,
        0 <= i,
        e == k || e == k + 1 || e == 2 && k == 3 || e == 2 && k == 4 && v <= u,
        5 * i + e + 97 + 96 * f.len() <= 5 * m.len() - 5,
        f.len() > 0,
    ensures
        frame_bytes(p, m, 5 * i + e, f.len()) == f,
        format_at(p, m, 5 * i + e) == format_of(f),
{
    let st = 5 * i + e;
    assert forall|b: int| 0 <= b < 8 * f.len() implies #[trigger] frame_bit(f, b) == (first_half(p, m, st, b)
        > second_half(p, m, st, b)) by {
        let (s, t) = (e + 96 + 12 * b, e + 102 + 12 * b);
        lemma_half_mix(m, i, k, f, floor, u, v, s);
        lemma_half_mix(m, i, k, f, floor, u, v, t);
        lemma_tilt(f, k, e, b);
        lemma_tilt(f, k + 1, e, b);
        let (x, y) = (tilt(f, k, e, b), tilt(f, k + 1, e, b));
        let (c, d) = (clearance(e - k), clearance(e - k - 1));
        assert(u * x == u * half_of(f, k, s) - u * half_of(f, k, t)) by (nonlinear_arith)
            requires
                x == half_of(f, k, s) - half_of(f, k, t),
        ;
        assert(v * y == v * half_of(f, k + 1, s) - v * half_of(f, k + 1, t)) by (nonlinear_arith)
            requires
                y == half_of(f, k + 1, s) - half_of(f, k + 1, t),
        ;
        if frame_bit(f, b) {
            lemma_below(u, v, c, d, x, y);
        } else {
            lemma_below(u, v, x, y, -c, -d);
        }
        assert(u * (-c) + v * (-d) == -(u * c + v * d)) by (nonlinear_arith);
        assert(u * c + v * d > 0) by (nonlinear_arith)
            requires
                c == 8 && d == 6 || c == 6 && d == 8 || c == 6 && d == 4 || c == 4 && d == -2 && v <= u,
                u > 0,
                v >= 0,
        ;
    }
    law_slice_reads_what_was_sent(p, m, st, f);
    lemma_format(p, m, st, f.len());
}

/// Sample `j` is scanned, and a preamble at it passes the tests.
pub open spec fn passes(p: Params, m: Seq<u16>, j: int) -> bool {
    &&& j < scan_end(m)
    &&& gate(m, j, p.precheck_ratio)
    &&& spikes(m, j) <= p.gap_spikes
    &&& fine_at(m, j, p.preamble_ratio, p.pulse_uniformity) is Some
}

/// A preamble that starts at `st` parts, `n` of them to a fifth of a sample, passes the
/// tests at the nearest sample, or at one of the two around it where neither is much
/// nearer, and the fine test at the fifths around its start.
pub open spec fn is_heard(p: Params, m: Seq<u16>, n: int, st: int) -> bool {
    let a = st / n;
    let (i, k) = (a / 5, a % 5);
    &&& p.phase_span >= 2
    &&& grid_at(m, a, p.preamble_ratio) is Some
    &&& st % n > 0 ==> grid_at(m, a + 1, p.preamble_ratio) is Some
    &&& if k < 2 {
        passes(p, m, i)
    } else if k == 2 {
        passes(p, m, i) || st % n > 0 && passes(p, m, i + 1)
    } else {
        passes(p, m, i + 1)
    }
}

/// Where the start of a frame may come out, `e` fifths after sample `i`: at the fifths
/// around it, or, where the next sample is not looked at, two fifths into the sample.
spec fn placed(k: int, v: int, alone: bool, e: int) -> bool {
    ||| e == k
    ||| e == k + 1 && v > 0
    ||| e == 2 && k >= 3 && alone
}

proof fn lemma_still_genuine(known: Map<u32, u64>, f: Seq<u8>, now: u64, later: u64)
    requires
        now <= later,
        is_genuine(known, f, later),
    ensures
        is_genuine(known, f, now),
{
}

/// The start to which refining leads from a sample that passes the tests.
proof fn lemma_start(
    p: Params,
    m: Seq<u16>,
    i: int,
    k: int,
    f: Seq<u8>,
    floor: int,
    u: int,
    v: int,
    j: int,
    block_end: int,
    h: Hit,
)
    requires
        mixes(m, 5 * i + k, f, floor, u, v),
        0 <= floor,
        0 < u,
        0 <= v,
        p.phase_span >= 2,
        0 <= i,
        0 <= k < 5,
        i + 50 <= m.len(),
        5 * m.len() <= u64::MAX,
        grid_at(m, 5 * i + k, p.preamble_ratio) is Some,
        v > 0 ==> grid_at(m, 5 * i + k + 1, p.preamble_ratio) is Some,
        k >= 3 ==> passes(p, m, i + 1),
        j == i || j == i + 1 && k >= 2 && (k == 2 ==> v > 0),
        j == i && k == 4 && block_end <= i + 1 ==> v <= u,
        fine_at(m, j, p.preamble_ratio, p.pulse_uniformity) == Some(h),
    ensures
        placed(
            k,
            v,
            j == i && block_end <= i + 1,
            refined(p, m, j, block_end, h).start - 5 * i,
        ),
{
    if k == 0 {
        lemma_start_0(p, m, i, f, floor, u, v, j, block_end, h);
    } else if k == 1 {
        lemma_start_1(p, m, i, f, floor, u, v, j, block_end, h);
    } else if k == 2 {
        lemma_start_2(p, m, i, f, floor, u, v, j, block_end, h);
    } else if j == i && block_end <= i + 1 {
        lemma_start_early(p, m, i, k, f, floor, u, v, block_end, h);
    } else if k == 3 {
        lemma_start_3(p, m, i, f, floor, u, v, j, block_end, h);
    } else {
        lemma_start_4(p, m, i, f, floor, u, v, j, block_end, h);
    }
}

/// What becomes of sample `j`, at which the frame that `m` holds may be found.
proof fn lemma_caught_mix(
    s: State,
    p: Params,
    m: Seq<u16>,
    base: int,
    i: int,
    k: int,
    f: Seq<u8>,
    floor: int,
    u: int,
    v: int,
    j: int,
    block_end: int,
)
    requires
        mixes(m, 5 * i + k, f, floor, u, v),
        0 <= floor,
        0 < u,
        0 <= v,
        p.phase_span >= 2,
        p.slicer == Slicer::Box,
        0 <= i,
        0 <= k < 5,
        i < scan_end(m),
        0 <= base,
        5 * (base + m.len()) + 3000 <= u64::MAX,
        grid_at(m, 5 * i + k, p.preamble_ratio) is Some,
        v > 0 ==> grid_at(m, 5 * i + k + 1, p.preamble_ratio) is Some,
        k >= 3 ==> passes(p, m, i + 1),
        j == i || j == i + 1 && k >= 2 && (k == 2 ==> v > 0),
        j < scan_end(m),
        j == i && k == 4 && block_end <= i + 1 && passes(p, m, i) ==> v <= u,
        f.len() == frame_len(format_of(f)),
        is_genuine(s.known, f, (base + i + 1) as u64),
    ensures
        ({
            let a = looked(s, p, m, base, j, block_end);
            match a.frame {
                Some(g) => {
                    let e = g.start - 5 * (base + i);
                    &&& passes(p, m, j)
                    &&& placed(k, v, j == i && block_end <= i + 1, e)
                    &&& g.bytes == f
                    &&& g.fixed == 0
                    &&& a.next >= i + span_of(f.len() as int)
                    &&& is_checked(format_of(f)) ==> is_confirmed(a.s.known, address_field(f), g.start / 5)
                },
                None => !passes(p, m, j) && a.next == j + 1 && a.s.known == s.known,
            }
        }),
{
    reveal(looked);
    if passes(p, m, j) {
        let h = fine_at(m, j, p.preamble_ratio, p.pulse_uniformity)->0;
        lemma_start(p, m, i, k, f, floor, u, v, j, block_end, h);
        let hit = refined(p, m, j, block_end, h);
        let e = hit.start - 5 * i;
        let s1 = State {
            stats: Stats { precheck_hits: s.stats.precheck_hits.wrapping_add(1), ..s.stats },
            ..s
        };
        let s2 = State {
            stats: Stats { preamble_hits: s1.stats.preamble_hits.wrapping_add(1), ..s1.stats },
            ..s1
        };
        lemma_sliced_mix(p, m, i, k, f, floor, u, v, e);
        assert(hit.start / 5 == i || hit.start / 5 == i + 1);
        lemma_still_genuine(s.known, f, (base + hit.start / 5) as u64, (base + i + 1) as u64);
        law_clean_frame_is_emitted(s2, p, m, base, hit, j);
        assert((5 * base + hit.start) / 5 == base + hit.start / 5);
    }
}

/// A lone frame over an even noise floor is received wherever it starts, if its
/// preamble is heard: a run emits it as it was sent, and nothing else, with a time that
/// is off by half a sample at the most; a frame whose checksum stands on its own
/// confirms its aircraft. The frame has such a checksum or comes from a confirmed
/// aircraft.
///
/// The time is one of the two fifths around the start, and the start itself where that
/// is a fifth. Only a start in the last sample of a sub-block may come out earlier: one
/// on a fifth by two fifths at the most. Left out are starts in the last half fifth of
/// such a sample whose preamble passes the tests at that sample already: they would
/// come out more than half a sample early.
pub proof fn law_lone_frame_is_received_anywhere(
    s: State,
    p: Params,
    m: Seq<u16>,
    base: int,
    n: int,
    st: int,
    f: Seq<u8>,
    floor: int,
    step: int,
)
    requires
        0 < n,
        holds_from(m, n, st, f, floor, step),
        0 <= floor,
        0 < step,
        is_heard(p, m, n, st),
        p.slicer == Slicer::Box,
        f.len() == frame_len(format_of(f)),
        is_genuine(s.known, f, (base + st / n / 5 + 1) as u64),
        0 <= base,
        0 <= st,
        st / n / 5 < scan_end(m),
        m.len() >= LONG_SAMPLES + 2,
        st / n % 5 == 4 && 2 * (st % n) > n && st / n / 5 % (SUB as int) == SUB - 1 ==> !passes(
            p,
            m,
            st / n / 5,
        ),
        5 * (base + m.len()) + 3000 <= u64::MAX,
    ensures
        ({
            let (after, out) = run_of(s, p, m, base);
            let off = n * (out[0].start - 5 * base) - st;
            &&& out.len() == 1
            &&& out[0].bytes == f
            &&& out[0].fixed == 0
            &&& -5 * n <= 2 * off <= 5 * n
            &&& st % n == 0 ==> -2 * n <= off <= 0
            &&& st / n / 5 % (SUB as int) != SUB - 1 ==> -n < off < n && (st % n == 0 ==> off == 0)
            &&& is_checked(format_of(f)) ==> is_confirmed(
                after.known,
                address_field(f),
                out[0].start / 5,
            )
        }),
{
    lemma_between(m, n, st, f, floor, step);
    let (a, r) = (st / n, st % n);
    let (i, k) = (a / 5, a % 5);
    let (u, v) = ((n - r) * step, r * step);
    assert(st == n * a + r && 0 <= r < n && 0 <= a) by (nonlinear_arith)
        requires
            0 < n,
            0 <= st,
            a == st / n,
            r == st % n,
    ;
    assert(u > 0 && v >= 0 && (r > 0 <==> v > 0) && (2 * r <= n <==> v <= u)) by (nonlinear_arith)
        requires
            u == (n - r) * step,
            v == r * step,
            0 < step,
            0 <= r < n,
    ;
    assert(a == 5 * i + k);
    let s1 = State {
        stats: Stats { samples: s.stats.samples.wrapping_add(scan_end(m) as u64), ..s.stats },
        ..s
    };
    let c0 = Scan { s: s1, i: 0, sub: -1, out: Seq::<FrameView>::empty() };
    assert forall|x: int| 0 <= x < i implies #[trigger] fine_at(
        m,
        x,
        p.preamble_ratio,
        p.pulse_uniformity,
    ) is None by {
        lemma_silence_mix(p, m, i, k, f, floor, u, v, x);
    }
    let c1 = lemma_passed(c0, p, m, base, i);
    reveal(stepped);
    let e1 = entered(c1, m);
    let end = block_end(m, e1.sub);
    assert(end <= i + 1 ==> i % (SUB as int) == SUB - 1 || i + 1 == scan_end(m));
    lemma_caught_mix(e1.s, p, m, base, i, k, f, floor, u, v, i, end);
    let c2 = stepped(c1, p, m, base);
    assert(scanned(c1, p, m, base) == scanned(c2, p, m, base));
    let c3 = if looked(e1.s, p, m, base, i, end).frame is Some {
        c2
    } else {
        let e2 = entered(c2, m);
        lemma_caught_mix(e2.s, p, m, base, i, k, f, floor, u, v, i + 1, block_end(m, e2.sub));
        assert(scanned(c2, p, m, base) == scanned(stepped(c2, p, m, base), p, m, base));
        stepped(c2, p, m, base)
    };
    assert(c3.out.len() == 1);
    let e = c3.out[0].start - 5 * (base + i);
    lemma_off(n, a, r, i, k, e);
    if c3.i < scan_end(m) {
        assert forall|x: int| c3.i <= x < scan_end(m) implies #[trigger] fine_at(
            m,
            x,
            p.preamble_ratio,
            p.pulse_uniformity,
        ) is None by {
            lemma_silence_mix(p, m, i, k, f, floor, u, v, x);
        }
        let c4 = lemma_passed(c3, p, m, base, scan_end(m));
    }
}

/// How far a start that comes out `e` fifths after sample `i` is off.
proof fn lemma_off(n: int, a: int, r: int, i: int, k: int, e: int)
    by (nonlinear_arith)
    requires
        0 <= r < n,
        a == 5 * i + k,
    ensures
        n * (5 * i + e) - (n * a + r) == n * (e - k) - r,
        e == k ==> n * (e - k) == 0,
        e == k + 1 ==> n * (e - k) == n,
        e == k - 1 ==> n * (e - k) == -n,
        e == k - 2 ==> n * (e - k) == -2 * n,
{
}

/// What the preambles at the samples next to a start show of it is enough for the
/// pre-check.
proof fn lemma_loud_0(f: Seq<u8>)
    ensures
        loud(f, 0, (0, 3, 9, 11)) && quiet(f, 0, 0),
        loud(f, 1, (0, 3, 9, 11)) && quiet(f, 1, 0),
        loud(f, 2, (0, 3, 9, 11)) && loud(f, 2, (1, 3, 9, 11)) && quiet(f, 2, 0) && quiet(f, 2, 1),
{
    lemma_samples_0(f);
    lemma_samples_1(f);
    lemma_samples_2(f);
}

proof fn lemma_loud_1(f: Seq<u8>)
    ensures
        loud(f, 3, (1, 3, 9, 11)) && loud(f, 3, (1, 3, 9, 12)) && quiet(f, 3, 0) && quiet(f, 3, 1),
        loud(f, 4, (1, 3, 9, 12)) && quiet(f, 4, 1),
        loud(f, 5, (1, 3, 9, 12)) && quiet(f, 5, 1),
{
    lemma_samples_3(f);
    lemma_samples_4(f);
    lemma_samples_0(f);
}

/// A strong frame stands out at the fifths around its start.
proof fn lemma_strong_start(
    p: Params,
    m: Seq<u16>,
    i: int,
    k: int,
    f: Seq<u8>,
    floor: int,
    u: int,
    v: int,
)
    requires
        mixes(m, 5 * i + k, f, floor, u, v),
        0 <= k < 5,
        0 < u,
        0 <= v,
        10 <= u + v,
        0 <= floor <= 3 * (u + v),
        p.preamble_ratio <= 409,
        0 <= i,
        i + 50 <= m.len(),
    ensures
        grid_at(m, 5 * i + k, p.preamble_ratio) is Some,
        grid_at(m, 5 * i + k + 1, p.preamble_ratio) is Some,
{
    if k == 0 {
        lemma_scores_from_0(f);
        lemma_pulses_from_0(f);
    }
    if k <= 1 {
        lemma_scores_from_1(f);
        lemma_pulses_from_1(f);
    }
    if 1 <= k <= 2 {
        lemma_scores_from_2(f);
        lemma_pulses_from_2(f);
    }
    if 2 <= k <= 3 {
        lemma_scores_from_3(f);
        lemma_pulses_from_3(f);
    }
    if k >= 3 {
        lemma_scores_from_4(f);
        lemma_pulses_from_4(f);
    }
    if k == 4 {
        lemma_scores_from_5(f);
        lemma_pulses_from_5(f);
    }
    lemma_stands_out_mix(
        m,
        i,
        k,
        f,
        floor,
        u,
        v,
        k,
        p.preamble_ratio,
        83,
        83,
        32,
        32,
        18,
        18,
    );
    lemma_stands_out_mix(
        m,
        i,
        k,
        f,
        floor,
        u,
        v,
        k + 1,
        p.preamble_ratio,
        83,
        83,
        32,
        32,
        18,
        18,
    );
}

/// A strong frame passes the tests at a sample next to its start.
proof fn lemma_strong_sample(
    p: Params,
    m: Seq<u16>,
    i: int,
    k: int,
    f: Seq<u8>,
    floor: int,
    u: int,
    v: int,
)
    requires
        mixes(m, 5 * i + k, f, floor, u, v),
        0 <= k < 5,
        0 < u,
        0 <= v,
        10 <= u + v,
        0 <= floor <= 3 * (u + v),
        p.precheck_ratio <= 512,
        p.preamble_ratio <= 409,
        p.pulse_uniformity == 0,
        0 <= i,
        i < scan_end(m),
        k >= 2 ==> i + 1 < scan_end(m),
    ensures
        k < 2 ==> passes(p, m, i),
        k == 2 ==> passes(p, m, i) || v > 0 && passes(p, m, i + 1),
        k > 2 ==> passes(p, m, i + 1),
{
    let (r, q) = (p.preamble_ratio, p.precheck_ratio);
    lemma_loud_0(f);
    lemma_loud_1(f);
    if k == 0 {
        lemma_scores_from_0(f);
        lemma_pulses_from_0(f);
        lemma_scores_from_1(f);
        lemma_pulses_from_1(f);
        lemma_gate_mix(m, i, 0, f, floor, u, v, 0, (0, 3, 9, 11), q);
        lemma_stands_out_mix(m, i, 0, f, floor, u, v, 0, r, 83, 83, 32, 32, 18, 18);
    } else if k == 1 {
        lemma_scores_from_1(f);
        lemma_pulses_from_1(f);
        lemma_scores_from_2(f);
        lemma_pulses_from_2(f);
        lemma_gate_mix(m, i, 1, f, floor, u, v, 0, (0, 3, 9, 11), q);
        lemma_stands_out_mix(m, i, 1, f, floor, u, v, 0, r, 83, 74, 32, 38, 18, 18);
    } else if k == 2 {
        lemma_scores_from_2(f);
        lemma_pulses_from_2(f);
        lemma_scores_from_3(f);
        lemma_pulses_from_3(f);
        if 9 * v <= 7 * u {
            lemma_gate_mix(m, i, 2, f, floor, u, v, 0, (1, 3, 9, 11), q);
            lemma_stands_out_mix(m, i, 2, f, floor, u, v, 0, r, 74, 60, 38, 47, 18, 14);
        } else {
            lemma_gate_mix(m, i, 2, f, floor, u, v, 1, (1, 3, 9, 11), q);
            lemma_stands_out_mix(m, i, 2, f, floor, u, v, 5, r, 60, 74, 44, 32, 14, 18);
        }
    } else if k == 3 {
        lemma_scores_from_3(f);
        lemma_pulses_from_3(f);
        lemma_scores_from_4(f);
        lemma_pulses_from_4(f);
        lemma_gate_mix(m, i, 3, f, floor, u, v, 1, (1, 3, 9, 12), q);
        lemma_stands_out_mix(m, i, 3, f, floor, u, v, 5, r, 74, 74, 38, 38, 18, 18);
    } else {
        lemma_scores_from_4(f);
        lemma_pulses_from_4(f);
        lemma_scores_from_5(f);
        lemma_pulses_from_5(f);
        lemma_gate_mix(m, i, 4, f, floor, u, v, 1, (1, 3, 9, 12), q);
        lemma_stands_out_mix(m, i, 4, f, floor, u, v, 5, r, 74, 74, 38, 38, 18, 18);
    }
    assert(5 * (i + 1) == 5 * i + 5);
}

/// Where the pulses add five thirds of the noise floor at the least, and 50 units of
/// magnitude, a frame is heard with the default settings wherever it starts.
pub proof fn law_strong_frame_is_heard(
    p: Params,
    m: Seq<u16>,
    n: int,
    st: int,
    f: Seq<u8>,
    floor: int,
    step: int,
)
    requires
        0 < n,
        holds_from(m, n, st, f, floor, step),
        0 < step,
        10 <= n * step,
        0 <= floor <= 3 * (n * step),
        p.precheck_ratio <= 512,
        p.preamble_ratio <= 409,
        p.pulse_uniformity == 0,
        p.phase_span >= 2,
        0 <= st,
        st / n / 5 < scan_end(m),
        st / n % 5 >= 2 ==> st / n / 5 + 1 < scan_end(m),
    ensures
        is_heard(p, m, n, st),
{
    lemma_between(m, n, st, f, floor, step);
    let (a, r) = (st / n, st % n);
    let (u, v) = ((n - r) * step, r * step);
    assert(0 <= r < n && 0 <= a) by (nonlinear_arith)
        requires
            0 < n,
            0 <= st,
            a == st / n,
            r == st % n,
    ;
    assert(u > 0 && v >= 0 && (r > 0 <==> v > 0) && u + v == n * step) by (nonlinear_arith)
        requires
            u == (n - r) * step,
            v == r * step,
            0 < step,
            0 <= r < n,
    ;
    assert(a == 5 * (a / 5) + a % 5);
    lemma_strong_start(p, m, a / 5, a % 5, f, floor, u, v);
    lemma_strong_sample(p, m, a / 5, a % 5, f, floor, u, v);
}

} // verus!
