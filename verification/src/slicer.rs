//! Slicing bits: one bit per microsecond, 12 fifths of a sample, energy in the
//! first half meaning one.

use crate::params::{Params, Slicer};
use crate::preamble::{
    energy, half_bit_at, larger, lemma_energy_bound, lemma_energy_split, smaller,
};
use vstd::prelude::*;

verus! {

/// Measured pulse shape, in hundredths: the mean magnitude around a preamble
/// pulse, baseline removed, at steps of a fifth of a sample.
pub open spec fn tap(k: int) -> int {
    if k == 0 {
        1
    } else if k == 1 {
        16
    } else if k == 2 {
        27
    } else if k == 3 {
        50
    } else if k == 4 {
        67
    } else if k == 5 {
        75
    } else if k == 6 {
        78
    } else if k == 7 {
        73
    } else if k == 8 {
        54
    } else if k == 9 {
        34
    } else if k == 10 {
        21
    } else {
        3
    }
}

/// Correlation of the stream with the first `n` taps of the pulse shape placed
/// at `t` fifths, in hundredths. Taps before the stream count nothing.
pub open spec fn correlation(m: Seq<u16>, t: int, n: int) -> int
    decreases n,
{
    if n <= 0 {
        0
    } else {
        correlation(m, t, n - 1) + if t + n - 1 >= 0 {
            tap(n - 1) * m[(t + n - 1) / 5]
        } else {
            0
        }
    }
}

/// The level of the half bit at `t` fifths, as the slicer sees it.
pub open spec fn half_level(p: Params, m: Seq<u16>, t: int) -> int {
    match p.slicer {
        Slicer::Box => energy(m, t, t + 6),
        Slicer::Matched => correlation(m, t + p.tap0, 12) / 20,
    }
}

/// The level of the first half of bit `b` of a frame whose preamble starts at
/// `st` fifths.
pub open spec fn first_half(p: Params, m: Seq<u16>, st: int, b: int) -> int {
    half_level(p, m, st + 96 + 12 * b)
}

/// The level of the second half of bit `b`.
pub open spec fn second_half(p: Params, m: Seq<u16>, st: int, b: int) -> int {
    half_level(p, m, st + 102 + 12 * b)
}

/// Bit `b`: one when its energy is in the first half.
pub open spec fn bit_of(p: Params, m: Seq<u16>, st: int, b: int) -> bool {
    first_half(p, m, st, b) > second_half(p, m, st, b)
}

/// How far apart the halves of bit `b` are.
pub open spec fn confidence(p: Params, m: Seq<u16>, st: int, b: int) -> u32 {
    let d = first_half(p, m, st, b) - second_half(p, m, st, b);
    (if d < 0 { -d } else { d }) as u32
}

/// The `n` bits from `from` on, read as a number, first bit on top.
pub open spec fn bits_value(p: Params, m: Seq<u16>, st: int, from: int, n: int) -> int
    decreases n,
{
    if n <= 0 {
        0
    } else {
        2 * bits_value(p, m, st, from, n - 1) + if bit_of(p, m, st, from + n - 1) {
            1int
        } else {
            0
        }
    }
}

/// The `n` bytes of the frame at `st`.
pub open spec fn frame_bytes(p: Params, m: Seq<u16>, st: int, n: nat) -> Seq<u8> {
    Seq::new(n, |j: int| bits_value(p, m, st, 8 * j, 8) as u8)
}

/// The confidence of every bit of the `n` byte frame at `st`.
pub open spec fn frame_confidence(p: Params, m: Seq<u16>, st: int, n: nat) -> Seq<u32> {
    Seq::new(8 * n, |b: int| confidence(p, m, st, b))
}

/// The levels of the full halves of the bits [from, to), summed.
pub open spec fn on_energy(p: Params, m: Seq<u16>, st: int, from: int, to: int) -> int
    decreases to - from,
{
    if to <= from {
        0
    } else {
        on_energy(p, m, st, from, to - 1) + larger(
            first_half(p, m, st, to - 1),
            second_half(p, m, st, to - 1),
        )
    }
}

/// The levels of the empty halves of the bits [from, to), summed.
pub open spec fn off_energy(p: Params, m: Seq<u16>, st: int, from: int, to: int) -> int
    decreases to - from,
{
    if to <= from {
        0
    } else {
        off_energy(p, m, st, from, to - 1) + smaller(
            first_half(p, m, st, to - 1),
            second_half(p, m, st, to - 1),
        )
    }
}

/// `nbits` bits from `st` lie within `len` samples.
pub open spec fn fits(p: Params, len: int, st: int, nbits: int) -> bool {
    &&& 0 <= st
    &&& match p.slicer {
        Slicer::Box => st + 96 + 12 * nbits <= 5 * len,
        Slicer::Matched => st + 102 + 12 * nbits + p.tap0 <= 5 * len && st + 96 + 12 * nbits
            <= u64::MAX,
    }
}

fn tap_at(k: usize) -> (h: u32)
    requires
        k < 12,
    ensures
        h == tap(k as int),
        h <= 78,
{
    if k == 0 {
        1
    } else if k == 1 {
        16
    } else if k == 2 {
        27
    } else if k == 3 {
        50
    } else if k == 4 {
        67
    } else if k == 5 {
        75
    } else if k == 6 {
        78
    } else if k == 7 {
        73
    } else if k == 8 {
        54
    } else if k == 9 {
        34
    } else if k == 10 {
        21
    } else {
        3
    }
}

/// Correlation of the stream with the pulse shape placed at `t + tap0` fifths,
/// in hundredths.
fn pulse_corr(m: &[u16], t: u64, tap0: i32) -> (acc: u32)
    requires
        t + tap0 + 12 <= 5 * m@.len(),
    ensures
        acc == correlation(m@, t + tap0, 12),
        acc <= 12 * 78 * 65535,
{
    let n: usize = m.len();
    let mut acc: u32 = 0;
    let at: i128 = t as i128 + tap0 as i128;
    for k in 0..12usize
        invariant
            n == m@.len(),
            t + tap0 + 12 <= 5 * m@.len(),
            at == t + tap0,
            acc == correlation(m@, t + tap0, k as int),
            acc <= k * 78 * 65535,
    {
        let pos: i128 = at + k as i128;
        if pos >= 0 {
            assert(pos / 5 < n);
            let h: u32 = tap_at(k);
            let x: u32 = m[(pos / 5) as usize] as u32;
            assert(h * x <= 78 * 65535) by (nonlinear_arith)
                requires
                    h <= 78,
                    x <= 65535,
            ;
            acc = acc + h * x;
        }
    }
    acc
}

/// The level of the half bit at `t` fifths.
fn half(p: &Params, m: &[u16], t: u64) -> (e: u32)
    requires
        5 * m@.len() + 3000 <= u64::MAX,
        match p.slicer {
            Slicer::Box => t + 6 <= 5 * m@.len(),
            Slicer::Matched => t + p.tap0 + 12 <= 5 * m@.len(),
        },
    ensures
        e == half_level(*p, m@, t as int),
        e <= 12 * 78 * 65535,
{
    match p.slicer {
        Slicer::Box => {
            let n: usize = m.len();
            assert(t / 5 < n);
            half_bit_at(m, (t / 5) as usize, (t % 5) as usize)
        },
        Slicer::Matched => pulse_corr(m, t, p.tap0) / 20,
    }
}

/// The levels of the two halves of bit `b`.
fn halves(p: &Params, m: &[u16], st: u64, b: usize) -> (ac: (u32, u32))
    requires
        b < 112,
        5 * m@.len() + 3000 <= u64::MAX,
        fits(*p, m@.len() as int, st as int, b + 1),
    ensures
        ac.0 == first_half(*p, m@, st as int, b as int),
        ac.1 == second_half(*p, m@, st as int, b as int),
        ac.0 <= 12 * 78 * 65535,
        ac.1 <= 12 * 78 * 65535,
{
    let t: u64 = st + 96 + 12 * (b as u64);
    (half(p, m, t), half(p, m, t + 6))
}

/// A number doubled with a bit appended stays in range.
pub proof fn lemma_bits_value_bound(p: Params, m: Seq<u16>, st: int, from: int, n: int)
    requires
        0 <= n <= 8,
    ensures
        0 <= bits_value(p, m, st, from, n) <= 255,
        n <= 5 ==> bits_value(p, m, st, from, n) <= 31,
        n <= 7 ==> bits_value(p, m, st, from, n) <= 127,
{
    reveal_with_fuel(bits_value, 9);
}

/// The downlink format: the first five bits.
pub fn slice_format(p: &Params, m: &[u16], st: u64) -> (df: u8)
    requires
        5 * m@.len() + 3000 <= u64::MAX,
        fits(*p, m@.len() as int, st as int, 5),
    ensures
        df == bits_value(*p, m@, st as int, 0, 5),
        df < 32,
{
    let mut df: u8 = 0;
    for b in 0..5usize
        invariant
            5 * m@.len() + 3000 <= u64::MAX,
            fits(*p, m@.len() as int, st as int, 5),
            df == bits_value(*p, m@, st as int, 0, b as int),
    {
        proof {
            lemma_bits_value_bound(*p, m@, st as int, 0, b as int);
            lemma_bits_value_bound(*p, m@, st as int, 0, b + 1);
        }
        let (a, c): (u32, u32) = halves(p, m, st, b);
        df = 2 * df + if a > c { 1 } else { 0 };
    }
    proof {
        lemma_bits_value_bound(*p, m@, st as int, 0, 5);
    }
    df
}

/// A frame as it was sliced.
pub struct Sliced {
    pub bytes: Vec<u8>,
    /// How far apart the halves of each bit were.
    pub conf: Vec<u32>,
    /// Levels of the full and of the empty halves, from the sixth bit on.
    pub on: u64,
    pub off: u64,
}

/// Slice the `nbytes` byte frame at `st`.
pub fn slice_frame(p: &Params, m: &[u16], st: u64, nbytes: usize) -> (s: Sliced)
    requires
        1 <= nbytes <= 14,
        5 * m@.len() + 3000 <= u64::MAX,
        fits(*p, m@.len() as int, st as int, 8 * nbytes),
    ensures
        s.bytes@ == frame_bytes(*p, m@, st as int, nbytes as nat),
        s.conf@ == frame_confidence(*p, m@, st as int, nbytes as nat),
        s.on == on_energy(*p, m@, st as int, 5, 8 * nbytes),
        s.off == off_energy(*p, m@, st as int, 5, 8 * nbytes),
{
    let mut bytes: Vec<u8> = Vec::with_capacity(nbytes);
    let mut conf: Vec<u32> = Vec::with_capacity(8 * nbytes);
    let (mut on, mut off): (u64, u64) = (0, 0);
    let mut acc: u8 = 0;
    let nbits: usize = 8 * nbytes;
    for b in 0..nbits
        invariant
            1 <= nbytes <= 14,
            nbits == 8 * nbytes,
            5 * m@.len() + 3000 <= u64::MAX,
            fits(*p, m@.len() as int, st as int, 8 * nbytes),
            bytes@.len() == b / 8,
            forall|j: int|
                0 <= j < bytes@.len() ==> #[trigger] bytes@[j] == bits_value(
                    *p,
                    m@,
                    st as int,
                    8 * j,
                    8,
                ),
            acc == bits_value(*p, m@, st as int, 8 * (b as int / 8), b as int % 8),
            conf@.len() == b,
            forall|k: int| 0 <= k < b ==> #[trigger] conf@[k] == confidence(*p, m@, st as int, k),
            on == on_energy(*p, m@, st as int, 5, b as int),
            off == off_energy(*p, m@, st as int, 5, b as int),
            on <= b * 0x4000_0000,
            off <= b * 0x4000_0000,
    {
        let ghost from = 8 * (b as int / 8);
        let ghost k = b as int % 8;
        proof {
            lemma_bits_value_bound(*p, m@, st as int, from, k);
            lemma_bits_value_bound(*p, m@, st as int, from, k + 1);
        }
        let (a, c): (u32, u32) = halves(p, m, st, b);
        acc = 2 * acc + if a > c { 1 } else { 0 };
        conf.push(if a > c { a - c } else { c - a });
        if b >= 5 {
            on = on + if a > c { a as u64 } else { c as u64 };
            off = off + if a < c { a as u64 } else { c as u64 };
        }
        if b % 8 == 7 {
            bytes.push(acc);
            acc = 0;
        }
    }
    assert(bytes@ =~= frame_bytes(*p, m@, st as int, nbytes as nat));
    assert(conf@ =~= frame_confidence(*p, m@, st as int, nbytes as nat));
    Sliced { bytes, conf, on, off }
}

/// Bit `b` of a frame, bit 0 being the first on the air.
pub open spec fn frame_bit(f: Seq<u8>, b: int) -> bool {
    (f[b / 8] >> ((7 - b % 8) as u8)) & 1 == 1
}

/// A byte is its eight bits, the first the highest.
proof fn lemma_byte_of_bits(x: u8)
    ensures
        x == 128 * ((x >> 7u8) & 1) + 64 * ((x >> 6u8) & 1) + 32 * ((x >> 5u8) & 1) + 16 * ((x >> 4u8)
            & 1) + 8 * ((x >> 3u8) & 1) + 4 * ((x >> 2u8) & 1) + 2 * ((x >> 1u8) & 1) + ((x >> 0u8) & 1),
        (x >> 7u8) & 1 <= 1,
        (x >> 6u8) & 1 <= 1,
        (x >> 5u8) & 1 <= 1,
        (x >> 4u8) & 1 <= 1,
        (x >> 3u8) & 1 <= 1,
        (x >> 2u8) & 1 <= 1,
        (x >> 1u8) & 1 <= 1,
        (x >> 0u8) & 1 <= 1,
{
    assert(x == 128 * ((x >> 7u8) & 1) + 64 * ((x >> 6u8) & 1) + 32 * ((x >> 5u8) & 1) + 16 * ((x
        >> 4u8) & 1) + 8 * ((x >> 3u8) & 1) + 4 * ((x >> 2u8) & 1) + 2 * ((x >> 1u8) & 1) + ((x >> 0u8)
        & 1) && (x >> 7u8) & 1 <= 1 && (x >> 6u8) & 1 <= 1 && (x >> 5u8) & 1 <= 1 && (x >> 4u8) & 1
        <= 1 && (x >> 3u8) & 1 <= 1 && (x >> 2u8) & 1 <= 1 && (x >> 1u8) & 1 <= 1 && (x >> 0u8) & 1
        <= 1) by (bit_vector);
}

/// A frame is read as it was sent wherever each of its bits has more energy in
/// the half that should hold it: the first half for a one, not the first for a
/// zero.
pub proof fn law_slice_reads_what_was_sent(p: Params, m: Seq<u16>, st: int, f: Seq<u8>)
    requires
        forall|b: int|
            0 <= b < 8 * f.len() ==> #[trigger] frame_bit(f, b) == (first_half(p, m, st, b)
                > second_half(p, m, st, b)),
    ensures
        frame_bytes(p, m, st, f.len()) == f,
{
    assert forall|j: int| 0 <= j < f.len() implies #[trigger] frame_bytes(p, m, st, f.len())[j] == f[j] by {
        let x = f[j];
        lemma_byte_of_bits(x);
        assert forall|k: int| 0 <= k < 8 implies #[trigger] bit_of(p, m, st, 8 * j + k) == ((x >> ((7
            - k) as u8)) & 1 == 1) by {
            assert((8 * j + k) / 8 == j && (8 * j + k) % 8 == k);
            assert(frame_bit(f, 8 * j + k) == bit_of(p, m, st, 8 * j + k));
        }
        assert(bit_of(p, m, st, 8 * j + 0) == ((x >> 7u8) & 1 == 1));
        assert(bit_of(p, m, st, 8 * j + 1) == ((x >> 6u8) & 1 == 1));
        assert(bit_of(p, m, st, 8 * j + 2) == ((x >> 5u8) & 1 == 1));
        assert(bit_of(p, m, st, 8 * j + 3) == ((x >> 4u8) & 1 == 1));
        assert(bit_of(p, m, st, 8 * j + 4) == ((x >> 3u8) & 1 == 1));
        assert(bit_of(p, m, st, 8 * j + 5) == ((x >> 2u8) & 1 == 1));
        assert(bit_of(p, m, st, 8 * j + 6) == ((x >> 1u8) & 1 == 1));
        assert(bit_of(p, m, st, 8 * j + 7) == ((x >> 0u8) & 1 == 1));
        reveal_with_fuel(bits_value, 9);
        assert(bits_value(p, m, st, 8 * j, 8) == x);
    }
    assert(frame_bytes(p, m, st, f.len()) =~= f);
}

proof fn lemma_correlation_bound(m: Seq<u16>, t: int)
    ensures
        0 <= correlation(m, t, 12) <= 499 * 65535,
{
    reveal_with_fuel(correlation, 13);
    assert forall|k: int, x: u16| 0 <= k < 12 implies 0 <= #[trigger] (tap(k) * x) <= tap(k) * 65535 by {
        assert(0 <= tap(k) * x <= tap(k) * 65535) by (nonlinear_arith)
            requires
                0 <= tap(k),
                0 <= x <= 65535,
        ;
    }
}

proof fn lemma_half_bound(p: Params, m: Seq<u16>, t: int)
    ensures
        0 <= half_level(p, m, t) <= 12 * 78 * 65535,
{
    lemma_energy_bound(m, t, t + 6);
    lemma_correlation_bound(m, t + p.tap0);
}

/// A bit is a one when the first half holds more than the second, and it is as sure as
/// they are apart.
pub proof fn law_bits_and_their_confidence(p: Params, m: Seq<u16>, st: int, b: int)
    ensures
        ({
            let (x, y) = (half_level(p, m, st + 96 + 12 * b), half_level(p, m, st + 96 + 12 * b + 6));
            &&& bit_of(p, m, st, b) <==> x > y
            &&& x >= y ==> confidence(p, m, st, b) == x - y
            &&& x < y ==> confidence(p, m, st, b) == y - x
        }),
{
    lemma_half_bound(p, m, st + 96 + 12 * b);
    lemma_half_bound(p, m, st + 102 + 12 * b);
}

/// How far apart the halves of the bits [from, to) are, summed.
pub open spec fn all_apart(p: Params, m: Seq<u16>, st: int, from: int, to: int) -> int
    decreases to - from,
{
    if to <= from {
        0
    } else {
        all_apart(p, m, st, from, to - 1) + confidence(p, m, st, to - 1)
    }
}

/// The full and the empty halves together hold all the energy of their bits, and they
/// differ by how far apart the halves of each bit are.
pub proof fn law_halves_share_the_energy(p: Params, m: Seq<u16>, st: int, from: int, to: int)
    requires
        from <= to,
    ensures
        p.slicer == Slicer::Box ==> on_energy(p, m, st, from, to) + off_energy(p, m, st, from, to) == energy(
            m,
            st + 96 + 12 * from,
            st + 96 + 12 * to,
        ),
        on_energy(p, m, st, from, to) - off_energy(p, m, st, from, to) == all_apart(p, m, st, from, to),
        on_energy(p, m, st, from, to) >= off_energy(p, m, st, from, to) >= 0,
    decreases to - from,
{
    if from < to {
        let t = st + 96 + 12 * (to - 1);
        law_halves_share_the_energy(p, m, st, from, to - 1);
        law_bits_and_their_confidence(p, m, st, to - 1);
        lemma_half_bound(p, m, t);
        lemma_half_bound(p, m, t + 6);
        lemma_energy_split(m, st + 96 + 12 * from, t, t + 6);
        lemma_energy_split(m, st + 96 + 12 * from, t + 6, t + 12);
    }
}

/// The pulse shape rises to the seventh tap and falls from there; over an even stream
/// every half has the same level, so that no bit is a one; and it goes with the stream.
pub proof fn law_matched_slicer_follows_the_pulse(p: Params, m: Seq<u16>, t: int, k: int, x: u16, j: int)
    requires
        p.slicer == Slicer::Matched,
    ensures
        0 <= k < 6 ==> 0 < tap(k) < tap(k + 1),
        6 <= k < 11 ==> tap(k) > tap(k + 1) > 0,
        0 <= t + p.tap0 && (forall|i: int|
            (t + p.tap0) / 5 <= i <= (t + p.tap0 + 11) / 5 ==> #[trigger] m[i] == x) ==> half_level(p, m, t) == 499
            * x / 20,
        t + p.tap0 + 12 <= 0 ==> half_level(p, m, t) == 0,
        0 <= j <= m.len() && 5 * j <= t + p.tap0 && t + p.tap0 + 12 <= 5 * m.len() ==> half_level(
            p,
            m.skip(j),
            t - 5 * j,
        ) == half_level(p, m, t),
{
    reveal_with_fuel(correlation, 13);
    let a = t + p.tap0;
    if 0 <= j <= m.len() && 5 * j <= a && a + 12 <= 5 * m.len() {
        assert forall|e: int| 0 <= e < 12 implies m.skip(j)[(#[trigger] (a - 5 * j + e)) / 5] == m[(a + e) / 5] by {
            assert((a - 5 * j + e) / 5 == (a + e) / 5 - j);
        }
        lemma_correlation_shift(m, a, j, 12);
    }
    if 0 <= a && forall|i: int| a / 5 <= i <= (a + 11) / 5 ==> #[trigger] m[i] == x {
        assert forall|e: int| 0 <= e < 12 implies #[trigger] m[(a + e) / 5] == x by {
            assert(a / 5 <= (a + e) / 5 <= (a + 11) / 5);
        }
        lemma_correlation_even(m, a, x, 12);
    }
}

proof fn lemma_correlation_shift(m: Seq<u16>, a: int, j: int, n: int)
    requires
        0 <= j <= m.len(),
        5 * j <= a,
        0 <= n <= 12,
        a + 12 <= 5 * m.len(),
    ensures
        correlation(m.skip(j), a - 5 * j, n) == correlation(m, a, n),
    decreases n,
{
    if n > 0 {
        lemma_correlation_shift(m, a, j, n - 1);
        assert((a - 5 * j + n - 1) / 5 == (a + n - 1) / 5 - j);
    }
}

proof fn lemma_correlation_even(m: Seq<u16>, a: int, x: u16, n: int)
    requires
        0 <= a,
        n == 12,
        forall|e: int| 0 <= e < 12 ==> #[trigger] m[(a + e) / 5] == x,
    ensures
        correlation(m, a, n) == 499 * x,
{
    reveal_with_fuel(correlation, 13);
    assert(m[(a + 0) / 5] == x && m[(a + 1) / 5] == x && m[(a + 2) / 5] == x && m[(a + 3) / 5] == x);
    assert(m[(a + 4) / 5] == x && m[(a + 5) / 5] == x && m[(a + 6) / 5] == x && m[(a + 7) / 5] == x);
    assert(m[(a + 8) / 5] == x && m[(a + 9) / 5] == x && m[(a + 10) / 5] == x && m[(a + 11) / 5] == x);
}

/// The pulse shape rises to its peak, of 78 hundredths, at its seventh step and falls from
/// there, nowhere to zero; its quarters add up to 44, 192, 205 and 58, with its middle
/// between the sixth step and the seventh.
pub proof fn law_pulse_rises_and_falls(j: int, k: int)
    requires
        0 <= j < k <= 11,
    ensures
        k <= 6 ==> tap(j) < tap(k),
        6 <= j ==> tap(j) > tap(k),
        tap(j) > 0 && tap(k) > 0,
        tap(6) == 78,
        tap(0) + tap(1) + tap(2) == 44,
        tap(3) + tap(4) + tap(5) == 192,
        tap(6) + tap(7) + tap(8) == 205,
        tap(9) + tap(10) + tap(11) == 58,
        5 * 499 < tap(1) + 2 * tap(2) + 3 * tap(3) + 4 * tap(4) + 5 * tap(5) + 6 * tap(6) + 7 * tap(7) + 8 * tap(8)
            + 9 * tap(9) + 10 * tap(10) + 11 * tap(11) < 6 * 499,
{
}

} // verus!
