//! What a subtraction uncovers: which spans are looked at again, how far around them,
//! and that a frame underneath is found there.

use crate::collide::{
    Progress, first_of, is_wanted, law_merge_adds_what_is_new, merged, next_wanted, rescanned, seen,
    settled_by, size_of, window, with_rescans,
};
use crate::demod::{
    FrameView, State, format_of, frame_len, gap_hot, is_collision, noted, off_hot, relaxed, run_of,
};
use crate::demod_laws::is_genuine;
use crate::intake::refreshed;
use crate::iq::magnitude_of;
use crate::params::{Params, Slicer};
use crate::reception::{holds, law_lone_frame_is_received, law_strong_preamble_is_clear, lit};
use vstd::prelude::*;

verus! {

/// `out` holds the frame `f`, starting at `start`.
pub open spec fn has_frame(out: Seq<FrameView>, start: int, f: Seq<u8>) -> bool {
    exists|k: int| 0 <= k < out.len() && (#[trigger] out[k]).start == start && out[k].bytes == f
}

/// A rescan finds a frame that overlaps the span, at either end: one that the samples now
/// hold, with pulses that add five thirds of the noise floor at the least, is among the
/// frames, at the time at which it was sent, however strict the settings of a plain run
/// are. It starts in the span or up to the length of the longest frame before it.
pub proof fn law_rescan_finds_what_overlaps(
    s: State,
    p: Params,
    out: Seq<FrameView>,
    m: Seq<u16>,
    base: int,
    from: int,
    len: int,
    st: int,
    f: Seq<u8>,
    floor: int,
    step: int,
)
    requires
        holds(m, st, f, floor, step),
        0 <= floor <= 3 * step,
        9 <= step,
        p.slicer == Slicer::Box,
        p.pulse_uniformity == 0,
        p.phase_span >= 2,
        f.len() == frame_len(format_of(f)),
        is_genuine(s.known, f, (base + st / 5) as u64),
        0 <= base,
        0 <= st,
        5 * (base + m.len()) + 3000 <= u64::MAX,
        0 <= from,
        3 <= len <= 294,
        from + len <= m.len(),
        294 <= m.len(),
        from - 291 <= st / 5 < from + len,
        st / 5 + 1 < m.len() - 291,
    ensures
        has_frame(rescanned(s, p, out, m, base, from, len).1, 5 * base + st, f),
{
    let (lo, hi) = window(from, len, m.len() as int)->0;
    assert(window(from, len, m.len() as int) == Some((lo, hi)));
    assert(0 <= lo <= st / 5 && hi <= m.len() && st / 5 + 1 < hi - 291);
    let sub = m.subrange(lo, hi);
    let (q, t) = (relaxed(p), st - 5 * lo);
    assert(holds(sub, t, f, floor, step)) by {
        assert forall|j: int| 0 <= j < sub.len() implies #[trigger] sub[j] == floor + step * lit(f, 5 * j - t) by {
            assert(sub[j] == m[lo + j]);
            assert(5 * (lo + j) - st == 5 * j - t);
        }
    }
    assert(t / 5 == st / 5 - lo && t % 5 == st % 5);
    law_strong_preamble_is_clear(q, sub, t, f, floor, step);
    law_lone_frame_is_received(s, q, sub, base + lo, t, f, floor, step);
    let found = run_of(s, q, sub, base + lo).1;
    let all = merged(out, found, found.len() as int);
    law_merge_adds_what_is_new(out, found, found.len() as int);
    assert(seen(all, found[0]));
    let k = choose|k: int|
        0 <= k < all.len() && (#[trigger] all[k]).start == found[0].start && all[k].bytes == found[0].bytes;
    assert(all[k].start == 5 * base + st);
}

/// Once a subtraction has removed three tenths of the energy of a frame, a frame that was
/// underneath it is found: one that the magnitudes show after those of the span are taken
/// anew from the raw samples, the others being what they were. After a subtraction that
/// removed less, nothing is found and no magnitude changes.
pub proof fn law_subtraction_uncovers_a_frame(
    g: Progress,
    p: Params,
    base: int,
    from: int,
    len: int,
    removed: i32,
    m: Seq<u16>,
    st: int,
    f: Seq<u8>,
    floor: int,
    step: int,
)
    requires
        m.len() == g.mag.len(),
        forall|k: int|
            0 <= k < m.len() ==> #[trigger] m[k] == if from <= k < from + len {
                magnitude_of(g.raw[2 * k], g.raw[2 * k + 1])
            } else {
                g.mag[k]
            },
        holds(m, st, f, floor, step),
        0 <= floor <= 3 * step,
        9 <= step,
        p.slicer == Slicer::Box,
        p.pulse_uniformity == 0,
        p.phase_span >= 2,
        f.len() == frame_len(format_of(f)),
        is_genuine(g.s.known, f, (base + st / 5) as u64),
        0 <= base,
        0 <= st,
        5 * (base + m.len()) + 3000 <= u64::MAX,
        0 <= from,
        3 <= len <= 294,
        from + len <= m.len(),
        294 <= m.len(),
        from - 291 <= st / 5 < from + len,
        st / 5 + 1 < m.len() - 291,
    ensures
        removed >= 300_000 ==> has_frame(
            settled_by(g, p, base, from, len, removed).out,
            5 * base + st,
            f,
        ),
        removed >= 300_000 ==> settled_by(g, p, base, from, len, removed).mag == m,
        removed < 300_000 ==> settled_by(g, p, base, from, len, removed).out == g.out,
        removed < 300_000 ==> settled_by(g, p, base, from, len, removed).mag == g.mag,
{
    let s = State { stats: noted(g.s.stats, removed), ..g.s };
    assert(refreshed(g.mag, g.raw, from, len) =~= m);
    law_rescan_finds_what_overlaps(s, p, g.out, m, base, from, len, st, f, floor, step);
}

/// A rescan looks at every start at which the longest frame would overlap the span, as far
/// as the samples go: it has the length of such a frame before the span and after it, and
/// 24 samples more. There is none where fewer than 294 samples are at hand.
pub proof fn law_window_reaches_around_the_span(from: int, len: int, samples: int)
    requires
        0 <= from,
        3 <= len,
        from + len <= samples,
    ensures
        window(from, len, samples) is Some <==> samples >= 294,
        window(from, len, samples) matches Some((lo, hi)) ==> {
            &&& 0 <= lo <= from
            &&& lo == from - 291 || lo == 0 && from <= 291
            &&& from + len <= hi <= samples
            &&& hi == from + len + 291 + 24 || hi == samples && samples <= from + len + 291 + 24
        },
{
}

/// The span of a frame begins two samples before the one it starts in, or with the first
/// sample, and reaches past its end, or to the last sample: it has six samples more than
/// the frame fills.
pub proof fn law_span_covers_its_frame(f: FrameView, base: int, samples: int)
    requires
        f.start >= 5 * base,
        (f.start - 5 * base) / 5 < samples,
    ensures
        ({
            let (from, len) = (first_of(f, base, samples), size_of(f, base, samples));
            let at = f.start - 5 * base;
            &&& 0 <= from && from + len <= samples
            &&& from == at / 5 - 2 || from == 0 && at / 5 <= 2
            &&& 5 * (from + len) >= at + 96 + 96 * f.bytes.len() || from + len == samples
            &&& 5 * (len - 6) <= 96 + 96 * f.bytes.len()
            &&& 96 + 96 * f.bytes.len() < 5 * (len - 5) || from + len == samples
        }),
{
}

proof fn lemma_scaled(a: int, b: int, n: int)
    by (nonlinear_arith)
    requires
        n > 0,
    ensures
        n * a >= n * b <==> a >= b,
{
}

/// The gaps of a frame are hot when they hold `cancel_gap_ratio` 256ths of what is
/// expected there, `e`: the mean of the samples around and 0.3 of the frame's own level.
pub proof fn law_hot_gaps_hold_more_than_expected(s: State, p: Params, f: FrameView, e: int)
    requires
        s.block_len > 0,
        10 * (s.block_len * e) == 10 * 396 * s.block_sum + 3 * (f.signal * s.block_len),
    ensures
        gap_hot(s, p, f) <==> p.cancel_gap_ratio > 0 && 256 * f.gap >= p.cancel_gap_ratio * e,
{
    let (gap, n, r) = (f.gap as int, s.block_len as int, p.cancel_gap_ratio as int);
    assert(gap * n * 2560 == (10 * n) * (256 * gap)) by (nonlinear_arith);
    assert(r * (10 * (n * e)) == (10 * n) * (r * e)) by (nonlinear_arith);
    lemma_scaled(256 * gap, r * e, 10 * n);
}

/// The empty half bits of a frame are hot when they hold `cancel_off_ratio` 256ths of the
/// energy of the full ones, and `cancel_gap_ratio` 256ths, once at the least, of what is
/// expected there, `e` in parts of 7920: the mean of the samples around and 0.35 of the
/// frame's own level, over half bits of six fifths.
pub proof fn law_hot_half_bits_hold_more_than_expected(s: State, p: Params, f: FrameView, e: int)
    requires
        s.block_len > 0,
        f.on > 0,
        s.block_len * e == 7920 * s.block_sum + 7 * (f.signal * s.block_len),
    ensures
        off_hot(s, p, f) <==> {
            &&& p.cancel_off_ratio > 0
            &&& 256 * f.off >= p.cancel_off_ratio * f.on
            &&& 256 * (7920 * f.off) >= 256 * (6 * f.summed * e)
            &&& 256 * (7920 * f.off) >= p.cancel_gap_ratio * (6 * f.summed * e)
        },
{
    let (off, n, r, k) = (
        f.off as int,
        s.block_len as int,
        if p.cancel_gap_ratio > 256 { p.cancel_gap_ratio as int } else { 256 },
        f.summed as int,
    );
    assert(off * n * 2027520 == n * (256 * (7920 * off))) by (nonlinear_arith);
    assert(r * (6 * k * (n * e)) == n * (r * (6 * k * e))) by (nonlinear_arith);
    lemma_scaled(256 * (7920 * off), r * (6 * k * e), n);
    let x = 6 * k * e;
    assert(0 <= x) by (nonlinear_arith)
        requires
            x == 6 * k * e,
            k >= 0,
            n * e >= 0,
            n > 0,
    ;
    assert(7920 * s.block_sum + 7 * (f.signal * s.block_len) >= 0) by (nonlinear_arith)
        requires
            s.block_sum >= 0,
            f.signal >= 0,
            s.block_len >= 0,
    ;
    assert(p.cancel_gap_ratio <= 256 ==> p.cancel_gap_ratio * x <= 256 * x) by (nonlinear_arith)
        requires
            x >= 0,
    ;
    assert(p.cancel_gap_ratio >= 256 ==> p.cancel_gap_ratio * x >= 256 * x) by (nonlinear_arith)
        requires
            x >= 0,
    ;
}

/// A frame is subtracted when it needed repair, when its gaps or its empty half bits are
/// hot, or when no limit is set; and only if it starts in the samples at hand. One that
/// holds more energy besides its own, and is alike otherwise, is subtracted too.
pub proof fn law_frames_to_subtract(s: State, p: Params, f: FrameView, hotter: FrameView, base: int)
    requires
        hotter.start == f.start,
        hotter.fixed == f.fixed,
        hotter.signal == f.signal,
        hotter.on == f.on,
        hotter.summed == f.summed,
        hotter.gap >= f.gap,
        hotter.off >= f.off,
    ensures
        f.fixed > 0 && f.start >= 5 * base ==> is_wanted(s, p, f, base),
        f.start < 5 * base ==> !is_wanted(s, p, f, base),
        is_collision(s, p, f) ==> is_collision(s, p, hotter),
        f.fixed == 0 && !gap_hot(s, p, f) && !off_hot(s, p, f) && (p.cancel_gap_ratio > 0 || p.cancel_off_ratio
            > 0) ==> !is_wanted(s, p, f, base),
{
    let (a, b, c, d, n) = (
        f.gap as int,
        hotter.gap as int,
        f.off as int,
        hotter.off as int,
        s.block_len as int,
    );
    assert(a * n * 2560 <= b * n * 2560) by (nonlinear_arith)
        requires
            a <= b,
            n >= 0,
    ;
    assert(c * n * 2027520 <= d * n * 2027520) by (nonlinear_arith)
        requires
            c <= d,
            n >= 0,
    ;
}

/// A rescan asks 1.3 of the pulses, as near as 256ths go, against the gaps, lets six gap
/// samples exceed them, and keeps every other setting.
pub proof fn law_rescan_relaxes_the_tests(p: Params)
    ensures
        ({
            let q = relaxed(p);
            &&& 10 * q.preamble_ratio <= 13 * 256 < 10 * (q.preamble_ratio + 1)
            &&& q.precheck_ratio == q.preamble_ratio
            &&& q.gap_spikes == 6
            &&& (Params {
                precheck_ratio: p.precheck_ratio,
                preamble_ratio: p.preamble_ratio,
                gap_spikes: p.gap_spikes,
                ..q
            }) == p
        }),
{
}

/// The frame to subtract next is the first one wanted from where the recovery stands:
/// none is passed over that is.
pub proof fn law_wanted_frames_come_up_in_turn(
    s: State,
    p: Params,
    out: Seq<FrameView>,
    base: int,
    at: int,
    j: int,
)
    requires
        0 <= at <= out.len(),
    ensures
        ({
            let k = next_wanted(s, p, out, base, at);
            &&& at <= k <= out.len()
            &&& k < out.len() ==> is_wanted(s, p, out[k], base)
            &&& at <= j < k ==> !is_wanted(s, p, out[j], base)
        }),
    decreases out.len() - at,
{
    if at < out.len() && !is_wanted(s, p, out[at], base) {
        law_wanted_frames_come_up_in_turn(s, p, out, base, at + 1, j);
    }
}

/// A rescan counts every frame that it adds, and nothing else.
pub proof fn law_rescans_are_counted(s: State, n: int)
    requires
        0 <= n,
        s.stats.rescan_frames + n <= u64::MAX,
    ensures
        with_rescans(s, n).stats.rescan_frames == s.stats.rescan_frames + n,
        with_rescans(s, n).stats.frames == s.stats.frames,
        with_rescans(s, n).stats.cancelled == s.stats.cancelled,
        with_rescans(s, n).known == s.known,
    decreases n,
{
    if n > 0 {
        law_rescans_are_counted(s, n - 1);
    }
}

} // verus!
