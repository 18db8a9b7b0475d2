//! The frames of a run come in the order of the stream, one after the other.

use crate::demod::{
    Attempt, FrameView, LONG_SAMPLES, Scan, State, Stats, Tries, after_decode, attempted, best_decode,
    block_end, decoded, entered, lemma_step_moves, looked, refined, retried, run_of, scan_end, scanned,
    span_of, stepped, tried, unhappy,
};
use crate::demod_laws::{law_decode_is_sound, lemma_refined};
use crate::params::Params;
use crate::preamble::{Hit, fine_at, larger};
use vstd::prelude::*;

verus! {

/// A candidate is retried at most `back` fifths before it and `ahead` after it.
pub open spec fn retries_within(p: Params, back: int, ahead: int) -> bool {
    &&& 0 <= back <= 128
    &&& 0 <= ahead <= 18
    &&& forall|k: int| 0 <= k < p.retry_offsets@.len() ==> -back <= #[trigger] p.retry_offsets@[k] <= ahead
}

/// Where the frame `f` ends in the stream, in fifths: the whole samples from the
/// one it starts in.
pub open spec fn end_of(f: FrameView) -> int {
    5 * (f.start as int / 5 + span_of(f.bytes.len() as int))
}

spec fn near(t: Tries, start0: int, back: int, ahead: int) -> bool {
    &&& 0 <= t.start
    &&& start0 - back <= t.start <= start0 + ahead
    &&& t.best matches Some((f, n)) ==> f.len() == 7 || f.len() == 14
}

proof fn lemma_retried_near(t: Tries, p: Params, m: Seq<u16>, start0: int, k: int, back: int, ahead: int)
    requires
        retries_within(p, back, ahead),
        near(t, start0, back, ahead),
    ensures
        near(retried(t, p, m, start0, k), start0, back, ahead),
    decreases p.retry_offsets@.len() - k,
{
    if 0 <= k < p.retry_offsets@.len() {
        let d = p.retry_offsets@[k] as int;
        assert(near(tried(t, p, m, start0, d), start0, back, ahead)) by {
            reveal(tried);
            law_decode_is_sound(p, t.s.known, t.s.now, m, start0 + d);
        }
        lemma_retried_near(tried(t, p, m, start0, d), p, m, start0, k + 1, back, ahead);
    }
}

proof fn lemma_best_near(s: State, p: Params, m: Seq<u16>, start0: int, back: int, ahead: int)
    requires
        retries_within(p, back, ahead),
        0 <= start0,
    ensures
        near(best_decode(s, p, m, start0), start0, back, ahead),
{
    reveal(best_decode);
    law_decode_is_sound(p, s.known, s.now, m, start0);
    let d = decoded(p, s.known, s.now, m, start0);
    let s1 = after_decode(s, p, m, start0);
    if unhappy(s1, d) && p.retry_offsets@.len() > 0 {
        let s2 = State {
            stats: Stats { retries: s1.stats.retries.wrapping_add(1), ..s1.stats },
            ..s1
        };
        let t0 = Tries {
            s: s2,
            best: d,
            start: start0,
            fixed: match d {
                Some((_, n)) => n as int,
                None => 255,
            },
            done: false,
        };
        lemma_retried_near(t0, p, m, start0, 0, back, ahead);
    }
}

/// The attempt `a` emits a frame that starts between `lo` and `hi` fifths, if any,
/// and goes on from its end.
spec fn placed(a: Attempt, base: int, lo: int, hi: int) -> bool {
    a.frame matches Some(f) ==> {
        &&& f.bytes.len() == 7 || f.bytes.len() == 14
        &&& 5 * base <= f.start
        &&& lo <= f.start <= hi
        &&& end_of(f) == 5 * (base + a.next)
    }
}

proof fn lemma_attempt_placed(
    s: State,
    p: Params,
    m: Seq<u16>,
    base: int,
    hit: Hit,
    i: int,
    back: int,
    ahead: int,
)
    requires
        retries_within(p, back, ahead),
        0 <= base,
        0 <= i,
        hit.start <= 5 * m.len(),
        5 * (base + m.len()) + 3000 <= u64::MAX,
    ensures
        placed(
            attempted(s, p, m, base, hit, i),
            base,
            5 * base + hit.start - back,
            5 * base + hit.start + ahead,
        ),
{
    reveal(attempted);
    let s1 = State {
        stats: Stats { decodes: s.stats.decodes.wrapping_add(1), ..s.stats },
        now: (base + hit.start as int / 5) as u64,
        ..s
    };
    lemma_best_near(s1, p, m, hit.start as int, back, ahead);
    let t = best_decode(s1, p, m, hit.start as int);
    assert((5 * base + t.start) / 5 == base + t.start / 5);
}

proof fn lemma_looked_placed(
    s: State,
    p: Params,
    m: Seq<u16>,
    base: int,
    i: int,
    block_end: int,
    back: int,
    ahead: int,
)
    requires
        retries_within(p, back, ahead),
        0 <= base,
        0 <= i < block_end <= scan_end(m),
        5 * (base + m.len()) + 3000 <= u64::MAX,
    ensures
        placed(
            looked(s, p, m, base, i, block_end),
            base,
            5 * (base + i) - 2 - back,
            5 * (base + scan_end(m)) - 3 + ahead,
        ),
{
    reveal(looked);
    if let Some(h) = fine_at(m, i, p.preamble_ratio, p.pulse_uniformity) {
        let s1 = State {
            stats: Stats { precheck_hits: s.stats.precheck_hits.wrapping_add(1), ..s.stats },
            ..s
        };
        let s2 = State {
            stats: Stats { preamble_hits: s1.stats.preamble_hits.wrapping_add(1), ..s1.stats },
            ..s1
        };
        lemma_refined(p, m, i, block_end, h);
        lemma_attempt_placed(s2, p, m, base, refined(p, m, i, block_end, h), i, back, ahead);
    }
}

/// `f` comes before `g`: it starts earlier, and ends no more than `slack` fifths
/// after `g` starts.
pub open spec fn precedes(f: FrameView, g: FrameView, slack: int) -> bool {
    f.start < g.start && end_of(f) <= g.start + slack
}

/// Every frame of `out` comes before those behind it.
pub open spec fn one_after_the_other(out: Seq<FrameView>, slack: int) -> bool {
    forall|i: int, j: int| 0 <= i < j < out.len() ==> precedes(#[trigger] out[i], #[trigger] out[j], slack)
}

spec fn lined_up(c: Scan, m: Seq<u16>, base: int, back: int, ahead: int) -> bool {
    &&& 0 <= c.i
    &&& c.sub <= c.i
    &&& one_after_the_other(c.out, 2 + back)
    &&& forall|k: int|
        0 <= k < c.out.len() ==> {
            &&& (#[trigger] c.out[k]).bytes.len() == 7 || c.out[k].bytes.len() == 14
            &&& 5 * base <= c.out[k].start <= 5 * (base + scan_end(m)) - 3 + ahead
            &&& end_of(c.out[k]) <= 5 * (base + c.i)
        }
}

proof fn lemma_step_lined_up(c: Scan, p: Params, m: Seq<u16>, base: int, back: int, ahead: int)
    requires
        retries_within(p, back, ahead),
        0 <= base,
        5 * (base + m.len()) + 3000 <= u64::MAX,
        c.i < scan_end(m),
        lined_up(c, m, base, back, ahead),
    ensures
        lined_up(stepped(c, p, m, base), m, base, back, ahead),
{
    let e = entered(c, m);
    let a = looked(e.s, p, m, base, e.i, block_end(m, e.sub));
    let d = stepped(c, p, m, base);
    reveal(stepped);
    lemma_looked_placed(e.s, p, m, base, e.i, block_end(m, e.sub), back, ahead);
    if let Some(f) = a.frame {
        let n = c.out.len() as int;
        assert(d.out[n] == f);
        assert forall|i: int, j: int| 0 <= i < j < d.out.len() implies precedes(
            #[trigger] d.out[i],
            #[trigger] d.out[j],
            2 + back,
        ) by {
            assert(d.out[i] == c.out[i]);
            if j < n {
                assert(d.out[j] == c.out[j]);
            }
        }
        assert forall|k: int| 0 <= k < d.out.len() implies {
            &&& (#[trigger] d.out[k]).bytes.len() == 7 || d.out[k].bytes.len() == 14
            &&& 5 * base <= d.out[k].start <= 5 * (base + scan_end(m)) - 3 + ahead
            &&& end_of(d.out[k]) <= 5 * (base + d.i)
        } by {
            if k < n {
                assert(d.out[k] == c.out[k]);
            }
        }
    } else {
        assert(d.out == c.out);
    }
}

proof fn lemma_scan_lined_up(c: Scan, p: Params, m: Seq<u16>, base: int, back: int, ahead: int)
    requires
        retries_within(p, back, ahead),
        0 <= base,
        5 * (base + m.len()) + 3000 <= u64::MAX,
        lined_up(c, m, base, back, ahead),
    ensures
        lined_up(scanned(c, p, m, base), m, base, back, ahead),
    decreases larger(scan_end(m) - c.i, 0),
{
    if c.i < scan_end(m) {
        lemma_step_lined_up(c, p, m, base, back, ahead);
        lemma_step_moves(c, p, m, base);
        lemma_scan_lined_up(stepped(c, p, m, base), p, m, base, back, ahead);
    }
}

/// The frames of a run come in the order of the stream. Each starts after the one
/// before it has ended, but for the two phases by which a candidate is refined and
/// the fifths by which it is retried earlier. None starts in the last samples,
/// where the longest frame would not fit, but for the fifths by which a candidate
/// is retried later.
pub proof fn law_frames_come_one_after_the_other(
    s: State,
    p: Params,
    m: Seq<u16>,
    base: int,
    back: int,
    ahead: int,
)
    requires
        retries_within(p, back, ahead),
        0 <= base,
        5 * (base + m.len()) + 3000 <= u64::MAX,
    ensures
        one_after_the_other(run_of(s, p, m, base).1, 2 + back),
        forall|k: int|
            0 <= k < run_of(s, p, m, base).1.len() ==> 5 * base <= (#[trigger] run_of(
                s,
                p,
                m,
                base,
            ).1[k]).start <= 5 * (base + scan_end(m)) - 3 + ahead,
{
    if m.len() >= LONG_SAMPLES + 2 {
        let s1 = State {
            stats: Stats { samples: s.stats.samples.wrapping_add(scan_end(m) as u64), ..s.stats },
            ..s
        };
        let c = Scan { s: s1, i: 0, sub: -1, out: Seq::<FrameView>::empty() };
        lemma_scan_lined_up(c, p, m, base, back, ahead);
    }
}

} // verus!
