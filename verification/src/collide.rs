//! Collision recovery: after an accepted frame the frame is subtracted from
//! the raw samples and its span rescanned once for a frame that was underneath
//! it. What is decided here is which frames to subtract, what to rescan, and
//! what becomes of the frames found; the subtraction itself is done outside.

use crate::demod::{
    Demodulator, Frame, FrameView, LONG_SAMPLES, State, Stats, frames_of, is_collision, noted,
    relaxed, run_of, span_of,
};
use crate::intake::{Intake, refreshed};
use crate::iq::MagLut;
use crate::params::Params;
use crate::preamble::smaller;
use vstd::prelude::*;
use vstd::slice::slice_subrange;

verus! {

/// A recovery in progress: the frames so far, and which to look at next.
pub struct Recovery {
    pub out: Vec<Frame>,
    pub at: usize,
}

/// A frame to subtract.
pub struct Target {
    /// Where it stands among the frames.
    pub index: usize,
    /// Its start in the samples at hand, in fifths.
    pub start: u64,
    /// The first sample of its span, two before its start, and how many
    /// samples the span has: the frame and six more, as far as they go.
    pub from: usize,
    pub len: usize,
}

/// The frame `f` is to be subtracted from samples whose first is `base` in the
/// stream.
pub open spec fn is_wanted(s: State, p: Params, f: FrameView, base: int) -> bool {
    f.start >= 5 * base && is_collision(s, p, f)
}

/// The first sample of the span of a frame at `start` fifths.
pub open spec fn span_from(start: int) -> int {
    if start / 5 >= 2 { start / 5 - 2 } else { 0 }
}

/// How many of `len` samples the span of a frame of `n` bytes at `start` has.
pub open spec fn span_len(start: int, n: int, len: int) -> int {
    let from = span_from(start);
    if from >= len {
        0
    } else if span_of(n) + 6 < len - from {
        span_of(n) + 6
    } else {
        len - from
    }
}

/// The first sample of the span of the frame `f`, of `len` samples whose first is
/// `base` in the stream.
pub open spec fn first_of(f: FrameView, base: int, len: int) -> int {
    smaller(span_from(f.start - 5 * base), len)
}

/// How many samples the span of the frame `f` has.
pub open spec fn size_of(f: FrameView, base: int, len: int) -> int {
    span_len(f.start - 5 * base, f.bytes.len() as int, len)
}

/// `f` was found before: a frame of `out` starts where it does and has its
/// bytes.
pub open spec fn seen(out: Seq<FrameView>, f: FrameView) -> bool {
    exists|k: int| 0 <= k < out.len() && (#[trigger] out[k]).start == f.start && out[k].bytes == f.bytes
}

/// `out` with those of the first `n` frames of `found` that were not found
/// before.
pub open spec fn merged(out: Seq<FrameView>, found: Seq<FrameView>, n: int) -> Seq<FrameView>
    decreases n,
{
    if n <= 0 {
        out
    } else {
        let rest = merged(out, found, n - 1);
        if seen(rest, found[n - 1]) {
            rest
        } else {
            rest.push(found[n - 1])
        }
    }
}

/// The window rescanned around a span of `len` samples from `from`, where the
/// samples leave room for one.
pub open spec fn window(from: int, len: int, samples: int) -> Option<(int, int)> {
    let lo = if from >= LONG_SAMPLES { from - LONG_SAMPLES } else { 0 };
    let far = from + len + LONG_SAMPLES + 24;
    let hi = if far < samples { far } else { samples };
    if hi <= lo + LONG_SAMPLES + 2 {
        None
    } else {
        Some((lo, hi))
    }
}

/// The counters after `n` frames found by a rescan.
pub open spec fn with_rescans(s: State, n: int) -> State
    decreases n,
{
    if n <= 0 {
        s
    } else {
        let t = with_rescans(s, n - 1);
        State {
            stats: Stats { rescan_frames: t.stats.rescan_frames.wrapping_add(1), ..t.stats },
            ..t
        }
    }
}

/// What a rescan of the span of a target leaves: the state, and the frames.
pub open spec fn rescanned(
    s: State,
    p: Params,
    out: Seq<FrameView>,
    m: Seq<u16>,
    base: int,
    from: int,
    len: int,
) -> (State, Seq<FrameView>) {
    match window(from, len, m.len() as int) {
        None => (s, out),
        Some((lo, hi)) => {
            let (after, found) = run_of(s, relaxed(p), m.subrange(lo, hi), base + lo);
            let all = merged(out, found, found.len() as int);
            (with_rescans(after, all.len() - out.len()), all)
        },
    }
}

/// The next frame to subtract, from `at` on; as many as there are if there is none.
pub open spec fn next_wanted(s: State, p: Params, out: Seq<FrameView>, base: int, at: int) -> int
    decreases out.len() - at,
{
    if at < 0 || at >= out.len() || is_wanted(s, p, out[at], base) {
        at
    } else {
        next_wanted(s, p, out, base, at + 1)
    }
}

/// A recovery as a value: the state, the frames so far and which to look at next,
/// and the samples, raw and as magnitudes.
pub struct Progress {
    pub s: State,
    pub out: Seq<FrameView>,
    pub at: int,
    pub raw: Seq<u8>,
    pub mag: Seq<u16>,
}

/// What there is to recover from: the frames of a plain run, all still to be looked
/// at, or none where recovery is off.
pub open spec fn begun(s: State, p: Params, raw: Seq<u8>, mag: Seq<u16>, base: int) -> Progress {
    let (after, out) = run_of(s, p, mag, base);
    Progress {
        s: after,
        out,
        at: if p.cancel {
            0
        } else {
            out.len() as int
        },
        raw,
        mag,
    }
}

/// A frame whose span has `len` samples from `from` on has been subtracted from the
/// raw samples, and `removed` millionths of its energy with it: where that was
/// enough, the magnitudes of the span are taken anew and it is rescanned.
pub open spec fn settled_by(
    g: Progress,
    p: Params,
    base: int,
    from: int,
    len: int,
    removed: i32,
) -> Progress {
    let s = State { stats: noted(g.s.stats, removed), ..g.s };
    if removed < 300_000 {
        Progress { s, ..g }
    } else {
        let mag = refreshed(g.mag, g.raw, from, len);
        let (after, out) = rescanned(s, p, g.out, mag, base, from, len);
        Progress { s: after, out, mag, ..g }
    }
}

/// Starts never go back.
pub open spec fn in_order(out: Seq<FrameView>) -> bool {
    forall|i: int, j: int| 0 <= i <= j < out.len() ==> (#[trigger] out[i]).start <= (#[trigger] out[j]).start
}

/// The frames of `out` that start at `t`, as they come.
pub open spec fn starting(out: Seq<FrameView>, t: u64) -> Seq<FrameView> {
    out.filter(|f: FrameView| f.start == t)
}

/// `res` holds the frames of `out` by their starts, equal starts as they came.
pub open spec fn is_ordering_of(res: Seq<FrameView>, out: Seq<FrameView>) -> bool {
    &&& in_order(res)
    &&& forall|t: u64| #[trigger] starting(res, t) == starting(out, t)
}

proof fn lemma_starting_adds(a: Seq<FrameView>, b: Seq<FrameView>, t: u64)
    ensures
        starting(a + b, t) == starting(a, t) + starting(b, t),
    decreases b.len(),
{
    reveal(Seq::filter);
    if b.len() == 0 {
        assert(a + b =~= a);
        assert(starting(a, t) + starting(b, t) =~= starting(a, t));
    } else {
        let c = b.drop_last();
        lemma_starting_adds(a, c, t);
        assert((a + b).drop_last() =~= a + c);
        assert((a + b).last() == b.last());
        assert(starting(a + b, t) =~= starting(a, t) + starting(b, t));
    }
}

proof fn lemma_none_start(a: Seq<FrameView>, t: u64)
    requires
        forall|j: int| 0 <= j < a.len() ==> (#[trigger] a[j]).start != t,
    ensures
        starting(a, t) == Seq::<FrameView>::empty(),
    decreases a.len(),
{
    reveal(Seq::filter);
    if a.len() > 0 {
        lemma_none_start(a.drop_last(), t);
        assert(a.last() == a[a.len() - 1]);
    }
}

/// Moving the last frame of `rest` into `out`, past frames that start before
/// it, changes no group of frames with equal starts.
proof fn lemma_move_over(rest: Seq<FrameView>, out: Seq<FrameView>, f: FrameView, k: int, t: u64)
    requires
        0 <= k <= out.len(),
        forall|j: int| 0 <= j < k ==> (#[trigger] out[j]).start < f.start,
    ensures
        starting(rest + out.insert(k, f), t) == starting(rest.push(f) + out, t),
{
    let (a, b, one) = (out.take(k), out.skip(k), seq![f]);
    assert(out.insert(k, f) =~= a + (one + b));
    assert(out =~= a + b);
    assert(rest.push(f) =~= rest + one);
    lemma_starting_adds(rest, a + (one + b), t);
    lemma_starting_adds(a, one + b, t);
    lemma_starting_adds(one, b, t);
    lemma_starting_adds(rest + one, a + b, t);
    lemma_starting_adds(rest, one, t);
    lemma_starting_adds(a, b, t);
    if t == f.start {
        lemma_none_start(a, t);
    } else {
        lemma_none_start(one, t);
    }
    assert(starting(rest + out.insert(k, f), t) =~= starting(rest.push(f) + out, t));
}

/// Whether two byte strings are equal.
fn same_bytes(a: &Vec<u8>, b: &Vec<u8>) -> (same: bool)
    ensures
        same == (a@ == b@),
{
    if a.len() != b.len() {
        return false;
    }
    for k in 0..a.len()
        invariant
            a@.len() == b@.len(),
            forall|j: int| 0 <= j < k ==> a@[j] == b@[j],
    {
        if a[k] != b[k] {
            return false;
        }
    }
    assert(a@ =~= b@);
    true
}

/// Whether `f` was found before.
fn is_seen(out: &Vec<Frame>, f: &Frame) -> (yes: bool)
    ensures
        yes == seen(frames_of(out@), f@),
{
    for k in 0..out.len()
        invariant
            forall|j: int|
                0 <= j < k ==> !((#[trigger] frames_of(out@)[j]).start == f@.start && frames_of(out@)[j].bytes
                    == f@.bytes),
    {
        assert(frames_of(out@)[k as int] == out@[k as int]@);
        if out[k].start == f.start && same_bytes(&out[k].bytes, &f.bytes) {
            return true;
        }
    }
    false
}

impl Recovery {
    /// Where this recovery stands, with a demodulator in state `s` and the samples
    /// of `w`.
    pub open spec fn progress(&self, s: State, w: Intake) -> Progress {
        Progress {
            s,
            out: frames_of(self.out@),
            at: self.at as int,
            raw: w.raw@,
            mag: w.mag@,
        }
    }

    /// Begin with frames that are all still to be looked at.
    pub fn new(out: Vec<Frame>) -> (r: Recovery)
        ensures
            r.out == out,
            r.at == 0,
    {
        Recovery { out, at: 0 }
    }

    /// Begin with a plain run over the samples of `w`. Where recovery is off, no
    /// frame is left to look at.
    pub fn begin(d: &mut Demodulator, w: &Intake) -> (r: Recovery)
        requires
            old(d).wf(),
            5 * (w.base + w.mag@.len()) + 3000 <= u64::MAX,
        ensures
            final(d).wf(),
            final(d).params() == old(d).params(),
            r.at <= r.out@.len(),
            r.progress(final(d).state(), *w) == begun(
                old(d).state(),
                old(d).params(),
                w.raw@,
                w.mag@,
                w.base as int,
            ),
    {
        let mut r: Recovery = Recovery::new(d.run(w.mag.as_slice(), w.base));
        if !d.recovers() {
            r.at = r.out.len();
        }
        r
    }

    /// The next frame to subtract from `len` samples whose first is `base` in
    /// the stream.
    pub fn next_target(&mut self, d: &Demodulator, base: u64, len: usize) -> (t: Option<Target>)
        requires
            5 * base <= u64::MAX,
            old(self).at <= old(self).out@.len(),
        ensures
            final(self).out == old(self).out,
            ({
                let out = frames_of(old(self).out@);
                let k = next_wanted(d.state(), d.params(), out, base as int, old(self).at as int);
                match t {
                    Some(t) => {
                        &&& t.index == k
                        &&& k < out.len()
                        &&& final(self).at == k + 1
                        &&& t.start == out[k].start - 5 * base
                        &&& t.from == first_of(out[k], base as int, len as int)
                        &&& t.len == size_of(out[k], base as int, len as int)
                    },
                    None => k == out.len() && final(self).at == k,
                }
            }),
    {
        let n: usize = self.out.len();
        let ghost out = frames_of(self.out@);
        while self.at < n
            invariant
                n == self.out@.len(),
                5 * base <= u64::MAX,
                self.out == old(self).out,
                out == frames_of(self.out@),
                self.at <= n,
                next_wanted(d.state(), d.params(), out, base as int, old(self).at as int)
                    == next_wanted(d.state(), d.params(), out, base as int, self.at as int),
            decreases n - self.at,
        {
            let index: usize = self.at;
            let f: &Frame = &self.out[index];
            assert(out[index as int] == f@);
            let wanted: bool = f.start >= 5 * base && d.collided(f);
            self.at = index + 1;
            if wanted {
                let f: &Frame = &self.out[index];
                let start: u64 = f.start - 5 * base;
                let i: u64 = start / 5;
                let first: u64 = if i >= 2 { i - 2 } else { 0 };
                if first >= len as u64 {
                    return Some(Target { index, start, from: len, len: 0 });
                }
                let from: usize = first as usize;
                let want: u128 = (96 + 96 * (f.bytes.len() as u128)) / 5 + 6;
                let left: usize = len - from;
                let size: usize = if want < left as u128 { want as usize } else { left };
                return Some(Target { index, start, from, len: size });
            }
        }
        None
    }

    /// Rescan the span of a target, now that its frame has been subtracted from
    /// the samples `m`, and take in the frames not found before.
    pub fn rescan(&mut self, d: &mut Demodulator, m: &[u16], base: u64, from: usize, len: usize)
        requires
            old(d).wf(),
            from + len <= m@.len(),
            5 * (base + m@.len()) + 3000 <= u64::MAX,
        ensures
            final(d).wf(),
            final(d).params() == old(d).params(),
            final(self).at == old(self).at,
            (final(d).state(), frames_of(final(self).out@)) == rescanned(
                old(d).state(),
                old(d).params(),
                frames_of(old(self).out@),
                m@,
                base as int,
                from as int,
                len as int,
            ),
    {
        let n: usize = m.len();
        let lo: usize = if from >= LONG_SAMPLES { from - LONG_SAMPLES } else { 0 };
        let hi: usize = if n - (from + len) > LONG_SAMPLES + 24 {
            from + len + LONG_SAMPLES + 24
        } else {
            n
        };
        if hi - lo <= LONG_SAMPLES + 2 {
            return;
        }
        let ghost before = frames_of(self.out@);
        let mut found: Vec<Frame> = d.run_relaxed(slice_subrange(m, lo, hi), base + lo as u64);
        let ghost all = frames_of(found@);
        let ghost after = d.state();
        let ghost p = d.params();
        let ghost at = self.at;
        let mut rest: Vec<Frame> = Vec::new();
        let count: usize = found.len();
        // Last to first, so that they come off the end first to last.
        for k in 0..count
            invariant
                count == all.len(),
                found@.len() == count - k,
                forall|j: int| 0 <= j < found@.len() ==> (#[trigger] found@[j])@ == all[j],
                rest@.len() == k,
                forall|j: int| 0 <= j < k ==> (#[trigger] rest@[j])@ == all[count - 1 - j],
        {
            if let Some(f) = found.pop() {
                rest.push(f);
            }
        }
        for k in 0..count
            invariant
                count == all.len(),
                rest@.len() == count - k,
                forall|j: int| 0 <= j < rest@.len() ==> (#[trigger] rest@[j])@ == all[count - 1 - j],
                d.wf(),
                d.params() == p,
                self.at == at,
                frames_of(self.out@) == merged(before, all, k as int),
                d.state() == with_rescans(after, merged(before, all, k as int).len() - before.len()),
                merged(before, all, k as int).len() >= before.len(),
        {
            if let Some(f) = rest.pop() {
                assert(f@ == all[k as int]);
                if !is_seen(&self.out, &f) {
                    let ghost was = self.out@;
                    d.note_rescan_frame();
                    self.out.push(f);
                    assert(frames_of(self.out@) =~= frames_of(was).push(f@));
                }
            }
        }
    }

    /// The frame of the target `t` has been subtracted from the raw samples of
    /// `w`, and `removed` millionths of its energy with it. Where that was
    /// enough, its span is rescanned for a frame that was underneath it.
    pub fn cancelled(
        &mut self,
        d: &mut Demodulator,
        lut: &MagLut,
        w: &mut Intake,
        t: &Target,
        removed: i32,
    )
        requires
            old(d).wf(),
            lut.wf(),
            old(w).wf(),
            t.from + t.len <= old(w).mag@.len(),
            5 * (old(w).base + old(w).mag@.len()) + 3000 <= u64::MAX,
        ensures
            final(d).wf(),
            final(d).params() == old(d).params(),
            final(w).wf(),
            final(w).raw == old(w).raw,
            final(w).base == old(w).base,
            final(w).next == old(w).next,
            final(self).progress(final(d).state(), *final(w)) == settled_by(
                old(self).progress(old(d).state(), *old(w)),
                old(d).params(),
                old(w).base as int,
                t.from as int,
                t.len as int,
                removed,
            ),
    {
        if d.note_removed(removed) {
            w.refresh(lut, t.from, t.len);
            let base: u64 = w.base;
            self.rescan(d, w.mag.as_slice(), base, t.from, t.len);
        }
    }

    /// The frames in the order of their starts.
    pub fn finish(self) -> (out: Vec<Frame>)
        ensures
            is_ordering_of(frames_of(out@), frames_of(self.out@)),
    {
        let mut rest: Vec<Frame> = self.out;
        let mut out: Vec<Frame> = Vec::new();
        let ghost all = frames_of(rest@);
        assert(frames_of(rest@) + frames_of(out@) =~= all);
        while rest.len() > 0
            invariant
                in_order(frames_of(out@)),
                forall|t: u64| #[trigger]
                    starting(frames_of(rest@) + frames_of(out@), t) == starting(all, t),
            decreases rest@.len(),
        {
            let ghost (r0, o0) = (frames_of(rest@), frames_of(out@));
            if let Some(f) = rest.pop() {
                let start: u64 = f.start;
                let mut k: usize = 0;
                while k < out.len() && out[k].start < start
                    invariant
                        k <= out@.len(),
                        o0 == frames_of(out@),
                        forall|j: int| 0 <= j < k ==> (#[trigger] o0[j]).start < start,
                    decreases out@.len() - k,
                {
                    assert(o0[k as int] == out@[k as int]@);
                    k += 1;
                }
                assert(k < out@.len() ==> o0[k as int] == out@[k as int]@);
                out.insert(k, f);
                proof {
                    assert(frames_of(out@) =~= o0.insert(k as int, f@));
                    assert(r0 =~= frames_of(rest@).push(f@));
                    assert forall|t: u64| #[trigger]
                        starting(frames_of(rest@) + frames_of(out@), t) == starting(all, t) by {
                        lemma_move_over(frames_of(rest@), o0, f@, k as int, t);
                        assert(starting(r0 + o0, t) == starting(all, t));
                    }
                }
            }
        }
        assert(frames_of(rest@) + frames_of(out@) =~= frames_of(out@));
        out
    }
}

/// Merging keeps the frames there were, in their places; every frame found is
/// then there; and no frame is added that starts where another does with the
/// same bytes.
pub proof fn law_merge_adds_what_is_new(out: Seq<FrameView>, found: Seq<FrameView>, n: int)
    requires
        0 <= n <= found.len(),
    ensures
        out.is_prefix_of(merged(out, found, n)),
        forall|j: int| 0 <= j < n ==> seen(merged(out, found, n), #[trigger] found[j]),
        forall|k: int|
            out.len() <= k < merged(out, found, n).len() ==> !seen(
                merged(out, found, n).take(k),
                #[trigger] merged(out, found, n)[k],
            ),
    decreases n,
{
    if n > 0 {
        law_merge_adds_what_is_new(out, found, n - 1);
        let rest = merged(out, found, n - 1);
        let all = merged(out, found, n);
        if all.len() > rest.len() {
            assert forall|j: int| 0 <= j < n implies seen(all, #[trigger] found[j]) by {
                if j < n - 1 {
                    let w = choose|w: int|
                        0 <= w < rest.len() && (#[trigger] rest[w]).start == found[j].start && rest[w].bytes
                            == found[j].bytes;
                    assert(all[w] == rest[w]);
                } else {
                    assert(all[rest.len() as int] == found[j]);
                }
            }
            assert forall|k: int| out.len() <= k < all.len() implies !seen(
                all.take(k),
                #[trigger] all[k],
            ) by {
                assert(all.take(k) =~= rest.take(k));
                if k == rest.len() {
                    assert(rest.take(k) =~= rest);
                } else {
                    assert(all[k] == rest[k]);
                }
            }
        }
    }
}

/// With no limits set, every frame of the samples at hand is subtracted.
pub proof fn law_without_limits_every_frame_is_subtracted(s: State, p: Params, f: FrameView, base: int)
    requires
        p.cancel_gap_ratio == 0,
        p.cancel_off_ratio == 0,
        f.start >= 5 * base,
    ensures
        is_wanted(s, p, f, base),
{
}

/// Every frame that a rescan finds is among the frames then, by its start and its bytes; a
/// frame is added only where no frame before it has both; and each that is added was found.
pub proof fn law_merge_goes_by_start_and_bytes(out: Seq<FrameView>, found: Seq<FrameView>, i: int, j: int, k: int)
    requires
        0 <= i < found.len(),
        0 <= j < k,
        out.len() <= k < merged(out, found, found.len() as int).len(),
    ensures
        ({
            let all = merged(out, found, found.len() as int);
            &&& exists|x: int|
                0 <= x < all.len() && (#[trigger] all[x]).start == found[i].start && all[x].bytes == found[i].bytes
            &&& all[j].start != all[k].start || all[j].bytes != all[k].bytes
            &&& found.contains(all[k])
        }),
{
    let all = merged(out, found, found.len() as int);
    law_merge_adds_what_is_new(out, found, found.len() as int);
    lemma_added_was_found(out, found, found.len() as int, k);
    assert(seen(all, found[i]));
    assert(!seen(all.take(k), all[k]));
    assert(all.take(k)[j] == all[j]);
}

proof fn lemma_added_was_found(out: Seq<FrameView>, found: Seq<FrameView>, n: int, k: int)
    requires
        0 <= n <= found.len(),
        out.len() <= k < merged(out, found, n).len(),
    ensures
        found.contains(merged(out, found, n)[k]),
    decreases n,
{
    if n > 0 {
        let rest = merged(out, found, n - 1);
        if k < rest.len() {
            lemma_added_was_found(out, found, n - 1, k);
        } else {
            assert(merged(out, found, n)[k] == found[n - 1]);
        }
    }
}

} // verus!
