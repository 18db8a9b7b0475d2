//! What holds of a recovery as a whole, whatever the subtractions give.

use crate::collide::{
    Progress, begun, first_of, in_order, is_ordering_of, law_merge_adds_what_is_new, merged,
    next_wanted, rescanned, seen, settled_by, size_of, starting, window,
};
use crate::demod::{FrameView, State, noted, relaxed, run_of};
use crate::order::{law_frames_come_one_after_the_other, one_after_the_other, precedes};
use crate::params::Params;
use vstd::prelude::*;

verus! {

/// What the subtraction of a frame gave: the raw samples as they are then, and the
/// millionths of its energy that it removed.
pub struct Subtraction {
    pub raw: Seq<u8>,
    pub removed: i32,
}

/// One round of a recovery: the next frame to subtract, and what comes of its
/// subtraction `x`. Where no frame is left, nothing is subtracted.
pub open spec fn round(g: Progress, p: Params, base: int, x: Subtraction) -> Progress {
    let k = next_wanted(g.s, p, g.out, base, g.at);
    if k < g.out.len() {
        let len = g.mag.len() as int;
        settled_by(
            Progress { at: k + 1, raw: x.raw, ..g },
            p,
            base,
            first_of(g.out[k], base, len),
            size_of(g.out[k], base, len),
            x.removed,
        )
    } else {
        Progress { at: k, ..g }
    }
}

/// The rounds of a recovery, with what each subtraction gave.
pub open spec fn rounds(g: Progress, p: Params, base: int, xs: Seq<Subtraction>) -> Progress
    decreases xs.len(),
{
    if xs.len() == 0 {
        g
    } else {
        round(rounds(g, p, base, xs.drop_last()), p, base, xs.last())
    }
}

/// The frames subtracted by the rounds, by their places.
pub open spec fn subtracted(g: Progress, p: Params, base: int, xs: Seq<Subtraction>) -> Seq<int>
    decreases xs.len(),
{
    if xs.len() == 0 {
        Seq::empty()
    } else {
        let h = rounds(g, p, base, xs.drop_last());
        let k = next_wanted(h.s, p, h.out, base, h.at);
        let before = subtracted(g, p, base, xs.drop_last());
        if k < h.out.len() {
            before.push(k)
        } else {
            before
        }
    }
}

/// No two frames of `out` start at one place with the same bytes.
pub open spec fn all_differ(out: Seq<FrameView>) -> bool {
    forall|i: int, j: int|
        0 <= i < j < out.len() ==> !((#[trigger] out[i]).start == (#[trigger] out[j]).start && out[i].bytes
            == out[j].bytes)
}

proof fn lemma_starting_last(a: Seq<FrameView>, t: u64)
    requires
        a.len() > 0,
    ensures
        starting(a, t) == if a.last().start == t {
            starting(a.drop_last(), t).push(a.last())
        } else {
            starting(a.drop_last(), t)
        },
{
    reveal(Seq::filter);
}

proof fn lemma_starting_contains(a: Seq<FrameView>, t: u64, f: FrameView)
    ensures
        starting(a, t).contains(f) <==> a.contains(f) && f.start == t,
    decreases a.len(),
{
    if a.len() == 0 {
        reveal(Seq::filter);
    } else {
        let b = a.drop_last();
        lemma_starting_last(a, t);
        lemma_starting_contains(b, t, f);
        assert(a =~= b.push(a.last()));
        if a.contains(f) && f != a.last() {
            let k = a.index_of(f);
            assert(b[k] == f);
        }
        if b.contains(f) {
            let k = b.index_of(f);
            assert(a[k] == f);
        }
        assert(a[a.len() - 1] == a.last());
        let s = starting(b, t);
        if starting(a, t).contains(f) {
            let k = starting(a, t).index_of(f);
            if k < s.len() {
                assert(s[k] == f);
            }
        }
        if s.contains(f) {
            let k = s.index_of(f);
            assert(starting(a, t)[k] == f);
        }
        if f == a.last() && f.start == t {
            assert(starting(a, t)[s.len() as int] == f);
        }
    }
}

proof fn lemma_starting_differs(a: Seq<FrameView>, t: u64)
    requires
        all_differ(a),
    ensures
        all_differ(starting(a, t)),
    decreases a.len(),
{
    if a.len() == 0 {
        reveal(Seq::filter);
    } else {
        let b = a.drop_last();
        let s = starting(b, t);
        assert(all_differ(b)) by {
            assert forall|i: int, j: int| 0 <= i < j < b.len() implies !((#[trigger] b[i]).start == (
            #[trigger] b[j]).start && b[i].bytes == b[j].bytes) by {
                assert(a[i] == b[i] && a[j] == b[j]);
            }
        }
        lemma_starting_differs(b, t);
        lemma_starting_last(a, t);
        if a.last().start == t {
            let all = starting(a, t);
            assert forall|i: int, j: int| 0 <= i < j < all.len() implies !((#[trigger] all[i]).start == (
            #[trigger] all[j]).start && all[i].bytes == all[j].bytes) by {
                assert(all[i] == s[i]);
                if j < s.len() {
                    assert(all[j] == s[j]);
                } else {
                    lemma_starting_contains(b, t, s[i]);
                    assert(s.contains(s[i]));
                    let w = b.index_of(s[i]);
                    assert(a[w] == s[i]);
                    assert(a[a.len() - 1] == all[j]);
                }
            }
        }
    }
}

proof fn lemma_groups_differ(a: Seq<FrameView>)
    requires
        forall|t: u64| all_differ(#[trigger] starting(a, t)),
    ensures
        all_differ(a),
    decreases a.len(),
{
    if a.len() > 0 {
        let b = a.drop_last();
        let f = a.last();
        assert forall|t: u64| all_differ(#[trigger] starting(b, t)) by {
            lemma_starting_last(a, t);
            assert(all_differ(starting(a, t)));
            let (s, all) = (starting(b, t), starting(a, t));
            assert forall|i: int, j: int| 0 <= i < j < s.len() implies !((#[trigger] s[i]).start == (
            #[trigger] s[j]).start && s[i].bytes == s[j].bytes) by {
                assert(all[i] == s[i] && all[j] == s[j]);
            }
        }
        lemma_groups_differ(b);
        assert forall|i: int, j: int| 0 <= i < j < a.len() implies !((#[trigger] a[i]).start == (
        #[trigger] a[j]).start && a[i].bytes == a[j].bytes) by {
            assert(a[i] == b[i]);
            if j < b.len() {
                assert(a[j] == b[j]);
            } else if a[i].start == f.start {
                let s = starting(b, f.start);
                let all = starting(a, f.start);
                lemma_starting_last(a, f.start);
                lemma_starting_contains(b, f.start, b[i]);
                assert(b.contains(b[i]));
                let w = s.index_of(b[i]);
                assert(all_differ(all));
                assert(all[w] == b[i]);
                assert(all[s.len() as int] == f);
            }
        }
    }
}

/// There is one ordering of given frames.
proof fn lemma_one_ordering(a: Seq<FrameView>, b: Seq<FrameView>)
    requires
        in_order(a),
        in_order(b),
        forall|t: u64| #[trigger] starting(a, t) == starting(b, t),
    ensures
        a == b,
    decreases a.len(),
{
    if a.len() == 0 {
        if b.len() > 0 {
            lemma_starting_contains(b, b[0].start, b[0]);
            assert(b.contains(b[0]));
            lemma_starting_contains(a, b[0].start, b[0]);
            assert(starting(a, b[0].start) == starting(b, b[0].start));
        }
        assert(a =~= b);
    } else {
        let (x, n) = (a.last(), a.len() - 1);
        assert(a[n] == x);
        assert(a.contains(x));
        lemma_starting_contains(a, x.start, x);
        lemma_starting_contains(b, x.start, x);
        assert(starting(a, x.start) == starting(b, x.start));
        let w = b.index_of(x);
        let (y, m) = (b.last(), b.len() - 1);
        assert(b[m] == y);
        assert(b.contains(y));
        lemma_starting_contains(b, y.start, y);
        lemma_starting_contains(a, y.start, y);
        assert(starting(a, y.start) == starting(b, y.start));
        let v = a.index_of(y);
        assert(b[w].start <= b[m].start);
        assert(a[v].start <= a[n].start);
        let t = x.start;
        lemma_starting_last(a, t);
        lemma_starting_last(b, t);
        let (c, d) = (a.drop_last(), b.drop_last());
        assert(starting(a, t).last() == x);
        assert(starting(b, t).last() == y);
        assert forall|u: u64| #[trigger] starting(c, u) == starting(d, u) by {
            lemma_starting_last(a, u);
            lemma_starting_last(b, u);
            assert(starting(a, u) == starting(b, u));
            if u == t {
                assert(starting(c, u) =~= starting(a, u).drop_last());
                assert(starting(d, u) =~= starting(b, u).drop_last());
            }
        }
        assert(in_order(c)) by {
            assert forall|i: int, j: int| 0 <= i <= j < c.len() implies (#[trigger] c[i]).start <= (
            #[trigger] c[j]).start by {
                assert(a[i] == c[i] && a[j] == c[j]);
            }
        }
        assert(in_order(d)) by {
            assert forall|i: int, j: int| 0 <= i <= j < d.len() implies (#[trigger] d[i]).start <= (
            #[trigger] d[j]).start by {
                assert(b[i] == d[i] && b[j] == d[j]);
            }
        }
        lemma_one_ordering(c, d);
        assert(a =~= c.push(x));
        assert(b =~= d.push(y));
    }
}

/// Ordering frames by their starts loses none and adds none, brings no two together
/// that are the same, and leaves frames alone that are in order.
pub proof fn law_ordering_keeps_the_frames(res: Seq<FrameView>, out: Seq<FrameView>)
    requires
        is_ordering_of(res, out),
    ensures
        forall|f: FrameView| #[trigger] res.contains(f) <==> out.contains(f),
        all_differ(out) ==> all_differ(res),
        in_order(out) ==> res == out,
{
    assert forall|f: FrameView| #[trigger] res.contains(f) <==> out.contains(f) by {
        lemma_starting_contains(res, f.start, f);
        lemma_starting_contains(out, f.start, f);
        assert(starting(res, f.start) == starting(out, f.start));
    }
    if all_differ(out) {
        assert forall|t: u64| all_differ(#[trigger] starting(res, t)) by {
            lemma_starting_differs(out, t);
            assert(starting(res, t) == starting(out, t));
        }
        lemma_groups_differ(res);
    }
    if in_order(out) {
        lemma_one_ordering(res, out);
    }
}

proof fn lemma_next_wanted(s: State, p: Params, out: Seq<FrameView>, base: int, at: int)
    requires
        0 <= at <= out.len(),
    ensures
        at <= next_wanted(s, p, out, base, at) <= out.len(),
    decreases out.len() - at,
{
    if at < out.len() {
        lemma_next_wanted(s, p, out, base, at + 1);
    }
}

/// A rescan keeps the frames there were, in their places, and adds none that is
/// there.
proof fn lemma_rescan_adds(
    s: State,
    p: Params,
    out: Seq<FrameView>,
    m: Seq<u16>,
    base: int,
    from: int,
    len: int,
)
    requires
        all_differ(out),
    ensures
        out.is_prefix_of(rescanned(s, p, out, m, base, from, len).1),
        all_differ(rescanned(s, p, out, m, base, from, len).1),
{
    if let Some((lo, hi)) = window(from, len, m.len() as int) {
        let found = run_of(s, relaxed(p), m.subrange(lo, hi), base + lo).1;
        let all = merged(out, found, found.len() as int);
        law_merge_adds_what_is_new(out, found, found.len() as int);
        assert forall|i: int, j: int| 0 <= i < j < all.len() implies !((#[trigger] all[i]).start == (
        #[trigger] all[j]).start && all[i].bytes == all[j].bytes) by {
            if j < out.len() {
                assert(all[i] == out[i] && all[j] == out[j]);
            } else {
                assert(!seen(all.take(j), all[j]));
                assert(all.take(j)[i] == all[i]);
            }
        }
    }
}

/// Sample `k` lies in the span of one of the frames of `out` at the places `cut`.
pub open spec fn is_in_a_span(out: Seq<FrameView>, cut: Seq<int>, base: int, len: int, k: int) -> bool {
    exists|i: int|
        0 <= i < cut.len() && first_of(#[trigger] out[cut[i]], base, len) <= k < first_of(
            out[cut[i]],
            base,
            len,
        ) + size_of(out[cut[i]], base, len)
}

/// What the rounds of a recovery that began as `g0` keep.
spec fn upheld(g0: Progress, g: Progress, cut: Seq<int>, base: int) -> bool {
    &&& 0 <= g.at <= g.out.len()
    &&& g0.out.is_prefix_of(g.out)
    &&& all_differ(g.out)
    &&& g.mag.len() == g0.mag.len()
    &&& forall|i: int| 0 <= i < cut.len() ==> 0 <= #[trigger] cut[i] < g.at
    &&& forall|i: int, j: int| 0 <= i < j < cut.len() ==> #[trigger] cut[i] < #[trigger] cut[j]
    &&& forall|k: int|
        0 <= k < g.mag.len() && #[trigger] g.mag[k] != g0.mag[k] ==> is_in_a_span(
            g.out,
            cut,
            base,
            g.mag.len() as int,
            k,
        )
}

proof fn lemma_span_stays(
    out: Seq<FrameView>,
    more: Seq<FrameView>,
    cut: Seq<int>,
    x: int,
    base: int,
    len: int,
    k: int,
)
    requires
        out.is_prefix_of(more),
        forall|i: int| 0 <= i < cut.len() ==> 0 <= #[trigger] cut[i] < out.len(),
        is_in_a_span(out, cut, base, len, k),
    ensures
        is_in_a_span(more, cut.push(x), base, len, k),
{
    let i = choose|i: int|
        0 <= i < cut.len() && first_of(#[trigger] out[cut[i]], base, len) <= k < first_of(
            out[cut[i]],
            base,
            len,
        ) + size_of(out[cut[i]], base, len);
    assert(cut.push(x)[i] == cut[i]);
    assert(more[cut.push(x)[i]] == out[cut[i]]);
}

proof fn lemma_round_upheld(
    g0: Progress,
    g: Progress,
    cut: Seq<int>,
    p: Params,
    base: int,
    x: Subtraction,
)
    requires
        upheld(g0, g, cut, base),
    ensures
        ({
            let k = next_wanted(g.s, p, g.out, base, g.at);
            upheld(
                g0,
                round(g, p, base, x),
                if k < g.out.len() {
                    cut.push(k)
                } else {
                    cut
                },
                base,
            )
        }),
{
    let k = next_wanted(g.s, p, g.out, base, g.at);
    lemma_next_wanted(g.s, p, g.out, base, g.at);
    if k < g.out.len() {
        let len = g.mag.len() as int;
        let h = round(g, p, base, x);
        let more = cut.push(k);
        let (a, b) = (first_of(g.out[k], base, len), size_of(g.out[k], base, len));
        let s = State { stats: noted(g.s.stats, x.removed), ..g.s };
        lemma_rescan_adds(s, p, g.out, h.mag, base, a, b);
        assert(g.out.is_prefix_of(h.out));
        assert(h.out[k] == g.out[k]);
        assert(h.at == k + 1);
        assert forall|j: int| 0 <= j < g0.out.len() implies g0.out[j] == h.out[j] by {
            assert(g0.out[j] == g.out[j]);
            assert(g.out[j] == h.out[j]);
        }
        assert(g0.out =~= h.out.subrange(0, g0.out.len() as int));
        assert forall|j: int| 0 <= j < h.mag.len() && #[trigger] h.mag[j] != g0.mag[j] implies is_in_a_span(
            h.out,
            more,
            base,
            len,
            j,
        ) by {
            if g.mag[j] != g0.mag[j] {
                lemma_span_stays(g.out, h.out, cut, k, base, len, j);
            } else {
                let i = cut.len() as int;
                assert(more[i] == k);
                assert(h.out[more[i]] == g.out[k]);
            }
        }
    }
}

proof fn lemma_rounds_upheld(g: Progress, p: Params, base: int, xs: Seq<Subtraction>)
    requires
        0 <= g.at <= g.out.len(),
        all_differ(g.out),
    ensures
        upheld(g, rounds(g, p, base, xs), subtracted(g, p, base, xs), base),
    decreases xs.len(),
{
    if xs.len() == 0 {
        assert(g.out =~= g.out.subrange(0, g.out.len() as int));
    } else {
        let rest = xs.drop_last();
        lemma_rounds_upheld(g, p, base, rest);
        lemma_round_upheld(
            g,
            rounds(g, p, base, rest),
            subtracted(g, p, base, rest),
            p,
            base,
            xs.last(),
        );
    }
}

/// Increasing places below `n` are at most `n`.
proof fn lemma_places(cut: Seq<int>, n: int)
    requires
        0 <= n,
        forall|i: int| 0 <= i < cut.len() ==> 0 <= #[trigger] cut[i] < n,
        forall|i: int, j: int| 0 <= i < j < cut.len() ==> #[trigger] cut[i] < #[trigger] cut[j],
    ensures
        cut.len() <= n,
    decreases cut.len(),
{
    if cut.len() > 0 {
        let c = cut.drop_last();
        let last = cut[cut.len() - 1];
        assert forall|i: int| 0 <= i < c.len() implies 0 <= #[trigger] c[i] < last by {
            assert(c[i] == cut[i]);
        }
        assert forall|i: int, j: int| 0 <= i < j < c.len() implies #[trigger] c[i] < #[trigger] c[j] by {
            assert(c[i] == cut[i] && c[j] == cut[j]);
        }
        lemma_places(c, last);
    }
}

/// The frames of a plain run differ, and are in order.
proof fn lemma_run_differs(s: State, p: Params, m: Seq<u16>, base: int)
    requires
        p.wf(),
        0 <= base,
        5 * (base + m.len()) + 3000 <= u64::MAX,
    ensures
        all_differ(run_of(s, p, m, base).1),
        in_order(run_of(s, p, m, base).1),
{
    law_frames_come_one_after_the_other(s, p, m, base, 128, 18);
    let out = run_of(s, p, m, base).1;
    assert(one_after_the_other(out, 130));
    assert forall|i: int, j: int| 0 <= i < j < out.len() implies (#[trigger] out[i]).start < (
    #[trigger] out[j]).start by {
        assert(precedes(out[i], out[j], 130));
    }
}

/// A recovery, whatever its subtractions give, ends with the frames in the order of
/// their starts, no two of them with the same start and bytes; and every frame that a
/// plain run finds is among them.
pub proof fn law_recovery_adds_to_a_run(
    s: State,
    p: Params,
    raw: Seq<u8>,
    mag: Seq<u16>,
    base: int,
    xs: Seq<Subtraction>,
    res: Seq<FrameView>,
)
    requires
        p.wf(),
        0 <= base,
        5 * (base + mag.len()) + 3000 <= u64::MAX,
        is_ordering_of(res, rounds(begun(s, p, raw, mag, base), p, base, xs).out),
    ensures
        in_order(res),
        all_differ(res),
        forall|f: FrameView| #[trigger] run_of(s, p, mag, base).1.contains(f) ==> res.contains(f),
{
    let g0 = begun(s, p, raw, mag, base);
    let g = rounds(g0, p, base, xs);
    lemma_run_differs(s, p, mag, base);
    lemma_rounds_upheld(g0, p, base, xs);
    law_ordering_keeps_the_frames(res, g.out);
    assert forall|f: FrameView| #[trigger] g0.out.contains(f) implies res.contains(f) by {
        let k = g0.out.index_of(f);
        assert(g.out[k] == f);
        assert(g.out.contains(f));
    }
}

/// A recovery changes the magnitudes of no sample outside the spans of the frames it
/// subtracts, and neither adds samples nor takes any away. It subtracts each frame
/// once at most, so no more of them than it returns.
pub proof fn law_recovery_changes_only_spans(
    s: State,
    p: Params,
    raw: Seq<u8>,
    mag: Seq<u16>,
    base: int,
    xs: Seq<Subtraction>,
)
    requires
        p.wf(),
        0 <= base,
        5 * (base + mag.len()) + 3000 <= u64::MAX,
    ensures
        ({
            let g0 = begun(s, p, raw, mag, base);
            let g = rounds(g0, p, base, xs);
            let cut = subtracted(g0, p, base, xs);
            &&& g.mag.len() == mag.len()
            &&& forall|k: int|
                0 <= k < mag.len() && #[trigger] g.mag[k] != mag[k] ==> is_in_a_span(
                    g.out,
                    cut,
                    base,
                    mag.len() as int,
                    k,
                )
            &&& forall|i: int| 0 <= i < cut.len() ==> 0 <= #[trigger] cut[i] < g.out.len()
            &&& forall|i: int, j: int| 0 <= i < j < cut.len() ==> #[trigger] cut[i] < #[trigger] cut[j]
            &&& cut.len() <= g.out.len()
        }),
{
    let g0 = begun(s, p, raw, mag, base);
    lemma_run_differs(s, p, mag, base);
    lemma_rounds_upheld(g0, p, base, xs);
    lemma_places(subtracted(g0, p, base, xs), rounds(g0, p, base, xs).out.len() as int);
}

/// Where no frame is left to subtract, rounds change nothing.
pub proof fn law_recovery_ends(g: Progress, p: Params, base: int, xs: Seq<Subtraction>)
    requires
        g.at == g.out.len(),
    ensures
        rounds(g, p, base, xs) == g,
        subtracted(g, p, base, xs) == Seq::<int>::empty(),
    decreases xs.len(),
{
    if xs.len() > 0 {
        law_recovery_ends(g, p, base, xs.drop_last());
    }
}

/// Where recovery is off, what comes out is what a plain run gives; nothing is
/// subtracted, and the samples stay as they are.
pub proof fn law_without_recovery_a_run_stands(
    s: State,
    p: Params,
    raw: Seq<u8>,
    mag: Seq<u16>,
    base: int,
    xs: Seq<Subtraction>,
    res: Seq<FrameView>,
)
    requires
        p.wf(),
        !p.cancel,
        0 <= base,
        5 * (base + mag.len()) + 3000 <= u64::MAX,
        is_ordering_of(res, rounds(begun(s, p, raw, mag, base), p, base, xs).out),
    ensures
        ({
            let g0 = begun(s, p, raw, mag, base);
            let g = rounds(g0, p, base, xs);
            &&& (g.s, res) == run_of(s, p, mag, base)
            &&& subtracted(g0, p, base, xs) == Seq::<int>::empty()
            &&& g.raw == raw
            &&& g.mag == mag
        }),
{
    let g0 = begun(s, p, raw, mag, base);
    lemma_run_differs(s, p, mag, base);
    law_recovery_ends(g0, p, base, xs);
    law_ordering_keeps_the_frames(res, g0.out);
}

} // verus!
