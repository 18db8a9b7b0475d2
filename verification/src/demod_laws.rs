//! What holds of every frame that the demodulator emits.

use crate::crc::{
    address_syndrome_table, crc24_of, flipped, law_flip_moves_address, recovered_address,
};
use crate::demod::{
    FrameView, LONG_SAMPLES, Scan, State, Stats, Tries, address_field, admitted, after_decode, attempted,
    best_decode, block_end, decoded, entered, format_at, format_of, frame_len, is_address_parity,
    is_checked, known_after, lemma_step_moves, looked, refined, retried, run_of, scan_end, scanned, span_of,
    stepped, tried, unhappy,
};
use crate::known::{
    KNOWN_WINDOW, confirmed_after, is_confirmed, is_near, least_toward, lemma_least_toward,
};
use crate::params::Params;
use crate::preamble::{Hit, fine_at, larger};
use crate::repair::{law_repair_explains_residual, repair_of};
use crate::slicer::{
    bits_value, frame_bytes, frame_confidence, lemma_bits_value_bound, off_energy, on_energy,
};
use vstd::prelude::*;

verus! {

proof fn lemma_high_bits(x: u8, y: u8)
    requires
        x < 32,
        y < 8,
    ensures
        ((8 * x + y) as u8) >> 3u8 == x,
{
    assert(x < 32 && y < 8 ==> ((8 * x + y) as u8) >> 3u8 == x) by (bit_vector);
}

/// The first five bits of a frame are its format.
pub proof fn lemma_format(p: Params, m: Seq<u16>, st: int, n: nat)
    requires
        n > 0,
    ensures
        format_of(frame_bytes(p, m, st, n)) == format_at(p, m, st),
{
    lemma_bits_value_bound(p, m, st, 0, 5);
    reveal_with_fuel(bits_value, 4);
    let x = bits_value(p, m, st, 0, 5);
    let y = bits_value(p, m, st, 0, 8) - 8 * x;
    assert(0 <= y < 8);
    lemma_high_bits(x as u8, y as u8);
}

/// A decode that is borne out: a frame of a checked format with residual zero,
/// an all-call reply within the interrogator codes, or a frame that names a
/// confirmed aircraft. It is repaired only by as many flips as the settings
/// allow.
pub open spec fn sound(p: Params, known: Map<u32, u64>, now: u64, f: Seq<u8>, fixed: u8) -> bool {
    &&& f.len() == 7 || f.len() == 14
    &&& {
        ||| crc24_of(f) == 0 && fixed <= p.max_fix && fixed <= 5
        ||| fixed == 255 && 0 < crc24_of(f) < 80 && format_of(f) == 11
        ||| fixed == 0 && is_address_parity(format_of(f)) && is_confirmed(
            known,
            recovered_address(f),
            now,
        )
        ||| fixed == 1 && p.ap_fix > 0 && is_confirmed(known, recovered_address(f), now)
    }
}

proof fn lemma_xor_cancels(a: u32, k: u32)
    ensures
        a ^ (k ^ a) == k,
{
    assert(a ^ (k ^ a) == k) by (bit_vector);
}

/// Every decode is sound.
pub proof fn law_decode_is_sound(p: Params, known: Map<u32, u64>, now: u64, m: Seq<u16>, st: int)
    ensures
        decoded(p, known, now, m, st) matches Some((f, n)) ==> sound(p, known, now, f, n),
{
    reveal(decoded);
    let df = format_at(p, m, st);
    let f = frame_bytes(p, m, st, frame_len(df));
    let conf = frame_confidence(p, m, st, frame_len(df));
    lemma_format(p, m, st, frame_len(df));
    if df == 17 || df == 18 {
        law_repair_explains_residual(
            p,
            f,
            conf,
            0,
            is_near(known, address_field(f), now, p.near_bits),
        );
    } else if is_address_parity(df) {
        let a = recovered_address(f);
        let syn = address_syndrome_table(f.len());
        lemma_least_toward(known, a, now, syn, conf, p.ap_fix);
        if let Some(k) = least_toward(known, a, now, syn, conf, p.ap_fix) {
            syn.index_of_first_ensures(k ^ a);
            let i = syn.index_of_first(k ^ a)->0;
            law_flip_moves_address(f, i);
            lemma_xor_cancels(a, k);
        }
    }
}

/// The tries at a candidate leave the confirmed aircraft alone, stay near the
/// candidate, and what they settle on is sound.
pub open spec fn steady(t: Tries, p: Params, s: State, start0: int) -> bool {
    &&& t.s.known == s.known
    &&& t.s.now == s.now
    &&& 0 <= t.start
    &&& start0 - 128 <= t.start <= start0 + 18
    &&& t.best matches Some((f, n)) ==> sound(p, s.known, s.now, f, n)
}

proof fn lemma_retried_steady(t: Tries, p: Params, m: Seq<u16>, s: State, start0: int, k: int)
    requires
        p.wf(),
        steady(t, p, s, start0),
    ensures
        steady(retried(t, p, m, start0, k), p, s, start0),
    decreases p.retry_offsets@.len() - k,
{
    if 0 <= k < p.retry_offsets@.len() {
        let d = p.retry_offsets@[k] as int;
        assert(steady(tried(t, p, m, start0, d), p, s, start0)) by {
            reveal(tried);
            reveal(after_decode);
            law_decode_is_sound(p, t.s.known, t.s.now, m, start0 + d);
        }
        lemma_retried_steady(tried(t, p, m, start0, d), p, m, s, start0, k + 1);
    }
}

proof fn lemma_best_steady(s: State, p: Params, m: Seq<u16>, start0: int)
    requires
        p.wf(),
        0 <= start0,
    ensures
        steady(best_decode(s, p, m, start0), p, s, start0),
{
    reveal(best_decode);
    reveal(after_decode);
    law_decode_is_sound(p, s.known, s.now, m, start0);
    let d = decoded(p, s.known, s.now, m, start0);
    let s1 = after_decode(s, p, m, start0);
    let t = best_decode(s, p, m, start0);
    if unhappy(s1, d) && p.retry_offsets@.len() > 0 {
        let s2 = State {
            stats: Stats { retries: s1.stats.retries.wrapping_add(1), ..s1.stats },
            ..s1
        };
        let t0 = Tries {
            s: s2,
            best: d,
            start: start0,
            fixed: match d {
                Some((_, n)) => n as int,
                None => 255,
            },
            done: false,
        };
        lemma_retried_steady(t0, p, m, s, start0, 0);
    }
}

/// The frame `f` confirms the aircraft `a`: a checked frame, received clean.
pub open spec fn confirms(f: FrameView, a: u32) -> bool {
    &&& is_checked(format_of(f.bytes))
    &&& f.fixed == 0
    &&& crc24_of(f.bytes) == 0
    &&& address_field(f.bytes) == a
}

/// The sample at which the frame `f` starts.
pub open spec fn sample_of(f: FrameView) -> u64 {
    f.start / 5
}

/// The aircraft whose confirmation lets the frame `f` pass.
pub open spec fn claims(f: FrameView) -> u32 {
    if is_checked(format_of(f.bytes)) {
        address_field(f.bytes)
    } else {
        recovered_address(f.bytes)
    }
}

/// Where a table of confirmed aircraft has its entries from: the table `known0`
/// that it started as, or the clean frames of `out`.
pub open spec fn comes_from(known: Map<u32, u64>, known0: Map<u32, u64>, out: Seq<FrameView>) -> bool {
    forall|a: u32| #[trigger]
        known.contains_key(a) ==> (known0.contains_key(a) && known0[a] == known[a]) || exists|j: int|
            0 <= j < out.len() && confirms(#[trigger] out[j], a) && sample_of(out[j]) == known[a]
}

/// The aircraft `a` is confirmed at sample `now`, by the table `known0` or by
/// one of the first `k` frames of `out`.
pub open spec fn vouched(known0: Map<u32, u64>, out: Seq<FrameView>, k: int, a: u32, now: u64) -> bool {
    ||| is_confirmed(known0, a, now)
    ||| exists|j: int|
        0 <= j < k && confirms(#[trigger] out[j], a) && now - sample_of(out[j]) < KNOWN_WINDOW
}

/// The `k`th frame of `out` was received clean and checked, or else comes from
/// an aircraft confirmed before it.
pub open spec fn borne_out(known0: Map<u32, u64>, out: Seq<FrameView>, k: int) -> bool {
    ||| confirms(out[k], address_field(out[k].bytes))
    ||| vouched(known0, out, k, claims(out[k]), sample_of(out[k]))
}

/// A frame has 7 or 14 bytes, and no more bits of it were flipped than the
/// settings allow.
pub open spec fn well_made(p: Params, f: FrameView) -> bool {
    &&& f.bytes.len() == 7 || f.bytes.len() == 14
    &&& f.fixed <= 5
    &&& f.fixed <= p.max_fix || f.fixed == 1 && p.ap_fix > 0
}

/// What a candidate does to the confirmed aircraft, and what it emits.
proof fn lemma_attempt(s: State, p: Params, m: Seq<u16>, base: int, hit: Hit, i: int)
    requires
        p.wf(),
        0 <= base,
        0 <= i,
        hit.start <= 5 * m.len(),
        5 * (base + m.len()) + 3000 <= u64::MAX,
    ensures
        ({
            let a = attempted(s, p, m, base, hit, i);
            match a.frame {
                None => a.s.known == s.known,
                Some(f) => {
                    &&& well_made(p, f)
                    &&& 5 * base <= f.start <= 5 * base + hit.start + 18
                    &&& {
                        ||| confirms(f, address_field(f.bytes)) && a.s.known == confirmed_after(
                            s.known,
                            address_field(f.bytes),
                            sample_of(f),
                        )
                        ||| is_confirmed(s.known, claims(f), sample_of(f)) && a.s.known == s.known
                    }
                },
            }
        }),
{
    reveal(attempted);
    let s1 = State {
        stats: Stats { decodes: s.stats.decodes.wrapping_add(1), ..s.stats },
        now: (base + hit.start as int / 5) as u64,
        ..s
    };
    lemma_best_steady(s1, p, m, hit.start as int);
    let t = best_decode(s1, p, m, hit.start as int);
    assert((5 * base + t.start) / 5 == base + t.start / 5);
}

/// Refining stays within two samples and two phases of where it began, and
/// within the sub-block but for those phases.
pub proof fn lemma_refined(p: Params, m: Seq<u16>, i: int, block_end: int, h: Hit)
    requires
        0 <= i < block_end,
        5 * i + 100 <= u64::MAX,
        h.start == 5 * i,
    ensures
        5 * i <= refined(p, m, i, block_end, h).start + 2,
        refined(p, m, i, block_end, h).start <= 5 * (block_end - 1) + 2,
{
    reveal(refined);
}

/// One sample of a scan keeps track of where the confirmed aircraft come from.
proof fn lemma_looked(s: State, p: Params, m: Seq<u16>, base: int, i: int, block_end: int)
    requires
        0 <= base,
        0 <= i < block_end <= scan_end(m),
        p.wf(),
        5 * (base + m.len()) + 3000 <= u64::MAX,
    ensures
        ({
            let a = looked(s, p, m, base, i, block_end);
            match a.frame {
                None => a.s.known == s.known,
                Some(f) => {
                    &&& well_made(p, f)
                    &&& 5 * base <= f.start <= 5 * (base + scan_end(m)) + 15
                    &&& {
                        ||| confirms(f, address_field(f.bytes)) && a.s.known == confirmed_after(
                            s.known,
                            address_field(f.bytes),
                            sample_of(f),
                        )
                        ||| is_confirmed(s.known, claims(f), sample_of(f)) && a.s.known == s.known
                    }
                },
            }
        }),
{
    reveal(looked);
    if let Some(h) = fine_at(m, i, p.preamble_ratio, p.pulse_uniformity) {
        let s1 = State {
            stats: Stats { precheck_hits: s.stats.precheck_hits.wrapping_add(1), ..s.stats },
            ..s
        };
        let s2 = State {
            stats: Stats { preamble_hits: s1.stats.preamble_hits.wrapping_add(1), ..s1.stats },
            ..s1
        };
        lemma_refined(p, m, i, block_end, h);
        lemma_attempt(s2, p, m, base, refined(p, m, i, block_end, h), i);
    }
}

/// What a scan keeps: every frame so far is borne out, and the confirmed
/// aircraft come from where the scan started or from its clean frames.
pub open spec fn kept(c: Scan, p: Params, m: Seq<u16>, base: int, known0: Map<u32, u64>) -> bool {
    &&& 0 <= c.i
    &&& c.sub <= c.i
    &&& comes_from(c.s.known, known0, c.out)
    &&& forall|k: int| 0 <= k < c.out.len() ==> #[trigger] borne_out(known0, c.out, k)
    &&& forall|k: int|
        0 <= k < c.out.len() ==> well_made(p, #[trigger] c.out[k]) && 5 * base <= c.out[k].start <= 5
            * (base + scan_end(m)) + 15
}

proof fn lemma_vouched_grows(known0: Map<u32, u64>, out: Seq<FrameView>, f: FrameView, k: int)
    requires
        0 <= k < out.len(),
        borne_out(known0, out, k),
    ensures
        borne_out(known0, out.push(f), k),
{
    let longer = out.push(f);
    assert(longer[k] == out[k]);
    if !confirms(out[k], address_field(out[k].bytes)) && !is_confirmed(
        known0,
        claims(out[k]),
        sample_of(out[k]),
    ) {
        let j = choose|j: int|
            0 <= j < k && confirms(#[trigger] out[j], claims(out[k])) && sample_of(out[k])
                - sample_of(out[j]) < KNOWN_WINDOW;
        assert(longer[j] == out[j]);
    }
}

proof fn lemma_step_kept(c: Scan, p: Params, m: Seq<u16>, base: int, known0: Map<u32, u64>)
    requires
        0 <= base,
        5 * (base + m.len()) + 3000 <= u64::MAX,
        p.wf(),
        c.i < scan_end(m),
        kept(c, p, m, base, known0),
    ensures
        kept(stepped(c, p, m, base), p, m, base, known0),
{
    let e = entered(c, m);
    let a = looked(e.s, p, m, base, e.i, block_end(m, e.sub));
    let d = stepped(c, p, m, base);
    reveal(stepped);
    lemma_looked(e.s, p, m, base, e.i, block_end(m, e.sub));
    if let Some(f) = a.frame {
        let k = c.out.len() as int;
        assert(d.out[k] == f);
        assert forall|j: int| 0 <= j < d.out.len() implies #[trigger] borne_out(known0, d.out, j) by {
            if j < k {
                lemma_vouched_grows(known0, c.out, f, j);
            } else if !confirms(f, address_field(f.bytes)) {
                assert(c.s.known.contains_key(claims(f)));
                if !is_confirmed(known0, claims(f), sample_of(f)) {
                    let w = choose|w: int|
                        0 <= w < c.out.len() && confirms(#[trigger] c.out[w], claims(f)) && sample_of(
                            c.out[w],
                        ) == c.s.known[claims(f)];
                    assert(d.out[w] == c.out[w]);
                }
            }
        }
        assert forall|b: u32| #[trigger] d.s.known.contains_key(b) implies (known0.contains_key(b)
            && known0[b] == d.s.known[b]) || exists|j: int|
            0 <= j < d.out.len() && confirms(#[trigger] d.out[j], b) && sample_of(d.out[j])
                == d.s.known[b] by {
            if c.s.known.contains_key(b) && c.s.known[b] == d.s.known[b] {
                if !(known0.contains_key(b) && known0[b] == c.s.known[b]) {
                    let w = choose|w: int|
                        0 <= w < c.out.len() && confirms(#[trigger] c.out[w], b) && sample_of(
                            c.out[w],
                        ) == c.s.known[b];
                    assert(d.out[w] == c.out[w]);
                }
            } else {
                assert(b == address_field(f.bytes));
                assert(confirms(d.out[k], b));
            }
        }
        assert forall|j: int| 0 <= j < d.out.len() implies well_made(p, #[trigger] d.out[j]) && 5 * base
            <= d.out[j].start <= 5 * (base + scan_end(m)) + 15 by {
            if j < k {
                assert(d.out[j] == c.out[j]);
            }
        }
    } else {
        assert(d.out == c.out);
    }
}

proof fn lemma_scan_kept(c: Scan, p: Params, m: Seq<u16>, base: int, known0: Map<u32, u64>)
    requires
        0 <= base,
        5 * (base + m.len()) + 3000 <= u64::MAX,
        p.wf(),
        kept(c, p, m, base, known0),
    ensures
        kept(scanned(c, p, m, base), p, m, base, known0),
    decreases larger(scan_end(m) - c.i, 0),
{
    if c.i < scan_end(m) {
        lemma_step_kept(c, p, m, base, known0);
        lemma_step_moves(c, p, m, base);
        lemma_scan_kept(stepped(c, p, m, base), p, m, base, known0);
    }
}

/// Every frame that a run emits was received clean with a checksum of its own,
/// or comes from an aircraft that a clean frame confirmed in the minute before
/// it; no more of its bits were flipped than the settings allow; and the
/// aircraft confirmed after the run were confirmed before it or by its clean
/// frames. A frame starts before the samples end by the length of the longest
/// frame, but for phases and retries.
pub proof fn law_frames_are_borne_out(s: State, p: Params, m: Seq<u16>, base: int)
    requires
        p.wf(),
        0 <= base,
        5 * (base + m.len()) + 3000 <= u64::MAX,
    ensures
        ({
            let (after, out) = run_of(s, p, m, base);
            &&& forall|k: int| 0 <= k < out.len() ==> #[trigger] borne_out(s.known, out, k)
            &&& forall|k: int|
                0 <= k < out.len() ==> well_made(p, #[trigger] out[k]) && 5 * base <= out[k].start
                    <= 5 * (base + scan_end(m)) + 15
            &&& comes_from(after.known, s.known, out)
        }),
{
    if m.len() >= LONG_SAMPLES + 2 {
        let s1 = State {
            stats: Stats { samples: s.stats.samples.wrapping_add(scan_end(m) as u64), ..s.stats },
            ..s
        };
        let c = Scan { s: s1, i: 0, sub: -1, out: Seq::<FrameView>::empty() };
        lemma_scan_kept(c, p, m, base, s.known);
    }
}

/// Which frames pass, and what they confirm. A checked frame received clean always
/// passes and confirms its aircraft from then on; no other frame changes who is
/// confirmed. A checked frame that needed repair, or whose interrogator code was
/// taken for one, passes exactly when the aircraft it names is confirmed, and any
/// other frame exactly when the aircraft its parity names is. What passes is the
/// frame as it was, with its repairs; the mark of an interrogator code counts for
/// none.
pub proof fn law_only_clean_frames_confirm(known: Map<u32, u64>, f: Seq<u8>, fixed: u8, now: u64)
    ensures
        admitted(known, f, fixed, now) matches Some((g, n)) ==> g == f && n == if fixed == 255 && is_checked(
            format_of(f),
        ) {
            0u8
        } else {
            fixed
        },
        is_checked(format_of(f)) && fixed == 0 ==> {
            &&& admitted(known, f, fixed, now) is Some
            &&& is_confirmed(known_after(known, f, fixed, now), address_field(f), now)
            &&& forall|a: u32, t: u64|
                a != address_field(f) && now <= t ==> is_confirmed(
                    #[trigger] known_after(known, f, fixed, now),
                    a,
                    t,
                ) == #[trigger] is_confirmed(known, a, t)
        },
        is_checked(format_of(f)) && fixed != 0 ==> (admitted(known, f, fixed, now) is Some <==> is_confirmed(
            known,
            address_field(f),
            now,
        )),
        !is_checked(format_of(f)) ==> (admitted(known, f, fixed, now) is Some <==> is_confirmed(
            known,
            recovered_address(f),
            now,
        )),
        !(is_checked(format_of(f)) && fixed == 0) ==> known_after(known, f, fixed, now) == known,
{
}

/// The frame `f` needs no repair: its checksum comes out, on its own or with the
/// address of a confirmed aircraft.
pub open spec fn is_genuine(known: Map<u32, u64>, f: Seq<u8>, now: u64) -> bool {
    ||| is_checked(format_of(f)) && crc24_of(f) == 0
    ||| is_address_parity(format_of(f)) && is_confirmed(known, recovered_address(f), now)
}

/// A candidate that slices as a frame that needs no repair is emitted as it was
/// sliced, at the preamble's timing; if its checksum stands on its own, its
/// aircraft is confirmed from then on.
pub proof fn law_clean_frame_is_emitted(s: State, p: Params, m: Seq<u16>, base: int, hit: Hit, i: int)
    requires
        0 <= base,
        hit.start <= 5 * m.len(),
        5 * (base + m.len()) + 3000 <= u64::MAX,
        is_genuine(
            s.known,
            frame_bytes(p, m, hit.start as int, frame_len(format_at(p, m, hit.start as int))),
            (base + hit.start / 5) as u64,
        ),
    ensures
        ({
            let n = frame_len(format_at(p, m, hit.start as int));
            let f = frame_bytes(p, m, hit.start as int, n);
            let a = attempted(s, p, m, base, hit, i);
            &&& a.frame == Some(
                FrameView {
                    start: (5 * base + hit.start) as u64,
                    bytes: f,
                    signal: hit.pulse,
                    gap: hit.gap,
                    on: on_energy(p, m, hit.start as int, 5, 8 * n as int) as u64,
                    off: off_energy(p, m, hit.start as int, 5, 8 * n as int) as u64,
                    summed: (8 * n - 5) as u8,
                    fixed: 0,
                },
            )
            &&& a.next == hit.start / 5 + span_of(n as int)
            &&& is_checked(format_of(f)) ==> is_confirmed(
                a.s.known,
                address_field(f),
                (base + hit.start / 5) as u64,
            )
        }),
{
    reveal(attempted);
    reveal(best_decode);
    reveal(decoded);
    reveal(after_decode);
    reveal(repair_of);
    assert(0u32 ^ 0u32 == 0u32) by (bit_vector);
    lemma_format(p, m, hit.start as int, frame_len(format_at(p, m, hit.start as int)));
}

} // verus!
