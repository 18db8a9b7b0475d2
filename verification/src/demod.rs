//! Mode S demodulation at 2.4 million samples a second.
//!
//! Candidate message starts are tried on a grid of a fifth of a sample, each
//! bit is decided by comparing the energies of its halves, and a frame is
//! accepted when its checksum, or the aircraft it claims to come from, bears
//! it out.

use crate::crc::{
    Crc24, address_syndrome_table, address_syndromes, crc24_of, flipped, recovered_address,
    syndrome_table, syndromes,
};
use crate::known::{Known, confirmed_after, is_confirmed, is_near, least_toward, lemma_least_toward};
use crate::params::Params;
use crate::preamble::{
    Hit, fine, fine_at, gate, gate_passes, grid_at, larger, lemma_sum_bound, lemma_window_gate, lemma_window_sum,
    next_hit, preamble_grid, spike_count, spikes, sum,
};
use crate::probe::{Probe, probe_at, probed, settled};
use crate::repair::{flip, lemma_repair_len, repair, repair_of};
use crate::slicer::{
    Sliced, bits_value, fits, frame_bytes, frame_confidence, off_energy, on_energy, slice_format,
    slice_frame,
};
use vstd::array::spec_array_update;
use vstd::prelude::*;
use vstd::slice::slice_subrange;

verus! {

/// Samples that the longest frame takes, with three to spare.
pub const LONG_SAMPLES: usize = 291;

/// Samples gated at a time.
pub const SUB: usize = 4096;

/// Work counters, for cost analysis. They wrap.
#[derive(Debug, Clone, Copy)]
pub struct Stats {
    pub samples: u64,
    pub precheck_hits: u64,
    pub preamble_hits: u64,
    pub decodes: u64,
    pub crc_ok: u64,
    pub frames: u64,
    /// Decodes that failed or needed repair at the preamble's timing and were
    /// retried at neighbouring offsets; how many retries did better.
    pub retries: u64,
    pub retry_wins: u64,
    /// Preamble hits dropped by the format bits at the integer start.
    pub df_rejects: u64,
    /// Frames subtracted from the I/Q, and frames found in a rescan.
    pub cancelled: u64,
    pub rescan_frames: u64,
    /// Energy removed by cancellation: counts in buckets <50 %, 50-80, 80-90,
    /// 90-95, >95 %.
    pub removed_hist: [u64; 5],
}

impl Stats {
    /// Nothing was counted yet.
    pub open spec fn is_zero(&self) -> bool {
        &&& self.samples == 0 && self.precheck_hits == 0 && self.preamble_hits == 0
        &&& self.decodes == 0 && self.crc_ok == 0 && self.frames == 0
        &&& self.retries == 0 && self.retry_wins == 0 && self.df_rejects == 0
        &&& self.cancelled == 0 && self.rescan_frames == 0
        &&& self.removed_hist@ == seq![0u64, 0, 0, 0, 0]
    }
}

impl Default for Stats {
    fn default() -> (s: Self)
        ensures
            s.is_zero(),
    {
        Stats {
            samples: 0,
            precheck_hits: 0,
            preamble_hits: 0,
            decodes: 0,
            crc_ok: 0,
            frames: 0,
            retries: 0,
            retry_wins: 0,
            df_rejects: 0,
            cancelled: 0,
            rescan_frames: 0,
            removed_hist: [0, 0, 0, 0, 0],
        }
    }
}

/// A demodulated frame.
#[derive(Debug, Clone)]
pub struct Frame {
    /// Preamble start in the stream, in fifths of a sample: the 12 MHz ticks
    /// of a Beast timestamp.
    pub start: u64,
    pub bytes: Vec<u8>,
    /// Mean level of the four preamble pulses, scaled by 396.
    pub signal: u32,
    /// Mean level in the preamble gaps, scaled by 396: energy there that is
    /// not noise is another signal.
    pub gap: u32,
    /// Energy in the full and in the empty half of each bit, from the sixth
    /// bit on: an empty half of a lone frame holds noise, more when another
    /// frame is underneath.
    pub on: u64,
    pub off: u64,
    /// Bits those energies were summed over.
    pub summed: u8,
    /// Bits flipped by error correction (0 = received clean).
    pub fixed: u8,
}

/// A frame as a value.
pub struct FrameView {
    pub start: u64,
    pub bytes: Seq<u8>,
    pub signal: u32,
    pub gap: u32,
    pub on: u64,
    pub off: u64,
    pub summed: u8,
    pub fixed: u8,
}

impl View for Frame {
    type V = FrameView;

    open spec fn view(&self) -> FrameView {
        FrameView {
            start: self.start,
            bytes: self.bytes@,
            signal: self.signal,
            gap: self.gap,
            on: self.on,
            off: self.off,
            summed: self.summed,
            fixed: self.fixed,
        }
    }
}

/// Frames as values.
pub open spec fn frames_of(out: Seq<Frame>) -> Seq<FrameView> {
    Seq::new(out.len(), |k: int| out[k]@)
}

/// What a decode gives, as a value.
pub open spec fn outcome(d: Option<(Vec<u8>, u8)>) -> Option<(Seq<u8>, u8)> {
    match d {
        Some((f, n)) => Some((f@, n)),
        None => None,
    }
}

/// Formats whose checksum stands on its own.
pub open spec fn is_checked(df: u8) -> bool {
    df == 11 || df == 17 || df == 18
}

/// Formats whose checksum is combined with the aircraft address.
pub open spec fn is_address_parity(df: u8) -> bool {
    df == 0 || df == 4 || df == 5 || df == 16 || df == 20 || df == 21
}

/// Formats of 112 bits; the others have 56.
pub open spec fn is_long(df: u8) -> bool {
    16 <= df <= 21 || df == 24
}

/// Bytes in a frame of format `df`.
pub open spec fn frame_len(df: u8) -> nat {
    if is_long(df) { 14 } else { 7 }
}

/// The format of a frame.
pub open spec fn format_of(f: Seq<u8>) -> u8 {
    f[0] >> 3u8
}

/// The address field of a frame that carries one in the clear.
pub open spec fn address_field(f: Seq<u8>) -> u32 {
    ((f[1] as u32) << 16u32) | ((f[2] as u32) << 8u32) | (f[3] as u32)
}

/// What remains of a demodulator between frames.
pub struct State {
    pub stats: Stats,
    /// Format sliced by the last decode, whatever its outcome.
    pub last_df: u8,
    /// Energy of the full and the empty half bits of the last decode.
    pub last_on: u64,
    pub last_off: u64,
    /// Bits those energies were summed over.
    pub last_summed: u8,
    /// Whether the address sliced by the last decode is near a confirmed
    /// aircraft; noise almost never is.
    pub last_known: bool,
    /// Stream position of the frame being decoded.
    pub now: u64,
    /// Sum and number of the samples of the current sub-block: their mean is
    /// the noise floor where the sky is mostly quiet.
    pub block_sum: u32,
    pub block_len: u32,
    /// Confirmed aircraft.
    pub known: Map<u32, u64>,
}

/// The format sliced at `st`.
pub open spec fn format_at(p: Params, m: Seq<u16>, st: int) -> u8 {
    bits_value(p, m, st, 0, 5) as u8
}

/// An address-parity frame: as received where it names a confirmed aircraft,
/// with one low-confidence bit flipped where that makes it name one.
pub open spec fn parity_decoded(
    p: Params,
    known: Map<u32, u64>,
    now: u64,
    f: Seq<u8>,
    conf: Seq<u32>,
) -> Option<(Seq<u8>, u8)> {
    let a = recovered_address(f);
    let syn = address_syndrome_table(f.len());
    if is_confirmed(known, a, now) {
        Some((f, 0u8))
    } else {
        match least_toward(known, a, now, syn, conf, p.ap_fix) {
            Some(k) => Some((flipped(f, syn.index_of_first(k ^ a)->0), 1u8)),
            None => None,
        }
    }
}

/// An all-call reply: residual zero is clean; an interrogator code is a weak
/// check and is marked 255.
pub open spec fn all_call_decoded(f: Seq<u8>) -> Option<(Seq<u8>, u8)> {
    let r = crc24_of(f);
    if r == 0 {
        Some((f, 0u8))
    } else if r < 80 {
        Some((f, 255u8))
    } else {
        None
    }
}

/// What decoding at `st` gives: the frame and the bits repaired.
#[verifier::opaque]
pub open spec fn decoded(p: Params, known: Map<u32, u64>, now: u64, m: Seq<u16>, st: int) -> Option<
    (Seq<u8>, u8),
> {
    let df = format_at(p, m, st);
    let f = frame_bytes(p, m, st, frame_len(df));
    let conf = frame_confidence(p, m, st, frame_len(df));
    if df == 17 || df == 18 {
        repair_of(p, f, conf, 0, is_near(known, address_field(f), now, p.near_bits))
    } else if df == 11 {
        all_call_decoded(f)
    } else if is_address_parity(df) {
        parity_decoded(p, known, now, f, conf)
    } else {
        None
    }
}

/// A decode gives a whole frame.
proof fn lemma_decoded_len(p: Params, known: Map<u32, u64>, now: u64, m: Seq<u16>, st: int)
    ensures
        decoded(p, known, now, m, st) matches Some((f, n)) ==> f.len() == 7 || f.len() == 14,
{
    let df = format_at(p, m, st);
    let f = frame_bytes(p, m, st, frame_len(df));
    let conf = frame_confidence(p, m, st, frame_len(df));
    let near = is_near(known, address_field(f), now, p.near_bits);
    lemma_repair_len(p, f, conf, 0, near);
    lemma_parity_len(p, known, now, f, conf);
    assert(all_call_decoded(f) matches Some((g, n)) ==> g.len() == f.len());
    reveal(decoded);
}

proof fn lemma_parity_len(p: Params, known: Map<u32, u64>, now: u64, f: Seq<u8>, conf: Seq<u32>)
    ensures
        parity_decoded(p, known, now, f, conf) matches Some((g, n)) ==> g.len() == f.len(),
{
    let a = recovered_address(f);
    let syn = address_syndrome_table(f.len());
    lemma_least_toward(known, a, now, syn, conf, p.ap_fix);
    if let Some(k) = least_toward(known, a, now, syn, conf, p.ap_fix) {
        syn.index_of_first_ensures(k ^ a);
    }
}

/// What decoding at `st` leaves behind.
#[verifier::opaque]
pub open spec fn after_decode(s: State, p: Params, m: Seq<u16>, st: int) -> State {
    let df = format_at(p, m, st);
    let f = frame_bytes(p, m, st, frame_len(df));
    if is_checked(df) || is_address_parity(df) {
        State {
            last_df: df,
            last_on: on_energy(p, m, st, 5, 8 * frame_len(df) as int) as u64,
            last_off: off_energy(p, m, st, 5, 8 * frame_len(df) as int) as u64,
            last_summed: (8 * frame_len(df) - 5) as u8,
            last_known: is_checked(df) && is_near(s.known, address_field(f), s.now, p.near_bits),
            ..s
        }
    } else {
        State { last_df: df, ..s }
    }
}

/// Unrepaired checked frames are emitted; repaired and address-parity frames
/// pass only for a confirmed aircraft. The frame to emit.
pub open spec fn admitted(known: Map<u32, u64>, f: Seq<u8>, fixed: u8, now: u64) -> Option<
    (Seq<u8>, u8),
> {
    if is_checked(format_of(f)) {
        if fixed == 0 {
            Some((f, 0u8))
        } else if is_confirmed(known, address_field(f), now) {
            Some((f, if fixed == 255 { 0u8 } else { fixed }))
        } else {
            None
        }
    } else if is_confirmed(known, recovered_address(f), now) {
        Some((f, fixed))
    } else {
        None
    }
}

/// Unrepaired checked frames confirm their aircraft.
pub open spec fn known_after(known: Map<u32, u64>, f: Seq<u8>, fixed: u8, now: u64) -> Map<u32, u64> {
    if is_checked(format_of(f)) && fixed == 0 {
        confirmed_after(known, address_field(f), now)
    } else {
        known
    }
}

/// Decodes of a candidate so far: the state, the best outcome and where it was
/// sliced, the repairs it took, and whether it cannot be bettered.
pub struct Tries {
    pub s: State,
    pub best: Option<(Seq<u8>, u8)>,
    pub start: int,
    pub fixed: int,
    pub done: bool,
}

/// One more decode, `d` fifths from `start0`: kept when it needs fewer repairs.
#[verifier::opaque]
pub open spec fn tried(t: Tries, p: Params, m: Seq<u16>, start0: int, d: int) -> Tries {
    let st = start0 + d;
    if t.done || st < 0 {
        t
    } else {
        let r = decoded(p, t.s.known, t.s.now, m, st);
        let s = after_decode(t.s, p, m, st);
        match r {
            Some((f, n)) => if is_checked(format_of(f)) && n < t.fixed {
                Tries {
                    s: State {
                        stats: Stats { retry_wins: s.stats.retry_wins.wrapping_add(1), ..s.stats },
                        ..s
                    },
                    best: r,
                    start: st,
                    fixed: n as int,
                    done: n == 0,
                }
            } else {
                Tries { s, ..t }
            },
            None => Tries { s, ..t },
        }
    }
}

/// The decodes at the retry offsets, from the `k`th on.
pub open spec fn retried(t: Tries, p: Params, m: Seq<u16>, start0: int, k: int) -> Tries
    decreases p.retry_offsets@.len() - k,
{
    if k < 0 || k >= p.retry_offsets@.len() {
        t
    } else {
        retried(tried(t, p, m, start0, p.retry_offsets@[k] as int), p, m, start0, k + 1)
    }
}

/// Nothing is tried after a decode that cannot be bettered.
proof fn lemma_retried_done(t: Tries, p: Params, m: Seq<u16>, start0: int, k: int)
    requires
        t.done,
    ensures
        retried(t, p, m, start0, k) == t,
    decreases p.retry_offsets@.len() - k,
{
    reveal(tried);
    if 0 <= k < p.retry_offsets@.len() {
        lemma_retried_done(t, p, m, start0, k + 1);
    }
}

/// A checked frame that failed or needed repair at the preamble's timing.
pub open spec fn unhappy(s: State, d: Option<(Seq<u8>, u8)>) -> bool {
    s.last_known && match d {
        Some((f, n)) => is_checked(format_of(f)) && n > 0,
        None => is_checked(s.last_df),
    }
}

/// The decode of a candidate at `start0`, with its retries.
#[verifier::opaque]
pub open spec fn best_decode(s: State, p: Params, m: Seq<u16>, start0: int) -> Tries {
    let d = decoded(p, s.known, s.now, m, start0);
    let s1 = after_decode(s, p, m, start0);
    let t = Tries {
        s: s1,
        best: d,
        start: start0,
        fixed: match d {
            Some((_, n)) => n as int,
            None => 255,
        },
        done: false,
    };
    if unhappy(s1, d) && p.retry_offsets@.len() > 0 {
        let s2 = State {
            stats: Stats { retries: s1.stats.retries.wrapping_add(1), ..s1.stats },
            ..s1
        };
        retried(Tries { s: s2, ..t }, p, m, start0, 0)
    } else {
        t
    }
}

/// Samples taken by a frame of `n` bytes, preamble and all.
pub open spec fn span_of(n: int) -> int {
    (96 + 96 * n) / 5
}

/// A candidate brought to its end: the state, the frame if there is one, and
/// the sample to go on from.
pub struct Attempt {
    pub s: State,
    pub frame: Option<FrameView>,
    pub next: int,
}

/// The candidate `hit`, found at sample `i` of a block whose first sample is
/// `base` in the stream.
#[verifier::opaque]
pub open spec fn attempted(s: State, p: Params, m: Seq<u16>, base: int, hit: Hit, i: int) -> Attempt {
    let s1 = State {
        stats: Stats { decodes: s.stats.decodes.wrapping_add(1), ..s.stats },
        now: (base + hit.start as int / 5) as u64,
        ..s
    };
    let t = best_decode(s1, p, m, hit.start as int);
    match t.best {
        None => Attempt { s: t.s, frame: None, next: i + 1 },
        Some((f, fixed)) => {
            let now = (base + t.start / 5) as u64;
            let s2 = State {
                stats: Stats { crc_ok: t.s.stats.crc_ok.wrapping_add(1), ..t.s.stats },
                known: known_after(t.s.known, f, fixed, now),
                ..t.s
            };
            match admitted(t.s.known, f, fixed, now) {
                None => Attempt { s: s2, frame: None, next: i + 1 },
                Some((g, n)) => Attempt {
                    s: State {
                        stats: Stats { frames: s2.stats.frames.wrapping_add(1), ..s2.stats },
                        ..s2
                    },
                    frame: Some(
                        FrameView {
                            start: (5 * base + t.start) as u64,
                            bytes: g,
                            signal: hit.pulse,
                            gap: hit.gap,
                            on: t.s.last_on,
                            off: t.s.last_off,
                            summed: t.s.last_summed,
                            fixed: n,
                        },
                    ),
                    next: t.start / 5 + span_of(g.len() as int),
                },
            }
        },
    }
}

/// The better of a hit and a rival.
pub open spec fn better(h: Hit, rival: Option<Hit>) -> Hit {
    match rival {
        Some(r) => if r.score() > h.score() { r } else { h },
        None => h,
    }
}

/// The fine test at sample `s`, where the pre-check of the sub-block that ends at
/// `block_end` lets it through.
pub open spec fn gated_fine(p: Params, m: Seq<u16>, s: int, block_end: int) -> Option<Hit> {
    if s < block_end && gate(m, s, p.precheck_ratio) {
        fine_at(m, s, p.preamble_ratio, p.pulse_uniformity)
    } else {
        None
    }
}

/// The fine test `d` fifths from `s0`.
pub open spec fn phase_fine(p: Params, m: Seq<u16>, s0: u64, d: int) -> Option<Hit> {
    if s0 + d < 0 {
        None
    } else {
        grid_at(m, s0 + d, p.preamble_ratio)
    }
}

/// Refining a hit at sample `i`: the next two samples, then the phases around
/// the best of the three.
#[verifier::opaque]
pub open spec fn refined(p: Params, m: Seq<u16>, i: int, block_end: int, h: Hit) -> Hit {
    let h1 = better(h, gated_fine(p, m, i + 1, block_end));
    let h2 = better(h1, gated_fine(p, m, i + 2, block_end));
    let h3 = better(h2, phase_fine(p, m, h2.start, -1));
    let h4 = better(h3, phase_fine(p, m, h2.start, 1));
    if p.phase_span >= 2 {
        let h5 = better(h4, phase_fine(p, m, h2.start, -2));
        better(h5, phase_fine(p, m, h2.start, 2))
    } else {
        h4
    }
}

/// A scan in progress: the state, the next sample, the first sample of the
/// current sub-block (-1 before the first), and the frames found.
pub struct Scan {
    pub s: State,
    pub i: int,
    pub sub: int,
    pub out: Seq<FrameView>,
}

/// Frames are started before this sample.
pub open spec fn scan_end(m: Seq<u16>) -> int {
    m.len() - LONG_SAMPLES
}

/// The end of the sub-block that starts at `sub`.
pub open spec fn block_end(m: Seq<u16>, sub: int) -> int {
    if sub + SUB < scan_end(m) { sub + SUB } else { scan_end(m) }
}

/// A scan that has left its sub-block enters one at the current sample.
pub open spec fn entered(c: Scan, m: Seq<u16>) -> Scan {
    if c.sub < 0 || c.i >= c.sub + SUB {
        let to = block_end(m, c.i) + 20;
        Scan {
            s: State { block_sum: sum(m, c.i, to) as u32, block_len: (to - c.i) as u32, ..c.s },
            sub: c.i,
            ..c
        }
    } else {
        c
    }
}

/// What becomes of sample `i`: the pre-check, the fine test, and the candidate they
/// let through.
#[verifier::opaque]
pub open spec fn looked(s: State, p: Params, m: Seq<u16>, base: int, i: int, block_end: int) -> Attempt {
    if !gate(m, i, p.precheck_ratio) || spikes(m, i) > p.gap_spikes {
        Attempt { s, frame: None, next: i + 1 }
    } else {
        let s1 = State {
            stats: Stats { precheck_hits: s.stats.precheck_hits.wrapping_add(1), ..s.stats },
            ..s
        };
        match fine_at(m, i, p.preamble_ratio, p.pulse_uniformity) {
            None => Attempt { s: s1, frame: None, next: i + 1 },
            Some(h) => {
                let s2 = State {
                    stats: Stats {
                        preamble_hits: s1.stats.preamble_hits.wrapping_add(1),
                        ..s1.stats
                    },
                    ..s1
                };
                attempted(s2, p, m, base, refined(p, m, i, block_end, h), i)
            },
        }
    }
}

/// The scan at one sample. It never stands still.
#[verifier::opaque]
pub open spec fn stepped(c0: Scan, p: Params, m: Seq<u16>, base: int) -> Scan {
    let c = entered(c0, m);
    let a = looked(c.s, p, m, base, c.i, block_end(m, c.sub));
    Scan {
        s: a.s,
        i: if a.next > c.i { a.next } else { c.i + 1 },
        sub: c.sub,
        out: match a.frame {
            Some(f) => c.out.push(f),
            None => c.out,
        },
    }
}

/// The scan to the end of the samples.
pub open spec fn scanned(c: Scan, p: Params, m: Seq<u16>, base: int) -> Scan
    decreases larger(scan_end(m) - c.i, 0),
{
    if c.i >= scan_end(m) {
        c
    } else {
        proof {
            lemma_step_moves(c, p, m, base);
        }
        scanned(stepped(c, p, m, base), p, m, base)
    }
}

/// Every step of a scan moves on.
pub proof fn lemma_step_moves(c: Scan, p: Params, m: Seq<u16>, base: int)
    ensures
        stepped(c, p, m, base).i > c.i,
{
    reveal(stepped);
}

/// A scan that is about to enter a sub-block may as well have done so.
proof fn lemma_enter(c: Scan, p: Params, m: Seq<u16>, base: int)
    requires
        0 <= c.i < scan_end(m),
    ensures
        scanned(c, p, m, base) == scanned(entered(c, m), p, m, base),
{
    reveal(stepped);
}

/// Samples that the pre-check turns down are passed over.
proof fn lemma_skip(c: Scan, p: Params, m: Seq<u16>, base: int, j: int)
    requires
        0 <= c.sub <= c.i <= j <= c.sub + SUB,
        j <= scan_end(m),
        forall|x: int| c.i <= x < j ==> !#[trigger] gate(m, x, p.precheck_ratio),
    ensures
        scanned(c, p, m, base) == scanned((Scan { i: j, ..c }), p, m, base),
    decreases j - c.i,
{
    if c.i < j {
        reveal(looked);
        reveal(stepped);
        lemma_skip(Scan { i: c.i + 1, ..c }, p, m, base, j);
    }
}

/// What demodulating `m` gives: the state it leaves and the frames found.
pub open spec fn run_of(s: State, p: Params, m: Seq<u16>, base: int) -> (State, Seq<FrameView>) {
    if m.len() < LONG_SAMPLES + 2 {
        (s, Seq::<FrameView>::empty())
    } else {
        let s1 = State {
            stats: Stats { samples: s.stats.samples.wrapping_add(scan_end(m) as u64), ..s.stats },
            ..s
        };
        let c = scanned(
            Scan { s: s1, i: 0, sub: -1, out: Seq::<FrameView>::empty() },
            p,
            m,
            base,
        );
        (c.s, c.out)
    }
}

/// The gates of a rescan, 1.3 in 256ths, and its spikes.
pub const RELAXED_RATIO: u32 = 332;

pub const RELAXED_SPIKES: usize = 6;

/// The settings of a rescan.
pub open spec fn relaxed(p: Params) -> Params {
    Params {
        precheck_ratio: RELAXED_RATIO,
        gap_spikes: RELAXED_SPIKES,
        preamble_ratio: RELAXED_RATIO,
        ..p
    }
}

/// The preamble gaps of `f` are at least `cancel_gap_ratio` times what they
/// hold of a lone frame: the noise floor and 0.3 of its signal.
pub open spec fn gap_hot(s: State, p: Params, f: FrameView) -> bool {
    &&& p.cancel_gap_ratio > 0
    &&& f.gap * s.block_len * 2560 >= p.cancel_gap_ratio * (3960 * s.block_sum + 3 * (f.signal
        * s.block_len))
}

/// The empty half bits of `f` carry at least `cancel_off_ratio` of the energy
/// of its full ones, and at least `cancel_gap_ratio` times, once at the least,
/// what they hold of a lone frame: the noise floor and 0.35 of its signal.
pub open spec fn off_hot(s: State, p: Params, f: FrameView) -> bool {
    let floor = if p.cancel_gap_ratio > 256 { p.cancel_gap_ratio as int } else { 256 };
    &&& p.cancel_off_ratio > 0
    &&& if f.on > 0 {
        f.off * 256 >= p.cancel_off_ratio * f.on
    } else {
        256 >= p.cancel_off_ratio
    }
    &&& f.off * s.block_len * 2027520 >= floor * (6 * f.summed * (7920 * s.block_sum + 7 * (f.signal
        * s.block_len)))
}

/// The frame `f` is to be cancelled: it needed repair, or holds energy that is
/// not its own, or every frame is to be.
pub open spec fn is_collision(s: State, p: Params, f: FrameView) -> bool {
    ||| f.fixed != 0
    ||| gap_hot(s, p, f)
    ||| off_hot(s, p, f)
    ||| p.cancel_gap_ratio == 0 && p.cancel_off_ratio == 0
}

/// The bucket of a cancellation that removed `removed` millionths.
pub open spec fn bucket(removed: i32) -> int {
    if removed < 500_000 {
        0
    } else if removed < 800_000 {
        1
    } else if removed < 900_000 {
        2
    } else if removed < 950_000 {
        3
    } else {
        4
    }
}

/// The counters after a cancellation.
pub open spec fn noted(t: Stats, removed: i32) -> Stats {
    let b = bucket(removed);
    Stats {
        cancelled: t.cancelled.wrapping_add(1),
        removed_hist: spec_array_update(t.removed_hist, b, t.removed_hist@[b].wrapping_add(1)),
        ..t
    }
}

/// The products that decide on a collision are small enough to compute.
proof fn lemma_collision_bounds(
    gr: u128,
    or: u128,
    sum: u128,
    len: u128,
    on: u128,
    off: u128,
    summed: u128,
    signal: u128,
    gap: u128,
)
    requires
        gr <= 0xFFFF_FFFF,
        or <= 0xFFFF_FFFF,
        sum <= 0xFFFF_FFFF,
        len <= 0xFFFF_FFFF,
        on <= 0xFFFF_FFFF_FFFF_FFFF,
        off <= 0xFFFF_FFFF_FFFF_FFFF,
        summed <= 255,
        signal <= 0xFFFF_FFFF,
        gap <= 0xFFFF_FFFF,
    ensures
        gap * len <= 0xFFFF_FFFF_FFFF_FFFF,
        signal * len <= 0xFFFF_FFFF_FFFF_FFFF,
        gr * (3960 * sum + 3 * (signal * len)) <= 0xFFFF_FFFF * 0xFFFF_FFFF_FFFF_FFFF_FFFF,
        or * on <= 0xFFFF_FFFF * 0xFFFF_FFFF_FFFF_FFFF,
        off * len <= 0xFFFF_FFFF * 0xFFFF_FFFF_FFFF_FFFF,
        6 * summed * (7920 * sum + 7 * (signal * len)) <= 0xFFFF_FFFF_FFFF_FFFF_FFFF,
        gr * (6 * summed * (7920 * sum + 7 * (signal * len))) <= 0xFFFF_FFFF
            * 0xFFFF_FFFF_FFFF_FFFF_FFFF,
{
    assert(gap * len <= 0xFFFF_FFFF * 0xFFFF_FFFF) by (nonlinear_arith)
        requires
            0 <= gap <= 0xFFFF_FFFF,
            0 <= len <= 0xFFFF_FFFF,
    ;
    assert(0 <= signal * len <= 0xFFFF_FFFF * 0xFFFF_FFFF) by (nonlinear_arith)
        requires
            0 <= signal <= 0xFFFF_FFFF,
            0 <= len <= 0xFFFF_FFFF,
    ;
    let a = 3960 * sum + 3 * (signal * len);
    assert(gr * a <= 0xFFFF_FFFF * 0xFFFF_FFFF_FFFF_FFFF_FFFF) by (nonlinear_arith)
        requires
            0 <= gr <= 0xFFFF_FFFF,
            0 <= a <= 0xFFFF_FFFF_FFFF_FFFF_FFFF,
    ;
    assert(or * on <= 0xFFFF_FFFF * 0xFFFF_FFFF_FFFF_FFFF) by (nonlinear_arith)
        requires
            0 <= or <= 0xFFFF_FFFF,
            0 <= on <= 0xFFFF_FFFF_FFFF_FFFF,
    ;
    assert(off * len <= 0xFFFF_FFFF * 0xFFFF_FFFF_FFFF_FFFF) by (nonlinear_arith)
        requires
            0 <= len <= 0xFFFF_FFFF,
            0 <= off <= 0xFFFF_FFFF_FFFF_FFFF,
    ;
    let b = 7920 * sum + 7 * (signal * len);
    assert(0 <= 6 * summed * b <= 1530 * b) by (nonlinear_arith)
        requires
            0 <= summed <= 255,
            0 <= b,
    ;
    let c = 6 * summed * b;
    assert(gr * c <= 0xFFFF_FFFF * 0xFFFF_FFFF_FFFF_FFFF_FFFF) by (nonlinear_arith)
        requires
            0 <= gr <= 0xFFFF_FFFF,
            0 <= c <= 0xFFFF_FFFF_FFFF_FFFF_FFFF,
    ;
}

/// Whether format `df` has 112 bits.
pub fn long_df(df: u8) -> (long: bool)
    ensures
        long == is_long(df),
{
    (df >= 16 && df <= 21) || df == 24
}

fn checked(df: u8) -> (yes: bool)
    ensures
        yes == is_checked(df),
{
    df == 11 || df == 17 || df == 18
}

/// The address field of a frame that carries one in the clear.
pub fn address_in(f: &Vec<u8>) -> (a: u32)
    requires
        f@.len() >= 4,
    ensures
        a == address_field(f@),
{
    ((f[1] as u32) << 16u32) | ((f[2] as u32) << 8u32) | (f[3] as u32)
}

/// The start `d` fifths from `st`, if there is one.
fn moved(st: u64, d: i8) -> (to: Option<u64>)
    requires
        st <= u64::MAX - 127,
    ensures
        st + d < 0 ==> to is None,
        st + d >= 0 ==> to == Some((st + d) as u64),
{
    if d >= 0 {
        Some(st + d as u64)
    } else {
        let back: u64 = (-(d as i16)) as u64;
        if back <= st {
            Some(st - back)
        } else {
            None
        }
    }
}

/// The better of a hit and a rival.
fn pick(h: Hit, rival: Option<Hit>) -> (b: Hit)
    ensures
        b == better(h, rival),
{
    match rival {
        Some(r) => if r.pulse as i64 - r.gap as i64 > h.pulse as i64 - h.gap as i64 {
            r
        } else {
            h
        },
        None => h,
    }
}

/// The fine test `d` fifths from `s0`.
fn phase_hit(p: &Params, m: &[u16], s0: u64, d: i8) -> (hit: Option<Hit>)
    requires
        5 * m@.len() <= u64::MAX,
        s0 <= u64::MAX - 127,
    ensures
        hit == phase_fine(*p, m@, s0, d as int),
{
    match moved(s0, d) {
        Some(st) => preamble_grid(m, st, p.preamble_ratio),
        None => None,
    }
}

/// Refine the hit `h` at sample `i` of the sub-block whose gates are `hits`:
/// the next two samples, then the phases around the best of the three.
fn refine(p: &Params, m: &[u16], i: usize, sub: usize, hits: &Vec<u8>, h: Hit) -> (r: Hit)
    requires
        5 * m@.len() + 3000 <= u64::MAX,
        sub <= i < sub + hits@.len(),
        sub + hits@.len() + 20 <= m@.len(),
        forall|j: int|
            0 <= j < hits@.len() ==> (#[trigger] hits@[j] != 0) == gate(
                m@,
                sub + j,
                p.precheck_ratio,
            ),
        h.start == 5 * i,
    ensures
        r == refined(*p, m@, i as int, sub + hits@.len(), h),
        5 * i <= r.start + 2,
        r.start <= 5 * (sub + hits@.len() - 1) + 2,
{
    reveal(refined);
    let n: usize = hits.len();
    let samples: usize = m.len();
    assert(sub + n + 20 <= samples);
    let mut best: Hit = h;
    let d: usize = i - sub;
    if n - d > 1 && hits[d + 1] != 0 {
        best = pick(best, fine(m, i + 1, p.preamble_ratio, p.pulse_uniformity));
    }
    if n - d > 2 && hits[d + 2] != 0 {
        best = pick(best, fine(m, i + 2, p.preamble_ratio, p.pulse_uniformity));
    }
    let s0: u64 = best.start;
    best = pick(best, phase_hit(p, m, s0, -1));
    best = pick(best, phase_hit(p, m, s0, 1));
    if p.phase_span >= 2 {
        best = pick(best, phase_hit(p, m, s0, -2));
        best = pick(best, phase_hit(p, m, s0, 2));
    }
    best
}

/// The demodulator: its settings, tables, and what it remembers of the sky.
pub struct Demodulator {
    pub stats: Stats,
    crc: Crc24,
    last_df: u8,
    last_on: u64,
    last_off: u64,
    last_summed: u8,
    last_known: bool,
    now: u64,
    block_sum: u32,
    block_len: u32,
    /// Scratch for the pre-check passes, kept between blocks.
    pmax: Vec<u16>,
    cum: Vec<u32>,
    hits: Vec<u8>,
    p: Params,
    syn56: Vec<u32>,
    syn112: Vec<u32>,
    asyn56: Vec<u32>,
    asyn112: Vec<u32>,
    known: Known,
}

impl Demodulator {
    /// The tables are those of the checksum, and the settings keep slices
    /// within the samples.
    pub closed spec fn wf(&self) -> bool {
        &&& self.crc.wf()
        &&& self.p.wf()
        &&& self.syn56@ == syndrome_table(7)
        &&& self.syn112@ == syndrome_table(14)
        &&& self.asyn56@ == address_syndrome_table(7)
        &&& self.asyn112@ == address_syndrome_table(14)
    }

    /// The settings.
    pub closed spec fn params(&self) -> Params {
        self.p
    }

    /// What is remembered.
    pub closed spec fn state(&self) -> State {
        State {
            stats: self.stats,
            last_df: self.last_df,
            last_on: self.last_on,
            last_off: self.last_off,
            last_summed: self.last_summed,
            last_known: self.last_known,
            now: self.now,
            block_sum: self.block_sum,
            block_len: self.block_len,
            known: self.known@,
        }
    }

    pub fn new(p: Params) -> (d: Demodulator)
        requires
            p.wf(),
        ensures
            d.wf(),
            d.params() == p,
            d.state().known == Map::<u32, u64>::empty(),
            d.state().last_df == 0,
            d.state().last_on == 0,
            d.state().last_off == 0,
            d.state().last_summed == 0,
            !d.state().last_known,
            d.state().now == 0,
            d.state().block_sum == 0,
            d.state().block_len == 1,
            d.state().stats.is_zero(),
    {
        Demodulator {
            stats: Stats::default(),
            crc: Crc24::new(),
            last_df: 0,
            last_on: 0,
            last_off: 0,
            last_summed: 0,
            last_known: false,
            now: 0,
            block_sum: 0,
            // A mean of nothing.
            block_len: 1,
            pmax: Vec::new(),
            cum: Vec::new(),
            hits: Vec::new(),
            p,
            syn56: syndromes(56),
            syn112: syndromes(112),
            asyn56: address_syndromes(56),
            asyn112: address_syndromes(112),
            known: Known::new(),
        }
    }

    /// Slice bits from `st`, check and repair the checksum.
    #[verifier::rlimit(30)]
    fn decode(&mut self, m: &[u16], st: u64) -> (d: Option<(Vec<u8>, u8)>)
        requires
            old(self).wf(),
            5 * m@.len() + 3000 <= u64::MAX,
            fits(old(self).params(), m@.len() as int, st as int, 112),
        ensures
            final(self).wf(),
            final(self).params() == old(self).params(),
            outcome(d) == decoded(
                old(self).params(),
                old(self).state().known,
                old(self).state().now,
                m@,
                st as int,
            ),
            final(self).state() == after_decode(old(self).state(), old(self).params(), m@, st as int),
    {
        reveal(decoded);
        reveal(after_decode);
        let df: u8 = slice_format(&self.p, m, st);
        self.last_df = df;
        // Most noise reads as some other format and stops here.
        if !(df == 0 || df == 4 || df == 5 || df == 11 || df == 16 || df == 17 || df == 18 || df == 20
            || df == 21) {
            return None;
        }
        let nbytes: usize = if long_df(df) { 14 } else { 7 };
        let s: Sliced = slice_frame(&self.p, m, st, nbytes);
        self.last_on = s.on;
        self.last_off = s.off;
        self.last_summed = (8 * nbytes - 5) as u8;
        if checked(df) {
            // Weak frames often carry errors in the address field too; noise
            // is almost never this close to any of a few dozen addresses.
            self.last_known = self.known.near(address_in(&s.bytes), self.now, self.p.near_bits);
        } else {
            self.last_known = false;
        }
        if df == 17 || df == 18 {
            repair(&self.p, &self.crc, &self.syn112, &s.bytes, &s.conf, 0, self.last_known)
        } else if df == 11 {
            let r: u32 = self.crc.of(s.bytes.as_slice());
            if r == 0 {
                Some((s.bytes, 0))
            } else if r < 80 {
                Some((s.bytes, 255))
            } else {
                None
            }
        } else {
            let a: u32 = self.recovered(&s.bytes);
            if self.known.confirmed(a, self.now) {
                return Some((s.bytes, 0));
            }
            let syn: &Vec<u32> = if nbytes == 14 { &self.asyn112 } else { &self.asyn56 };
            match self.known.toward(a, self.now, syn, &s.conf, self.p.ap_fix) {
                Some(i) => {
                    let mut f: Vec<u8> = s.bytes;
                    proof {
                        let k = least_toward(
                            self.known@,
                            a,
                            self.now,
                            syn@,
                            s.conf@,
                            self.p.ap_fix,
                        )->0;
                        syn@.index_of_first_ensures(k ^ a);
                    }
                    flip(&mut f, i);
                    Some((f, 1))
                },
                None => None,
            }
        }
    }

    /// The checksum of the data part combined with the parity field.
    fn recovered(&self, f: &Vec<u8>) -> (a: u32)
        requires
            self.wf(),
            f@.len() >= 3,
        ensures
            a == recovered_address(f@),
    {
        let n: usize = f.len();
        let ap: u32 = ((f[n - 3] as u32) << 16u32) | ((f[n - 2] as u32) << 8u32) | (f[n - 1] as u32);
        let data: &[u8] = slice_subrange(f.as_slice(), 0, n - 3);
        assert(data@ =~= f@.take(n - 3));
        self.crc.of(data) ^ ap
    }

    /// Unrepaired checked frames confirm their aircraft; repaired and
    /// address-parity frames pass only for a confirmed aircraft. Returns the
    /// frame to emit.
    fn pass(&mut self, bytes: Vec<u8>, fixed: u8, now: u64) -> (f: Option<(Vec<u8>, u8)>)
        requires
            old(self).wf(),
            bytes@.len() >= 4,
        ensures
            final(self).wf(),
            final(self).params() == old(self).params(),
            outcome(f) == admitted(old(self).state().known, bytes@, fixed, now),
            final(self).state() == (State {
                known: known_after(old(self).state().known, bytes@, fixed, now),
                ..old(self).state()
            }),
    {
        let df: u8 = bytes[0] >> 3u8;
        if checked(df) {
            let a: u32 = address_in(&bytes);
            if fixed == 0 {
                self.known.confirm(a, now);
                return Some((bytes, 0));
            }
            // 255 marks an all-call reply with a nonzero interrogator code: not
            // repaired, but not trusted to confirm an aircraft either.
            if self.known.confirmed(a, now) {
                Some((bytes, if fixed == 255 { 0 } else { fixed }))
            } else {
                None
            }
        } else {
            let a: u32 = self.recovered(&bytes);
            if self.known.confirmed(a, now) {
                Some((bytes, fixed))
            } else {
                None
            }
        }
    }

    /// The decode at the preamble's timing, re-sliced at neighbouring offsets
    /// when it is a checked frame that failed or needed repair. Returns the
    /// best outcome and where it was sliced.
    fn decode_best(&mut self, m: &[u16], start0: u64) -> (r: (Option<(Vec<u8>, u8)>, u64))
        requires
            old(self).wf(),
            5 * m@.len() + 3000 <= u64::MAX,
            start0 + 1458 <= 5 * m@.len(),
        ensures
            final(self).wf(),
            final(self).params() == old(self).params(),
            ({
                let t = best_decode(old(self).state(), old(self).params(), m@, start0 as int);
                final(self).state() == t.s && outcome(r.0) == t.best && r.1 == t.start
            }),
            start0 <= r.1 + 128,
            r.1 <= start0 + 18,
            r.0 matches Some((f, n)) ==> f@.len() == 7 || f@.len() == 14,
    {
        reveal(best_decode);
        let ghost p = self.params();
        proof {
            lemma_decoded_len(p, self.state().known, self.state().now, m@, start0 as int);
        }
        let first: Option<(Vec<u8>, u8)> = self.decode(m, start0);
        let (unhappy, fixed): (bool, u8) = match &first {
            Some((f, n)) => (self.last_known && checked(f[0] >> 3u8) && *n > 0, *n),
            None => (self.last_known && checked(self.last_df), 255),
        };
        if !unhappy || self.p.retry_offsets.len() == 0 {
            return (first, start0);
        }
        self.stats.retries = self.stats.retries.wrapping_add(1);
        self.retry(m, start0, first, fixed)
    }

    /// Re-slice at the retry offsets, keeping the decode with the fewest
    /// repairs.
    fn retry(&mut self, m: &[u16], start0: u64, first: Option<(Vec<u8>, u8)>, fixed0: u8) -> (r: (
        Option<(Vec<u8>, u8)>,
        u64,
    ))
        requires
            old(self).wf(),
            5 * m@.len() + 3000 <= u64::MAX,
            start0 + 1458 <= 5 * m@.len(),
            first matches Some((f, n)) ==> f@.len() == 7 || f@.len() == 14,
        ensures
            final(self).wf(),
            final(self).params() == old(self).params(),
            ({
                let t = retried(
                    Tries {
                        s: old(self).state(),
                        best: outcome(first),
                        start: start0 as int,
                        fixed: fixed0 as int,
                        done: false,
                    },
                    old(self).params(),
                    m@,
                    start0 as int,
                    0,
                );
                final(self).state() == t.s && outcome(r.0) == t.best && r.1 == t.start
            }),
            start0 <= r.1 + 128,
            r.1 <= start0 + 18,
            r.0 matches Some((f, n)) ==> f@.len() == 7 || f@.len() == 14,
    {
        let ghost p = self.params();
        let mut best: Option<(Vec<u8>, u8)> = first;
        let mut best_fixed: u8 = fixed0;
        let mut start: u64 = start0;
        let ghost goal = retried(
            Tries {
                s: self.state(),
                best: outcome(best),
                start: start as int,
                fixed: best_fixed as int,
                done: false,
            },
            p,
            m@,
            start0 as int,
            0,
        );
        let mut k: usize = 0;
        while k < self.p.retry_offsets.len()
            invariant
                self.wf(),
                self.params() == p,
                p == old(self).params(),
                5 * m@.len() + 3000 <= u64::MAX,
                start0 + 1458 <= 5 * m@.len(),
                start0 <= start + 128,
                start <= start0 + 18,
                best matches Some((f, n)) ==> f@.len() == 7 || f@.len() == 14,
                goal == retried(
                    Tries {
                        s: old(self).state(),
                        best: outcome(first),
                        start: start0 as int,
                        fixed: fixed0 as int,
                        done: false,
                    },
                    p,
                    m@,
                    start0 as int,
                    0,
                ),
                goal == retried(
                    Tries {
                        s: self.state(),
                        best: outcome(best),
                        start: start as int,
                        fixed: best_fixed as int,
                        done: false,
                    },
                    p,
                    m@,
                    start0 as int,
                    k as int,
                ),
            decreases p.retry_offsets@.len() - k,
        {
            reveal(tried);
            let d: i8 = self.p.retry_offsets[k];
            let ghost t = Tries {
                s: self.state(),
                best: outcome(best),
                start: start as int,
                fixed: best_fixed as int,
                done: false,
            };
            if let Some(st) = moved(start0, d) {
                proof {
                    lemma_decoded_len(p, t.s.known, t.s.now, m@, st as int);
                }
                if let Some((f, n)) = self.decode(m, st) {
                    if checked(f[0] >> 3u8) && n < best_fixed {
                        best_fixed = n;
                        best = Some((f, n));
                        start = st;
                        self.stats.retry_wins = self.stats.retry_wins.wrapping_add(1);
                        if n == 0 {
                            proof {
                                lemma_retried_done(
                                    tried(t, p, m@, start0 as int, d as int),
                                    p,
                                    m@,
                                    start0 as int,
                                    k + 1,
                                );
                            }
                            return (best, start);
                        }
                    }
                }
            }
            k += 1;
        }
        (best, start)
    }

    /// Bring the candidate `hit`, found at sample `i`, to its end. Returns the
    /// frame to emit, and the sample to go on from.
    fn attempt(&mut self, m: &[u16], base: u64, hit: Hit, i: usize) -> (r: (Option<Frame>, usize))
        requires
            old(self).wf(),
            5 * (base + m@.len()) + 3000 <= u64::MAX,
            hit.start + 1458 <= 5 * m@.len(),
            5 * i <= hit.start + 2,
            i < m@.len(),
        ensures
            final(self).wf(),
            final(self).params() == old(self).params(),
            ({
                let a = attempted(old(self).state(), old(self).params(), m@, base as int, hit, i as int);
                &&& final(self).state() == a.s
                &&& r.1 == a.next
                &&& match r.0 {
                    Some(f) => a.frame == Some(f@),
                    None => a.frame is None,
                }
            }),
            i < r.1 <= m@.len(),
    {
        reveal(attempted);
        let n: usize = m.len();
        self.stats.decodes = self.stats.decodes.wrapping_add(1);
        self.now = base + hit.start / 5;
        let (best, start): (Option<(Vec<u8>, u8)>, u64) = self.decode_best(m, hit.start);
        let (bytes, fixed): (Vec<u8>, u8) = match best {
            Some((f, k)) => (f, k),
            None => return (None, i + 1),
        };
        self.stats.crc_ok = self.stats.crc_ok.wrapping_add(1);
        match self.pass(bytes, fixed, base + start / 5) {
            Some((f, k)) => {
                self.stats.frames = self.stats.frames.wrapping_add(1);
                let next: usize = (start / 5) as usize + (96 + 96 * f.len()) / 5;
                let frame: Frame = Frame {
                    start: 5 * base + start,
                    bytes: f,
                    signal: hit.pulse,
                    gap: hit.gap,
                    on: self.last_on,
                    off: self.last_off,
                    summed: self.last_summed,
                    fixed: k,
                };
                (Some(frame), next)
            },
            None => (None, i + 1),
        }
    }

    /// The sample `i` that the pre-check let through: count its spikes, test it
    /// finely, and try it. Returns the frame to emit, and the sample to go on
    /// from.
    fn look(&mut self, m: &[u16], base: u64, i: usize, sub: usize, hits: &Vec<u8>) -> (r: (
        Option<Frame>,
        usize,
    ))
        requires
            old(self).wf(),
            5 * (base + m@.len()) + 3000 <= u64::MAX,
            sub <= i < sub + hits@.len(),
            sub + hits@.len() + LONG_SAMPLES <= m@.len(),
            hits@[i - sub] != 0,
            forall|j: int|
                0 <= j < hits@.len() ==> (#[trigger] hits@[j] != 0) == gate(
                    m@,
                    sub + j,
                    old(self).params().precheck_ratio,
                ),
        ensures
            final(self).wf(),
            final(self).params() == old(self).params(),
            ({
                let a = looked(
                    old(self).state(),
                    old(self).params(),
                    m@,
                    base as int,
                    i as int,
                    sub + hits@.len(),
                );
                &&& final(self).state() == a.s
                &&& r.1 == a.next
                &&& match r.0 {
                    Some(f) => a.frame == Some(f@),
                    None => a.frame is None,
                }
            }),
            i < r.1 <= m@.len(),
    {
        reveal(looked);
        let n: usize = m.len();
        if spike_count(m, i) > self.p.gap_spikes {
            return (None, i + 1);
        }
        self.stats.precheck_hits = self.stats.precheck_hits.wrapping_add(1);
        // Only a hit is worth refining.
        let hit: Hit = match fine(m, i, self.p.preamble_ratio, self.p.pulse_uniformity) {
            Some(h) => h,
            None => return (None, i + 1),
        };
        self.stats.preamble_hits = self.stats.preamble_hits.wrapping_add(1);
        let best: Hit = refine(&self.p, m, i, sub, hits, hit);
        self.attempt(m, base, best, i)
    }

    /// Demodulate `m`, reporting frames whose preamble starts before
    /// `m.len() - LONG_SAMPLES`. `base` is the stream index of `m[0]`.
    #[verifier::rlimit(30)]
    pub fn run(&mut self, m: &[u16], base: u64) -> (out: Vec<Frame>)
        requires
            old(self).wf(),
            5 * (base + m@.len()) + 3000 <= u64::MAX,
        ensures
            final(self).wf(),
            final(self).params() == old(self).params(),
            (final(self).state(), frames_of(out@)) == run_of(
                old(self).state(),
                old(self).params(),
                m@,
                base as int,
            ),
    {
        let mut out: Vec<Frame> = Vec::new();
        if m.len() < LONG_SAMPLES + 2 {
            assert(frames_of(out@) =~= Seq::<FrameView>::empty());
            return out;
        }
        let n: usize = m.len();
        let end: usize = n - LONG_SAMPLES;
        self.stats.samples = self.stats.samples.wrapping_add(end as u64);
        // Gate in straight passes over sub-blocks small enough to stay close
        // at hand; the spike count runs only on hits.
        let mut pmax: Vec<u16> = Vec::new();
        let mut cum: Vec<u32> = Vec::new();
        let mut hits: Vec<u8> = Vec::new();
        std::mem::swap(&mut pmax, &mut self.pmax);
        std::mem::swap(&mut cum, &mut self.cum);
        std::mem::swap(&mut hits, &mut self.hits);
        let ghost p = self.params();
        let ghost goal = run_of(old(self).state(), p, m@, base as int);
        let mut i: usize = 0;
        let mut started: bool = false;
        let mut sub: usize = 0;
        assert(frames_of(out@) =~= Seq::<FrameView>::empty());
        while i < end
            invariant
                self.wf(),
                self.params() == p,
                p == old(self).params(),
                goal == run_of(old(self).state(), p, m@, base as int),
                5 * (base + m@.len()) + 3000 <= u64::MAX,
                n == m@.len(),
                end == m@.len() - LONG_SAMPLES,
                i <= m@.len(),
                started ==> {
                    &&& sub <= i
                    &&& sub < end
                    &&& sub + hits@.len() == block_end(m@, sub as int)
                    &&& forall|j: int|
                        0 <= j < hits@.len() ==> (#[trigger] hits@[j] != 0) == gate(
                            m@,
                            sub + j,
                            p.precheck_ratio,
                        )
                },
                ({
                    let c = scanned(
                        Scan {
                            s: self.state(),
                            i: i as int,
                            sub: if started { sub as int } else { -1 },
                            out: frames_of(out@),
                        },
                        p,
                        m@,
                        base as int,
                    );
                    (c.s, c.out) == goal
                }),
            decreases m@.len() - i,
        {
            let ghost c0 = Scan {
                s: self.state(),
                i: i as int,
                sub: if started { sub as int } else { -1 },
                out: frames_of(out@),
            };
            proof {
                lemma_enter(c0, p, m@, base as int);
            }
            if !started || i - sub >= SUB {
                let len: usize = if end - i < SUB { end - i } else { SUB };
                let span: &[u16] = slice_subrange(m, i, i + len + 20);
                proof {
                    lemma_sum_bound(span@, 0, span@.len() as int);
                }
                gate_passes(span, len, self.p.precheck_ratio, &mut pmax, &mut cum, &mut hits);
                started = true;
                sub = i;
                self.block_sum = cum[len + 20];
                self.block_len = (len + 20) as u32;
                proof {
                    lemma_window_sum(m@, i as int, len + 20, 0, len + 20);
                    assert forall|j: int| 0 <= j < hits@.len() implies (#[trigger] hits@[j] != 0)
                        == gate(m@, sub + j, p.precheck_ratio) by {
                        lemma_window_gate(m@, i as int, len + 20, j, p.precheck_ratio);
                    }
                }
            }
            let ghost c1 = Scan {
                s: self.state(),
                i: i as int,
                sub: sub as int,
                out: frames_of(out@),
            };
            assert(c1 == entered(c0, m@));
            // Jump to the next hit in this sub-block.
            match next_hit(hits.as_slice(), i - sub) {
                Some(k) => {
                    proof {
                        assert forall|x: int| i <= x < sub + k implies !#[trigger] gate(
                            m@,
                            x,
                            p.precheck_ratio,
                        ) by {
                            assert(hits@[x - sub] == 0);
                        }
                        lemma_skip(c1, p, m@, base as int, sub + k);
                    }
                    i = sub + k;
                    let ghost c2 = Scan { i: i as int, ..c1 };
                    let ghost before = out@;
                    let (frame, next): (Option<Frame>, usize) = self.look(m, base, i, sub, &hits);
                    if let Some(f) = frame {
                        out.push(f);
                        assert(frames_of(out@) =~= frames_of(before).push(f@));
                    }
                    i = next;
                    assert(stepped(c2, p, m@, base as int) == (Scan {
                        s: self.state(),
                        i: i as int,
                        sub: sub as int,
                        out: frames_of(out@),
                    })) by {
                        reveal(stepped);
                    }
                },
                None => {
                    proof {
                        assert forall|x: int| i <= x < sub + hits@.len() implies !#[trigger] gate(
                            m@,
                            x,
                            p.precheck_ratio,
                        ) by {
                            assert(hits@[x - sub] == 0);
                        }
                        lemma_skip(c1, p, m@, base as int, sub + hits@.len());
                    }
                    i = sub + hits.len();
                },
            }
        }
        self.pmax = pmax;
        self.cum = cum;
        self.hits = hits;
        out
    }

    /// Demodulate `m` with the tests relaxed, where a collision is known: the
    /// checksum, repair and admission rules filter.
    pub fn run_relaxed(&mut self, m: &[u16], base: u64) -> (out: Vec<Frame>)
        requires
            old(self).wf(),
            5 * (base + m@.len()) + 3000 <= u64::MAX,
        ensures
            final(self).wf(),
            final(self).params() == old(self).params(),
            (final(self).state(), frames_of(out@)) == run_of(
                old(self).state(),
                relaxed(old(self).params()),
                m@,
                base as int,
            ),
    {
        let (precheck, spikes, preamble): (u32, usize, u32) = (
            self.p.precheck_ratio,
            self.p.gap_spikes,
            self.p.preamble_ratio,
        );
        self.p.precheck_ratio = RELAXED_RATIO;
        self.p.gap_spikes = RELAXED_SPIKES;
        self.p.preamble_ratio = RELAXED_RATIO;
        let out: Vec<Frame> = self.run(m, base);
        self.p.precheck_ratio = precheck;
        self.p.gap_spikes = spikes;
        self.p.preamble_ratio = preamble;
        out
    }

    /// Whether collision recovery is on.
    pub fn recovers(&self) -> (on: bool)
        ensures
            on == self.params().cancel,
    {
        self.p.cancel
    }

    /// Whether the frame `f` looks like one of several on the air at once.
    pub fn collided(&self, f: &Frame) -> (yes: bool)
        ensures
            yes == is_collision(self.state(), self.params(), f@),
    {
        let (gr, or): (u128, u128) = (self.p.cancel_gap_ratio as u128, self.p.cancel_off_ratio as u128);
        let (sum, len): (u128, u128) = (self.block_sum as u128, self.block_len as u128);
        let (on, off, summed): (u128, u128, u128) = (f.on as u128, f.off as u128, f.summed as u128);
        let (signal, gap): (u128, u128) = (f.signal as u128, f.gap as u128);
        proof {
            lemma_collision_bounds(gr, or, sum, len, on, off, summed, signal, gap);
        }
        // A pulse leaks about 0.3 of its level into the gaps next to it, and
        // about a third into the neighbouring empty half bit.
        let gap_hot: bool = gr > 0 && gap * len * 2560 >= gr * (3960 * sum + 3 * (signal * len));
        let floor: u128 = if gr > 256 { gr } else { 256 };
        let off_hot: bool = or > 0 && (if on > 0 {
            off * 256 >= or * on
        } else {
            256 >= or
        }) && off * len * 2027520 >= floor * (6 * summed * (7920 * sum + 7 * (signal * len)));
        f.fixed != 0 || gap_hot || off_hot || (gr == 0 && or == 0)
    }

    /// Note a cancellation that removed `removed` millionths of a frame's
    /// energy. Returns whether that was enough to rescan its span.
    pub fn note_removed(&mut self, removed: i32) -> (enough: bool)
        requires
            old(self).wf(),
        ensures
            final(self).wf(),
            final(self).params() == old(self).params(),
            final(self).state() == (State {
                stats: noted(old(self).state().stats, removed),
                ..old(self).state()
            }),
            enough == (removed >= 300_000),
    {
        self.stats.cancelled = self.stats.cancelled.wrapping_add(1);
        let b: usize = if removed < 500_000 {
            0
        } else if removed < 800_000 {
            1
        } else if removed < 900_000 {
            2
        } else if removed < 950_000 {
            3
        } else {
            4
        };
        let n: u64 = self.stats.removed_hist[b];
        self.stats.removed_hist[b] = n.wrapping_add(1);
        assert(self.stats.removed_hist =~= spec_array_update(
            old(self).stats.removed_hist,
            b as int,
            n.wrapping_add(1),
        ));
        removed >= 300_000
    }

    /// Note a frame found by a rescan.
    pub fn note_rescan_frame(&mut self)
        requires
            old(self).wf(),
        ensures
            final(self).wf(),
            final(self).params() == old(self).params(),
            final(self).state() == (State {
                stats: Stats {
                    rescan_frames: old(self).state().stats.rescan_frames.wrapping_add(1),
                    ..old(self).state().stats
                },
                ..old(self).state()
            }),
    {
        self.stats.rescan_frames = self.stats.rescan_frames.wrapping_add(1);
    }

    /// Evaluate the candidate around `pos` (fifths of a sample into `m`) for a
    /// frame known to be `expected`.
    pub fn probe(&self, m: &[u16], pos: u64, expected: &[u8]) -> (r: Probe)
        requires
            5 * m@.len() <= u64::MAX,
            settled(self.params(), m@, pos as int) + 96 + 96 * expected@.len() <= 5 * m@.len(),
        ensures
            probed(self.params(), m@, pos, expected@, r),
    {
        probe_at(&self.p, m, pos, expected)
    }
}

} // verus!
