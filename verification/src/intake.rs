//! What the radio does with the blocks that the dongle delivers: the sample
//! clock, the window of samples the demodulator sees, the noise floor, and what
//! the gain loop is told.

use crate::demod::scan_end;
use crate::gain::Window;
use crate::iq::{MagLut, each, law_samples_are_converted_one_by_one, magnitude_of};
use crate::preamble::sum;
use vstd::prelude::*;
use vstd::slice::slice_subrange;

verus! {

/// Samples kept from one block to the next.
pub const TAIL: usize = 400;

/// Samples over which the gain loop takes the noise floor.
pub const NOISE_SAMPLES: usize = 4096;

/// Bytes that the dongle delivers at a time.
pub const BLOCK_BYTES: u64 = 262_144;

/// Values at or near full scale.
pub open spec fn is_clipped(b: u8) -> bool {
    b >= 250 || b <= 5
}

/// Sample `k` of `bytes` has I or Q at or near full scale.
pub open spec fn is_clipped_sample(bytes: Seq<u8>, k: int) -> bool {
    is_clipped(bytes[2 * k]) || is_clipped(bytes[2 * k + 1])
}

/// How many of the first `n` samples of `bytes` have I or Q at or near full scale.
pub open spec fn clipped_in(bytes: Seq<u8>, n: nat) -> nat
    decreases n,
{
    if n == 0 {
        0
    } else {
        clipped_in(bytes, (n - 1) as nat) + if is_clipped_sample(bytes, n - 1) { 1nat } else { 0nat }
    }
}

/// Samples with I or Q at or near full scale (0..5 or 250..255).
pub fn count_clipped(bytes: &[u8]) -> (n: u64)
    ensures
        n == clipped_in(bytes@, bytes@.len() / 2),
        n <= bytes@.len() / 2,
{
    let len: usize = bytes.len();
    let mut n: u64 = 0;
    for k in 0..len / 2
        invariant
            len == bytes@.len(),
            n == clipped_in(bytes@, k as nat),
            n <= k,
    {
        let (i, q): (u8, u8) = (bytes[2 * k], bytes[2 * k + 1]);
        if i >= 250 || i <= 5 || q >= 250 || q <= 5 {
            n += 1;
        }
    }
    n
}

/// The samples at hand: magnitudes and raw bytes, side by side.
pub struct Intake {
    pub mag: Vec<u16>,
    pub raw: Vec<u8>,
    /// Stream index of the first sample.
    pub base: u64,
    /// Stream index of the sample after the last.
    pub next: u64,
}

/// The samples at hand as values.
pub struct Held {
    pub mag: Seq<u16>,
    pub raw: Seq<u8>,
    pub base: int,
    pub next: int,
}

impl View for Intake {
    type V = Held;

    open spec fn view(&self) -> Held {
        Held { mag: self.mag@, raw: self.raw@, base: self.base as int, next: self.next as int }
    }
}

/// How many samples are missing before a block whose first sample is `first`, where `next`
/// was to follow; nothing was to follow at the start.
pub open spec fn missing(next: int, first: int) -> int {
    if next != 0 && first > next { first - next } else { 0 }
}

/// The samples at hand once the block whose first sample is `first` is taken in.
pub open spec fn taken(h: Held, first: int, bytes: Seq<u8>) -> Held {
    let mag = each(bytes, |i: u8, q: u8| magnitude_of(i, q));
    let next = first + bytes.len() / 2;
    if first == h.next {
        Held { mag: h.mag + mag, raw: h.raw + bytes, base: h.base, next }
    } else {
        Held { mag, raw: bytes, base: first, next }
    }
}

/// The samples at hand once all but the last were let go of.
pub open spec fn tail_of(h: Held) -> Held {
    let gone = gone_of(h.mag.len() as int);
    Held { mag: h.mag.skip(gone), raw: h.raw.skip(2 * gone), base: h.base + gone, next: h.next }
}

impl Intake {
    /// Magnitudes and raw bytes are of the same samples, and run up to `next`.
    pub open spec fn wf(&self) -> bool {
        &&& self.raw@.len() == 2 * self.mag@.len()
        &&& self.base + self.mag@.len() == self.next
    }

    pub fn new() -> (w: Intake)
        ensures
            w.wf(),
            w.mag@.len() == 0,
            w.base == 0,
    {
        Intake { mag: Vec::new(), raw: Vec::new(), base: 0, next: 0 }
    }

    /// Take in the block whose first sample is `first` in the stream. A gap in
    /// the stream means that the samples at hand no longer touch the block: they
    /// are let go. Returns how many samples were dropped.
    pub fn take(&mut self, lut: &MagLut, first: u64, bytes: &[u8]) -> (dropped: u64)
        requires
            old(self).wf(),
            lut.wf(),
            bytes@.len() % 2 == 0,
            first + bytes@.len() / 2 <= u64::MAX,
        ensures
            final(self).wf(),
            final(self)@ == taken(old(self)@, first as int, bytes@),
            dropped == missing(old(self).next as int, first as int),
            final(self).next == first + bytes@.len() / 2,
            first == old(self).next ==> {
                &&& dropped == 0
                &&& final(self).base == old(self).base
                &&& final(self).raw@ == old(self).raw@ + bytes@
                &&& final(self).mag@ == old(self).mag@ + each(
                    bytes@,
                    |i: u8, q: u8| magnitude_of(i, q),
                )
            },
            first != old(self).next ==> {
                &&& dropped == if old(self).next != 0 && first > old(self).next {
                    first - old(self).next
                } else {
                    0
                }
                &&& final(self).base == first
                &&& final(self).raw@ == bytes@
                &&& final(self).mag@ == each(bytes@, |i: u8, q: u8| magnitude_of(i, q))
            },
    {
        let mut dropped: u64 = 0;
        if first != self.next {
            if self.next != 0 && first > self.next {
                dropped = first - self.next;
            }
            self.mag.clear();
            self.raw.clear();
            self.base = first;
        }
        let ghost (mag0, raw0) = (self.mag@, self.raw@);
        self.next = first + (bytes.len() / 2) as u64;
        self.raw.extend_from_slice(bytes);
        lut.magnitudes(bytes, &mut self.mag);
        assert(self.raw@ =~= raw0 + bytes@);
        assert(first != old(self).next ==> self.raw@ =~= bytes@);
        assert(first != old(self).next ==> self.mag@ =~= each(
            bytes@,
            |i: u8, q: u8| magnitude_of(i, q),
        ));
        dropped
    }

    /// Take the magnitudes of the `len` samples from `from` on anew, now that
    /// their raw bytes have changed.
    pub fn refresh(&mut self, lut: &MagLut, from: usize, len: usize)
        requires
            old(self).wf(),
            lut.wf(),
            from + len <= old(self).mag@.len(),
        ensures
            final(self).wf(),
            final(self).raw == old(self).raw,
            final(self).base == old(self).base,
            final(self).next == old(self).next,
            final(self).mag@ == refreshed(old(self).mag@, old(self).raw@, from as int, len as int),
    {
        let (n, bytes): (usize, usize) = (self.mag.len(), self.raw.len());
        let mut v: Vec<u16> = Vec::with_capacity(len);
        let span: &[u8] = slice_subrange(self.raw.as_slice(), 2 * from, 2 * (from + len));
        lut.magnitudes(span, &mut v);
        for k in 0..len
            invariant
                self.raw == old(self).raw,
                self.base == old(self).base,
                self.next == old(self).next,
                n == self.mag@.len(),
                n == old(self).mag@.len(),
                from + len <= n,
                v@.len() == len,
                forall|j: int|
                    0 <= j < len ==> #[trigger] v@[j] == magnitude_of(
                        old(self).raw@[2 * (from + j)],
                        old(self).raw@[2 * (from + j) + 1],
                    ),
                self.mag@ == refreshed(old(self).mag@, old(self).raw@, from as int, k as int),
        {
            let x: u16 = v[k];
            self.mag.set(from + k, x);
            assert(self.mag@ =~= refreshed(old(self).mag@, old(self).raw@, from as int, k + 1));
        }
    }

    /// Let go of all but the last `TAIL` samples, which a frame may have started
    /// in.
    pub fn keep_tail(&mut self)
        requires
            old(self).wf(),
        ensures
            final(self).wf(),
            final(self).next == old(self).next,
            final(self)@ == tail_of(old(self)@),
            ({
                let gone = gone_of(old(self).mag@.len() as int);
                &&& final(self).base == old(self).base + gone
                &&& final(self).mag@ == old(self).mag@.skip(gone)
                &&& final(self).raw@ == old(self).raw@.skip(2 * gone)
            }),
    {
        let n: usize = self.mag.len();
        let bytes: usize = self.raw.len();
        let gone: usize = if n > TAIL { n - TAIL } else { 0 };
        self.base = self.base + gone as u64;
        self.mag = self.mag.split_off(gone);
        self.raw = self.raw.split_off(2 * gone);
        assert(self.mag@ =~= old(self).mag@.skip(gone as int));
        assert(self.raw@ =~= old(self).raw@.skip(2 * gone));
    }
}

/// How many of `n` samples are let go of after a block.
pub open spec fn gone_of(n: int) -> int {
    if n > TAIL { n - TAIL } else { 0 }
}

/// `mag` with the magnitudes of the `len` samples from `from` on taken anew from
/// `raw`.
pub open spec fn refreshed(mag: Seq<u16>, raw: Seq<u8>, from: int, len: int) -> Seq<u16> {
    Seq::new(
        mag.len(),
        |k: int|
            if from <= k < from + len {
                magnitude_of(raw[2 * k], raw[2 * k + 1])
            } else {
                mag[k]
            },
    )
}

/// The mean of the last `n` magnitudes, all of them if there are fewer, in
/// millionths of a raw unit.
pub open spec fn mean_of_last(mag: Seq<u16>, n: int) -> int {
    let k = if n < mag.len() { n } else { mag.len() as int };
    sum(mag, mag.len() - k, mag.len() as int) * 1_000_000 / (16 * k)
}

/// The mean of the last `n` magnitudes, in millionths of a raw unit. None where
/// there are none.
pub fn noise_floor(mag: &[u16], n: usize) -> (m: Option<u64>)
    ensures
        match m {
            Some(m) => n > 0 && mag@.len() > 0 && m == mean_of_last(mag@, n as int),
            None => n == 0 || mag@.len() == 0,
        },
{
    let len: usize = mag.len();
    let k: usize = if n < len { n } else { len };
    if k == 0 {
        return None;
    }
    let mut total: u128 = 0;
    for j in len - k..len
        invariant
            len == mag@.len(),
            k <= len,
            total == sum(mag@, len - k, j as int),
            total <= (j - (len - k)) * 65535,
    {
        total = total + mag[j] as u128;
    }
    let d: u128 = 16 * (k as u128);
    let top: u128 = total * 1_000_000;
    let m: u128 = top / d;
    assert(m <= 65535 * 1_000_000) by (nonlinear_arith)
        requires
            top <= k * 65535 * 1_000_000,
            d == 16 * k,
            k >= 1,
            m == top as int / d as int,
    ;
    Some(m as u64)
}

/// What the gain loop is told at the end of a window.
pub struct Meter {
    pub samples: u64,
    pub clipped: u64,
    pub strong: bool,
    pub noise: u64,
    pub blocks: u64,
}

/// The meter after a block of `samples` samples, `clipped` of them near full scale, and
/// the noise floor at its end.
pub open spec fn metered(m: Meter, samples: u64, clipped: u64, noise: Option<u64>) -> Meter {
    Meter {
        samples: m.samples.wrapping_add(samples),
        clipped: m.clipped.wrapping_add(clipped),
        strong: m.strong,
        noise: match noise {
            Some(n) => m.noise.wrapping_add(n),
            None => m.noise,
        },
        blocks: match noise {
            Some(_) => m.blocks.wrapping_add(1),
            None => m.blocks,
        },
    }
}

/// The meter after a frame with this signal byte.
pub open spec fn heard_at(m: Meter, signal: u8) -> Meter {
    Meter { strong: m.strong || signal >= 250, ..m }
}

/// The window that a meter closes.
pub open spec fn window_of(m: Meter) -> Window {
    Window {
        clipped: m.clipped,
        seen: m.samples,
        strong_clip: m.strong,
        noise: if m.blocks > 0 { m.noise / m.blocks } else { 0 },
    }
}

impl Meter {
    /// Nothing metered yet.
    pub open spec fn is_empty(&self) -> bool {
        self.samples == 0 && self.clipped == 0 && !self.strong && self.noise == 0 && self.blocks == 0
    }

    pub fn new() -> (m: Meter)
        ensures
            m.is_empty(),
    {
        Meter { samples: 0, clipped: 0, strong: false, noise: 0, blocks: 0 }
    }

    /// A block of `samples` samples, `clipped` of which are near full scale, and
    /// the noise floor at its end. The counts wrap.
    pub fn block(&mut self, samples: u64, clipped: u64, noise: Option<u64>)
        ensures
            *final(self) == metered(*old(self), samples, clipped, noise),
            *final(self) == (Meter {
                samples: old(self).samples.wrapping_add(samples),
                clipped: old(self).clipped.wrapping_add(clipped),
                noise: match noise {
                    Some(m) => old(self).noise.wrapping_add(m),
                    None => old(self).noise,
                },
                blocks: match noise {
                    Some(_) => old(self).blocks.wrapping_add(1),
                    None => old(self).blocks,
                },
                ..*old(self)
            }),
    {
        self.samples = self.samples.wrapping_add(samples);
        self.clipped = self.clipped.wrapping_add(clipped);
        if let Some(m) = noise {
            self.noise = self.noise.wrapping_add(m);
            self.blocks = self.blocks.wrapping_add(1);
        }
    }

    /// A frame was sent out with this signal byte.
    pub fn frame(&mut self, signal: u8)
        ensures
            *final(self) == heard_at(*old(self), signal),
            *final(self) == (Meter { strong: old(self).strong || signal >= 250, ..*old(self) }),
    {
        if signal >= 250 {
            self.strong = true;
        }
    }

    /// The window so far, and a new one begun. None where no sample came.
    pub fn close(&mut self) -> (w: Option<Window>)
        ensures
            match w {
                Some(w) => {
                    &&& old(self).samples > 0
                    &&& w == window_of(*old(self))
                    &&& final(self).is_empty()
                    &&& w.clipped == old(self).clipped
                    &&& w.seen == old(self).samples
                    &&& w.strong_clip == old(self).strong
                    &&& w.noise == if old(self).blocks > 0 {
                        old(self).noise / old(self).blocks
                    } else {
                        0
                    }
                },
                None => old(self).samples == 0 && *final(self) == *old(self),
            },
    {
        if self.samples == 0 {
            return None;
        }
        let w: Window = Window {
            clipped: self.clipped,
            seen: self.samples,
            strong_clip: self.strong,
            noise: if self.blocks > 0 { self.noise / self.blocks } else { 0 },
        };
        self.samples = 0;
        self.clipped = 0;
        self.strong = false;
        self.noise = 0;
        self.blocks = 0;
        Some(w)
    }
}

/// The sample clock: the count of delivered samples, advanced over outages.
pub struct Clock {
    pub at: u64,
    pub outages: u64,
    pub short_reads: u64,
    pub reported: u64,
}

/// The short reads to report with a block of `samples` samples at `now_ms`, if it is time.
pub open spec fn report_of(c: Clock, samples: u64, now_ms: u64) -> Option<u64> {
    let short = c.short_reads + if samples < BLOCK_BYTES / 4 { 1int } else { 0 };
    if short > 0 && now_ms - c.reported >= 60_000 { Some(short as u64) } else { None }
}

/// The clock after a block of `samples` samples at `now_ms`.
pub open spec fn after_block(c: Clock, samples: u64, now_ms: u64) -> Clock {
    let short = c.short_reads + if samples < BLOCK_BYTES / 4 { 1int } else { 0 };
    let told = report_of(c, samples, now_ms) is Some;
    Clock {
        at: (c.at + samples) as u64,
        outages: c.outages,
        short_reads: if told { 0 } else { short as u64 },
        reported: if told { now_ms } else { c.reported },
    }
}

/// The clock after an outage of `samples` samples.
pub open spec fn after_outage(c: Clock, samples: u64) -> Clock {
    Clock { at: (c.at + samples) as u64, outages: (c.outages + 1) as u64, ..c }
}

impl Clock {
    pub fn new(now_ms: u64) -> (c: Clock)
        ensures
            c.at == 0,
            c.outages == 0,
            c.short_reads == 0,
            c.reported == now_ms,
    {
        Clock { at: 0, outages: 0, short_reads: 0, reported: now_ms }
    }

    /// A block of `samples` samples at `now_ms`: the stream index of its first
    /// sample, and the number of short reads where it is time to report them,
    /// once a minute at most.
    pub fn block(&mut self, samples: u64, now_ms: u64) -> (r: (u64, Option<u64>))
        requires
            old(self).at + samples <= u64::MAX,
            old(self).short_reads < u64::MAX,
        ensures
            *final(self) == after_block(*old(self), samples, now_ms),
            r.1 == report_of(*old(self), samples, now_ms),
            r.0 == old(self).at,
            final(self).at == old(self).at + samples,
            final(self).outages == old(self).outages,
            ({
                let short = old(self).short_reads + if samples < BLOCK_BYTES / 4 {
                    1int
                } else {
                    0
                };
                if short > 0 && now_ms - old(self).reported >= 60_000 {
                    r.1 == Some(short as u64) && final(self).short_reads == 0 && final(self).reported == now_ms
                } else {
                    r.1 is None && final(self).short_reads == short && final(self).reported == old(
                        self,
                    ).reported
                }
            }),
    {
        let first: u64 = self.at;
        self.at = first + samples;
        if samples < BLOCK_BYTES / 4 {
            self.short_reads = self.short_reads + 1;
        }
        if self.short_reads > 0 && now_ms >= self.reported && now_ms - self.reported >= 60_000 {
            let n: u64 = self.short_reads;
            self.short_reads = 0;
            self.reported = now_ms;
            (first, Some(n))
        } else {
            (first, None)
        }
    }

    /// The dongle was gone for `samples` samples' worth of time: the frames after
    /// it keep true timestamps.
    pub fn outage(&mut self, samples: u64)
        requires
            old(self).at + samples <= u64::MAX,
            old(self).outages < u64::MAX,
        ensures
            *final(self) == after_outage(*old(self), samples),
            final(self).at == old(self).at + samples,
            final(self).outages == old(self).outages + 1,
            final(self).short_reads == old(self).short_reads,
            final(self).reported == old(self).reported,
    {
        self.at = self.at + samples;
        self.outages = self.outages + 1;
    }
}

/// The seconds to wait after waiting `wait`.
pub open spec fn wait_after(wait: u64) -> u64 {
    (if wait + 2 < 10 { wait + 2 } else { 10 }) as u64
}

/// The seconds to wait for the dongle after waiting `wait`: two more, up to ten.
pub fn longer_wait(wait: u64) -> (next: u64)
    ensures
        next == wait_after(wait),
        next == if wait + 2 < 10 { wait + 2 } else { 10 },
{
    if wait < 8 { wait + 2 } else { 10 }
}

/// Samples are let go of only once a frame was looked for at each of them: no
/// frame is missed between one block and the next.
pub proof fn law_only_scanned_samples_go(m: Seq<u16>)
    ensures
        gone_of(m.len() as int) == 0 || gone_of(m.len() as int) <= scan_end(m),
{
}

/// Samples count one by one: those of two stretches are those of both, and one counts when
/// its I or its Q is 5 or less, or 250 or more.
pub proof fn law_clipped_samples_add_up(a: Seq<u8>, b: Seq<u8>, i: u8, q: u8)
    requires
        a.len() % 2 == 0,
    ensures
        clipped_in(a + b, (a + b).len() / 2) == clipped_in(a, a.len() / 2) + clipped_in(b, b.len() / 2),
        clipped_in(seq![i, q], 1) == if i <= 5 || i >= 250 || q <= 5 || q >= 250 { 1nat } else { 0nat },
{
    lemma_clipped_add(a, b, b.len() / 2);
    reveal_with_fuel(clipped_in, 2);
    let s = seq![i, q];
    assert(s[0] == i && s[1] == q);
}

proof fn lemma_clipped_add(a: Seq<u8>, b: Seq<u8>, n: nat)
    requires
        a.len() % 2 == 0,
        2 * n <= b.len(),
    ensures
        clipped_in(a + b, a.len() / 2 + n) == clipped_in(a, a.len() / 2) + clipped_in(b, n),
    decreases n,
{
    if n == 0 {
        lemma_clipped_of_the_first(a, b, a.len() / 2);
    } else {
        lemma_clipped_add(a, b, (n - 1) as nat);
        let (k, at) = (n - 1, a.len() / 2 + n - 1);
        assert(2 * at == a.len() + 2 * k);
        assert((a + b)[2 * at] == b[2 * k]);
        assert((a + b)[2 * at + 1] == b[2 * k + 1]);
        assert(is_clipped_sample(a + b, at as int) == is_clipped_sample(b, k as int));
    }
}

proof fn lemma_clipped_of_the_first(a: Seq<u8>, b: Seq<u8>, n: nat)
    requires
        2 * n <= a.len(),
    ensures
        clipped_in(a + b, n) == clipped_in(a, n),
    decreases n,
{
    if n > 0 {
        lemma_clipped_of_the_first(a, b, (n - 1) as nat);
        assert((a + b)[2 * (n - 1)] == a[2 * (n - 1)]);
        assert((a + b)[2 * (n - 1) + 1] == a[2 * (n - 1) + 1]);
    }
}

/// The noise floor goes by the last samples alone, and lies between the weakest and the
/// strongest of them, in millionths of a sixteenth.
pub proof fn law_noise_floor_is_of_the_last(before: Seq<u16>, mag: Seq<u16>, n: int, low: u16, high: u16)
    requires
        0 < n <= mag.len(),
        forall|k: int| mag.len() - n <= k < mag.len() ==> low <= #[trigger] mag[k] <= high,
    ensures
        mean_of_last(before + mag, n) == mean_of_last(mag, n),
        low * 1_000_000 / 16 <= mean_of_last(mag, n) <= high * 1_000_000 / 16,
{
    let (len, all) = (mag.len() as int, before + mag);
    lemma_sum_of_the_last(before, mag, len - n, len);
    lemma_sum_between(mag, len - n, len, low, high);
    let (t, m) = (sum(mag, len - n, len), mean_of_last(mag, n));
    assert(all.len() - n == before.len() + (len - n));
    assert(low * 1_000_000 / 16 <= m <= high * 1_000_000 / 16) by (nonlinear_arith)
        requires
            n > 0,
            n * low <= t <= n * high,
            m == t * 1_000_000 / (16 * n),
    {
        let (d, x, y) = (16 * n, low * 1_000_000 / 16, high * 1_000_000 / 16);
        assert(d * m <= t * 1_000_000 < d * (m + 1));
        assert(16 * x <= low * 1_000_000);
        assert(high * 1_000_000 < 16 * (y + 1));
        assert(d * x <= t * 1_000_000) by {
            assert(n * (16 * x) <= n * (low * 1_000_000));
        }
        assert(t * 1_000_000 < d * (y + 1)) by {
            assert(n * (high * 1_000_000) < n * (16 * (y + 1)));
        }
        assert(d * x < d * (m + 1));
        assert(d * m < d * (y + 1));
    }
}

proof fn lemma_sum_of_the_last(before: Seq<u16>, mag: Seq<u16>, a: int, b: int)
    requires
        0 <= a,
        b <= mag.len(),
    ensures
        sum(before + mag, before.len() + a, before.len() + b) == sum(mag, a, b),
    decreases b - a,
{
    if a < b {
        lemma_sum_of_the_last(before, mag, a, b - 1);
        assert((before + mag)[before.len() + b - 1] == mag[b - 1]);
    }
}

proof fn lemma_sum_between(mag: Seq<u16>, a: int, b: int, low: u16, high: u16)
    requires
        a <= b,
        forall|k: int| a <= k < b ==> low <= #[trigger] mag[k] <= high,
    ensures
        (b - a) * low <= sum(mag, a, b) <= (b - a) * high,
    decreases b - a,
{
    if a < b {
        lemma_sum_between(mag, a, b - 1, low, high);
        assert((b - a) * low == (b - 1 - a) * low + low) by (nonlinear_arith);
        assert((b - a) * high == (b - 1 - a) * high + high) by (nonlinear_arith);
        assert(low <= mag[b - 1] <= high);
    } else {
        assert(b - a == 0 && 0 * low == 0 && 0 * high == 0);
    }
}

/// Samples are held at their place in the stream: one of a block just taken in is that of
/// the block, one from before stays what it was where the block follows on, and where it
/// does not nothing from before is left.
pub proof fn law_samples_keep_their_place(h: Held, first: int, bytes: Seq<u8>, at: int)
    requires
        h.raw.len() == 2 * h.mag.len(),
        h.base + h.mag.len() == h.next,
        bytes.len() % 2 == 0,
    ensures
        ({
            let t = taken(h, first, bytes);
            let (k, j) = (at - t.base, at - first);
            &&& t.raw.len() == 2 * t.mag.len()
            &&& t.base + t.mag.len() == t.next
            &&& 2 * (t.next - first) == bytes.len()
            &&& first <= at < t.next ==> {
                &&& t.raw[2 * k] == bytes[2 * j]
                &&& t.raw[2 * k + 1] == bytes[2 * j + 1]
                &&& t.mag[k] == magnitude_of(bytes[2 * j], bytes[2 * j + 1])
            }
            &&& first == h.next && h.base <= at < h.next ==> {
                &&& t.base == h.base
                &&& t.raw[2 * k] == h.raw[2 * k]
                &&& t.raw[2 * k + 1] == h.raw[2 * k + 1]
                &&& t.mag[k] == h.mag[k]
            }
            &&& first != h.next ==> t.base == first
        }),
{
}

/// Two blocks that follow on one another are one.
pub proof fn law_blocks_join(h: Held, first: int, a: Seq<u8>, b: Seq<u8>)
    requires
        a.len() % 2 == 0,
        b.len() % 2 == 0,
    ensures
        taken(taken(h, first, a), first + a.len() / 2, b) == taken(h, first, a + b),
{
    let f = |i: u8, q: u8| magnitude_of(i, q);
    law_samples_are_converted_one_by_one(a, b, 0, 0, f);
    let (x, y) = (taken(taken(h, first, a), first + a.len() / 2, b), taken(h, first, a + b));
    assert(x.mag =~= y.mag);
    assert(x.raw =~= y.raw);
}

/// The last 400 samples are kept at their place in the stream, or all where there are
/// fewer.
pub proof fn law_last_samples_are_kept(h: Held, at: int)
    requires
        h.raw.len() == 2 * h.mag.len(),
        h.base + h.mag.len() == h.next,
    ensures
        ({
            let t = tail_of(h);
            let (k, j) = (at - t.base, at - h.base);
            &&& t.next == h.next
            &&& t.mag.len() == if h.mag.len() < 400 { h.mag.len() } else { 400 }
            &&& t.raw.len() == 2 * t.mag.len()
            &&& t.base + t.mag.len() == t.next
            &&& t.base <= at < t.next ==> {
                &&& t.mag[k] == h.mag[j]
                &&& t.raw[2 * k] == h.raw[2 * j]
                &&& t.raw[2 * k + 1] == h.raw[2 * j + 1]
            }
        }),
{
}

/// Magnitudes taken anew are those of the bytes, and the others stay. Taking all of them
/// anew gives what taking in the bytes gives.
pub proof fn law_refreshing_converts_again(mag: Seq<u16>, raw: Seq<u8>, from: int, len: int, k: int)
    requires
        raw.len() == 2 * mag.len(),
        0 <= k < mag.len(),
    ensures
        refreshed(mag, raw, from, len).len() == mag.len(),
        from <= k < from + len ==> refreshed(mag, raw, from, len)[k] == magnitude_of(
            raw[2 * k],
            raw[2 * k + 1],
        ),
        k < from || k >= from + len ==> refreshed(mag, raw, from, len)[k] == mag[k],
        refreshed(mag, raw, 0, mag.len() as int) == each(raw, |i: u8, q: u8| magnitude_of(i, q)),
{
    assert(refreshed(mag, raw, 0, mag.len() as int) =~= each(raw, |i: u8, q: u8| magnitude_of(i, q)));
}

/// The meter adds up: samples and clipped samples of every block, the noise floor of those
/// that have one, and whether any frame came at 250 or more.
pub proof fn law_meter_adds_up(m: Meter, samples: u64, clipped: u64, noise: u64, signal: u8)
    requires
        m.samples + samples <= u64::MAX,
        m.clipped + clipped <= u64::MAX,
        m.noise + noise <= u64::MAX,
        m.blocks < u64::MAX,
    ensures
        ({
            let (x, y) = (metered(m, samples, clipped, Some(noise)), metered(m, samples, clipped, None));
            &&& x.samples == m.samples + samples && y.samples == m.samples + samples
            &&& x.clipped == m.clipped + clipped && y.clipped == m.clipped + clipped
            &&& x.noise == m.noise + noise && y.noise == m.noise
            &&& x.blocks == m.blocks + 1 && y.blocks == m.blocks
            &&& x.strong == m.strong && y.strong == m.strong
        }),
        signal < 250 ==> heard_at(m, signal) == m,
        signal >= 250 ==> heard_at(m, signal) == (Meter { strong: true, ..m }),
{
}

/// What the gain loop is told is what was metered, and the noise is the mean over the blocks
/// that have it: blocks of one noise floor give that.
pub proof fn law_window_is_what_was_metered(m: Meter)
    ensures
        window_of(m).seen == m.samples,
        window_of(m).clipped == m.clipped,
        window_of(m).strong_clip == m.strong,
        m.blocks == 0 ==> window_of(m).noise == 0,
        m.blocks > 0 ==> window_of(m).noise * m.blocks <= m.noise < (window_of(m).noise + 1) * m.blocks,
{
    if m.blocks > 0 {
        let (n, b, q) = (m.noise as int, m.blocks as int, m.noise as int / m.blocks as int);
        assert(q * b <= n < (q + 1) * b) by (nonlinear_arith)
            requires
                b > 0,
                q == n / b,
        ;
    }
}

/// The clock counts every sample, delivered or lost, so the stream index of a block is how
/// many came before it. A read of less than 65,536 samples is short, short reads are told
/// together, and at most once a minute.
pub proof fn law_clock_counts_samples(c: Clock, samples: u64, lost: u64, now_ms: u64)
    requires
        c.at + samples + lost <= u64::MAX,
        c.short_reads < u64::MAX,
        c.outages < u64::MAX,
    ensures
        ({
            let d = after_block(c, samples, now_ms);
            let short = if samples < 65_536 { 1int } else { 0 };
            &&& d.at == c.at + samples
            &&& after_outage(d, lost).at == c.at + samples + lost
            &&& after_outage(d, lost) == after_block(after_outage(c, lost), samples, now_ms)
            &&& d.outages == c.outages && after_outage(c, lost).outages == c.outages + 1
            &&& match report_of(c, samples, now_ms) {
                Some(n) => {
                    &&& n == c.short_reads + short && n > 0
                    &&& now_ms >= c.reported + 60_000
                    &&& d.short_reads == 0 && d.reported == now_ms
                },
                None => {
                    &&& c.short_reads + short == 0 || now_ms < c.reported + 60_000
                    &&& d.short_reads == c.short_reads + short && d.reported == c.reported
                },
            }
        }),
{
}

/// The `n`th wait for the dongle after the first, of two seconds.
pub open spec fn nth_wait(n: nat) -> u64
    decreases n,
{
    if n == 0 {
        2
    } else {
        wait_after(nth_wait((n - 1) as nat))
    }
}

/// Waits grow by two seconds up to ten, and stay there.
pub proof fn law_waits_grow_to_ten(n: nat)
    ensures
        nth_wait(n) == if n < 4 { 2 + 2 * n as int } else { 10 },
    decreases n,
{
    if n > 0 {
        law_waits_grow_to_ten((n - 1) as nat);
    }
}

/// Every sample of the stream from the first block on is either taken in or missing.
pub proof fn law_missing_samples_are_counted(h: Held, first: int, a: Seq<u8>, gap: int)
    requires
        a.len() % 2 == 0,
        a.len() > 0,
        0 <= first,
        0 <= gap,
    ensures
        missing(0, first) == 0,
        missing(taken(h, first, a).next, first + a.len() / 2 + gap) == gap,
        missing(taken(h, first, a).next, first) == 0,
{
}

} // verus!
