//! What the demodulator can be told.

use vstd::prelude::*;

verus! {

/// How a bit is decided.
#[derive(Debug, Clone, Copy, PartialEq, Eq, Structural)]
pub enum Slicer {
    /// Compare the energies of the two half bits.
    Box,
    /// Correlate each half with the measured pulse shape.
    Matched,
}

/// Demodulator settings. Ratios are in 256ths; times are in fifths of a
/// sample, the grid on which frames start.
#[derive(Debug, Clone)]
pub struct Params {
    /// Preamble pulse mean must exceed this multiple of the gap mean, 256ths.
    pub preamble_ratio: u32,
    /// Cheap gate: the mean of the pulses' strongest samples must exceed this
    /// multiple of the gap mean, 256ths.
    pub precheck_ratio: u32,
    /// Cheap gate: at most this many gap samples may exceed the weakest pulse.
    pub gap_spikes: usize,
    /// Maximum bits flipped by error correction: 0 to 5.
    pub max_fix: u8,
    /// Single-bit fixes consider only the N least confident bits.
    pub soft1: usize,
    /// Two-bit fixes consider pairs among the N least confident bits.
    pub soft2: usize,
    /// Three-bit fixes consider triples among the N least confident bits.
    pub soft3: usize,
    /// Four- and five-bit fixes search among the N least confident bits.
    pub soft4: usize,
    pub soft5: usize,
    /// Address-parity frames: one-bit repair toward a confirmed address,
    /// among the N least confident bits (0 = off).
    pub ap_fix: usize,
    /// When a checked frame fails or needs repair at the preamble's timing,
    /// slice again at these offsets (fifths of a sample) and keep the best.
    pub retry_offsets: Vec<i8>,
    /// Fine preamble test of `probe`: pulse mean must exceed the gap mean by
    /// this many gap standard deviations, 256ths (0 = off).
    pub noise_sigmas: u32,
    /// Retries and multi-bit repair run only when the sliced address is
    /// within this many bit flips of a confirmed aircraft.
    pub near_bits: u32,
    /// Phases tested around the best integer start: 1 tests one fifth of a
    /// sample either way, 2 tests two.
    pub phase_span: usize,
    /// Fine test: the weakest pulse must be at least this fraction of the
    /// strongest, 256ths (0 = off). Noise hits tend to be one spike.
    pub pulse_uniformity: u32,
    /// Collision recovery: subtract accepted frames and rescan their span.
    pub cancel: bool,
    /// Cancel only frames whose preamble gaps exceed this multiple (256ths)
    /// of the expected gap level, or that needed repair.
    pub cancel_gap_ratio: u32,
    /// Cancel also frames whose empty half bits carry at least this fraction
    /// (256ths) of the energy of their full half bits, provided that energy
    /// is also above the expected level.
    pub cancel_off_ratio: u32,
    /// Bit decision.
    pub slicer: Slicer,
    /// Matched slicer: first template tap relative to the nominal pulse
    /// start, fifths of a sample.
    pub tap0: i32,
}

impl Params {
    /// No setting lets a slice reach past the samples a frame is given.
    pub open spec fn wf(&self) -> bool {
        &&& self.slicer == Slicer::Matched ==> self.tap0 <= 12
        &&& forall|k: int|
            0 <= k < self.retry_offsets@.len() ==> #[trigger] self.retry_offsets@[k] <= 18 && (
            self.slicer == Slicer::Matched ==> self.retry_offsets@[k] + self.tap0 <= 12)
    }
}

impl Default for Params {
    fn default() -> (p: Self)
        ensures
            p.wf(),
            p.preamble_ratio == 409,
            p.precheck_ratio == 512,
            p.gap_spikes == 2,
            p.max_fix == 3,
            p.soft1 == 24,
            p.soft2 == 12,
            p.soft3 == 16,
            p.soft4 == 18,
            p.soft5 == 20,
            p.ap_fix == 16,
            p.retry_offsets@ == seq![(-1) as i8, 1, (-2) as i8, 2, (-3) as i8, 3],
            p.noise_sigmas == 0,
            p.near_bits == 5,
            p.phase_span == 2,
            p.pulse_uniformity == 0,
            p.cancel,
            p.cancel_gap_ratio == 0,
            p.cancel_off_ratio == 0,
            p.slicer == Slicer::Box,
            p.tap0 == -3,
    {
        Params {
            // 1.6 and 2.0
            preamble_ratio: 409,
            precheck_ratio: 512,
            gap_spikes: 2,
            max_fix: 3,
            soft1: 24,
            soft2: 12,
            soft3: 16,
            soft4: 18,
            soft5: 20,
            ap_fix: 16,
            retry_offsets: vec![-1, 1, -2, 2, -3, 3],
            noise_sigmas: 0,
            near_bits: 5,
            phase_span: 2,
            pulse_uniformity: 0,
            cancel: true,
            // Both 0: every accepted frame is cancelled and its span rescanned.
            cancel_gap_ratio: 0,
            cancel_off_ratio: 0,
            slicer: Slicer::Box,
            tap0: -3,
        }
    }
}

} // verus!
