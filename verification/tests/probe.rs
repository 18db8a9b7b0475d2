use rx::demod::{Demodulator, LONG_SAMPLES};
use rx::params::Params;

/// A frame of ones and zeros by turns at sample `start`: pulses of `amp`, `noise`
/// elsewhere, all on whole fifths.
fn wave(bytes: &[u8], start: usize, amp: u32, noise: u32, n: usize) -> Vec<u16> {
    let mut fifths = vec![noise; 5 * n];
    let mut pulse = |at: usize| {
        for x in 5 * start + at..5 * start + at + 6 {
            fifths[x] = noise + amp;
        }
    };
    for at in [0, 12, 42, 54] {
        pulse(at);
    }
    for k in 0..8 * bytes.len() {
        let bit = bytes[k / 8] >> (7 - k % 8) & 1 == 1;
        pulse(96 + 12 * k + if bit { 0 } else { 6 });
    }
    fifths.chunks(5).map(|c| (c.iter().sum::<u32>() / 5) as u16).collect()
}

const FRAME: [u8; 7] = [0x5D, 0x12, 0x34, 0x56, 0x78, 0x9A, 0xBC];

#[test]
fn a_frame_where_it_should_be() {
    let m = wave(&FRAME, 50, 1600, 80, 100 + LONG_SAMPLES + 100);
    let d = Demodulator::new(Params::default());
    for pos in [250u64, 244, 257] {
        let p = d.probe(&m, pos, &FRAME);
        assert!(p.precheck && p.preamble);
        assert_eq!(p.best_start, 250);
        assert_eq!(p.bit_errors, 0);
        assert!(p.error_ranks.is_empty());
        assert_eq!(p.best_score, p.pulse_level - p.gap_level);
    }
}

#[test]
fn wrong_bits_and_their_ranks() {
    let m = wave(&FRAME, 50, 1600, 80, 100 + LONG_SAMPLES + 100);
    let d = Demodulator::new(Params::default());
    let mut expected = FRAME;
    expected[0] ^= 0x80;
    expected[6] ^= 0x01;
    let p = d.probe(&m, 250, &expected);
    assert_eq!(p.bit_errors, 2);
    assert_eq!(p.error_ranks.len(), 2);
    assert_ne!(p.error_ranks[0], p.error_ranks[1]);
    assert!(p.error_ranks.iter().all(|&r| r < 56));
}

#[test]
fn nothing_where_nothing_is() {
    let m = vec![80u16; 1000];
    let d = Demodulator::new(Params::default());
    let p = d.probe(&m, 1234, &FRAME);
    assert!(!p.precheck && !p.preamble);
    assert_eq!((p.best_start, p.best_score, p.pulse_level), (1234, 0, 0));
    assert_eq!(p.gap_level, 80 * 396);
    // Every bit reads zero, all with no margin: ranks are positions.
    let ones: Vec<usize> = (0..56).filter(|k| FRAME[k / 8] >> (7 - k % 8) & 1 == 1).collect();
    assert_eq!(p.bit_errors, ones.len());
    assert_eq!(p.error_ranks, ones);
}

#[test]
fn noise_can_hide_a_preamble() {
    let mut m = wave(&FRAME, 50, 1600, 80, 100 + LONG_SAMPLES + 100);
    let strict = Params { noise_sigmas: 4 * 256, ..Params::default() };
    let d = Demodulator::new(strict);
    assert!(d.probe(&m, 250, &FRAME).preamble);
    // One gap sample far from the rest.
    m[55] = 1500;
    assert!(!d.probe(&m, 250, &FRAME).preamble);
    assert!(Demodulator::new(Params::default()).probe(&m, 250, &FRAME).preamble);
}
