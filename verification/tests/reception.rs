use rx::crc::crc24;
use rx::demod::{Demodulator, LONG_SAMPLES, SUB};
use rx::params::Params;

const DF17: [u8; 14] = [
    0x8D, 0x40, 0x62, 0x1D, 0x58, 0xC3, 0x82, 0xD6, 0x90, 0xC8, 0xAC, 0x28, 0x63, 0xA7,
];

fn in_pulse(f: &[u8], t: i64) -> bool {
    if t >= 96 && t < 96 + 96 * f.len() as i64 {
        let b = ((t - 96) / 12) as usize;
        let bit = (f[b / 8] >> (7 - b % 8)) & 1 == 1;
        return ((t - 96) % 12 < 6) == bit;
    }
    (0..6).contains(&t) || (12..18).contains(&t) || (42..48).contains(&t) || (54..60).contains(&t)
}

/// `len` samples that hold `f` from `st` fifths on, and nothing else.
fn holding(f: &[u8], st: i64, floor: u16, step: u16, len: usize) -> Vec<u16> {
    (0..len as i64)
        .map(|j| {
            let lit = (0..5).filter(|e| in_pulse(f, 5 * j + e - st)).count() as u16;
            floor + step * lit
        })
        .collect()
}

#[test]
fn lone_frame_is_received_at_every_fifth() {
    for st in 250..255 {
        let m = holding(&DF17, st, 80, 320, 50 + 2 * LONG_SAMPLES);
        let f = Demodulator::new(Params::default()).run(&m, 1000);
        assert_eq!(f.len(), 1, "start {st}");
        assert_eq!(f[0].start, 5000 + st as u64);
        assert_eq!(f[0].bytes, DF17);
        assert_eq!(f[0].fixed, 0);
    }
}

#[test]
fn lone_frame_is_received_down_to_the_limits() {
    // The weakest pulses, the strongest noise, the first sample and the last.
    for (st, floor, step) in [(0, 0, 9), (1, 27, 9), (2, 3000, 1000), (1453, 27, 9)] {
        let m = holding(&DF17, st, floor, step, 2 * LONG_SAMPLES + 1);
        let f = Demodulator::new(Params::default()).run(&m, 0);
        assert_eq!(f.len(), 1, "start {st}");
        assert_eq!(f[0].start, st as u64);
        assert_eq!(f[0].bytes, DF17);
    }
}

#[test]
fn short_frames_are_received_too() {
    // An all-call reply, then an altitude reply from the same aircraft.
    let mut all_call = vec![0x5Du8, 0x40, 0x62, 0x1D, 0, 0, 0];
    let crc = crc24(&all_call[..4]);
    all_call[4] = (crc >> 16) as u8;
    all_call[5] = (crc >> 8) as u8;
    all_call[6] = crc as u8;
    assert_eq!(crc24(&all_call), 0);
    let data = [0x20u8, 0, 0x12, 0x34];
    let ap = crc24(&data) ^ 0x40621D;
    let reply = [0x20, 0, 0x12, 0x34, (ap >> 16) as u8, (ap >> 8) as u8, ap as u8];
    let mut d = Demodulator::new(Params::default());
    let m = holding(&reply, 203, 80, 320, 40 + 2 * LONG_SAMPLES);
    assert_eq!(d.run(&m, 0).len(), 0); // nobody is confirmed yet
    let m = holding(&all_call, 202, 80, 320, 40 + 2 * LONG_SAMPLES);
    let f = d.run(&m, 0);
    assert_eq!(f.len(), 1);
    assert_eq!(f[0].bytes, all_call);
    let m = holding(&reply, 203, 80, 320, 40 + 2 * LONG_SAMPLES);
    let f = d.run(&m, 2_400_000);
    assert_eq!(f.len(), 1);
    assert_eq!(f[0].bytes, reply);
    assert_eq!(f[0].start, 12_000_203);
    // A minute later the aircraft is no longer confirmed.
    assert_eq!(d.run(&m, 145_000_000).len(), 0);
}

#[test]
fn a_start_at_the_end_of_a_sub_block_may_come_out_early() {
    let last = 5 * (SUB as i64 - 1);
    for (k, early) in [(0, 0), (1, 0), (2, 0), (3, 1), (4, 2)] {
        let m = holding(&DF17, last + k, 80, 320, SUB + 2 * LONG_SAMPLES);
        let f = Demodulator::new(Params::default()).run(&m, 0);
        assert_eq!(f.len(), 1, "phase {k}");
        assert_eq!(f[0].start, (last + k - early) as u64);
        assert_eq!(f[0].bytes, DF17);
    }
}

#[test]
fn silence_gives_nothing() {
    for floor in [0, 80, 3000, u16::MAX] {
        let m = vec![floor; 3 * SUB];
        let mut d = Demodulator::new(Params::default());
        assert!(d.run(&m, 7).is_empty());
        assert_eq!(d.stats.preamble_hits, 0);
        assert_eq!(d.stats.samples, (3 * SUB - LONG_SAMPLES) as u64);
    }
}

/// `len` samples that hold `f` from `st` parts on, `n` of them to a fifth.
fn holding_parts(f: &[u8], n: i64, st: i64, floor: u16, step: u16, len: usize) -> Vec<u16> {
    (0..len as i64)
        .map(|j| {
            let lit = (0..5 * n).filter(|e| in_pulse(f, (5 * n * j + e - st).div_euclid(n))).count() as u16;
            floor + step * lit
        })
        .collect()
}

#[test]
fn lone_frame_is_received_between_the_fifths() {
    let n = 10;
    for st in 50 * 5 * n..51 * 5 * n {
        for (floor, step) in [(80, 32), (0, 1), (30, 1)] {
            let m = holding_parts(&DF17, n, st, floor, step, 50 + 2 * LONG_SAMPLES);
            let f = Demodulator::new(Params::default()).run(&m, 1000);
            assert_eq!(f.len(), 1, "start {st}");
            assert_eq!(f[0].bytes, DF17);
            assert_eq!(f[0].fixed, 0);
            let off = n * (f[0].start as i64 - 5000) - st;
            assert!(-n < off && off < n, "start {st} off {off}");
            assert!(st % n != 0 || off == 0);
        }
    }
}

#[test]
fn starts_at_the_end_of_a_sub_block_are_off_by_half_a_sample_at_most() {
    let n = 10;
    let last = 5 * n * (SUB as i64 - 1);
    for part in 0..=45 {
        let m = holding_parts(&DF17, n, last + part, 80, 32, SUB + 2 * LONG_SAMPLES);
        let f = Demodulator::new(Params::default()).run(&m, 0);
        assert_eq!(f.len(), 1, "part {part}");
        assert_eq!(f[0].bytes, DF17);
        let off = n * f[0].start as i64 - (last + part);
        assert!(-5 * n <= 2 * off && off < n, "part {part} off {off}");
    }
    // Later than that they may be off by more.
    let m = holding_parts(&DF17, n, last + 46, 0, 32, SUB + 2 * LONG_SAMPLES);
    let f = Demodulator::new(Params::default()).run(&m, 0);
    assert_eq!(n * f[0].start as i64 - (last + 46), -26);
}

#[test]
fn the_last_sample_that_is_scanned_will_do() {
    for k in 0..3 {
        let st = 5 * 299 + k;
        let m = holding(&DF17, st, 80, 320, 300 + LONG_SAMPLES);
        let f = Demodulator::new(Params::default()).run(&m, 0);
        assert_eq!(f.len(), 1, "phase {k}");
        assert_eq!(f[0].start, st as u64);
    }
}
