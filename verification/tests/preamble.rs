use rx::demod::{Demodulator, Frame};
use rx::params::Params;
use rx::preamble::{fine, gate_passes, half_bit, half_bit_at, next_hit, preamble_grid, preamble_int, preamble_levels};
use rx::probe::preamble;

/// A preamble over noise that is not even, and what follows it.
fn samples() -> Vec<u16> {
    let mut m: Vec<u16> = (0..80u32).map(|k| (k * k * 7919 % 97) as u16).collect();
    for (k, level) in [(20, 1600), (21, 320), (22, 960), (23, 960), (28, 960), (29, 960), (30, 320), (31, 1600)] {
        m[k] += level;
    }
    m
}

#[test]
fn fixed_weights_agree_with_the_grid() {
    let m = samples();
    let mut hits = 0;
    for i in 0..=59 {
        let (a, b) = (fine(&m, i, 409, 0), preamble_grid(&m, 5 * i as u64, 409));
        assert_eq!(a.is_some(), b.is_some(), "sample {i}");
        if let (Some(a), Some(b)) = (a, b) {
            assert_eq!((a.start, a.pulse, a.gap), (b.start, b.pulse, b.gap));
            hits += 1;
        }
        let (x, y) = (preamble_int(&m[i..]), preamble_levels(&m, 5 * i as u64));
        assert_eq!((x.pulse_mean, x.gap, x.pulse_min, x.pulse_max), (y.pulse_mean, y.gap, y.pulse_min, y.pulse_max));
    }
    assert!(hits > 0);
}

#[test]
fn grid_test_is_the_fine_test() {
    let m = samples();
    let p = Params::default();
    for st in 0..=295 {
        let (a, b) = (preamble_grid(&m, st, p.preamble_ratio), preamble(&p, &m, st));
        assert_eq!(a.is_some(), b.is_some(), "start {st}");
        if let (Some(a), Some(b)) = (a, b) {
            assert_eq!((a.pulse, a.gap), (b.pulse_mean, b.gap));
        }
    }
    // Past the last start with 21 samples there is nothing to test.
    assert!(preamble_grid(&m, 300, 0).is_none());
}

#[test]
fn half_bits_weigh_two_samples() {
    let m = [10u16, 100, 1000];
    assert_eq!(half_bit_at(&m, 0, 0), 150);
    assert_eq!(half_bit_at(&m, 0, 2), 330);
    assert_eq!(half_bit_at(&m, 1, 4), 5100);
    assert_eq!(half_bit(&m, 6), 2400);
}

#[test]
fn hits_are_found_in_turn() {
    let mut hits = vec![0u8; 40];
    hits[3] = 1;
    hits[17] = 1;
    hits[39] = 2;
    assert_eq!(next_hit(&hits, 0), Some(3));
    assert_eq!(next_hit(&hits, 3), Some(3));
    assert_eq!(next_hit(&hits, 4), Some(17));
    assert_eq!(next_hit(&hits, 18), Some(39));
    assert_eq!(next_hit(&hits, 40), None);
    assert_eq!(next_hit(&hits[..39], 18), None);
}

#[test]
fn without_limits_every_frame_is_subtracted() {
    let quiet = |fixed| Frame {
        start: 0,
        bytes: vec![0; 14],
        signal: 6336 * 100,
        gap: 0,
        on: 1_000_000,
        off: 0,
        summed: 107,
        fixed,
    };
    assert!(Demodulator::new(Params::default()).collided(&quiet(0)));
    let limited = Params { cancel_gap_ratio: 512, cancel_off_ratio: 128, ..Params::default() };
    let d = Demodulator::new(limited);
    assert!(!d.collided(&quiet(0)));
    assert!(d.collided(&quiet(1)));
}

#[test]
fn hits_are_ones_and_the_rest_is_zero() {
    let m = samples();
    let (mut pmax, mut cum, mut hits) = (vec![7u16], vec![7u32], vec![7u8; 200]);
    gate_passes(&m, 60, 512, &mut pmax, &mut cum, &mut hits);
    assert_eq!((pmax.len(), cum.len(), hits.len()), (79, 81, 60));
    let total: u32 = m.iter().map(|&x| x as u32).sum();
    assert_eq!((pmax[20], cum[0], cum[80]), (m[20].max(m[21]), 0, total));
    assert_eq!(hits[20], 1);
    for j in 0..60 {
        let pulses: u64 = [0, 2, 8, 10].iter().map(|k| pmax[j + k] as u64).sum();
        let gaps = (cum[j + 8] - cum[j + 4] + cum[j + 19] - cum[j + 12]) as u64;
        assert_eq!(hits[j], (2816 * pulses > 512 * 4 * gaps) as u8, "sample {j}");
    }
    assert!(hits.contains(&0));
}
