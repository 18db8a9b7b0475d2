use rx::collide::Recovery;
use rx::demod::{Demodulator, Frame, LONG_SAMPLES};
use rx::intake::Intake;
use rx::iq::MagLut;
use rx::params::Params;

const DF17: [u8; 14] = [
    0x8D, 0x40, 0x62, 0x1D, 0x58, 0xC3, 0x82, 0xD6, 0x90, 0xC8, 0xAC, 0x28, 0x63, 0xA7,
];

/// Raw samples of one frame that starts at sample `start`, on a whole sample:
/// pulses on I, quiet elsewhere.
fn raw(start: usize, n: usize) -> Vec<u8> {
    let mut level = vec![0f64; n];
    let mut pulse = |t_us: f64| {
        let a = start as f64 + t_us * 2.4;
        let b = a + 1.2;
        for i in a as usize..=b as usize {
            let d = (i as f64 + 1.0).min(b) - (i as f64).max(a);
            if d > 0.0 {
                level[i] += 100.0 * d;
            }
        }
    };
    for t in [0.0, 1.0, 3.5, 4.5] {
        pulse(t);
    }
    for k in 0..112 {
        let bit = DF17[k / 8] >> (7 - k % 8) & 1 == 1;
        pulse(8.0 + k as f64 + if bit { 0.0 } else { 0.5 });
    }
    level.iter().flat_map(|x| [127 + x.round() as u8, 127]).collect()
}

fn fixed(f: u8, start: u64) -> Frame {
    Frame { start, bytes: DF17.to_vec(), signal: 1000, gap: 100, on: 10, off: 1, summed: 107, fixed: f }
}

#[test]
fn targets_and_their_spans() {
    let d = Demodulator::new(Params::default());
    let mut r = Recovery::new(vec![fixed(0, 5 * 90), fixed(0, 5 * 101), fixed(0, 5 * 300 + 3)]);
    // The first frame starts before the samples at hand.
    let t = r.next_target(&d, 100, 1000).unwrap();
    assert_eq!((t.index, t.start, t.from, t.len), (1, 5, 0, 294));
    let t = r.next_target(&d, 100, 400).unwrap();
    assert_eq!((t.index, t.start, t.from, t.len), (2, 1003, 198, 202));
    assert!(r.next_target(&d, 100, 400).is_none());
}

#[test]
fn only_collisions_where_limits_are_set() {
    let p = Params { cancel_gap_ratio: 512, cancel_off_ratio: 64, ..Params::default() };
    let d = Demodulator::new(p);
    assert!(!d.collided(&fixed(0, 0)));
    assert!(d.collided(&fixed(1, 0)));
    let all = Demodulator::new(Params::default());
    assert!(all.collided(&fixed(0, 0)));
}

#[test]
fn hot_gaps_and_empty_halves_are_collisions() {
    // A floor of 16 from a quiet run: one raw unit.
    let p = Params { cancel_gap_ratio: 512, cancel_off_ratio: 0, ..Params::default() };
    let mut d = Demodulator::new(p);
    d.run(&vec![16u16; 1000], 0);
    let mut f = fixed(0, 0);
    f.signal = 160 * 396;
    // Twice the floor and 0.3 of the signal: 2 * (16 + 48).
    f.gap = 128 * 396;
    assert!(d.collided(&f));
    f.gap -= 1;
    assert!(!d.collided(&f));
    let p = Params { cancel_gap_ratio: 0, cancel_off_ratio: 64, ..Params::default() };
    let mut d = Demodulator::new(p);
    d.run(&vec![16u16; 1000], 0);
    // A quarter of the full halves, and the floor and 0.35 of the signal: 16 +
    // 56 over 107 half bits of six fifths.
    f.off = 72 * 6 * 107;
    f.on = 4 * f.off;
    assert!(d.collided(&f));
    f.on += 1;
    assert!(!d.collided(&f));
    f.on = f.off;
    f.off -= 1;
    assert!(!d.collided(&f));
}

#[test]
fn removals_are_counted() {
    let mut d = Demodulator::new(Params::default());
    for (r, enough) in [
        (-1, false),
        (299_999, false),
        (300_000, true),
        (500_000, true),
        (800_000, true),
        (900_000, true),
        (949_999, true),
        (950_000, true),
    ] {
        assert_eq!(d.note_removed(r), enough);
    }
    assert_eq!(d.stats.cancelled, 8);
    assert_eq!(d.stats.removed_hist, [3, 1, 1, 2, 1]);
}

#[test]
fn a_rescan_finds_what_was_hidden_once() {
    let lut = MagLut::new();
    let mut d = Demodulator::new(Params::default());
    let mut w = Intake::new();
    let n = 1200;
    // The magnitudes show nothing until the raw samples are read again.
    w.take(&lut, 0, &vec![127u8; 2 * n]);
    assert_eq!(d.run(&w.mag, 0).len(), 0);
    w.raw = raw(400, n);
    let mut r = Recovery::new(vec![fixed(1, 5 * 395)]);
    let t = r.next_target(&d, 0, n).unwrap();
    assert_eq!((t.from, t.len), (393, 294));
    r.cancelled(&mut d, &lut, &mut w, &t, 299_999);
    assert_eq!(r.out.len(), 1);
    r.cancelled(&mut d, &lut, &mut w, &t, 900_000);
    assert_eq!(r.out.len(), 2);
    assert_eq!(r.out[1].bytes, DF17);
    assert_eq!(r.out[1].start, 5 * 400);
    assert_eq!(d.stats.rescan_frames, 1);
    // Again: nothing new.
    r.cancelled(&mut d, &lut, &mut w, &t, 900_000);
    assert_eq!(r.out.len(), 2);
    assert_eq!(d.stats.rescan_frames, 1);
    assert_eq!(d.stats.cancelled, 3);
    assert!(n > LONG_SAMPLES);
}

#[test]
fn frames_end_up_in_order() {
    let r = Recovery::new(vec![fixed(0, 30), fixed(1, 10), fixed(2, 30), fixed(3, 20), fixed(4, 10)]);
    let out: Vec<(u64, u8)> = r.finish().iter().map(|f| (f.start, f.fixed)).collect();
    assert_eq!(out, [(10, 1), (10, 4), (20, 3), (30, 0), (30, 2)]);
}

#[test]
fn a_recovery_adds_to_a_run() {
    let lut = MagLut::new();
    let n = 2400;
    let shown = raw(300, n);
    let mut both = shown.clone();
    for (a, b) in both.iter_mut().zip(raw(1000, n)) {
        if b != 127 {
            *a = b;
        }
    }
    let mut plain = Demodulator::new(Params::default());
    let mut w = Intake::new();
    w.take(&lut, 0, &shown);
    let before = w.mag.clone();
    let alone = plain.run(&w.mag, w.base);
    assert_eq!(alone.len(), 1);
    let mut d = Demodulator::new(Params::default());
    let mut r = Recovery::begin(&mut d, &w);
    let mut spans: Vec<(usize, usize)> = Vec::new();
    while let Some(t) = r.next_target(&d, w.base, w.mag.len()) {
        spans.push((t.from, t.from + t.len));
        // Only what lies in the span is read again.
        w.raw = both.clone();
        r.cancelled(&mut d, &lut, &mut w, &t, 900_000);
    }
    let out = r.finish();
    assert!(spans.len() <= out.len());
    assert_eq!(d.stats.cancelled, spans.len() as u64);
    for f in &alone {
        assert_eq!(out.iter().filter(|g| g.start == f.start && g.bytes == f.bytes).count(), 1);
    }
    for (k, (a, b)) in before.iter().zip(&w.mag).enumerate() {
        assert!(a == b || spans.iter().any(|&(lo, hi)| lo <= k && k < hi));
    }
    assert_eq!(w.mag.len(), before.len());
    assert!(out.windows(2).all(|x| x[0].start <= x[1].start));
}

#[test]
fn without_recovery_a_run_stands() {
    let lut = MagLut::new();
    let p = Params { cancel: false, ..Params::default() };
    let (mut a, mut b) = (Demodulator::new(p.clone()), Demodulator::new(p));
    let mut w = Intake::new();
    w.take(&lut, 0, &raw(400, 1200));
    let plain = a.run(&w.mag, w.base);
    let mut r = Recovery::begin(&mut b, &w);
    assert!(r.next_target(&b, w.base, w.mag.len()).is_none());
    let out = r.finish();
    assert_eq!(plain.len(), 1);
    assert_eq!(out.len(), 1);
    assert_eq!((out[0].start, &out[0].bytes), (plain[0].start, &plain[0].bytes));
    assert_eq!(b.stats.cancelled, 0);
}
