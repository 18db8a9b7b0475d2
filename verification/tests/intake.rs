use rx::beast_in::{InFrame, Parser};
use rx::demod::Frame;
use rx::intake::{Clock, Intake, Meter, TAIL, count_clipped, longer_wait, noise_floor};
use rx::iq::MagLut;
use rx::publish::{emit, relay, signal_byte};
use rx::reduce::Reducer;

#[test]
fn clipped_samples() {
    // Each sample counts once, whether I, Q or both are near full scale.
    assert_eq!(count_clipped(&[0, 255, 127, 127, 5, 127, 128, 250, 6, 249]), 3);
    assert_eq!(count_clipped(&[6, 6, 249, 249]), 0);
    assert_eq!(count_clipped(&[0]), 0); // half a sample
    assert_eq!(count_clipped(&[]), 0);
}

#[test]
fn blocks_join_unless_there_is_a_gap() {
    let lut = MagLut::new();
    let mut w = Intake::new();
    assert_eq!(w.take(&lut, 0, &[127; 200]), 0);
    assert_eq!(w.take(&lut, 100, &[0; 200]), 0);
    assert_eq!((w.mag.len(), w.raw.len(), w.base, w.next), (200, 400, 0, 200));
    assert_eq!((w.mag[99], w.mag[100]), (9, 2883));
    assert_eq!(w.take(&lut, 250, &[127; 20]), 50);
    assert_eq!((w.mag.len(), w.raw.len(), w.base, w.next), (10, 20, 250, 260));
    // Back in time: nothing was dropped.
    assert_eq!(w.take(&lut, 100, &[127; 20]), 0);
    assert_eq!((w.base, w.next), (100, 110));
}

#[test]
fn the_tail_is_kept() {
    let lut = MagLut::new();
    let mut w = Intake::new();
    w.take(&lut, 0, &[127; 600]);
    w.keep_tail();
    assert_eq!((w.mag.len(), w.base), (300, 0));
    let mut block = vec![127u8; 600];
    block[2] = 255;
    w.take(&lut, 300, &block);
    w.keep_tail();
    assert_eq!((w.mag.len(), w.raw.len(), w.base, w.next), (TAIL, 2 * TAIL, 200, 600));
    assert_eq!(w.raw[2 * 101], 255);
    assert!(w.mag[101] > 2000 && w.mag[100] == 9);
}

#[test]
fn magnitudes_are_taken_anew() {
    let lut = MagLut::new();
    let mut w = Intake::new();
    w.take(&lut, 0, &[127; 20]);
    for b in w.raw.iter_mut() {
        *b = 0;
    }
    w.refresh(&lut, 3, 4);
    let want: Vec<u16> = (0..10).map(|k| if (3..7).contains(&k) { 2883 } else { 9 }).collect();
    assert_eq!(w.mag, want);
}

#[test]
fn noise_is_a_mean_in_millionths() {
    assert_eq!(noise_floor(&[], 10), None);
    assert_eq!(noise_floor(&[16], 0), None);
    assert_eq!(noise_floor(&[99, 16, 32], 2), Some(1_500_000));
    assert_eq!(noise_floor(&[1, 1, 2], 10), Some(83_333));
}

#[test]
fn windows_for_the_gain_loop() {
    let mut m = Meter::new();
    assert!(m.close().is_none());
    m.block(100, 3, Some(2_000_000));
    m.block(100, 4, Some(1_000_001));
    m.block(100, 0, None);
    m.frame(249);
    let w = m.close().unwrap();
    assert_eq!((w.clipped, w.seen, w.strong_clip, w.noise), (7, 300, false, 1_500_000));
    assert!(m.close().is_none());
    m.frame(250);
    m.block(1, 0, None);
    let w = m.close().unwrap();
    assert_eq!((w.strong_clip, w.noise), (true, 0));
}

#[test]
fn the_clock_counts_samples_and_outages() {
    let mut c = Clock::new(0);
    assert_eq!(c.block(131_072, 10), (0, None));
    assert_eq!(c.block(65_535, 20), (131_072, None));
    assert_eq!(c.short_reads, 1);
    assert_eq!(c.block(65_536, 60_000), (196_607, Some(1)));
    assert_eq!(c.block(131_072, 200_000), (262_143, None));
    c.outage(1_000_000);
    assert_eq!((c.at, c.outages), (1_393_215, 1));
}

#[test]
fn waiting_for_the_dongle() {
    let waits: Vec<u64> = (0..6)
        .scan(2u64, |w, _| {
            let now = *w;
            *w = longer_wait(now);
            Some(now)
        })
        .collect();
    assert_eq!(waits, [2, 4, 6, 8, 10, 10]);
}

#[test]
fn signal_bytes() {
    assert_eq!(signal_byte(0), 0);
    assert_eq!(signal_byte(100 * 6336), 140);
    assert_eq!(signal_byte(181 * 6336), 253);
    assert_eq!(signal_byte(u32::MAX), 255);
}

fn frame(bytes: Vec<u8>) -> Frame {
    Frame { start: 12345, bytes, signal: 100 * 6336, gap: 0, on: 0, off: 0, summed: 0, fixed: 0 }
}

#[test]
fn every_frame_goes_on_the_full_stream() {
    let mut r = Reducer::new(500);
    let (mut full, mut reduced) = (Vec::new(), Vec::new());
    let f = frame(vec![11 << 3, 1, 2, 3, 4, 5, 6]);
    emit(&f, &mut r, 1000, &mut full, &mut reduced);
    emit(&f, &mut r, 1001, &mut full, &mut reduced);
    relay(&InFrame { ts: 9, signal: 8, bytes: vec![7; 14] }, &mut full);
    let mut got = Vec::new();
    Parser::new().feed(&full, &mut got);
    assert_eq!(got.len(), 3);
    assert_eq!(got[0], InFrame { ts: 12345, signal: 140, bytes: f.bytes.clone() });
    assert_eq!(got[2], InFrame { ts: 9, signal: 8, bytes: vec![7; 14] });
    let mut got = Vec::new();
    Parser::new().feed(&reduced, &mut got);
    assert_eq!(got.len(), 1);
}
