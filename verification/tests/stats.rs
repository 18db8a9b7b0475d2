use rx::stats::{Bucket, LEVEL_SCALE, Stats};

#[test]
fn minute_window_and_totals() {
    let mut s = Stats::new(1_000_000, Some(496));
    for t in 0..70 {
        s.samples(2_400_000);
        s.frame(10 * LEVEL_SCALE, 0);
        s.frame(10 * LEVEL_SCALE, 1);
        s.noise(1_700_000);
        s.tick(1_000_000 + 1000 * t);
    }
    assert_eq!(s.total().clean, 70);
    assert_eq!(s.seconds(), 60);
    let last = s.last_minute();
    assert_eq!(last.clean, 60);
    assert_eq!(last.samples, 60 * 2_400_000);
    let sec = s.section(&last, 0, 60_000, -25_200_000, -40_500_000);
    assert!(sec.contains("\"accepted\":[60,60]"), "{sec}");
    assert!(sec.contains("\"gain_db\":49.6"), "{sec}");
}

#[test]
fn sections_in_full() {
    let s = Stats::new(0, None);
    let b = Bucket { samples: 1, dropped: 2, clean: 3, repaired: 4, strong: 5, ..Bucket::default() };
    assert_eq!(
        s.section(&b, 1_000_000, 1_060_460, -450_001, -50_000_000),
        "{\"start\":1000.0,\"end\":1060.5,\"local\":{\"samples_processed\":1,\"samples_dropped\":2,\
         \"accepted\":[3,4],\"strong_signals\":5,\"signal\":-0.5,\"noise\":-50.0,\"gain_db\":null},\
         \"messages\":7}"
    );
    assert_eq!(
        Stats::document(12_345, "{}", "[]"),
        "{\"now\":12.3,\"total\":{},\"last1min\":[]}"
    );
}

#[test]
fn documents_fall_due_every_ten_seconds() {
    let mut s = Stats::new(50_000, None);
    assert!(s.tick(50_000));
    assert!(!s.tick(59_999));
    assert!(s.tick(60_000));
    assert!(!s.tick(40_000));
}

#[test]
fn frames_by_kind_and_level() {
    let mut s = Stats::new(0, None);
    s.frame(178 * LEVEL_SCALE - 1, 0);
    s.frame(178 * LEVEL_SCALE, 2);
    s.dropped(5);
    s.noise(10);
    s.noise(20);
    s.tick(0);
    let t = s.total();
    assert_eq!((t.clean, t.repaired, t.strong, t.dropped), (1, 1, 1, 5));
    assert_eq!((t.signal_sum, t.signal_n), (2 * 178 * LEVEL_SCALE as u64 - 1, 2));
    assert_eq!((t.noise_sum, t.noise_n), (30, 2));
    assert_eq!(s.seconds(), 1);
    s.tick(1);
    assert_eq!(s.total().clean, 1);
    assert_eq!(s.seconds(), 2);
}
