use rx::beast::encode;
use rx::beast_in::{InFrame, MLAT_MAGIC};
use rx::demod::Frame;
use rx::station::Station;
use rx::track::{Position, Report};

const DF17: [u8; 14] = [
    0x8D, 0x40, 0x62, 0x1D, 0x58, 0xC3, 0x82, 0xD6, 0x90, 0xC8, 0xAC, 0x28, 0x63, 0xA7,
];

fn frame(bytes: &[u8], start: u64, level: u32, fixed: u8) -> Frame {
    Frame { start, bytes: bytes.to_vec(), signal: 6336 * level, gap: 0, on: 0, off: 0, summed: 107, fixed }
}

fn report(odd: bool) -> Option<Report> {
    Some(Report { odd, cpr_lat: 1, cpr_lon: 2, alt_ft: Some(38_000) })
}

fn at(moved_mm: u64) -> Option<Position> {
    Some(Position { lat: 52_000_000_000, lon: 4_000_000_000, moved_mm })
}

/// A station that knows where the aircraft is since second 2.
fn placed() -> Station {
    let mut s = Station::new(0, Some(496), 500);
    let (mut full, mut reduced) = (Vec::new(), Vec::new());
    assert!(s.frame(&frame(&DF17, 10, 50, 0), report(false), None, 1_000, &mut full, &mut reduced));
    assert!(s.frame(&frame(&DF17, 20, 50, 0), report(true), at(0), 2_000, &mut full, &mut reduced));
    s
}

#[test]
fn frames_go_out_and_are_counted() {
    let mut s = Station::new(0, None, 500);
    let (mut full, mut reduced) = (Vec::new(), Vec::new());
    assert!(s.frame(&frame(&DF17, 12_345, 100, 0), None, None, 1_000, &mut full, &mut reduced));
    let mut want = Vec::new();
    encode(&DF17, 12_345, 140, &mut want);
    assert_eq!(full, want);
    assert_eq!(reduced, want); // positions always pass
    assert_eq!((s.frames, s.second, s.heard_of()), (1, 1, 1));
    // An altitude reply, twice in an interval: the reduced stream takes one.
    let reply = [0x20, 0, 0x12, 0x34, 1, 2, 3];
    for k in 0..2 {
        assert!(s.frame(&frame(&reply, 0, 179, 0), None, None, 1_000 + k, &mut full, &mut reduced));
    }
    let mut one = Vec::new();
    encode(&reply, 0, 250, &mut one);
    assert_eq!(full.len(), want.len() + 2 * one.len());
    assert_eq!(reduced.len(), want.len() + one.len());
    assert!(s.meter.strong);
    assert_eq!(s.heard_of(), 1);
    assert_eq!(s.close_second(10_000), (3, true));
    assert_eq!(s.close_second(11_000), (0, false));
    let b = s.stats.total();
    assert_eq!((b.clean, b.repaired, b.strong), (3, 0, 2));
}

#[test]
fn a_frame_that_contradicts_the_track_is_not_sent_out() {
    let mut s = placed();
    let (mut full, mut reduced) = (Vec::new(), Vec::new());
    let far = at(2_400_001);
    assert!(!s.frame(&frame(&DF17, 30, 50, 1), report(false), far, 3_000, &mut full, &mut reduced));
    assert!(full.is_empty() && reduced.is_empty());
    assert_eq!((s.frames, s.tracker.rejected(), s.tracker.messages()), (2, 1, 2));
    // Near enough, or received clean, it is.
    assert!(s.frame(&frame(&DF17, 30, 50, 1), report(false), at(2_400_000), 3_000, &mut full, &mut reduced));
    assert!(s.frame(&frame(&DF17, 40, 50, 0), report(true), at(9_000_000), 3_500, &mut full, &mut reduced));
    assert_eq!((s.frames, s.tracker.rejected()), (4, 1));
    assert!(!full.is_empty() && !reduced.is_empty());
}

#[test]
fn received_frames_go_on_the_full_stream_alone() {
    let mut s = Station::new(0, None, 500);
    let mut full = Vec::new();
    let other = InFrame { ts: 77, signal: 9, bytes: DF17.to_vec() };
    s.received(&other, None, None, 1_000, &mut full);
    let mut want = Vec::new();
    encode(&DF17, 77, 9, &mut want);
    assert_eq!(full, want);
    assert_eq!(s.tracker.count(), 0); // not from multilateration
    let result = InFrame { ts: MLAT_MAGIC, signal: 0, bytes: DF17.to_vec() };
    s.received(&result, None, None, 1_000, &mut full);
    assert_eq!(s.tracker.count(), 1);
    assert_eq!((s.frames, s.tracker.messages(), s.heard_of()), (0, 0, 0));
    assert!(full.len() > want.len());
}

#[test]
fn silent_aircraft_leave_after_a_minute() {
    let mut s = placed();
    s.close_second(62_000);
    assert_eq!(s.tracker.count(), 1);
    s.close_second(62_001);
    assert_eq!(s.tracker.count(), 0);
    assert_eq!(s.heard_of(), 1);
}
