use rx::crc::crc24;
use rx::track::{Pair, Position, Report, Tracker, Verdict, parse_airborne};
use rx::track_json::{entry, put_degrees, put_seconds, table};

fn frame(df: u8) -> Vec<u8> {
    vec![df << 3, 0xAB, 0xCD, 0xEF, 0, 0, 0]
}

fn report(odd: bool, lat: u32) -> Report {
    Report { odd, cpr_lat: lat, cpr_lon: 7, alt_ft: Some(38_000) }
}

fn at(lat: i64, moved_mm: u64) -> Option<Position> {
    Some(Position { lat, lon: -5, moved_mm })
}

const HEX: u32 = 0xABCDEF;

/// A table with one aircraft at a position, at second 1.
fn placed() -> Tracker {
    let mut t = Tracker::new();
    let f = frame(17);
    t.offer(&f, Some(report(false, 1)), None, 10, 0, 0);
    t.offer(&f, Some(report(true, 2)), at(100, 0), 10, 0, 1000);
    t
}

#[test]
fn airborne_position_fields() {
    let f = [
        0x8D, 0x40, 0x62, 0x1D, 0x58, 0xC3, 0x82, 0xD6, 0x90, 0xC8, 0xAC, 0x28, 0x63, 0xA7,
    ];
    let p = parse_airborne(&f).unwrap();
    assert!(!p.odd);
    assert_eq!(p.cpr_lat, 93000);
    assert_eq!(p.cpr_lon, 51372);
    assert_eq!(p.ac12, 0xC38);
    let mut bad = f;
    bad[13] ^= 1;
    assert!(parse_airborne(&bad).is_none());
    assert!(parse_airborne(&f[..13]).is_none());
    // Another type of message, with its checksum put right.
    let mut other = f;
    other[4] = 19 << 3;
    let c = crc24(&other[..11]);
    other[11] = (c >> 16) as u8;
    other[12] = (c >> 8) as u8;
    other[13] = c as u8;
    assert_eq!(crc24(&other), 0);
    assert!(parse_airborne(&other).is_none());
}

#[test]
fn pairs_complete_within_ten_seconds() {
    let mut t = Tracker::new();
    assert!(t.pair(HEX, &report(true, 2), 0).is_none());
    t.offer(&frame(17), Some(report(false, 1)), None, 10, 0, 0);
    let p: Pair = t.pair(HEX, &report(true, 2), 9_999).unwrap();
    assert_eq!((p.even, p.odd, p.last_odd), ((1, 7), (2, 7), true));
    assert!(t.pair(HEX, &report(true, 2), 10_000).is_none());
    assert!(t.pair(HEX, &report(false, 2), 1).is_none());
    // A position without a pair is not taken.
    t.offer(&frame(17), Some(report(true, 2)), at(100, 0), 10, 0, 10_000);
    assert_eq!(t.get(HEX).unwrap().lat, None);
    t.offer(&frame(17), Some(report(false, 3)), at(100, 0), 10, 0, 10_001);
    let a = t.get(HEX).unwrap();
    assert_eq!((a.lat, a.lon, a.pos_time, a.alt_ft), (Some(100), Some(-5), 10_001, Some(38_000)));
    assert_eq!(a.messages, 3);
    assert_eq!(t.messages(), 3);
}

#[test]
fn repaired_frames_must_keep_the_track() {
    // 400 m/s for two seconds, and two kilometers.
    let limit = 400 * 2000 + 2_000_000;
    let f = frame(17);
    let mut t = placed();
    assert_eq!(t.offer(&f, Some(report(false, 3)), at(200, limit), 11, 1, 3000), Verdict::Accept);
    assert_eq!(t.get(HEX).unwrap().lat, Some(200));
    let mut t = placed();
    assert_eq!(
        t.offer(&f, Some(report(false, 3)), at(200, limit + 1), 11, 1, 3000),
        Verdict::Reject
    );
    let a = t.get(HEX).unwrap();
    assert_eq!((a.lat, a.messages, a.last_seen, a.signal), (Some(100), 2, 1000, 10));
    assert_eq!((t.rejected(), t.messages()), (1, 2));
    // A clean checksum is its own proof.
    assert_eq!(
        t.offer(&f, Some(report(false, 3)), at(200, limit + 1), 11, 0, 3000),
        Verdict::Accept
    );
    assert_eq!(t.get(HEX).unwrap().lat, Some(200));
    assert_eq!(t.rejected(), 1);
}

#[test]
fn frames_without_an_address_are_left_alone() {
    let mut t = Tracker::new();
    assert_eq!(t.offer(&[0], None, None, 10, 0, 0), Verdict::Accept);
    assert_eq!((t.count(), t.messages()), (0, 0));
    // An all-call reply carries no position.
    t.offer(&frame(11), Some(report(false, 1)), None, 10, 0, 5);
    let a = t.get(HEX).unwrap();
    assert_eq!((a.messages, a.last_seen), (1, 5));
    assert!(a.even.is_none());
}

fn result(odd: bool) -> Vec<u8> {
    let mut f = vec![18u8 << 3, 0xAB, 0xCD, 0xEF, 11 << 3, 0xC3, 0x80, 0, 2, 0, 3, 0, 0, 0];
    if odd {
        f[6] |= 4;
    }
    let c = crc24(&f[..11]);
    f[11] = (c >> 16) as u8;
    f[12] = (c >> 8) as u8;
    f[13] = c as u8;
    f
}

#[test]
fn multilateration_yields_to_the_aircraft() {
    let mut t = placed();
    t.offer_mlat(&result(false), Some(1), None, 2000);
    assert!(t.mlat_pair(&result(true), 3000).is_some());
    assert!(t.mlat_pair(&result(true), 12_000).is_none());
    t.offer_mlat(&result(true), Some(1), Some((7, 8)), 3000);
    let a = t.get(HEX).unwrap();
    assert_eq!((a.lat, a.pos_mlat, a.messages, a.last_seen), (Some(100), false, 2, 1000));
    // Thirty seconds after the aircraft's own position.
    t.offer_mlat(&result(false), Some(1), Some((7, 8)), 30_500);
    t.offer_mlat(&result(true), Some(1), Some((7, 8)), 31_000);
    let a = t.get(HEX).unwrap();
    assert_eq!((a.lat, a.lon, a.pos_mlat), (Some(7), Some(8), true));
    assert_eq!((a.messages, a.last_seen, a.alt_ft), (2, 31_000, Some(38_000)));
    assert_eq!(t.messages(), 2);
    // Not an airborne position: nothing happens.
    t.offer_mlat(&frame(18), Some(1), Some((9, 9)), 31_001);
    assert_eq!(t.get(HEX).unwrap().lat, Some(7));
}

#[test]
fn multilateration_alone_makes_an_aircraft() {
    let mut t = Tracker::new();
    t.offer_mlat(&result(false), Some(9), None, 0);
    t.offer_mlat(&result(true), Some(9), Some((7, 8)), 100);
    let a = t.get(HEX).unwrap();
    assert_eq!((a.lat, a.pos_mlat, a.messages, a.alt_ft), (Some(7), true, 0, Some(9)));
}

#[test]
fn silent_aircraft_expire() {
    let mut t = placed();
    let mut other = frame(11);
    other[3] = 0;
    t.offer(&other, None, None, 10, 0, 61_001);
    t.expire(61_000, 60_000);
    assert_eq!(t.count(), 2);
    t.expire(61_001, 60_000);
    assert_eq!(t.count(), 1);
    assert!(t.get(HEX).is_none());
}

#[test]
fn lists_go_by_address() {
    let mut t = Tracker::new();
    for k in [9u8, 3, 200, 1, 77, 3] {
        let mut f = frame(11);
        f[1] = k;
        t.offer(&f, None, None, 0, 0, 0);
    }
    let hexes: Vec<u32> = t.list().iter().map(|a| a.hex >> 16).collect();
    assert_eq!(hexes, [1, 3, 9, 77, 200]);
}

#[test]
fn aircraft_json_in_full() {
    let mut t = placed();
    let a = t.get(HEX).unwrap();
    assert_eq!(
        entry(&a, 3_250, -12_300_000, 4_450_001),
        "{\"hex\":\"abcdef\",\"messages\":2,\"seen\":2.2,\"rssi\":-12.3,\"lat\":0.000000,\
         \"lon\":-0.000000,\"seen_pos\":2.2,\"r_dst\":4.5,\"alt_baro\":38000}"
    );
    t.offer_mlat(&result(false), Some(1), None, 40_000);
    t.offer_mlat(&result(true), Some(1), Some((1_298_490_500, 103_857_280_499)), 40_100);
    let b = t.get(HEX).unwrap();
    assert_eq!(
        entry(&b, 40_100, 0, 0),
        "{\"hex\":\"abcdef\",\"messages\":2,\"seen\":0.0,\"rssi\":0.0,\"lat\":1.298490,\
         \"lon\":103.857280,\"seen_pos\":0.0,\"r_dst\":0.0,\"mlat\":[\"lat\",\"lon\"],\
         \"alt_baro\":38000}"
    );
    let mut f = frame(11);
    f[1] = 0;
    t.offer(&f, None, None, 0, 0, 50_000);
    assert_eq!(
        entry(&t.get(0xCDEF).unwrap(), 49_000, -50_000_000, 0),
        "{\"hex\":\"00cdef\",\"messages\":1,\"seen\":-1.0,\"rssi\":-50.0}"
    );
    assert_eq!(
        table(1_500, 3, &vec!["a".to_string(), "b".to_string()]),
        "{\"now\":1.5,\"messages\":3,\"aircraft\":[a,b]}"
    );
    assert_eq!(table(0, 0, &vec![]), "{\"now\":0.0,\"messages\":0,\"aircraft\":[]}");
}

#[test]
fn degrees_have_six_decimals() {
    for (n, s) in [
        (0i64, "0.000000"),
        (499, "0.000000"),
        (500, "0.000000"), // of two as near, the even one
        (501, "0.000001"),
        (1_500, "0.000002"),
        (-33_946_110_499, "-33.946110"),
        (151_177_222_999, "151.177223"),
        (-500, "-0.000000"),
        (-501, "-0.000001"),
        (7_812_500, "0.007812"),
    ] {
        let mut out = String::new();
        put_degrees(&mut out, n);
        assert_eq!(out, s);
    }
}

#[test]
fn seconds_have_one_decimal() {
    for (now, since, s) in [
        (250u64, 0u64, "0.2"),
        (750, 0, "0.8"),
        (251, 0, "0.3"),
        (49, 0, "0.0"),
        (0, 30, "-0.0"),
        (0, 250, "-0.2"),
        (0, 0, "0.0"),
        (1_700_000_000_149, 0, "1700000000.1"),
        (u64::MAX, 0, "18446744073709551.6"),
        (0, u64::MAX, "-18446744073709551.6"),
    ] {
        let mut out = String::new();
        put_seconds(&mut out, now, since);
        assert_eq!(out, s);
    }
}

#[test]
fn levels_keep_their_sign() {
    let a = placed().get(HEX).unwrap();
    assert!(entry(&a, 3_000, -40_000, 0).contains("\"rssi\":-0.0,"));
    assert!(entry(&a, 3_000, -50_001, 0).contains("\"rssi\":-0.1,"));
}
