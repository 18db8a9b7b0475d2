use rx::clips::{Schedule, clip_share, old_clips, unix_utc_name};

#[test]
fn names_of_times() {
    for (t, name) in [
        (0i64, "19700101T000000Z"),
        (1_788_566_399, "20260904T235959Z"),
        (951_782_400, "20000229T000000Z"),
        (951_868_800, "20000301T000000Z"),
        (4_107_542_399, "21000228T235959Z"),
        (4_107_542_400, "21000301T000000Z"),
        (1_735_689_599, "20241231T235959Z"),
        (-1, "19691231T235959Z"),
        (-62_167_219_200, "00000101T000000Z"),
        (-62_167_219_201, "-0011231T235959Z"),
        (253_402_300_800, "100000101T000000Z"),
    ] {
        assert_eq!(unix_utc_name(t), name);
    }
    assert!(unix_utc_name(i64::MAX).ends_with("Z"));
    assert!(unix_utc_name(i64::MIN).starts_with("-"));
}

#[test]
fn every_day_of_two_centuries_in_turn() {
    let mut last = unix_utc_name(0);
    for day in 1..73_050i64 {
        let name = unix_utc_name(day * 86_400);
        assert!(name > last, "{last} {name}");
        last = name;
    }
    assert_eq!(last, "21700101T000000Z");
}

fn names(l: &[&str]) -> Vec<String> {
    l.iter().map(|s| s.to_string()).collect()
}

#[test]
fn the_newest_clips_stay() {
    let n = names(&["c.cu8", "a.cu8", "x.txt", "b.cu8", ".cu8", "cu8"]);
    assert_eq!(old_clips(&n, 2), names(&[".cu8", "a.cu8"]));
    assert_eq!(old_clips(&n, 4), names(&[]));
    assert_eq!(old_clips(&n, 9), names(&[]));
    assert_eq!(old_clips(&n, 0), names(&[".cu8", "a.cu8", "b.cu8", "c.cu8"]));
}

#[test]
fn clips_take_their_share_of_a_block() {
    assert_eq!(clip_share(100, 50), (50, 75));
    assert_eq!(clip_share(100, 200), (200, 0));
    assert_eq!(clip_share(100, 300), (200, 0));
    assert_eq!(clip_share(0, 300), (0, 0));
    assert_eq!(clip_share(u64::MAX, 8), (8, u64::MAX - 4));
}

#[test]
fn clips_are_begun_on_time_and_end_when_full() {
    let mut s = Schedule::new(1_000);
    assert!(!s.due(999));
    assert!(s.due(1_000));
    s.begin(false, 100, 1_000, 600); // the file could not be made
    assert_eq!(s.take(50), 0);
    assert!(!s.due(1_599));
    assert!(s.due(1_600));
    s.begin(true, 100, 1_600, 600);
    assert_eq!(s.take(120), 120);
    assert!(!s.due(5_000)); // one is being written
    assert_eq!(s.left, Some(40));
    assert_eq!(s.take(120), 80);
    assert_eq!(s.left, None);
    assert_eq!(s.take(120), 0);
    assert!(s.due(5_000));
    s.begin(true, 0, 5_000, 600);
    assert_eq!(s.take(120), 0);
    assert_eq!(s.left, None);
}
