use rx::gain::{Controller, Vote, Window, nearest, vote};

fn w(clip: f64, strong: bool, noise: f32) -> Window {
    Window {
        clipped: (clip * 1e6).round() as u64,
        seen: 1_000_000,
        strong_clip: strong,
        noise: (noise as f64 * 1e6).round() as u64,
    }
}

fn s(seconds: f64) -> u64 {
    (seconds * 1000.0) as u64
}

#[test]
fn votes() {
    assert_eq!(vote(&w(0.01, false, 2.0)), Vote::Down);
    assert_eq!(vote(&w(0.0, true, 2.0)), Vote::Down);
    assert_eq!(vote(&w(0.0, false, 1.0)), Vote::Up);
    assert_eq!(vote(&w(0.0005, false, 1.0)), Vote::Hold); // clipping not low enough to go up
    assert_eq!(vote(&w(0.0, false, 2.0)), Vote::Hold);
}

#[test]
fn two_windows_must_agree_then_hold() {
    let mut c = Controller::new(vec![0, 100, 200, 300, 400, 496], 496);
    assert_eq!(c.current(), 496);
    assert_eq!(c.step(&w(0.01, false, 2.0), s(0.0)), None); // first vote down
    assert_eq!(c.step(&w(0.0, false, 2.0), s(10.0)), None); // hold breaks the streak
    assert_eq!(c.step(&w(0.01, false, 2.0), s(20.0)), None);
    assert_eq!(c.step(&w(0.01, false, 2.0), s(30.0)), Some(400)); // agreed: step down
    // held for 20 s: votes during the hold are ignored
    assert_eq!(c.step(&w(0.01, false, 2.0), s(40.0)), None);
    assert_eq!(c.step(&w(0.01, false, 2.0), s(45.0)), None);
    // after the hold, two more agreeing windows step again
    assert_eq!(c.step(&w(0.01, false, 2.0), s(51.0)), None);
    assert_eq!(c.step(&w(0.01, false, 2.0), s(61.0)), Some(300));
}

#[test]
fn steps_up_when_quiet_and_stops_at_the_ends() {
    let mut c = Controller::new(vec![0, 100, 200], 100);
    assert_eq!(c.step(&w(0.0, false, 1.0), s(0.0)), None);
    assert_eq!(c.step(&w(0.0, false, 1.0), s(10.0)), Some(200));
    assert_eq!(c.step(&w(0.0, false, 1.0), s(31.0)), None);
    assert_eq!(c.step(&w(0.0, false, 1.0), s(41.0)), None); // top step: nowhere to go
    let mut c = Controller::new(vec![0, 100], 0);
    assert_eq!(c.step(&w(0.1, false, 2.0), s(0.0)), None);
    assert_eq!(c.step(&w(0.1, false, 2.0), s(10.0)), None); // bottom step
}

#[test]
fn start_snaps_to_a_step() {
    let c = Controller::new(vec![0, 90, 200, 496], 100);
    assert_eq!(c.current(), 90);
}

#[test]
fn the_first_of_equally_near_steps() {
    assert_eq!(nearest(&vec![0, 20, 10], 15), Some(1));
    assert_eq!(nearest(&vec![], 15), None);
    assert_eq!(nearest(&vec![i32::MAX, i32::MIN], i32::MIN), Some(1));
    assert_eq!(Controller::new(vec![], 100).current(), 0);
}

#[test]
fn vote_limits_are_strict() {
    let mut x = w(0.001, false, 2.0);
    assert_eq!(vote(&x), Vote::Hold);
    x.clipped += 1;
    assert_eq!(vote(&x), Vote::Down);
    let mut x = w(0.0002, false, 1.0);
    assert_eq!(vote(&x), Vote::Hold);
    x.clipped -= 1;
    assert_eq!(vote(&x), Vote::Up);
    x.noise = 1_400_000;
    assert_eq!(vote(&x), Vote::Hold);
}

#[test]
fn a_single_step_never_moves() {
    let mut c = Controller::new(vec![100], 100);
    for t in 0..10 {
        assert_eq!(c.step(&w(0.1, true, 2.0), s(10.0 * t as f64)), None);
    }
    assert_eq!(c.current(), 100);
}

#[test]
fn any_time_will_do() {
    let mut c = Controller::new(vec![0, 100, 200], 200);
    let end = u64::MAX;
    assert_eq!(c.step(&w(0.1, false, 2.0), end - 1), None);
    assert_eq!(c.step(&w(0.1, false, 2.0), end), Some(100));
    assert_eq!(c.step(&w(0.1, false, 2.0), end), None); // held
    assert_eq!(c.step(&w(0.1, false, 2.0), end), None);
    assert_eq!(c.current(), 100);
}
