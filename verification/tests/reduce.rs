use rx::reduce::{Class, Reducer, classify};

fn squitter(tc: u8) -> Vec<u8> {
    let mut f = vec![0u8; 14];
    f[0] = 17 << 3;
    f[1] = 0xAB;
    f[2] = 0xCD;
    f[3] = 0xEF;
    f[4] = tc << 3;
    f
}

#[test]
fn frames_by_class() {
    for tc in 0..32u8 {
        let k = classify(&squitter(tc));
        assert_eq!(k.who, Some(0xABCDEF));
        let class = match tc {
            5..=18 | 20..=22 => Class::Position,
            1..=4 | 19 => Class::Often,
            28 => Class::Rare,
            _ => Class::Other,
        };
        assert_eq!(k.class, class, "{tc}");
    }
    for (df, who, class) in [
        (11u8, Some(0x010203), Class::AllCall),
        (0, None, Class::AllCall),
        (4, None, Class::Often),
        (20, None, Class::Often),
        (5, None, Class::Rare),
        (21, None, Class::Rare),
        (16, None, Class::Other),
        // A long format that came short.
        (17, None, Class::Other),
    ] {
        let k = classify(&[df << 3, 1, 2, 3, 0, 0, 0]);
        assert_eq!((k.who, k.class), (who, class), "{df}");
    }
}

#[test]
fn positions_always_go() {
    let mut r = Reducer::new(500);
    for _ in 0..5 {
        assert!(r.forward(&squitter(11), 1000));
    }
}

#[test]
fn each_class_once_per_interval() {
    let mut r = Reducer::new(800);
    assert!(r.forward(&squitter(19), 1000));
    assert!(!r.forward(&squitter(19), 1000));
    // The same class of the same aircraft.
    assert!(!r.forward(&squitter(1), 1699));
    assert!(r.forward(&squitter(28), 1699));
    assert!(r.forward(&squitter(19), 1700));
    assert!(!r.forward(&squitter(28), 1699 + 3199));
    assert!(r.forward(&squitter(28), 1699 + 3200));
    // Another aircraft.
    let mut other = squitter(19);
    other[3] = 0;
    assert!(r.forward(&other, 1701));
    // No address: one pool.
    assert!(r.forward(&[4 << 3, 1, 2, 3, 0, 0, 0], 2000));
    assert!(!r.forward(&[20 << 3, 9, 9, 9, 0, 0, 0], 2699));
    assert!(r.forward(&[20 << 3, 9, 9, 9, 0, 0, 0], 2700));
    // Other frames go at the interval.
    assert!(r.forward(&[24 << 3], 5000));
    assert!(!r.forward(&[24 << 3], 5799));
    assert!(r.forward(&[24 << 3], 5800));
}

#[test]
fn old_slots_are_forgotten_without_harm() {
    let mut r = Reducer::new(500);
    assert!(r.forward(&squitter(19), 10));
    assert!(r.forward(&[11 << 3, 1, 2, 3, 0, 0, 0], 200_000));
    assert!(!r.forward(&[11 << 3, 1, 2, 3, 0, 0, 0], 201_999));
    assert!(r.forward(&squitter(19), 200_001));
    assert!(!r.forward(&squitter(19), 200_002));
}

#[test]
fn positions_go_at_any_time_and_interval() {
    let mut r = Reducer::new(u64::MAX);
    for now in [0, 7, u64::MAX, u64::MAX, 3] {
        assert!(r.forward(&squitter(11), now));
    }
    // The other slots are untouched.
    assert!(r.forward(&squitter(19), 0));
    assert!(r.forward(&squitter(22), u64::MAX));
}

#[test]
fn refused_only_after_a_pass_within_a_step() {
    // What passed, by aircraft and class, over long enough for old slots to be forgotten.
    let mut r = Reducer::new(2000);
    let mut passed: Vec<(u8, u8, u64)> = Vec::new();
    let mut now = 0u64;
    let mut seed = 1u64;
    for _ in 0..4000 {
        seed = seed.wrapping_mul(6364136223846793005).wrapping_add(1442695040888963407);
        now += (seed >> 33) % 1500;
        let (who, tc) = ((seed >> 40) as u8 % 5, if seed >> 50 & 1 == 0 { 19 } else { 28 });
        let mut f = squitter(tc);
        f[3] = who;
        let step = if tc == 19 { 1750 } else { 8000 };
        let held = passed.iter().any(|&(w, c, t)| w == who && c == tc && now < t + step);
        assert_eq!(r.forward(&f, now), !held);
        if !held {
            passed.push((who, tc, now));
        }
    }
    assert!(now > 1_000_000);
}
