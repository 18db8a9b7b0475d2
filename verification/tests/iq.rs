use rx::iq::{
    MagLut, MagLutSmall, magnitudes_approx, magnitudes_approx2, magnitudes_approx3, magnitudes_f32,
};

fn pairs() -> Vec<u8> {
    let mut b = Vec::new();
    for i in 0..256 {
        for q in 0..256 {
            b.push(i as u8);
            b.push(q as u8);
        }
    }
    b
}

#[test]
fn the_table_is_the_rounded_root() {
    let b = pairs();
    let mut t = Vec::new();
    MagLut::new().magnitudes(&b, &mut t);
    let mut d = Vec::new();
    magnitudes_f32(&b, &mut d);
    assert_eq!(t, d);
    for i in 0..256usize {
        for q in 0..256usize {
            let fi = i as f32 - 127.4;
            let fq = q as f32 - 127.4;
            let v = ((fi * fi + fq * fq).sqrt() * 16.0).round() as u16;
            assert_eq!(t[i << 8 | q], v, "{i} {q}");
        }
    }
}

#[test]
fn the_small_table_is_exact_about_127() {
    let b = pairs();
    let mut t = Vec::new();
    MagLutSmall::default().magnitudes(&b, &mut t);
    for i in 0..256usize {
        for q in 0..256usize {
            let h = i as f64 - 127.0;
            let l = q as f64 - 127.0;
            let v = ((h * h + l * l).sqrt() * 16.0).round() as u16;
            assert_eq!(t[i << 8 | q], v, "{i} {q}");
        }
    }
    // 16 times the root is 2304.49995.
    assert_eq!(t[(127 + 117) << 8 | (127 + 84)], 2304);
    assert_eq!(t[0], 2874);
}

#[test]
fn approximations_on_values() {
    let mut o = vec![1u16];
    magnitudes_approx(&[127, 127, 227, 127, 127, 0, 255, 255], &mut o);
    assert_eq!(o, [1, 0, 1500, 1905, 2688]);
    let mut o = Vec::new();
    magnitudes_approx2(&[127, 127, 227, 127, 227, 227, 128, 127], &mut o);
    assert_eq!(o, [0, 1600, 2200, 16]);
    let mut o = Vec::new();
    magnitudes_approx3(&[127, 127, 255, 255, 128, 128], &mut o);
    assert_eq!(o, [11, 2805, 11]);
}

#[test]
fn approximations_are_close() {
    for h in 0..=128i64 {
        for l in 0..=h {
            let n = h * h + l * l;
            let v = 15 * h + 6 * l;
            assert!(441 * n <= 2 * v * v && v * v <= 261 * n);
            let w = (64 * h).max(57 * h + 31 * l);
            assert!(3872 * n <= w * w && w * w <= 4210 * n);
        }
    }
}

#[test]
fn a_byte_left_over_is_dropped() {
    let mut o = vec![7u16];
    MagLut::default().magnitudes(&[127, 127, 255], &mut o);
    assert_eq!(o, [7, 9]);
    let mut o = Vec::new();
    magnitudes_f32(&[1], &mut o);
    assert!(o.is_empty());
    MagLutSmall::new().magnitudes(&[127, 128, 0], &mut o);
    assert_eq!(o, [16]);
}
