use rx::crc::{Crc24, address_syndromes, crc24, syndromes};
use rx::demod::{Demodulator, Frame, LONG_SAMPLES};
use rx::params::{Params, Slicer};
use rx::repair::repair;

const SPB: f64 = 2.4;
const DATA_START: f64 = 8.0 * SPB;

/// The magnitude stream of one frame at a fractional start.
fn synth(bytes: &[u8], start: f64, amp: f32, noise: f32) -> Vec<u16> {
    let n = (start + DATA_START + bytes.len() as f64 * 8.0 * SPB) as usize + 40;
    let mut m = vec![noise; n];
    let mut pulse = |t_us: f64, w_us: f64| {
        let a = start + t_us * SPB;
        let b = start + (t_us + w_us) * SPB;
        for i in (a.floor() as usize)..=(b.ceil() as usize).min(n - 1) {
            let lo = (i as f64).max(a);
            let hi = ((i + 1) as f64).min(b);
            if hi > lo {
                m[i] += amp * (hi - lo) as f32;
            }
        }
    };
    for t in [0.0, 1.0, 3.5, 4.5] {
        pulse(t, 0.5);
    }
    for (b, byte) in bytes.iter().enumerate() {
        for k in 0..8 {
            let bit = (byte >> (7 - k)) & 1;
            let t = 8.0 + (b * 8 + k) as f64;
            pulse(if bit == 1 { t } else { t + 0.5 }, 0.5);
        }
    }
    m.iter().map(|&x| (x * 16.0).round() as u16).collect()
}

const DF17: [u8; 14] = [
    0x8D, 0x40, 0x62, 0x1D, 0x58, 0xC3, 0x82, 0xD6, 0x90, 0xC8, 0xAC, 0x28, 0x63, 0xA7,
];

#[test]
fn table_crc_matches_reference() {
    let c = Crc24::new();
    assert_eq!(c.of(&DF17), crc24(&DF17));
    let junk = [0x5Du8, 0x12, 0x34, 0x56, 0x78, 0x9A, 0xBC];
    assert_eq!(c.of(&junk), crc24(&junk));
    assert_eq!(c.of(&junk[..4]), crc24(&junk[..4]));
}

#[test]
fn clean_frame_at_every_phase() {
    assert_eq!(crc24(&DF17), 0);
    let mut d = Demodulator::new(Params::default());
    for ph in [0.0, 0.13, 0.5, 0.77] {
        let mut m = synth(&DF17, 50.0 + ph, 100.0, 5.0);
        m.extend(vec![80u16; LONG_SAMPLES + 4]);
        let f = d.run(&m, 0);
        assert_eq!(f.len(), 1, "phase {ph}");
        assert_eq!(f[0].bytes, DF17);
        assert_eq!(f[0].fixed, 0);
        let start = f[0].start as f64 / 5.0;
        assert!((start - (50.0 + ph)).abs() < 0.5, "start {}", start);
    }
}

#[test]
fn one_and_two_bit_errors_are_repaired() {
    let mut d = Demodulator::new(Params::default());
    for flips in [vec![37usize], vec![37, 90]] {
        let mut bad = DF17;
        for &i in &flips {
            bad[i / 8] ^= 0x80 >> (i % 8);
        }
        // A clean copy first, so the aircraft is confirmed before the
        // damaged frame arrives.
        let mut m = synth(&DF17, 20.0, 100.0, 5.0);
        m.extend(vec![80u16; 40]);
        let off = m.len() as f64;
        m.extend(synth(&bad, 20.0, 100.0, 5.0));
        // Attenuate the flipped bits so they rank as least confident.
        for &i in &flips {
            let t0 = off + 20.0 + DATA_START + i as f64 * SPB;
            for s in (t0 as usize)..((t0 + SPB) as usize + 1) {
                m[s] = 80 + ((m[s] as f32 - 80.0) * 0.2) as u16;
            }
        }
        m.extend(vec![80u16; LONG_SAMPLES + 4]);
        let f = d.run(&m, 0);
        assert_eq!(f.len(), 2);
        assert_eq!(f[1].bytes, DF17);
        // Timing retries may find an offset that needs fewer flips.
        assert!(f[1].fixed as usize <= flips.len() && f[1].fixed > 0);
    }
}

/// The damaged frame with the given bits wrong and least confident, `before` of
/// it a clean copy or nothing.
fn damaged(flips: &[usize], clean_first: bool) -> Vec<u16> {
    let mut bad = DF17;
    for &i in flips {
        bad[i / 8] ^= 0x80 >> (i % 8);
    }
    let mut m = if clean_first { synth(&DF17, 20.0, 100.0, 5.0) } else { vec![80u16; 40] };
    m.extend(vec![80u16; 40]);
    let off = m.len() as f64;
    m.extend(synth(&bad, 20.0, 100.0, 5.0));
    for &i in flips {
        let t0 = off + 20.0 + DATA_START + i as f64 * SPB;
        for s in (t0 as usize)..((t0 + SPB) as usize + 1) {
            m[s] = 80 + ((m[s] as f32 - 80.0) * 0.2) as u16;
        }
    }
    m.extend(vec![80u16; LONG_SAMPLES + 4]);
    m
}

#[test]
fn repaired_frames_need_a_confirmed_aircraft() {
    let mut d = Demodulator::new(Params::default());
    assert_eq!(d.run(&damaged(&[37], false), 0).len(), 0);
    assert_eq!(d.stats.crc_ok, 1);
    assert_eq!(d.stats.frames, 0);
    // A minute later the confirmation no longer counts.
    let f = d.run(&damaged(&[37], true), 0);
    assert_eq!(f.len(), 2);
    assert_eq!(d.run(&damaged(&[37], false), 143_999_000).len(), 1);
    assert_eq!(d.run(&damaged(&[37], false), 144_001_000).len(), 0);
}

#[test]
fn address_parity_frames_need_a_confirmed_aircraft() {
    // A short air-to-air reply of the aircraft, its parity combined with the
    // address.
    let mut reply = [0x02u8, 0xE1, 0x97, 0x18, 0, 0, 0];
    let p = crc24(&reply[..4]) ^ 0x40621D;
    reply[4] = (p >> 16) as u8;
    reply[5] = (p >> 8) as u8;
    reply[6] = p as u8;
    let tail = vec![80u16; LONG_SAMPLES + 4];
    let mut alone = synth(&reply, 20.0, 100.0, 5.0);
    alone.extend(tail.clone());
    let mut d = Demodulator::new(Params::default());
    assert_eq!(d.run(&alone, 0).len(), 0);
    let mut m = synth(&DF17, 20.0, 100.0, 5.0);
    m.extend(synth(&reply, 20.0, 100.0, 5.0));
    m.extend(tail.clone());
    let f = d.run(&m, 0);
    assert_eq!(f.len(), 2);
    assert_eq!(f[1].bytes, reply);
    assert_eq!(f[1].fixed, 0);
    // One wrong bit, of the least confident: flipped back toward the address.
    let mut bad = reply;
    bad[2] ^= 0x08;
    let mut m = synth(&bad, 20.0, 100.0, 5.0);
    m.extend(tail.clone());
    let f = d.run(&m, 1000);
    assert_eq!(f.len(), 1);
    assert_eq!(f[0].bytes, reply);
    assert_eq!(f[0].fixed, 1);
    // A wrong bit that 32 others are less confident than is left alone.
    let mut bad = reply;
    bad[3] ^= 0x40;
    let mut m = synth(&bad, 20.0, 100.0, 5.0);
    m.extend(tail);
    assert_eq!(d.run(&m, 1000).len(), 0);
}

#[test]
fn too_few_samples_give_nothing() {
    let mut d = Demodulator::new(Params::default());
    assert_eq!(d.run(&vec![80u16; LONG_SAMPLES + 1], 0).len(), 0);
    assert_eq!(d.stats.samples, 0);
    assert_eq!(d.run(&vec![80u16; LONG_SAMPLES + 2], 0).len(), 0);
    assert_eq!(d.stats.samples, 2);
}

#[test]
fn starts_are_stream_positions_in_fifths() {
    let mut d = Demodulator::new(Params::default());
    let mut m = synth(&DF17, 50.0, 100.0, 5.0);
    m.extend(vec![80u16; LONG_SAMPLES + 4]);
    let f: Vec<Frame> = d.run(&m, 1_000_000);
    assert_eq!(f[0].start, 5 * 1_000_050);
    // Pulses hold 550, 390, 390 and 550 raw units in fifths of a sample, the
    // gaps 850; both are scaled by 16, a pulse by 66 and the gaps by 6.
    assert_eq!(f[0].signal, 470 * 16 * 66);
    assert_eq!(f[0].gap, 850 * 16 * 6);
    assert_eq!(f[0].summed, 107);
    assert_eq!(f[0].on, 864_800);
    assert_eq!(f[0].off, 263_840);
    assert_eq!(d.stats.frames, 1);
}

#[test]
fn matched_slicer_reads_a_clean_frame() {
    let p = Params { slicer: Slicer::Matched, ..Params::default() };
    let mut d = Demodulator::new(p);
    let mut m = synth(&DF17, 50.0, 100.0, 5.0);
    m.extend(vec![80u16; LONG_SAMPLES + 4]);
    let f = d.run(&m, 0);
    assert_eq!(f.len(), 1);
    assert_eq!(f[0].bytes, DF17);
}

#[test]
fn crc_of_known_values() {
    assert_eq!(crc24(&[]), 0);
    assert_eq!(crc24(&[0]), 0);
    assert_eq!(crc24(&[1]), 0xFFF409);
    assert_eq!(crc24(&DF17[..11]), 0x2863A7);
}

#[test]
fn crc_is_linear_on_bytes() {
    let a = [0x8Du8, 0x40, 0x62, 0x1D];
    let b = [0x12u8, 0x34, 0x56, 0x78];
    let x: Vec<u8> = (0..4).map(|k| a[k] ^ b[k]).collect();
    assert_eq!(crc24(&x), crc24(&a) ^ crc24(&b));
}

#[test]
fn flips_move_residual_and_address_by_syndromes() {
    let syn = syndromes(112);
    let asyn = address_syndromes(112);
    assert_eq!(syn.len(), 112);
    let address = |f: &[u8]| {
        crc24(&f[..11]) ^ ((f[11] as u32) << 16 | (f[12] as u32) << 8 | f[13] as u32)
    };
    for i in 0..112 {
        let mut f = DF17;
        f[i / 8] ^= 0x80 >> (i % 8);
        assert_eq!(crc24(&f), syn[i]);
        assert_eq!(address(&f), asyn[i]);
        for j in 0..i {
            assert_ne!(syn[i], syn[j]);
        }
    }
    assert_eq!(asyn[111], 1);
    assert_eq!(asyn[88], 1 << 23);
}

fn try_repair(p: &Params, flips: &[usize], deep: bool) -> Option<(Vec<u8>, u8)> {
    let crc = Crc24::new();
    let syn = syndromes(112);
    let mut f = DF17.to_vec();
    let mut conf: Vec<u32> = (0..112).map(|i| 1000 + i as u32).collect();
    for (k, &i) in flips.iter().enumerate() {
        f[i / 8] ^= 0x80 >> (i % 8);
        conf[i] = k as u32;
    }
    repair(p, &crc, &syn, &f, &conf, 0, deep)
}

#[test]
fn repair_up_to_five_bits_where_allowed() {
    let p = Params { max_fix: 5, ..Params::default() };
    let bits = [3usize, 37, 55, 90, 111];
    for n in 0..6 {
        assert_eq!(try_repair(&p, &bits[..n], true), Some((DF17.to_vec(), n as u8)));
    }
    // Shallow repair stops at one bit.
    assert_eq!(try_repair(&p, &bits[..1], false), Some((DF17.to_vec(), 1)));
    assert_eq!(try_repair(&p, &bits[..2], false), None);
    // The defaults stop at three.
    assert_eq!(try_repair(&Params::default(), &bits[..4], true), None);
    let none = Params { max_fix: 0, ..Params::default() };
    assert_eq!(try_repair(&none, &bits[..1], true), None);
    assert_eq!(try_repair(&none, &[], true), Some((DF17.to_vec(), 0)));
}

#[test]
fn repair_leaves_confident_bits_alone() {
    let crc = Crc24::new();
    let syn = syndromes(112);
    let p = Params::default();
    let mut f = DF17.to_vec();
    f[37 / 8] ^= 0x80 >> (37 % 8);
    // The wrong bit is the most confident of all.
    let mut conf: Vec<u32> = vec![10; 112];
    conf[37] = 11;
    assert_eq!(repair(&p, &crc, &syn, &f, &conf, 0, false), None);
    // Of equals, none ranks before another.
    conf[37] = 10;
    assert_eq!(repair(&p, &crc, &syn, &f, &conf, 0, false), Some((DF17.to_vec(), 1)));
}

#[test]
fn frames_come_in_the_order_of_the_stream() {
    let mut d = Demodulator::new(Params::default());
    let mut m = Vec::new();
    for _ in 0..4 {
        m.extend(synth(&DF17, 20.3, 100.0, 5.0));
    }
    m.extend(vec![80u16; LONG_SAMPLES + 4]);
    let out = d.run(&m, 1000);
    assert_eq!(out.len(), 4);
    for pair in out.windows(2) {
        // 288 samples of frame, but for two phases and three retried.
        assert!(pair[0].start / 5 * 5 + 5 * 288 <= pair[1].start + 5);
    }
    assert!(out[0].start >= 5000);
    assert!(out[3].start <= 5 * (1000 + (m.len() - LONG_SAMPLES) as u64));
}

#[test]
fn confirmation_lapses_after_a_minute() {
    // An address-parity reply of the aircraft of the squitter.
    let mut reply = vec![0x20u8, 0, 0x12, 0x34, 0, 0, 0];
    let parity = crc24(&reply[..4]) ^ 0x40621D;
    reply[4..].copy_from_slice(&[(parity >> 16) as u8, (parity >> 8) as u8, parity as u8]);
    let mut alone = synth(&reply, 20.0, 100.0, 5.0);
    alone.extend(vec![80u16; LONG_SAMPLES + 4]);
    let mut d = Demodulator::new(Params::default());
    assert!(d.run(&alone, 0).is_empty());
    let mut clean = synth(&DF17, 20.0, 100.0, 5.0);
    clean.extend(vec![80u16; LONG_SAMPLES + 4]);
    assert_eq!(d.run(&clean, 1000).len(), 1);
    let got = d.run(&alone, 3000);
    assert_eq!(got.len(), 1);
    assert_eq!((got[0].bytes.clone(), got[0].fixed), (reply, 0));
    // A minute later the aircraft is no longer confirmed.
    assert!(d.run(&alone, 1020 + 144_000_000).is_empty());
}

#[test]
fn taps_before_the_stream_count_nothing() {
    let mut m = synth(&DF17, 50.0, 100.0, 5.0);
    m.extend(vec![80u16; LONG_SAMPLES + 4]);
    // Every tap lies before the stream: no bit is a one.
    for tap0 in [-100_000, i32::MIN] {
        let p = Params { slicer: Slicer::Matched, tap0, ..Params::default() };
        let mut d = Demodulator::new(p);
        assert!(d.run(&m, 0).is_empty());
        assert!(d.stats.decodes > 0);
    }
    let p = Params { slicer: Slicer::Matched, ..Params::default() };
    assert_eq!(Demodulator::new(p).run(&m, 0).len(), 1);
}
