use rx::beast::{HEARTBEAT, Hub, Stream, backoff, encode, hello};
use rx::beast_in::{InFrame, MLAT_MAGIC, Parser, parse_one};

#[test]
fn escapes_and_frames() {
    let mut out = Vec::new();
    // timestamp containing 0x1a bytes, signal 0x1a, frame containing 0x1a
    encode(&[0x1a, 2, 3, 4, 5, 6, 7], 0x00001a00001a, 0x1a, &mut out);
    assert_eq!(out[0], 0x1a);
    assert_eq!(out[1], 0x32);
    // body: ts 00 00 1a 1a 00 00 1a 1a ... each 0x1a doubled
    let body = &out[2..];
    let mut i = 0;
    let mut decoded = Vec::new();
    while i < body.len() {
        decoded.push(body[i]);
        if body[i] == 0x1a {
            assert_eq!(body[i + 1], 0x1a);
            i += 1;
        }
        i += 1;
    }
    assert_eq!(decoded.len(), 14);
    assert_eq!(&decoded[7..], &[0x1a, 2, 3, 4, 5, 6, 7]);
    assert_eq!(decoded[6], 0x1a);
}

#[test]
fn round_trip_with_escapes_and_heartbeats() {
    let short = [0x1au8, 2, 3, 4, 5, 6, 7];
    let long = [
        0x8Du8, 0x1a, 0x62, 0x1a, 0x58, 0xC3, 0x82, 0xD6, 0x90, 0xC8, 0xAC, 0x28, 0x63, 0x1a,
    ];
    let mut wire = Vec::new();
    wire.extend_from_slice(&HEARTBEAT);
    encode(&short, 0x00001a00001a, 0x1a, &mut wire);
    // a uuid message and a marker
    wire.extend_from_slice(&[0x1a, 0xE4]);
    wire.extend_from_slice(&[b'f'; 36]);
    wire.extend_from_slice(&[0x1a, b'W', b'O']);
    encode(&long, MLAT_MAGIC, 200, &mut wire);
    wire.extend_from_slice(&HEARTBEAT);

    // feed in awkward pieces
    let mut p = Parser::new();
    let mut out = Vec::new();
    for piece in wire.chunks(5) {
        p.feed(piece, &mut out);
    }
    assert_eq!(out.len(), 2, "{out:?}");
    assert_eq!(
        out[0],
        InFrame {
            ts: 0x00001a00001a,
            signal: 0x1a,
            bytes: short.to_vec()
        }
    );
    assert_eq!(
        out[1],
        InFrame {
            ts: MLAT_MAGIC,
            signal: 200,
            bytes: long.to_vec()
        }
    );
    assert!(out[1].is_mlat());
    assert!(!out[0].is_mlat());
}

#[test]
fn resyncs_after_garbage_and_truncation() {
    let frame = [0x8Du8, 1, 2, 3, 4, 5, 6, 7, 8, 9, 10, 11, 12, 13];
    let mut good = Vec::new();
    encode(&frame, 12345, 7, &mut good);
    let mut wire = vec![1, 2, 3]; // garbage
    wire.extend_from_slice(&good[..10]); // a truncated message
    wire.extend_from_slice(&good); // then a whole one
    let mut p = Parser::new();
    let mut out = Vec::new();
    p.feed(&wire, &mut out);
    assert_eq!(out.len(), 1);
    assert_eq!(out[0].bytes, frame.to_vec());
    assert_eq!(out[0].ts, 12345);
}

#[test]
fn messages_on_the_wire() {
    let mut out = vec![9u8];
    encode(&[1, 2, 3, 4, 5, 6, 7], 0xFFEE_0102_0304_051a, 6, &mut out);
    assert_eq!(
        out,
        [9, 0x1a, 0x32, 1, 2, 3, 4, 5, 0x1a, 0x1a, 6, 1, 2, 3, 4, 5, 6, 7]
    );
    let mut out = Vec::new();
    encode(&[0; 14], 0, 0, &mut out);
    assert_eq!(out[1], 0x33);
    assert_eq!(out.len(), 23);
}

#[test]
fn timestamps_lose_what_is_above_48_bits() {
    let mut wire = Vec::new();
    encode(&[1, 2, 3, 4, 5, 6, 7], 0xABCD_0000_0000_002A, 0, &mut wire);
    let mut out = Vec::new();
    Parser::new().feed(&wire, &mut out);
    assert_eq!(out[0].ts, 0x2A);
}

#[test]
fn chunks_do_not_matter() {
    let mut wire = vec![7u8, 0x1a, 0x1a, 0x77];
    for k in 0..20u64 {
        let frame: Vec<u8> = (0..if k % 2 == 0 { 7 } else { 14 }).map(|j| (j * 13 + k) as u8).collect();
        encode(&frame, 0x1a * k, 0x1a, &mut wire);
        wire.extend_from_slice(&HEARTBEAT[..(k % 11) as usize]);
    }
    let mut whole = Vec::new();
    Parser::new().feed(&wire, &mut whole);
    for size in [1usize, 2, 3, 7, 64] {
        let mut p = Parser::new();
        let mut out = Vec::new();
        for piece in wire.chunks(size) {
            p.feed(piece, &mut out);
        }
        assert_eq!(out, whole);
    }
    assert!(whole.len() >= 10);
}

#[test]
fn configuration_messages_are_dropped() {
    let mut wire = vec![0x1a, 0x34];
    wire.extend_from_slice(&[1; 14]);
    encode(&[1, 2, 3, 4, 5, 6, 7], 5, 5, &mut wire);
    let mut out = Vec::new();
    Parser::default().feed(&wire, &mut out);
    assert_eq!(out.len(), 1);
    assert_eq!(out[0].ts, 5);
}

#[test]
fn links_open_with_a_greeting() {
    let beats = hello(None);
    assert_eq!(beats.len(), 55);
    assert_eq!(&beats[44..], &HEARTBEAT);
    let v = hello(Some("  1a9a5a0e-4e \u{2003}\n"));
    assert_eq!(&v[..2], &[0x1a, 0xE4]);
    assert_eq!(&v[2..13], b"1a9a5a0e-4e");
    assert_eq!(&v[13..38], &[b'f'; 25]);
    assert_eq!(&v[38..41], &[0x1a, b'W', b'O']);
    assert_eq!(&v[41..], &beats[..]);
    // Longer names are cut.
    let long = "0123456789012345678901234567890123456789";
    assert_eq!(&hello(Some(long))[2..38], &long.as_bytes()[..36]);
}

#[test]
fn sinks_that_do_not_take_are_dropped() {
    let mut h = Hub::new();
    assert_eq!(h.consumers(), 0);
    let a = h.subscribe(Stream::Full);
    let b = h.subscribe(Stream::Reduced);
    let c = h.subscribe(Stream::Full);
    assert_eq!(h.targets(Stream::Full), [a, c]);
    assert_eq!(h.targets(Stream::Reduced), [b]);
    h.publish(Stream::Full, &[false, true]);
    assert_eq!(h.consumers(), 2);
    assert_eq!(h.targets(Stream::Full), [c]);
    assert_eq!(h.targets(Stream::Reduced), [b]);
    h.publish(Stream::Reduced, &[false]);
    assert_eq!(h.consumers(), 1);
    assert!(h.subscribe(Stream::Full) > c);
}

#[test]
fn waits_double_up_to_a_minute() {
    let mut wait = 1;
    let mut waits = Vec::new();
    for _ in 0..8 {
        let (now, next) = backoff(wait, false);
        waits.push(now);
        wait = next;
    }
    assert_eq!(waits, [1, 2, 4, 8, 16, 32, 60, 60]);
    assert_eq!(backoff(60, true), (1, 2));
}

#[test]
fn frames_have_the_length_of_their_type() {
    let mut wire = Vec::new();
    for (kind, n) in [(0x31u8, 2usize), (0x32, 7), (0x33, 14), (0x34, 14), (0x35, 3)] {
        wire.extend_from_slice(&[0x1a, kind]);
        wire.extend_from_slice(&[0xff; 7]);
        wire.extend_from_slice(&vec![kind; n]);
    }
    let mut out = Vec::new();
    Parser::new().feed(&wire, &mut out);
    let got: Vec<(u64, Vec<u8>)> = out.iter().map(|f| (f.ts, f.bytes.clone())).collect();
    assert_eq!(got, [((1 << 48) - 1, vec![0x32; 7]), ((1 << 48) - 1, vec![0x33; 14])]);
}

#[test]
fn one_message_off_the_wire() {
    let mut wire = Vec::new();
    encode(&[0x1a, 2, 3, 4, 5, 6, 7], 0x1a1a, 0x1a, &mut wire);
    for n in 0..wire.len() {
        assert!(parse_one(&wire[..n]).is_none());
    }
    let whole = parse_one(&wire).unwrap();
    assert_eq!(whole.0, wire.len());
    let f = whole.1.clone().unwrap();
    assert_eq!((f.ts, f.bytes), (0x1a1a, vec![0x1a, 2, 3, 4, 5, 6, 7]));
    // More bytes change nothing.
    let mut more = wire.clone();
    more.extend_from_slice(&[1, 2, 0x1b]);
    assert_eq!(parse_one(&more), Some(whole));
    // What comes before the escape is passed over.
    more.insert(0, 9);
    assert_eq!(parse_one(&more), Some((1, None)));
}
