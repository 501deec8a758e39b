use raidfinder::codec::Frame;
use raidfinder::codec::FrameError;
use raidfinder::codec::empty_ping;
use raidfinder::codec::parse_frame;
use raidfinder::codec::write_close;
use raidfinder::codec::write_frame;

fn payload_of_len(n: usize) -> Vec<u8> {
    let mut v = Vec::with_capacity(n);
    for i in 0..n {
        v.push((i % 251) as u8);
    }
    v
}

fn mask_with(payload: &[u8], key: [u8; 4]) -> Vec<u8> {
    payload
        .iter()
        .enumerate()
        .map(|(i, b)| b ^ key[i % 4])
        .collect()
}

fn masked_frame(opcode: u8, payload: &[u8], key: [u8; 4]) -> Vec<u8> {
    let mut buf = vec![0x80 | opcode];
    let len = payload.len();
    if len < 126 {
        buf.push(0x80 | len as u8);
    } else if len <= 0xFFFF {
        buf.push(0x80 | 126);
        buf.push((len >> 8) as u8);
        buf.push((len & 0xFF) as u8);
    } else {
        buf.push(0x80 | 127);
        for shift in [56u32, 48, 40, 32, 24, 16, 8, 0] {
            buf.push(((len as u64) >> shift) as u8);
        }
    }
    buf.extend_from_slice(&key);
    buf.extend_from_slice(&mask_with(payload, key));
    buf
}

#[test]
fn round_trip_all_length_tiers() {
    for &n in &[0usize, 1, 125, 126, 65535, 65536, 70000] {
        let payload = payload_of_len(n);
        let mut buf: Vec<u8> = Vec::new();
        write_frame(&mut buf, 2, &payload);
        let parsed = parse_frame(&buf, 20_000_000, false).expect("parse failed");
        let (frame, consumed) = parsed.expect("expected a complete frame");
        assert_eq!(consumed, buf.len(), "length {}", n);
        assert_eq!(frame, Frame::Binary(payload), "length {}", n);
    }
}

#[test]
fn round_trip_other_opcodes() {
    for &(opcode, n) in &[(1u8, 3usize), (9, 0), (10, 7)] {
        let payload = payload_of_len(n);
        let mut buf: Vec<u8> = Vec::new();
        write_frame(&mut buf, opcode, &payload);
        let (frame, consumed) = parse_frame(&buf, 1000, false).unwrap().unwrap();
        assert_eq!(consumed, buf.len());
        match (opcode, frame) {
            (1, Frame::Text(p)) => assert_eq!(p, payload),
            (9, Frame::Ping(p)) => assert_eq!(p, payload),
            (10, Frame::Pong(p)) => assert_eq!(p, payload),
            other => panic!("wrong frame for {:?}", other),
        }
    }
}

#[test]
fn masked_parse_unmasks_and_remasking_restores_wire_bytes() {
    let payload = b"per-connection subscription".to_vec();
    let key = [0x37u8, 0xFA, 0x21, 0x3D];
    let wire = masked_frame(2, &payload, key);
    let (frame, consumed) = parse_frame(&wire, 1000, true).unwrap().unwrap();
    assert_eq!(consumed, wire.len());
    let unmasked = match frame {
        Frame::Binary(p) => p,
        other => panic!("wrong frame {:?}", other),
    };
    assert_eq!(unmasked, payload);
    // Re-masking the returned payload with the same key reproduces the
    // payload section of the original wire bytes.
    let remasked = mask_with(&unmasked, key);
    assert_eq!(&wire[wire.len() - payload.len()..], &remasked[..]);
}

#[test]
fn oversized_payload_rejected_and_parser_still_works() {
    let payload = payload_of_len(70000);
    let mut buf: Vec<u8> = Vec::new();
    write_frame(&mut buf, 2, &payload);
    assert_eq!(parse_frame(&buf, 65535, false), Err(FrameError::TooLong));
    // The parser holds no state: a fresh, small frame still parses.
    let small = payload_of_len(5);
    let mut buf2: Vec<u8> = Vec::new();
    write_frame(&mut buf2, 2, &small);
    let (frame, _) = parse_frame(&buf2, 65535, false).unwrap().unwrap();
    assert_eq!(frame, Frame::Binary(small));
}

#[test]
fn fin_clear_rejected_regardless_of_opcode() {
    for opcode in [0x1u8, 0x2, 0x8, 0x9, 0xA, 0x5] {
        let buf = vec![opcode, 0x01, 0x42];
        assert_eq!(
            parse_frame(&buf, 1000, false),
            Err(FrameError::Fragmented),
            "opcode {:#x}",
            opcode
        );
    }
}

#[test]
fn mask_bit_mismatch_rejected_both_ways() {
    let unmasked = {
        let mut b: Vec<u8> = Vec::new();
        write_frame(&mut b, 2, &vec![1, 2, 3]);
        // Under a mask expectation the parser waits for 4 more key bytes
        // before judging the frame, so pad the buffer to completeness.
        b.extend_from_slice(&[0, 0, 0, 0]);
        b
    };
    assert_eq!(parse_frame(&unmasked, 1000, true), Err(FrameError::Unmasked));
    let masked = masked_frame(2, &[1, 2, 3], [9, 9, 9, 9]);
    assert_eq!(parse_frame(&masked, 1000, false), Err(FrameError::Unmasked));
}

#[test]
fn unknown_opcode_rejected() {
    let buf = vec![0x80 | 0x3, 0x00];
    assert_eq!(parse_frame(&buf, 1000, false), Err(FrameError::InvalidOpcode(3)));
}

#[test]
fn close_with_short_body_synthesizes_1006() {
    let mut buf: Vec<u8> = Vec::new();
    write_frame(&mut buf, 8, &vec![0x01]);
    let (frame, _) = parse_frame(&buf, 1000, false).unwrap().unwrap();
    assert_eq!(frame, Frame::Close(1006, Vec::new()));
}

#[test]
fn close_with_code_and_reason() {
    let mut buf: Vec<u8> = Vec::new();
    write_frame(&mut buf, 8, &vec![0x03, 0xE9, b'h', b'i']);
    let (frame, _) = parse_frame(&buf, 1000, false).unwrap().unwrap();
    assert_eq!(frame, Frame::Close(1001, b"hi".to_vec()));
}

#[test]
fn write_close_round_trips() {
    let mut buf: Vec<u8> = Vec::new();
    write_close(&mut buf, 1011, &b"oops".to_vec());
    assert_eq!(buf[0], 0x88);
    assert_eq!(buf[1], 6);
    let (frame, consumed) = parse_frame(&buf, 1000, false).unwrap().unwrap();
    assert_eq!(consumed, buf.len());
    assert_eq!(frame, Frame::Close(1011, b"oops".to_vec()));
}

#[test]
fn empty_ping_bytes() {
    assert_eq!(empty_ping(), vec![0x89, 0x00]);
}

#[test]
fn incomplete_buffers_ask_for_more() {
    // Too short for a header.
    assert_eq!(parse_frame(&vec![0x82], 1000, false), Ok(None));
    // 16-bit length announced but not present.
    assert_eq!(parse_frame(&vec![0x82, 126, 0x01], 1000, false), Ok(None));
    // Header complete, payload missing.
    assert_eq!(parse_frame(&vec![0x82, 0x03, 1, 2], 1000, false), Ok(None));
}

#[test]
fn trailing_bytes_are_left_alone() {
    let mut buf: Vec<u8> = Vec::new();
    write_frame(&mut buf, 2, &vec![7, 8]);
    let frame_len = buf.len();
    buf.extend_from_slice(&[0xAA, 0xBB]);
    let (frame, consumed) = parse_frame(&buf, 1000, false).unwrap().unwrap();
    assert_eq!(consumed, frame_len);
    assert_eq!(frame, Frame::Binary(vec![7, 8]));
}
