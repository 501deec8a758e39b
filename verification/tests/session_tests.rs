use raidfinder::broker::Broker;
use raidfinder::clock::now_as_milliseconds;
use raidfinder::envelope::Request;
use raidfinder::envelope::encode_request;
use raidfinder::model::to_milliseconds;
use raidfinder::session::Step;
use raidfinder::session::session_step;

fn masked_binary_frame(body: &[u8]) -> Vec<u8> {
    let key = [0x11u8, 0x22, 0x33, 0x44];
    let mut buf = vec![0x82];
    assert!(body.len() < 126);
    buf.push(0x80 | body.len() as u8);
    buf.extend_from_slice(&key);
    for (i, b) in body.iter().enumerate() {
        buf.push(b ^ key[i % 4]);
    }
    buf
}

#[test]
fn short_buffer_asks_for_more() {
    let mut broker = Broker::new(10);
    let (id, _) = broker.subscribe();
    let step = session_step(&mut broker, id, &vec![0x82], 0);
    assert!(matches!(step, Step::NeedMore));
}

#[test]
fn a_follow_frame_registers_interest_and_consumes_the_frame() {
    let mut broker = Broker::new(10);
    let (id, _) = broker.subscribe();
    let body = encode_request(&Request::Follow(vec![b"Lucilius".to_vec()]));
    let frame = masked_binary_frame(&body);
    let step = session_step(&mut broker, id, &frame, 0);
    match step {
        Step::Advance(n, deliveries) => {
            assert_eq!(n, frame.len());
            // Nothing buffered yet, so no replay.
            assert_eq!(deliveries.len(), 0);
        }
        other => panic!("unexpected step {:?}", step_name(&other)),
    }
    assert_eq!(broker.conns[0].follows, vec![b"Lucilius".to_vec()]);
}

#[test]
fn an_unrecognized_body_is_silently_ignored() {
    let mut broker = Broker::new(10);
    let (id, _) = broker.subscribe();
    let frame = masked_binary_frame(&[0x4A, 0x01, 0x00]);
    let step = session_step(&mut broker, id, &frame, 0);
    match step {
        Step::Advance(n, deliveries) => {
            assert_eq!(n, frame.len());
            assert_eq!(deliveries.len(), 0);
        }
        other => panic!("unexpected step {:?}", step_name(&other)),
    }
}

#[test]
fn a_malformed_body_closes_the_connection() {
    let mut broker = Broker::new(10);
    let (id, _) = broker.subscribe();
    let frame = masked_binary_frame(&[0x80]);
    let step = session_step(&mut broker, id, &frame, 0);
    assert!(matches!(step, Step::Close));
}

#[test]
fn a_pong_is_ignored_but_consumed() {
    let mut broker = Broker::new(10);
    let (id, _) = broker.subscribe();
    // Masked Pong with empty payload.
    let frame = vec![0x8A, 0x80, 1, 2, 3, 4];
    let step = session_step(&mut broker, id, &frame, 0);
    match step {
        Step::Advance(n, deliveries) => {
            assert_eq!(n, frame.len());
            assert_eq!(deliveries.len(), 0);
        }
        _ => panic!("expected an advance"),
    }
}

#[test]
fn a_text_frame_closes_the_connection() {
    let mut broker = Broker::new(10);
    let (id, _) = broker.subscribe();
    // Masked Text frame: no translator path exists for text.
    let frame = vec![0x81, 0x81, 1, 2, 3, 4, b'a' ^ 1];
    let step = session_step(&mut broker, id, &frame, 0);
    assert!(matches!(step, Step::Close));
}

#[test]
fn an_unmasked_client_frame_closes_the_connection() {
    let mut broker = Broker::new(10);
    let (id, _) = broker.subscribe();
    // Clients must mask; an unmasked Binary frame is a protocol error once
    // the buffer is long enough to be judged complete.
    let frame = vec![0x82, 0x00, 0, 0, 0, 0];
    let step = session_step(&mut broker, id, &frame, 0);
    assert!(matches!(step, Step::Close));
}

fn step_name(s: &Step) -> &'static str {
    match s {
        Step::NeedMore => "NeedMore",
        Step::Advance(_, _) => "Advance",
        Step::Close => "Close",
    }
}

#[test]
fn clock_reports_non_negative_milliseconds() {
    let now = now_as_milliseconds();
    assert!(now >= 0);
}

#[test]
fn seconds_convert_to_milliseconds_saturating() {
    assert_eq!(to_milliseconds(0), 0);
    assert_eq!(to_milliseconds(1_500_000_000), 1_500_000_000_000);
    assert_eq!(to_milliseconds(u64::MAX / 1000 + 1), u64::MAX);
}
