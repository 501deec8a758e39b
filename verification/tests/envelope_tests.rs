use raidfinder::envelope::Request;
use raidfinder::envelope::decode_boss_list;
use raidfinder::envelope::decode_request;
use raidfinder::envelope::default_image_bytes;
use raidfinder::envelope::encode_request;
use raidfinder::envelope::put_boss_entry;
use raidfinder::envelope::write_bosses_frame;
use raidfinder::envelope::write_tweet_frame;
use raidfinder::envelope::message_to_bytes;
use raidfinder::model::DomainEvent;
use raidfinder::model::Language;
use raidfinder::model::RaidBoss;
use raidfinder::model::RaidTweet;

fn boss(name: &str, level: u32) -> RaidBoss {
    RaidBoss {
        name: name.as_bytes().to_vec(),
        level,
        image: None,
        language: Language::English,
        translations: Vec::new(),
    }
}

fn tweet(boss_name: &str, id: u64) -> RaidTweet {
    RaidTweet {
        boss_name: boss_name.as_bytes().to_vec(),
        raid_id: b"ABCD1234".to_vec(),
        user: b"walfie".to_vec(),
        tweet_id: id,
        user_image: None,
        text: Some(b"help".to_vec()),
        created_at: 1500000000,
        language: Language::Japanese,
    }
}

#[test]
fn varint_golden_values() {
    let mut buf: Vec<u8> = Vec::new();
    raidfinder::envelope::put_varint(&mut buf, 0);
    assert_eq!(buf, vec![0x00]);
    buf.clear();
    raidfinder::envelope::put_varint(&mut buf, 300);
    assert_eq!(buf, vec![0xAC, 0x02]);
    buf.clear();
    raidfinder::envelope::put_varint(&mut buf, u64::MAX);
    assert_eq!(
        buf,
        vec![0xFF, 0xFF, 0xFF, 0xFF, 0xFF, 0xFF, 0xFF, 0xFF, 0xFF, 0x01]
    );
    assert_eq!(raidfinder::envelope::get_varint(&buf, 0), Ok((u64::MAX, 10)));
    let padded = vec![0xAC, 0x82, 0x00];
    assert_eq!(raidfinder::envelope::get_varint(&padded, 0), Ok((300, 3)));
}

#[test]
fn all_bosses_request_bytes() {
    let bytes = encode_request(&Request::AllRaidBosses);
    assert_eq!(bytes, vec![0x0A, 0x00]);
    assert_eq!(decode_request(&bytes), Ok(Some(Request::AllRaidBosses)));
}

#[test]
fn follow_request_bytes() {
    let bytes = encode_request(&Request::Follow(vec![b"AB".to_vec()]));
    // Field 3 wraps a body holding one field-1 name of two bytes.
    assert_eq!(bytes, vec![0x1A, 0x04, 0x0A, 0x02, 0x41, 0x42]);
    assert_eq!(
        decode_request(&bytes),
        Ok(Some(Request::Follow(vec![b"AB".to_vec()])))
    );
}

#[test]
fn request_round_trips() {
    let cases = vec![
        Request::AllRaidBosses,
        Request::RaidBosses(vec![b"Lucilius".to_vec(), b"Bahamut".to_vec()]),
        Request::Follow(vec![b"Lucilius".to_vec()]),
        Request::Unfollow(vec![]),
        Request::Unfollow(vec![b"A".to_vec(), b"B".to_vec(), b"C".to_vec()]),
    ];
    for q in cases {
        let bytes = encode_request(&q);
        assert_eq!(decode_request(&bytes), Ok(Some(q)));
    }
}

#[test]
fn empty_and_unknown_bodies_are_ignored() {
    // An empty body carries no request at all.
    assert_eq!(decode_request(&Vec::new()), Ok(None));
    // Field 9 (unknown, length-prefixed) is skipped.
    let unknown = vec![0x4A, 0x03, 1, 2, 3];
    assert_eq!(decode_request(&unknown), Ok(None));
    // A varint field and a 4-byte field are skipped too.
    let skipped = vec![0x48, 0x05, 0x4D, 9, 9, 9, 9];
    assert_eq!(decode_request(&skipped), Ok(None));
}

#[test]
fn malformed_bodies_are_rejected() {
    // A truncated varint key.
    assert!(decode_request(&vec![0x80]).is_err());
    // A length that overruns the body.
    assert!(decode_request(&vec![0x0A, 0x05, 1]).is_err());
    // An unsupported wire type (3 = group start).
    assert!(decode_request(&vec![0x0B]).is_err());
    // An eleventh continuation byte in a varint scalar.
    let over = vec![
        0x48, 0xFF, 0xFF, 0xFF, 0xFF, 0xFF, 0xFF, 0xFF, 0xFF, 0xFF, 0xFF, 0x01,
    ];
    assert!(decode_request(&over).is_err());
}

#[test]
fn later_request_field_wins() {
    let mut bytes = encode_request(&Request::AllRaidBosses);
    bytes.extend_from_slice(&encode_request(&Request::Unfollow(vec![b"X".to_vec()])));
    assert_eq!(
        decode_request(&bytes),
        Ok(Some(Request::Unfollow(vec![b"X".to_vec()])))
    );
}

#[test]
fn keepalive_frame_bytes() {
    let bytes = message_to_bytes(&DomainEvent::Heartbeat, 0).unwrap();
    // Binary frame (0x82), 2-byte body: keep-alive under field 1, empty.
    assert_eq!(bytes, vec![0x82, 0x02, 0x0A, 0x00]);
}

#[test]
fn boss_removal_produces_no_message() {
    assert_eq!(message_to_bytes(&DomainEvent::BossRemove(b"X".to_vec()), 0), None);
}

#[test]
fn tweet_list_is_a_concatenation_of_single_tweet_frames() {
    let t1 = tweet("Lucilius", 1);
    let t2 = tweet("Lucilius", 2);
    let mut expected: Vec<u8> = Vec::new();
    write_tweet_frame(&mut expected, &t1);
    write_tweet_frame(&mut expected, &t2);
    let got = message_to_bytes(&DomainEvent::TweetList(vec![t1, t2]), 0).unwrap();
    assert_eq!(got, expected);
}

#[test]
fn boss_update_is_a_single_boss_list_frame() {
    let b = boss("Lucilius", 150);
    let mut expected: Vec<u8> = Vec::new();
    write_bosses_frame(&mut expected, &vec![boss("Lucilius", 150)], 5000);
    let got = message_to_bytes(&DomainEvent::BossUpdate(b), 5000).unwrap();
    assert_eq!(got, expected);
}

#[test]
fn tweet_without_profile_image_gets_the_default() {
    let t = tweet("A", 7);
    assert!(t.user_image.is_none());
    let mut frame: Vec<u8> = Vec::new();
    write_tweet_frame(&mut frame, &t);
    let needle = default_image_bytes();
    let found = frame
        .windows(needle.len())
        .any(|w| w == needle.as_slice());
    assert!(found, "default profile image URL not embedded");
}

#[test]
fn boss_entries_round_trip_through_the_boss_list_decoder() {
    let b1 = boss("Lucilius", 150);
    let mut b2 = boss("Bahamut", 120);
    b2.image = Some(b"https://example.test/bahamut.png".to_vec());
    b2.translations = vec![b"baha".to_vec()];
    b2.language = Language::Japanese;
    let mut record: Vec<u8> = Vec::new();
    put_boss_entry(&mut record, &b1, 1_700_000_000_000);
    put_boss_entry(&mut record, &b2, 1_700_000_111_000);
    let decoded = decode_boss_list(&record).unwrap();
    assert_eq!(decoded.len(), 2);
    assert_eq!(decoded[0].name, b"Lucilius".to_vec());
    assert_eq!(decoded[0].level, 150);
    assert_eq!(decoded[0].language_code, 1);
    assert_eq!(decoded[0].last_seen_ms, 1_700_000_000_000);
    assert_eq!(decoded[0].image, None);
    assert_eq!(decoded[0].translated_name, None);
    assert_eq!(decoded[1].name, b"Bahamut".to_vec());
    assert_eq!(decoded[1].language_code, 2);
    assert_eq!(decoded[1].image, Some(b"https://example.test/bahamut.png".to_vec()));
    assert_eq!(decoded[1].translated_name, Some(b"baha".to_vec()));
}
