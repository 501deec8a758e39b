use raidfinder::broker::Broker;
use raidfinder::envelope::Request;
use raidfinder::envelope::message_to_bytes;
use raidfinder::envelope::write_tweet_frame;
use raidfinder::model::DomainEvent;
use raidfinder::model::Language;
use raidfinder::model::RaidBoss;
use raidfinder::model::RaidBossMetadata;
use raidfinder::model::RaidTweet;

fn boss(name: &str, level: u32) -> RaidBoss {
    RaidBoss {
        name: name.as_bytes().to_vec(),
        level,
        image: None,
        language: Language::English,
        translations: Vec::new(),
    }
}

fn tweet(boss_name: &str, id: u64) -> RaidTweet {
    RaidTweet {
        boss_name: boss_name.as_bytes().to_vec(),
        raid_id: b"ABCD1234".to_vec(),
        user: b"walfie".to_vec(),
        tweet_id: id,
        user_image: None,
        text: None,
        created_at: 1_500_000_000 + id,
        language: Language::English,
    }
}

#[test]
fn subscribe_greets_with_an_empty_ping() {
    let mut broker = Broker::new(10);
    let (id, deliveries) = broker.subscribe();
    assert_eq!(deliveries.len(), 1);
    assert_eq!(deliveries[0].conn, id);
    assert_eq!(deliveries[0].bytes, vec![0x89, 0x00]);
}

#[test]
fn tweet_fans_out_to_followers_only_boss_update_to_everyone() {
    let mut broker = Broker::new(10);
    let (a, _) = broker.subscribe();
    let (b, _) = broker.subscribe();
    broker.follow(a, b"Lucilius".to_vec());

    let event = DomainEvent::Tweet(tweet("Lucilius", 1));
    let expected = message_to_bytes(&event, 1000).unwrap();
    let deliveries = broker.handle_event(&event, 1000);
    assert_eq!(deliveries.len(), 1);
    assert_eq!(deliveries[0].conn, a);
    assert_eq!(deliveries[0].bytes, expected);
    assert!(deliveries.iter().all(|d| d.conn != b));

    let update = DomainEvent::BossUpdate(boss("Lucilius", 150));
    let deliveries = broker.handle_event(&update, 2000);
    assert_eq!(deliveries.len(), 2);
    assert_eq!(deliveries[0].conn, a);
    assert_eq!(deliveries[1].conn, b);
    assert_eq!(deliveries[0].bytes, deliveries[1].bytes);
}

#[test]
fn heartbeat_is_broadcast_unconditionally() {
    let mut broker = Broker::new(10);
    let (a, _) = broker.subscribe();
    let (b, _) = broker.subscribe();
    let deliveries = broker.handle_event(&DomainEvent::Heartbeat, 0);
    assert_eq!(deliveries.len(), 2);
    assert_eq!(deliveries[0].conn, a);
    assert_eq!(deliveries[1].conn, b);
    assert_eq!(deliveries[0].bytes, vec![0x82, 0x02, 0x0A, 0x00]);
}

#[test]
fn history_keeps_the_latest_ten_and_replays_oldest_first() {
    let mut broker = Broker::new(10);
    let (a, _) = broker.subscribe();
    for i in 1..=12u64 {
        broker.handle_event(&DomainEvent::Tweet(tweet("Lucilius", i)), i);
    }
    // Capacity 10: tweets 3..=12 stay, oldest first.
    assert_eq!(broker.history.len(), 1);
    let kept: Vec<u64> = broker.history[0].tweets.iter().map(|t| t.tweet_id).collect();
    assert_eq!(kept, (3..=12).collect::<Vec<u64>>());

    let deliveries = broker.get_tweets(a, &b"Lucilius".to_vec());
    assert_eq!(deliveries.len(), 1);
    assert_eq!(deliveries[0].conn, a);
    let mut expected: Vec<u8> = Vec::new();
    for i in 3..=12u64 {
        write_tweet_frame(&mut expected, &tweet("Lucilius", i));
    }
    assert_eq!(deliveries[0].bytes, expected);
}

#[test]
fn get_tweets_on_an_empty_ring_delivers_nothing() {
    let mut broker = Broker::new(10);
    let (a, _) = broker.subscribe();
    assert_eq!(broker.get_tweets(a, &b"Nobody".to_vec()).len(), 0);
}

#[test]
fn follow_twice_then_unfollow_once_leaves_nothing() {
    let mut broker = Broker::new(10);
    let (a, _) = broker.subscribe();
    broker.follow(a, b"Lucilius".to_vec());
    broker.follow(a, b"Lucilius".to_vec());
    assert_eq!(broker.conns[0].follows.len(), 1);
    broker.unfollow(a, &b"Lucilius".to_vec());
    assert_eq!(broker.conns[0].follows.len(), 0);
    let deliveries = broker.handle_event(&DomainEvent::Tweet(tweet("Lucilius", 1)), 1);
    assert_eq!(deliveries.len(), 0);
}

#[test]
fn unfollow_of_a_name_never_followed_is_a_no_op() {
    let mut broker = Broker::new(10);
    let (a, _) = broker.subscribe();
    broker.follow(a, b"Lucilius".to_vec());
    broker.unfollow(a, &b"Bahamut".to_vec());
    assert_eq!(broker.conns[0].follows, vec![b"Lucilius".to_vec()]);
}

#[test]
fn unsubscribe_releases_the_connection() {
    let mut broker = Broker::new(10);
    let (a, _) = broker.subscribe();
    let (b, _) = broker.subscribe();
    broker.follow(a, b"Lucilius".to_vec());
    broker.unsubscribe(a);
    let deliveries = broker.handle_event(&DomainEvent::Tweet(tweet("Lucilius", 1)), 1);
    assert_eq!(deliveries.len(), 0);
    let deliveries = broker.handle_event(&DomainEvent::Heartbeat, 2);
    assert_eq!(deliveries.len(), 1);
    assert_eq!(deliveries[0].conn, b);
}

#[test]
fn boss_updates_maintain_the_table() {
    let mut broker = Broker::new(10);
    broker.handle_event(&DomainEvent::BossUpdate(boss("Lucilius", 150)), 5_000);
    broker.handle_event(&DomainEvent::BossUpdate(boss("Bahamut", 120)), 6_000);
    assert_eq!(broker.bosses.len(), 2);
    assert_eq!(broker.bosses[0].last_seen, 5);
    // A repeat sighting updates in place and refreshes last-seen.
    broker.handle_event(&DomainEvent::BossUpdate(boss("Lucilius", 200)), 9_000);
    assert_eq!(broker.bosses.len(), 2);
    assert_eq!(broker.bosses[0].boss.level, 200);
    assert_eq!(broker.bosses[0].last_seen, 9);
    // A removal updates the table without telling anyone.
    let deliveries = broker.handle_event(&DomainEvent::BossRemove(b"Lucilius".to_vec()), 10_000);
    assert_eq!(deliveries.len(), 0);
    assert_eq!(broker.bosses.len(), 1);
    assert_eq!(broker.bosses[0].boss.name, b"Bahamut".to_vec());
}

#[test]
fn boss_list_upserts_every_entry_and_broadcasts_once() {
    let mut broker = Broker::new(10);
    let (a, _) = broker.subscribe();
    let event = DomainEvent::BossList(vec![boss("Lucilius", 150), boss("Bahamut", 120)]);
    let expected = message_to_bytes(&event, 7_000).unwrap();
    let deliveries = broker.handle_event(&event, 7_000);
    assert_eq!(deliveries.len(), 1);
    assert_eq!(deliveries[0].conn, a);
    assert_eq!(deliveries[0].bytes, expected);
    assert_eq!(broker.bosses.len(), 2);
}

#[test]
fn get_bosses_snapshots_to_the_caller_only() {
    let mut broker = Broker::new(10);
    let (a, _) = broker.subscribe();
    let (_b, _) = broker.subscribe();
    broker.handle_event(&DomainEvent::BossUpdate(boss("Lucilius", 150)), 5_000);
    let deliveries = broker.get_bosses(a, 8_000);
    assert_eq!(deliveries.len(), 1);
    assert_eq!(deliveries[0].conn, a);
}

#[test]
fn handle_request_follow_registers_and_replays() {
    let mut broker = Broker::new(10);
    let (a, _) = broker.subscribe();
    broker.handle_event(&DomainEvent::Tweet(tweet("Lucilius", 4)), 1);
    let deliveries = broker.handle_request(
        a,
        &Request::Follow(vec![b"Lucilius".to_vec()]),
        2,
    );
    assert_eq!(broker.conns[0].follows, vec![b"Lucilius".to_vec()]);
    assert_eq!(deliveries.len(), 1);
    let mut expected: Vec<u8> = Vec::new();
    write_tweet_frame(&mut expected, &tweet("Lucilius", 4));
    assert_eq!(deliveries[0].bytes, expected);
}

#[test]
fn seeding_keeps_the_first_record_per_name() {
    let mut broker = Broker::new(10);
    let records = vec![
        RaidBossMetadata { boss: boss("Lucilius", 150), last_seen: 11, image_hash: None },
        RaidBossMetadata { boss: boss("Bahamut", 120), last_seen: 22, image_hash: None },
        RaidBossMetadata { boss: boss("Lucilius", 999), last_seen: 33, image_hash: None },
    ];
    broker.set_bosses(&records);
    assert_eq!(broker.bosses.len(), 2);
    assert_eq!(broker.bosses[0].boss.level, 150);
    assert_eq!(broker.bosses[0].last_seen, 11);
    assert_eq!(broker.bosses[1].boss.name, b"Bahamut".to_vec());
}

#[test]
fn export_metadata_copies_the_table() {
    let mut broker = Broker::new(10);
    broker.handle_event(&DomainEvent::BossUpdate(boss("Lucilius", 150)), 5_000);
    let exported = broker.export_metadata();
    assert_eq!(exported.len(), 1);
    assert_eq!(exported[0].boss.name, b"Lucilius".to_vec());
    assert_eq!(exported[0].last_seen, 5);
}
