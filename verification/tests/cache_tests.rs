use raidfinder::cache::resolve_cached_bosses;
use raidfinder::envelope::put_boss_entry;
use raidfinder::model::Language;
use raidfinder::model::RaidBoss;
use raidfinder::model::RaidBossMetadata;

fn boss(name: &str, level: u32) -> RaidBoss {
    RaidBoss {
        name: name.as_bytes().to_vec(),
        level,
        image: Some(b"https://example.test/img.png".to_vec()),
        language: Language::Japanese,
        translations: vec![b"translated".to_vec()],
    }
}

fn metadata(name: &str, last_seen: u64) -> RaidBossMetadata {
    RaidBossMetadata { boss: boss(name, 100), last_seen, image_hash: None }
}

fn legacy_record(entries: &[(&str, u64)]) -> Vec<u8> {
    let mut record: Vec<u8> = Vec::new();
    for (name, ms) in entries {
        put_boss_entry(&mut record, &boss(name, 100), *ms);
    }
    record
}

#[test]
fn legacy_record_is_decoded_and_marked_for_migration() {
    let record = legacy_record(&[("Lucilius", 1_700_000_000_000), ("Bahamut", 1_700_000_111_999)]);
    let load = resolve_cached_bosses(Vec::new(), &Some(record)).unwrap();
    assert!(load.migrate, "a legacy read must trigger re-persistence");
    assert_eq!(load.bosses.len(), 2);
    assert_eq!(load.bosses[0].boss.name, b"Lucilius".to_vec());
    // Millisecond timestamps are divided down to seconds.
    assert_eq!(load.bosses[0].last_seen, 1_700_000_000);
    assert_eq!(load.bosses[1].last_seen, 1_700_000_111);
    // The translated name survives as the one translation.
    assert_eq!(load.bosses[0].boss.translations, vec![b"translated".to_vec()]);
    assert_eq!(load.bosses[0].boss.language, Language::Japanese);
}

#[test]
fn current_record_wins_without_migration() {
    let current = vec![metadata("Lucilius", 42)];
    let legacy = Some(legacy_record(&[("Bahamut", 1_000_000)]));
    let load = resolve_cached_bosses(current, &legacy).unwrap();
    assert!(!load.migrate);
    assert_eq!(load.bosses.len(), 1);
    assert_eq!(load.bosses[0].boss.name, b"Lucilius".to_vec());
    assert_eq!(load.bosses[0].last_seen, 42);
}

#[test]
fn nothing_stored_resolves_to_an_empty_cache() {
    let load = resolve_cached_bosses(Vec::new(), &None).unwrap();
    assert!(!load.migrate);
    assert_eq!(load.bosses.len(), 0);
}

#[test]
fn empty_legacy_record_does_not_migrate() {
    let load = resolve_cached_bosses(Vec::new(), &Some(Vec::new())).unwrap();
    assert!(!load.migrate);
    assert_eq!(load.bosses.len(), 0);
}

#[test]
fn corrupt_legacy_record_is_an_error() {
    // A field length that overruns the record.
    let corrupt = vec![0x0A, 0x7F, 0x01];
    assert!(resolve_cached_bosses(Vec::new(), &Some(corrupt)).is_err());
}
