//! Decision logic of the persistent boss-metadata cache.
//!
//! The durable store holds two records: a current-format one and a
//! read-only legacy one whose bytes use the same envelope shape as live
//! wire traffic (a boss-list body with millisecond timestamps). The store
//! itself is read and written outside this crate; the logic here decides
//! what a cache read means: prefer the current record, fall back to the
//! legacy one, and when the legacy record held data, ask for it to be
//! re-persisted in current format — a one-time, read-triggered migration.

use vstd::prelude::*;

use crate::envelope;
use crate::envelope::BossProto;
use crate::envelope::BossProtoView;
use crate::envelope::DecodeError;
use crate::model::BossView;
use crate::model::MetadataView;
use crate::model::RaidBossMetadata;

verus! {

broadcast use crate::model::lemma_bytes_deep_view;

/// The metadata a legacy boss entry decodes to: the millisecond timestamp
/// becomes seconds (divided by 1000 — legacy records carry epoch
/// milliseconds), an unknown language code becomes `Other`, the translated
/// name becomes the one translation, and no image hash is carried over.
pub open spec fn legacy_meta_view(p: BossProtoView) -> MetadataView {
    MetadataView {
        boss: BossView {
            name: p.name,
            level: p.level,
            image: p.image,
            language: envelope::lang_of_code(p.language_code),
            translations: match p.translated_name {
                Some(t) => seq![t],
                None => Seq::empty(),
            },
        },
        last_seen: (p.last_seen_ms / 1000) as u64,
        image_hash: None,
    }
}

/// Converts one decoded legacy boss entry into a metadata record.
pub fn legacy_record_to_metadata(p: &BossProto) -> (r: RaidBossMetadata)
    ensures
        r@ == legacy_meta_view(p@),
{
    let translations: Vec<Vec<u8>> = match &p.translated_name {
        Some(t) => {
            let mut v: Vec<Vec<u8>> = Vec::new();
            v.push(crate::model::copy_bytes(t));
            v
        },
        None => Vec::new(),
    };
    let r = RaidBossMetadata {
        boss: crate::model::RaidBoss {
            name: crate::model::copy_bytes(&p.name),
            level: p.level,
            image: crate::model::copy_opt_bytes(&p.image),
            language: envelope::language_from_proto(p.language_code),
            translations,
        },
        last_seen: p.last_seen_ms / 1000,
        image_hash: None,
    };
    proof {
        match p@.translated_name {
            Some(t) => {
                assert(r.boss.translations.deep_view() =~= seq![t]);
            },
            None => {
                assert(r.boss.translations.deep_view() =~= Seq::<Seq<u8>>::empty());
            },
        }
        assert(r@ =~= legacy_meta_view(p@));
    }
    r
}

/// Decodes a legacy cache record into metadata records, entry for entry.
pub fn decode_legacy_bosses(bytes: &Vec<u8>) -> (r: Result<Vec<RaidBossMetadata>, DecodeError>)
    ensures
        match r {
            Ok(ms) => envelope::spec_dec_boss_entries(bytes@, 0, Seq::empty()) matches Ok(ps)
                && ms.deep_view() == ps.map_values(|p: BossProtoView| legacy_meta_view(p)),
            Err(e) => envelope::spec_dec_boss_entries(bytes@, 0, Seq::empty()) == Err::<
                Seq<BossProtoView>,
                _,
            >(e),
        },
{
    let protos = match envelope::decode_boss_list(bytes) {
        Ok(ps) => ps,
        Err(e) => {
            return Err(e);
        },
    };
    let ghost psv = protos.deep_view();
    let mut out: Vec<RaidBossMetadata> = Vec::new();
    let mut i: usize = 0;
    while i < protos.len()
        invariant
            i <= protos@.len(),
            psv == protos.deep_view(),
            out@.len() == i,
            forall|j: int| 0 <= j < i ==> out@[j]@ == legacy_meta_view(psv[j]),
        decreases protos@.len() - i,
    {
        out.push(legacy_record_to_metadata(&protos[i]));
        i = i + 1;
    }
    proof {
        let target = psv.map_values(|p: BossProtoView| legacy_meta_view(p));
        assert forall|j: int| 0 <= j < out@.len() implies out.deep_view()[j] == target[j] by {
            assert(out.deep_view()[j] == out@[j]@);
        }
        assert(out.deep_view() =~= target);
    }
    Ok(out)
}

/// Cache migration: a legacy record holding these boss identities, written
/// at epoch-millisecond `last_seen_ms`, reads back through the legacy
/// decoder as the same identities — name, level, language, image, first
/// translation — each carrying `last_seen_ms / 1000` as its last-seen time
/// in seconds.
pub proof fn lemma_legacy_migration(bs: Seq<BossView>, last_seen_ms: u64)
    requires
        forall|k: int| 0 <= k < bs.len() ==> envelope::boss_fits(#[trigger] bs[k]),
        forall|k: int|
            0 <= k < bs.len() ==> envelope::enc_boss_body(#[trigger] bs[k], last_seen_ms).len()
                <= u64::MAX,
    ensures
        match envelope::spec_dec_boss_entries(
            envelope::enc_boss_list(bs, last_seen_ms),
            0,
            Seq::empty(),
        ) {
            Ok(ps) => {
                &&& ps.len() == bs.len()
                &&& forall|k: int|
                    0 <= k < bs.len() ==> {
                        let m = legacy_meta_view(#[trigger] ps[k]);
                        &&& m.last_seen == last_seen_ms / 1000
                        &&& m.boss.name == bs[k].name
                        &&& m.boss.level == bs[k].level
                        &&& m.boss.language == bs[k].language
                        &&& m.boss.image == bs[k].image
                        &&& m.boss.translations == if bs[k].translations.len() > 0 {
                            seq![bs[k].translations[0]]
                        } else {
                            Seq::<Seq<u8>>::empty()
                        }
                        &&& m.image_hash is None
                    }
            },
            Err(_) => false,
        },
{
    envelope::lemma_boss_list_round_trip(bs, last_seen_ms);
    let ps = bs.map_values(|b: BossView| envelope::boss_wire_view(b, last_seen_ms));
    assert forall|k: int| 0 <= k < bs.len() implies {
        let m = legacy_meta_view(#[trigger] ps[k]);
        &&& m.last_seen == last_seen_ms / 1000
        &&& m.boss.name == bs[k].name
        &&& m.boss.level == bs[k].level
        &&& m.boss.language == bs[k].language
        &&& m.boss.image == bs[k].image
        &&& m.boss.translations == if bs[k].translations.len() > 0 {
            seq![bs[k].translations[0]]
        } else {
            Seq::<Seq<u8>>::empty()
        }
        &&& m.image_hash is None
    } by {
        assert(ps[k] == envelope::boss_wire_view(bs[k], last_seen_ms));
    }
}

/// What a cache read resolves to, and whether a migration write is owed.
pub struct CacheLoad {
    /// The metadata records the cache holds.
    pub bosses: Vec<RaidBossMetadata>,
    /// True exactly when the records came from the legacy record and must
    /// be re-persisted in current format.
    pub migrate: bool,
}

/// Resolves a cache read from the two raw records: the already-decoded
/// current record and the raw legacy bytes, if either was present.
///
/// A non-empty current record wins outright. Otherwise the legacy record
/// is decoded; when it holds entries they are returned with `migrate`
/// set, so the caller re-persists them in current format; a missing or
/// empty legacy record resolves to an empty cache. A legacy record that
/// does not decode is an error.
pub fn resolve_cached_bosses(current: Vec<RaidBossMetadata>, legacy: &Option<Vec<u8>>) -> (r:
    Result<CacheLoad, DecodeError>)
    ensures
        match r {
            Ok(load) => {
                &&& current@.len() > 0 ==> load.bosses == current && !load.migrate
            &&& current@.len() == 0 ==> match *legacy {
                    None => load.bosses@.len() == 0 && !load.migrate,
                    Some(b) => match envelope::spec_dec_boss_entries(b@, 0, Seq::empty()) {
                        Ok(ps) => load.bosses.deep_view() == ps.map_values(
                            |p: BossProtoView| legacy_meta_view(p),
                        ) && load.migrate == (ps.len() > 0),
                        Err(_) => false,
                    },
                }
            },
            Err(e) => {
                &&& current@.len() == 0
            &&& match *legacy {
                    None => false,
                    Some(b) => envelope::spec_dec_boss_entries(b@, 0, Seq::empty()) == Err::<
                        Seq<BossProtoView>,
                        _,
                    >(e),
                }
            },
        },
{
    if current.len() > 0 {
        return Ok(CacheLoad { bosses: current, migrate: false });
    }
    match legacy {
        None => Ok(CacheLoad { bosses: current, migrate: false }),
        Some(b) => {
            let decoded = match decode_legacy_bosses(b) {
                Ok(ms) => ms,
                Err(e) => {
                    return Err(e);
                },
            };
            let migrate = decoded.len() > 0;
            Ok(CacheLoad { bosses: decoded, migrate })
        },
    }
}

} // verus!
