//! Domain data model: bosses, tweets, domain events.
//!
//! Boss names and the other textual fields are kept as owned byte strings
//! (their UTF-8 encoding). Equality is exact byte equality; the core never
//! normalizes case or encoding — that is the caller's business.
//! Timestamps are seconds since the Unix epoch; the wire envelope carries
//! milliseconds, so conversions multiply or divide by 1000 at the boundary.

use vstd::prelude::*;

verus! {

/// Language tag of a boss or tweet.
#[derive(Clone, Copy, Debug, PartialEq, Eq, Structural)]
pub enum Language {
    English,
    Japanese,
    Other,
}

/// Current known identity of a boss.
pub struct RaidBoss {
    /// Subscription key: exact bytes, caller-normalized.
    pub name: Vec<u8>,
    pub level: u32,
    /// Optional image URL.
    pub image: Option<Vec<u8>>,
    pub language: Language,
    /// Alternate names in other languages.
    pub translations: Vec<Vec<u8>>,
}

/// Mathematical image of a `RaidBoss`.
#[verifier::ext_equal]
pub struct BossView {
    pub name: Seq<u8>,
    pub level: u32,
    pub image: Option<Seq<u8>>,
    pub language: Language,
    pub translations: Seq<Seq<u8>>,
}

/// View of an optional byte string.
pub open spec fn opt_view(o: Option<Vec<u8>>) -> Option<Seq<u8>> {
    match o {
        Some(v) => Some(v@),
        None => None,
    }
}

impl View for RaidBoss {
    type V = BossView;

    open spec fn view(&self) -> BossView {
        BossView {
            name: self.name@,
            level: self.level,
            image: opt_view(self.image),
            language: self.language,
            translations: self.translations.deep_view(),
        }
    }
}

impl DeepView for RaidBoss {
    type V = BossView;

    open spec fn deep_view(&self) -> BossView {
        self.view()
    }
}

/// The durable unit stored in the cache: a boss plus bookkeeping.
pub struct RaidBossMetadata {
    pub boss: RaidBoss,
    /// Seconds since the Unix epoch of the last sighting.
    pub last_seen: u64,
    pub image_hash: Option<Vec<u8>>,
}

/// Mathematical image of a `RaidBossMetadata`.
#[verifier::ext_equal]
pub struct MetadataView {
    pub boss: BossView,
    pub last_seen: u64,
    pub image_hash: Option<Seq<u8>>,
}

impl View for RaidBossMetadata {
    type V = MetadataView;

    open spec fn view(&self) -> MetadataView {
        MetadataView { boss: self.boss@, last_seen: self.last_seen, image_hash: opt_view(self.image_hash) }
    }
}

impl DeepView for RaidBossMetadata {
    type V = MetadataView;

    open spec fn deep_view(&self) -> MetadataView {
        self.view()
    }
}

/// A tweet that sighted a boss.
pub struct RaidTweet {
    pub boss_name: Vec<u8>,
    pub raid_id: Vec<u8>,
    /// Screen name of the posting user.
    pub user: Vec<u8>,
    pub tweet_id: u64,
    pub user_image: Option<Vec<u8>>,
    pub text: Option<Vec<u8>>,
    /// Seconds since the Unix epoch.
    pub created_at: u64,
    pub language: Language,
}

/// Mathematical image of a `RaidTweet`.
#[verifier::ext_equal]
pub struct TweetView {
    pub boss_name: Seq<u8>,
    pub raid_id: Seq<u8>,
    pub user: Seq<u8>,
    pub tweet_id: u64,
    pub user_image: Option<Seq<u8>>,
    pub text: Option<Seq<u8>>,
    pub created_at: u64,
    pub language: Language,
}

impl View for RaidTweet {
    type V = TweetView;

    open spec fn view(&self) -> TweetView {
        TweetView {
            boss_name: self.boss_name@,
            raid_id: self.raid_id@,
            user: self.user@,
            tweet_id: self.tweet_id,
            user_image: opt_view(self.user_image),
            text: opt_view(self.text),
            created_at: self.created_at,
            language: self.language,
        }
    }
}

impl DeepView for RaidTweet {
    type V = TweetView;

    open spec fn deep_view(&self) -> TweetView {
        self.view()
    }
}

/// A domain event, produced by the upstream feed and consumed by the broker.
pub enum DomainEvent {
    Heartbeat,
    Tweet(RaidTweet),
    TweetList(Vec<RaidTweet>),
    BossUpdate(RaidBoss),
    BossList(Vec<RaidBoss>),
    BossRemove(Vec<u8>),
}

/// Mathematical image of a `DomainEvent`.
#[verifier::ext_equal]
pub enum EventView {
    Heartbeat,
    Tweet(TweetView),
    TweetList(Seq<TweetView>),
    BossUpdate(BossView),
    BossList(Seq<BossView>),
    BossRemove(Seq<u8>),
}

impl View for DomainEvent {
    type V = EventView;

    open spec fn view(&self) -> EventView {
        match self {
            DomainEvent::Heartbeat => EventView::Heartbeat,
            DomainEvent::Tweet(t) => EventView::Tweet(t@),
            DomainEvent::TweetList(ts) => EventView::TweetList(ts.deep_view()),
            DomainEvent::BossUpdate(b) => EventView::BossUpdate(b@),
            DomainEvent::BossList(bs) => EventView::BossList(bs.deep_view()),
            DomainEvent::BossRemove(n) => EventView::BossRemove(n@),
        }
    }
}

/// Seconds-to-milliseconds, saturating at the top of the type instead of
/// wrapping.
pub open spec fn ms_of(secs: u64) -> u64 {
    if secs * 1000 <= u64::MAX {
        (secs * 1000) as u64
    } else {
        u64::MAX
    }
}

/// Multiplies a seconds timestamp by 1000, saturating.
pub fn to_milliseconds(secs: u64) -> (r: u64)
    ensures
        r == ms_of(secs),
{
    if secs <= u64::MAX / 1000 {
        secs * 1000
    } else {
        u64::MAX
    }
}

/// The deep view of a byte string is its view: byte sequences have no
/// deeper structure.
pub broadcast proof fn lemma_bytes_deep_view(v: &Vec<u8>)
    ensures
        #[trigger] v.deep_view() == v@,
{
    assert(v.deep_view() =~= v@);
}

/// Byte-string equality.
pub fn bytes_eq(a: &Vec<u8>, b: &Vec<u8>) -> (r: bool)
    ensures
        r == (a@ == b@),
{
    if a.len() != b.len() {
        assert(a@ != b@) by {
            assert(a@.len() != b@.len());
        }
        return false;
    }
    let mut i: usize = 0;
    while i < a.len()
        invariant
            i <= a@.len(),
            a@.len() == b@.len(),
            forall|j: int| 0 <= j < i ==> a@[j] == b@[j],
        decreases a@.len() - i,
    {
        if a[i] != b[i] {
            return false;
        }
        i = i + 1;
    }
    assert(a@ =~= b@);
    true
}

/// Copies a byte string; the copy has the same bytes.
pub fn copy_bytes(v: &Vec<u8>) -> (r: Vec<u8>)
    ensures
        r@ == v@,
{
    let mut out: Vec<u8> = Vec::new();
    let mut i: usize = 0;
    while i < v.len()
        invariant
            i <= v@.len(),
            out@ == v@.subrange(0, i as int),
        decreases v@.len() - i,
    {
        out.push(v[i]);
        assert(v@.subrange(0, i as int) + seq![v@[i as int]] =~= v@.subrange(0, i + 1));
        i = i + 1;
    }
    assert(out@ =~= v@);
    out
}

/// Copies an optional byte string.
pub fn copy_opt_bytes(v: &Option<Vec<u8>>) -> (r: Option<Vec<u8>>)
    ensures
        opt_view(r) == opt_view(*v),
{
    match v {
        Some(b) => Some(copy_bytes(b)),
        None => None,
    }
}

/// Copies a list of byte strings.
pub fn copy_bytes_list(v: &Vec<Vec<u8>>) -> (r: Vec<Vec<u8>>)
    ensures
        r.deep_view() == v.deep_view(),
{
    let mut out: Vec<Vec<u8>> = Vec::new();
    let mut i: usize = 0;
    while i < v.len()
        invariant
            i <= v@.len(),
            out@.len() == i,
            forall|j: int| 0 <= j < i ==> out@[j]@ == v@[j]@,
        decreases v@.len() - i,
    {
        let c = copy_bytes(&v[i]);
        out.push(c);
        i = i + 1;
    }
    proof {
        assert forall|j: int| 0 <= j < v@.len() implies out.deep_view()[j] == v.deep_view()[j] by {
            assert(out.deep_view()[j] == out@[j]@);
            assert(v.deep_view()[j] == v@[j]@);
        }
        assert(out.deep_view() =~= v.deep_view());
    }
    out
}

/// Copies a boss value; the copy has the same view.
pub fn copy_boss(b: &RaidBoss) -> (r: RaidBoss)
    ensures
        r@ == b@,
{
    let r = RaidBoss {
        name: copy_bytes(&b.name),
        level: b.level,
        image: copy_opt_bytes(&b.image),
        language: b.language,
        translations: copy_bytes_list(&b.translations),
    };
    r
}

/// Copies a metadata record; the copy has the same view.
pub fn copy_metadata(m: &RaidBossMetadata) -> (r: RaidBossMetadata)
    ensures
        r@ == m@,
{
    RaidBossMetadata {
        boss: copy_boss(&m.boss),
        last_seen: m.last_seen,
        image_hash: copy_opt_bytes(&m.image_hash),
    }
}

/// Copies a tweet; the copy has the same view.
pub fn copy_tweet(t: &RaidTweet) -> (r: RaidTweet)
    ensures
        r@ == t@,
{
    RaidTweet {
        boss_name: copy_bytes(&t.boss_name),
        raid_id: copy_bytes(&t.raid_id),
        user: copy_bytes(&t.user),
        tweet_id: t.tweet_id,
        user_image: copy_opt_bytes(&t.user_image),
        text: copy_opt_bytes(&t.text),
        created_at: t.created_at,
        language: t.language,
    }
}

} // verus!
