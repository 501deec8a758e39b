//! Subscription broker: owns the subscription table (which connection
//! follows which bosses), the authoritative boss table, and the bounded
//! per-boss history rings, and decides, per domain event, which connections
//! receive which serialized bytes.
//!
//! The broker performs no I/O itself: every operation returns the exact
//! list of deliveries (connection id, bytes) the caller must perform. A
//! failed delivery is the caller's signal to eventually tear that
//! connection down; it never feeds back into the broker.

use vstd::prelude::*;

use crate::codec;
use crate::envelope;
use crate::model::DomainEvent;
use crate::model::RaidBoss;
use crate::model::RaidBossMetadata;
use crate::model::RaidTweet;
use crate::model::TweetView;
use crate::model::bytes_eq;
use crate::model::copy_boss;
use crate::model::copy_bytes;
use crate::model::copy_metadata;
use crate::model::copy_tweet;

verus! {

broadcast use crate::model::lemma_bytes_deep_view;

/// How many tweets a per-boss history ring keeps: the configured default.
pub const HISTORY_SIZE: usize = 10;

/// One connection's record: its id and the boss names it follows.
pub struct Connection {
    pub id: u64,
    pub follows: Vec<Vec<u8>>,
}

/// Mathematical image of a `Connection`.
#[verifier::ext_equal]
pub struct ConnectionView {
    pub id: u64,
    pub follows: Seq<Seq<u8>>,
}

impl View for Connection {
    type V = ConnectionView;

    open spec fn view(&self) -> ConnectionView {
        ConnectionView { id: self.id, follows: self.follows.deep_view() }
    }
}

impl DeepView for Connection {
    type V = ConnectionView;

    open spec fn deep_view(&self) -> ConnectionView {
        self.view()
    }
}

/// The bounded history ring of one boss, oldest tweet first.
pub struct TweetRing {
    pub name: Vec<u8>,
    pub tweets: Vec<RaidTweet>,
}

/// Mathematical image of a `TweetRing`.
#[verifier::ext_equal]
pub struct RingView {
    pub name: Seq<u8>,
    pub tweets: Seq<TweetView>,
}

impl View for TweetRing {
    type V = RingView;

    open spec fn view(&self) -> RingView {
        RingView { name: self.name@, tweets: self.tweets.deep_view() }
    }
}

impl DeepView for TweetRing {
    type V = RingView;

    open spec fn deep_view(&self) -> RingView {
        self.view()
    }
}

/// One pending write: these bytes go to this connection.
pub struct Delivery {
    pub conn: u64,
    pub bytes: Vec<u8>,
}

/// Mathematical image of a `Delivery`.
#[verifier::ext_equal]
pub struct DeliveryView {
    pub conn: u64,
    pub bytes: Seq<u8>,
}

impl View for Delivery {
    type V = DeliveryView;

    open spec fn view(&self) -> DeliveryView {
        DeliveryView { conn: self.conn, bytes: self.bytes@ }
    }
}

impl DeepView for Delivery {
    type V = DeliveryView;

    open spec fn deep_view(&self) -> DeliveryView {
        self.view()
    }
}

/// No two positions hold the same connection id.
pub open spec fn distinct_ids(cs: Seq<ConnectionView>) -> bool {
    forall|i: int, j: int| 0 <= i < j < cs.len() ==> cs[i].id != cs[j].id
}

/// No two positions hold the same byte string.
pub open spec fn distinct_names(ns: Seq<Seq<u8>>) -> bool {
    forall|i: int, j: int| 0 <= i < j < ns.len() ==> ns[i] != ns[j]
}

/// No two boss-table entries carry the same boss name.
pub open spec fn distinct_boss_names(bs: Seq<crate::model::MetadataView>) -> bool {
    forall|i: int, j: int| 0 <= i < j < bs.len() ==> bs[i].boss.name != bs[j].boss.name
}

/// No two history rings carry the same boss name.
pub open spec fn distinct_ring_names(rs: Seq<RingView>) -> bool {
    forall|i: int, j: int| 0 <= i < j < rs.len() ==> rs[i].name != rs[j].name
}

/// Whether some connection in `cs` has id `id`.
pub open spec fn has_conn(cs: Seq<ConnectionView>, id: u64) -> bool {
    exists|i: int| 0 <= i < cs.len() && cs[i].id == id
}

/// Whether the connection `id` follows `name`.
pub open spec fn follows(cs: Seq<ConnectionView>, id: u64, name: Seq<u8>) -> bool {
    exists|i: int| 0 <= i < cs.len() && cs[i].id == id && cs[i].follows.contains(name)
}

/// The broker: subscription table, boss table, history rings.
pub struct Broker {
    /// Capacity of each history ring; at least 1.
    pub history_size: usize,
    /// The id the next subscriber will receive; above every id in use.
    pub next_id: u64,
    pub conns: Vec<Connection>,
    pub bosses: Vec<RaidBossMetadata>,
    pub history: Vec<TweetRing>,
}

impl Broker {
    /// Internal consistency: distinct connection ids below `next_id`,
    /// duplicate-free interest lists, at most one boss-table entry and one
    /// ring per name, rings bounded by `history_size`.
    pub open spec fn wf(self) -> bool {
        &&& self.history_size >= 1
        &&& distinct_ids(self.conns.deep_view())
        &&& forall|i: int|
            0 <= i < self.conns.deep_view().len() ==> distinct_names(
                #[trigger] self.conns.deep_view()[i].follows,
            )
        &&& forall|i: int|
            0 <= i < self.conns.deep_view().len() ==> (#[trigger] self.conns.deep_view()[i].id)
                < self.next_id
        &&& distinct_boss_names(self.bosses.deep_view())
        &&& distinct_ring_names(self.history.deep_view())
        &&& forall|i: int|
            0 <= i < self.history.deep_view().len() ==> (#[trigger] self.history.deep_view()[i].tweets.len())
                <= self.history_size
    }

    /// A fresh broker with no subscribers, no bosses, no history.
    pub fn new(history_size: usize) -> (r: Broker)
        requires
            history_size >= 1,
        ensures
            r.wf(),
            r.history_size == history_size,
            r.next_id == 0,
            r.conns.deep_view() == Seq::<ConnectionView>::empty(),
            r.bosses.deep_view() == Seq::<crate::model::MetadataView>::empty(),
            r.history.deep_view() == Seq::<RingView>::empty(),
    {
        let r = Broker {
            history_size,
            next_id: 0,
            conns: Vec::new(),
            bosses: Vec::new(),
            history: Vec::new(),
        };
        proof {
            assert(r.conns.deep_view() =~= Seq::<ConnectionView>::empty());
            assert(r.bosses.deep_view() =~= Seq::<crate::model::MetadataView>::empty());
            assert(r.history.deep_view() =~= Seq::<RingView>::empty());
        }
        r
    }

    /// Registers a new connection: assigns it the next id, an empty
    /// interest set, and greets it with the empty Ping frame. The returned
    /// deliveries are exactly that one Ping to the new connection.
    pub fn subscribe(&mut self) -> (r: (u64, Vec<Delivery>))
        requires
            old(self).wf(),
            old(self).next_id < u64::MAX,
        ensures
            final(self).wf(),
            r.0 == old(self).next_id,
            final(self).next_id == old(self).next_id + 1,
            final(self).conns.deep_view() == old(self).conns.deep_view().push(
                ConnectionView { id: r.0, follows: Seq::empty() },
            ),
            !has_conn(old(self).conns.deep_view(), r.0),
            final(self).bosses == old(self).bosses,
            final(self).history == old(self).history,
            final(self).history_size == old(self).history_size,
            r.1.deep_view() == seq![
                DeliveryView { conn: r.0, bytes: codec::frame_bytes(9, Seq::empty()) },
            ],
    {
        let id = self.next_id;
        self.next_id = self.next_id + 1;
        let conn = Connection { id, follows: Vec::new() };
        let ghost pre = self.conns;
        let ghost connsnap = conn;
        self.conns.push(conn);
        let ping = codec::empty_ping();
        let mut out: Vec<Delivery> = Vec::new();
        out.push(Delivery { conn: id, bytes: ping });
        proof {
            lemma_deep_view_push_gen(pre, self.conns, connsnap);
            assert(connsnap@ =~= (ConnectionView { id, follows: Seq::empty() }));
            assert(final(self).conns.deep_view() =~= old(self).conns.deep_view().push(
                ConnectionView { id, follows: Seq::empty() },
            ));
            assert(out.deep_view() =~= seq![
                DeliveryView { conn: id, bytes: codec::frame_bytes(9, Seq::empty()) },
            ]);
        }
        (id, out)
    }
}

/// The subscription table after connection `id` starts following `name`:
/// the name is appended to that connection's interest list unless already
/// present; every other connection is untouched.
pub open spec fn spec_follow(cs: Seq<ConnectionView>, id: u64, n: Seq<u8>) -> Seq<ConnectionView> {
    Seq::new(
        cs.len(),
        |i: int|
            if cs[i].id == id && !cs[i].follows.contains(n) {
                ConnectionView { id: cs[i].id, follows: cs[i].follows.push(n) }
            } else {
                cs[i]
            },
    )
}

/// `ns` with every occurrence of `n` removed, order kept.
pub open spec fn remove_name(ns: Seq<Seq<u8>>, n: Seq<u8>) -> Seq<Seq<u8>>
    decreases ns.len(),
{
    if ns.len() == 0 {
        ns
    } else if ns[0] == n {
        remove_name(ns.drop_first(), n)
    } else {
        seq![ns[0]] + remove_name(ns.drop_first(), n)
    }
}

/// The subscription table after connection `id` stops following `name`.
pub open spec fn spec_unfollow(cs: Seq<ConnectionView>, id: u64, n: Seq<u8>) -> Seq<
    ConnectionView,
> {
    Seq::new(
        cs.len(),
        |i: int|
            if cs[i].id == id {
                ConnectionView { id: cs[i].id, follows: remove_name(cs[i].follows, n) }
            } else {
                cs[i]
            },
    )
}

/// What `remove_name` holds: exactly the other names, duplicates-freeness
/// kept.
pub proof fn lemma_remove_name_props(ns: Seq<Seq<u8>>, n: Seq<u8>)
    ensures
        forall|m: Seq<u8>|
            #[trigger] remove_name(ns, n).contains(m) <==> (ns.contains(m) && m != n),
        distinct_names(ns) ==> distinct_names(remove_name(ns, n)),
        remove_name(ns, n).len() <= ns.len(),
    decreases ns.len(),
{
    if ns.len() == 0 {
        assert forall|m: Seq<u8>| #[trigger] remove_name(ns, n).contains(m) implies (ns.contains(m)
            && m != n) by {}
        assert forall|m: Seq<u8>| ns.contains(m) && m != n implies #[trigger] remove_name(
            ns,
            n,
        ).contains(m) by {}
    } else {
        let rest = ns.drop_first();
        lemma_remove_name_props(rest, n);
        let out = remove_name(ns, n);
        assert forall|m: Seq<u8>| #[trigger] out.contains(m) implies (ns.contains(m) && m
            != n) by {
            if ns[0] == n {
                assert(rest.contains(m) && m != n);
                let w = choose|w: int| 0 <= w < rest.len() && rest[w] == m;
                assert(ns[w + 1] == m);
            } else {
                let w = choose|w: int| 0 <= w < out.len() && out[w] == m;
                if w == 0 {
                    assert(ns[0] == m);
                    assert(ns.contains(m));
                    if m == n {
                        assert(false);
                    }
                } else {
                    assert(remove_name(rest, n)[w - 1] == m);
                    assert(remove_name(rest, n).contains(m));
                    let v = choose|v: int| 0 <= v < rest.len() && rest[v] == m;
                    assert(ns[v + 1] == m);
                }
            }
        }
        assert forall|m: Seq<u8>| ns.contains(m) && m != n implies #[trigger] out.contains(m) by {
            let w = choose|w: int| 0 <= w < ns.len() && ns[w] == m;
            if w == 0 {
                assert(ns[0] == m && m != n);
                assert(out[0] == m);
            } else {
                assert(rest[w - 1] == m);
                assert(rest.contains(m));
                assert(remove_name(rest, n).contains(m));
                let v = choose|v: int|
                    0 <= v < remove_name(rest, n).len() && remove_name(rest, n)[v] == m;
                if ns[0] == n {
                    assert(out[v] == m);
                } else {
                    assert(out[v + 1] == m);
                }
            }
        }
        if distinct_names(ns) {
            assert(distinct_names(rest)) by {
                assert forall|i: int, j: int| 0 <= i < j < rest.len() implies rest[i]
                    != rest[j] by {
                    assert(ns[i + 1] != ns[j + 1]);
                }
            }
            if ns[0] != n {
                assert(distinct_names(out)) by {
                    let tail = remove_name(rest, n);
                    assert forall|i: int, j: int| 0 <= i < j < out.len() implies out[i]
                        != out[j] by {
                        if i == 0 {
                            assert(out[0] == ns[0]);
                            assert(out[j] == tail[j - 1]);
                            assert(tail.contains(tail[j - 1]));
                            assert(rest.contains(tail[j - 1]));
                            let v = choose|v: int| 0 <= v < rest.len() && rest[v] == tail[j - 1];
                            assert(ns[v + 1] == tail[j - 1]);
                        } else {
                            assert(out[i] == tail[i - 1] && out[j] == tail[j - 1]);
                        }
                    }
                }
            }
        }
    }
}

/// Appending a name to a push is dropped through `remove_name`.
pub proof fn lemma_remove_name_push(a: Seq<Seq<u8>>, x: Seq<u8>, n: Seq<u8>)
    ensures
        remove_name(a.push(x), n) == if x == n {
            remove_name(a, n)
        } else {
            remove_name(a, n).push(x)
        },
    decreases a.len(),
{
    let ap = a.push(x);
    if a.len() == 0 {
        assert(ap.drop_first() =~= Seq::<Seq<u8>>::empty());
        assert(remove_name(Seq::<Seq<u8>>::empty(), n) == Seq::<Seq<u8>>::empty());
        if x == n {
            assert(remove_name(ap, n) =~= remove_name(a, n));
        } else {
            assert(remove_name(ap, n) == seq![ap[0]] + remove_name(ap.drop_first(), n));
            assert(remove_name(ap, n) =~= remove_name(a, n).push(x));
        }
    } else {
        assert(ap[0] == a[0]);
        assert(ap.drop_first() =~= a.drop_first().push(x));
        lemma_remove_name_push(a.drop_first(), x, n);
        if a[0] == n {
            assert(remove_name(ap, n) == remove_name(a.drop_first().push(x), n));
            assert(remove_name(a, n) == remove_name(a.drop_first(), n));
        } else {
            assert(remove_name(ap, n) == seq![ap[0]] + remove_name(a.drop_first().push(x), n));
            assert(remove_name(a, n) == seq![a[0]] + remove_name(a.drop_first(), n));
            if x == n {
                assert(remove_name(ap, n) =~= remove_name(a, n));
            } else {
                assert(remove_name(ap, n) =~= (seq![a[0]] + remove_name(a.drop_first(), n)).push(
                    x,
                ));
                assert(remove_name(ap, n) =~= remove_name(a, n).push(x));
            }
        }
    }
}

/// Whether `ns` holds `n`, by byte equality.
pub fn contains_name(ns: &Vec<Vec<u8>>, n: &Vec<u8>) -> (r: bool)
    ensures
        r == ns.deep_view().contains(n@),
{
    let mut i: usize = 0;
    while i < ns.len()
        invariant
            i <= ns@.len(),
            forall|j: int| 0 <= j < i ==> ns.deep_view()[j] != n@,
        decreases ns@.len() - i,
    {
        if bytes_eq(&ns[i], n) {
            assert(ns.deep_view()[i as int] == n@);
            return true;
        }
        i = i + 1;
    }
    assert(!ns.deep_view().contains(n@));
    false
}

impl Broker {
    /// Index of the connection with id `id`, if any.
    fn find_conn(&self, id: u64) -> (r: Option<usize>)
        ensures
            match r {
                Some(i) => i < self.conns@.len() && self.conns.deep_view()[i as int].id == id,
                None => !has_conn(self.conns.deep_view(), id),
            },
    {
        let mut i: usize = 0;
        while i < self.conns.len()
            invariant
                i <= self.conns@.len(),
                forall|j: int| 0 <= j < i ==> self.conns.deep_view()[j].id != id,
            decreases self.conns@.len() - i,
        {
            if self.conns[i].id == id {
                return Some(i);
            }
            i = i + 1;
        }
        None
    }

    /// Idempotently adds `name` to the interest set of connection `id`:
    /// afterwards the table is exactly `spec_follow` of the old table. A
    /// second `follow` of the same name changes nothing.
    pub fn follow(&mut self, id: u64, name: Vec<u8>)
        requires
            old(self).wf(),
        ensures
            final(self).wf(),
            final(self).conns.deep_view() == spec_follow(old(self).conns.deep_view(), id, name@),
            final(self).bosses == old(self).bosses,
            final(self).history == old(self).history,
            final(self).next_id == old(self).next_id,
            final(self).history_size == old(self).history_size,
    {
        let ghost cs0 = self.conns.deep_view();
        let found = self.find_conn(id);
        match found {
            None => {
                proof {
                    assert forall|i: int| 0 <= i < cs0.len() implies cs0[i].id != id by {
                        if cs0[i].id == id {
                            assert(has_conn(cs0, id));
                        }
                    }
                    assert(spec_follow(cs0, id, name@) =~= cs0);
                }
            },
            Some(ci) => {
                if contains_name(&self.conns[ci].follows, &name) {
                    proof {
                        assert(cs0[ci as int].follows.contains(name@));
                        assert forall|i: int| 0 <= i < cs0.len() implies spec_follow(
                            cs0,
                            id,
                            name@,
                        )[i] == cs0[i] by {
                            if cs0[i].id == id {
                                assert(i == ci as int) by {
                                    if i != ci as int {
                                        assert(cs0[i].id != cs0[ci as int].id);
                                    }
                                }
                            }
                        }
                        assert(spec_follow(cs0, id, name@) =~= cs0);
                    }
                } else {
                    let mut c = self.conns.remove(ci);
                    let ghost oldfollows = c.follows.deep_view();
                    let ghost pre = c.follows;
                    let ghost namesnap = name;
                    c.follows.push(name);
                    proof {
                        lemma_deep_view_push_gen(pre, c.follows, namesnap);
                    }
                    self.conns.insert(ci, c);
                    proof {
                        let csf = self.conns.deep_view();
                        let target = spec_follow(cs0, id, name@);
                        assert(self.conns@ =~= old(self).conns@.remove(ci as int).insert(
                            ci as int,
                            self.conns@[ci as int],
                        ));
                        assert forall|i: int| 0 <= i < csf.len() implies csf[i] == target[i] by {
                            if i != ci as int {
                                assert(self.conns@[i] == old(self).conns@[i]);
                                assert(cs0[i].id != id) by {
                                    if cs0[i].id == id && i != ci as int {
                                        assert(cs0[i].id != cs0[ci as int].id);
                                    }
                                }
                            } else {
                                assert(csf[i].follows =~= cs0[i].follows.push(name@));
                            }
                        }
                        assert(csf =~= target);
                        assert(distinct_names(cs0[ci as int].follows.push(name@))) by {
                            let nsp = cs0[ci as int].follows.push(name@);
                            assert forall|x: int, y: int| 0 <= x < y < nsp.len() implies nsp[x]
                                != nsp[y] by {
                                if y == nsp.len() - 1 {
                                    if cs0[ci as int].follows.contains(nsp[x]) && nsp[x] == name@ {
                                        assert(false);
                                    }
                                    assert(cs0[ci as int].follows[x] == nsp[x]);
                                }
                            }
                        }
                        assert(final(self).wf());
                    }
                }
            },
        }
    }

    /// Idempotently removes `name` from the interest set of connection
    /// `id`: afterwards the table is exactly `spec_unfollow` of the old
    /// table. Unfollowing a name never followed changes nothing.
    pub fn unfollow(&mut self, id: u64, name: &Vec<u8>)
        requires
            old(self).wf(),
        ensures
            final(self).wf(),
            final(self).conns.deep_view() == spec_unfollow(
                old(self).conns.deep_view(),
                id,
                name@,
            ),
            final(self).bosses == old(self).bosses,
            final(self).history == old(self).history,
            final(self).next_id == old(self).next_id,
            final(self).history_size == old(self).history_size,
    {
        let ghost cs0 = self.conns.deep_view();
        let found = self.find_conn(id);
        match found {
            None => {
                proof {
                    assert forall|i: int| 0 <= i < cs0.len() implies cs0[i].id != id by {
                        if cs0[i].id == id {
                            assert(has_conn(cs0, id));
                        }
                    }
                    assert(spec_unfollow(cs0, id, name@) =~= cs0);
                }
            },
            Some(ci) => {
                let mut c = self.conns.remove(ci);
                let ghost oldfollows = c.follows.deep_view();
                let mut nf: Vec<Vec<u8>> = Vec::new();
                let mut k: usize = 0;
                proof {
                    assert(nf.deep_view() =~= Seq::<Seq<u8>>::empty());
                    assert(oldfollows.take(0) =~= Seq::<Seq<u8>>::empty());
                    assert(remove_name(oldfollows.take(0), name@) == oldfollows.take(0));
                }
                while k < c.follows.len()
                    invariant
                        k <= c.follows@.len(),
                        oldfollows == c.follows.deep_view(),
                        nf.deep_view() == remove_name(oldfollows.take(k as int), name@),
                    decreases c.follows@.len() - k,
                {
                    let keep = !bytes_eq(&c.follows[k], name);
                    proof {
                        assert(oldfollows.take(k + 1) =~= oldfollows.take(k as int).push(
                            oldfollows[k as int],
                        ));
                        lemma_remove_name_push(oldfollows.take(k as int), oldfollows[k as int], name@);
                    }
                    if keep {
                        let kept = copy_bytes(&c.follows[k]);
                        let ghost pre = nf;
                        let ghost keptsnap = kept;
                        nf.push(kept);
                        proof {
                            lemma_deep_view_push_gen(pre, nf, keptsnap);
                            assert(nf.deep_view() =~= remove_name(
                                oldfollows.take(k + 1),
                                name@,
                            ));
                        }
                    }
                    k = k + 1;
                }
                proof {
                    assert(oldfollows.take(oldfollows.len() as int) =~= oldfollows);
                }
                c.follows = nf;
                self.conns.insert(ci, c);
                proof {
                    let csf = self.conns.deep_view();
                    let target = spec_unfollow(cs0, id, name@);
                    lemma_remove_name_props(oldfollows, name@);
                    assert forall|i: int| 0 <= i < csf.len() implies csf[i] == target[i] by {
                        if i != ci as int {
                            assert(self.conns@[i] == old(self).conns@[i]);
                            assert(cs0[i].id != id) by {
                                if cs0[i].id == id && i != ci as int {
                                    assert(cs0[i].id != cs0[ci as int].id);
                                }
                            }
                        }
                    }
                    assert(csf =~= target);
                    assert(final(self).wf());
                }
            },
        }
    }

    /// Unregisters connection `id` entirely, releasing all its interests.
    pub fn unsubscribe(&mut self, id: u64)
        requires
            old(self).wf(),
        ensures
            final(self).wf(),
            !has_conn(final(self).conns.deep_view(), id),
            final(self).conns.deep_view() == spec_remove_conn(old(self).conns.deep_view(), id),
            final(self).bosses == old(self).bosses,
            final(self).history == old(self).history,
            final(self).next_id == old(self).next_id,
            final(self).history_size == old(self).history_size,
    {
        let ghost cs0 = self.conns.deep_view();
        let found = self.find_conn(id);
        match found {
            None => {
                proof {
                    assert forall|i: int| 0 <= i < cs0.len() implies cs0[i].id != id by {
                        if cs0[i].id == id {
                            assert(has_conn(cs0, id));
                        }
                    }
                    lemma_remove_conn_absent(cs0, id);
                    assert(!has_conn(spec_remove_conn(cs0, id), id)) by {
                        lemma_remove_conn_props(cs0, id);
                    }
                }
            },
            Some(ci) => {
                let _gone = self.conns.remove(ci);
                proof {
                    lemma_remove_conn_props(cs0, id);
                    assert forall|i: int| 0 <= i < cs0.len() && i != ci as int implies cs0[i].id
                        != id by {
                        if cs0[i].id == id {
                            if i < ci as int {
                                assert(cs0[i].id != cs0[ci as int].id);
                            } else {
                                assert(cs0[ci as int].id != cs0[i].id);
                            }
                        }
                    }
                    lemma_remove_conn_single(cs0, id, ci as int);
                    assert(self.conns.deep_view() =~= cs0.remove(ci as int));
                    assert(final(self).wf());
                }
            },
        }
    }
}

/// `cs` with every connection of id `id` removed, order kept.
pub open spec fn spec_remove_conn(cs: Seq<ConnectionView>, id: u64) -> Seq<ConnectionView>
    decreases cs.len(),
{
    if cs.len() == 0 {
        cs
    } else if cs[0].id == id {
        spec_remove_conn(cs.drop_first(), id)
    } else {
        seq![cs[0]] + spec_remove_conn(cs.drop_first(), id)
    }
}

/// Removing an absent id changes nothing.
proof fn lemma_remove_conn_absent(cs: Seq<ConnectionView>, id: u64)
    requires
        forall|i: int| 0 <= i < cs.len() ==> cs[i].id != id,
    ensures
        spec_remove_conn(cs, id) == cs,
    decreases cs.len(),
{
    if cs.len() > 0 {
        lemma_remove_conn_absent(cs.drop_first(), id);
        assert(spec_remove_conn(cs, id) =~= cs);
    }
}

/// What `spec_remove_conn` keeps: exactly the other connections.
proof fn lemma_remove_conn_props(cs: Seq<ConnectionView>, id: u64)
    ensures
        forall|m: ConnectionView|
            #[trigger] spec_remove_conn(cs, id).contains(m) <==> (cs.contains(m) && m.id != id),
        spec_remove_conn(cs, id).len() <= cs.len(),
    decreases cs.len(),
{
    let out = spec_remove_conn(cs, id);
    if cs.len() == 0 {
        assert forall|m: ConnectionView| #[trigger] out.contains(m) implies (cs.contains(m) && m.id
            != id) by {}
        assert forall|m: ConnectionView| cs.contains(m) && m.id != id implies #[trigger] out.contains(
            m,
        ) by {}
    } else {
        let rest = cs.drop_first();
        lemma_remove_conn_props(rest, id);
        assert forall|m: ConnectionView| #[trigger] out.contains(m) implies (cs.contains(m) && m.id
            != id) by {
            if cs[0].id == id {
                assert(spec_remove_conn(rest, id).contains(m));
                let w = choose|w: int| 0 <= w < rest.len() && rest[w] == m;
                assert(cs[w + 1] == m);
            } else {
                let w = choose|w: int| 0 <= w < out.len() && out[w] == m;
                if w == 0 {
                    assert(cs[0] == m);
                    assert(cs.contains(m));
                } else {
                    assert(spec_remove_conn(rest, id)[w - 1] == m);
                    assert(spec_remove_conn(rest, id).contains(m));
                    let v = choose|v: int| 0 <= v < rest.len() && rest[v] == m;
                    assert(cs[v + 1] == m);
                }
            }
        }
        assert forall|m: ConnectionView| cs.contains(m) && m.id != id implies #[trigger] out.contains(
            m,
        ) by {
            let w = choose|w: int| 0 <= w < cs.len() && cs[w] == m;
            if w == 0 {
                assert(out[0] == m);
            } else {
                assert(rest[w - 1] == m);
                assert(rest.contains(m));
                assert(spec_remove_conn(rest, id).contains(m));
                let v = choose|v: int|
                    0 <= v < spec_remove_conn(rest, id).len() && spec_remove_conn(rest, id)[v]
                        == m;
                if cs[0].id == id {
                    assert(out[v] == m);
                } else {
                    assert(out[v + 1] == m);
                }
            }
        }
    }
}

/// When only position `ci` carries `id`, removal is dropping that index.
proof fn lemma_remove_conn_single(cs: Seq<ConnectionView>, id: u64, ci: int)
    requires
        0 <= ci < cs.len(),
        cs[ci].id == id,
        forall|i: int| 0 <= i < cs.len() && i != ci ==> cs[i].id != id,
    ensures
        spec_remove_conn(cs, id) == cs.remove(ci),
    decreases cs.len(),
{
    if ci == 0 {
        lemma_remove_conn_absent(cs.drop_first(), id);
        assert(spec_remove_conn(cs, id) =~= cs.remove(0));
    } else {
        assert forall|i: int| 0 <= i < cs.drop_first().len() && i != ci - 1 implies cs.drop_first()[i].id
            != id by {
            assert(cs[i + 1].id != id);
        }
        lemma_remove_conn_single(cs.drop_first(), id, ci - 1);
        assert(cs.drop_first().remove(ci - 1) =~= cs.remove(ci).drop_first());
        assert(spec_remove_conn(cs, id) =~= cs.remove(ci));
    }
}

/// One delivery of `bytes` per connection, in table order.
pub open spec fn broadcast_deliveries(cs: Seq<ConnectionView>, bytes: Seq<u8>) -> Seq<
    DeliveryView,
>
    decreases cs.len(),
{
    if cs.len() == 0 {
        Seq::empty()
    } else {
        seq![DeliveryView { conn: cs[0].id, bytes }] + broadcast_deliveries(
            cs.drop_first(),
            bytes,
        )
    }
}

/// One delivery of `bytes` per connection following `name`, in table order.
pub open spec fn follower_deliveries(cs: Seq<ConnectionView>, name: Seq<u8>, bytes: Seq<u8>) -> Seq<
    DeliveryView,
>
    decreases cs.len(),
{
    if cs.len() == 0 {
        Seq::empty()
    } else {
        let rest = follower_deliveries(cs.drop_first(), name, bytes);
        if cs[0].follows.contains(name) {
            seq![DeliveryView { conn: cs[0].id, bytes }] + rest
        } else {
            rest
        }
    }
}

proof fn lemma_broadcast_push(a: Seq<ConnectionView>, c: ConnectionView, bytes: Seq<u8>)
    ensures
        broadcast_deliveries(a.push(c), bytes) == broadcast_deliveries(a, bytes).push(
            DeliveryView { conn: c.id, bytes },
        ),
    decreases a.len(),
{
    let ap = a.push(c);
    assert(broadcast_deliveries(Seq::<ConnectionView>::empty(), bytes) == Seq::<
        DeliveryView,
    >::empty());
    if a.len() == 0 {
        assert(ap.drop_first() =~= Seq::<ConnectionView>::empty());
        assert(broadcast_deliveries(ap, bytes) == seq![DeliveryView { conn: ap[0].id, bytes }]
            + broadcast_deliveries(ap.drop_first(), bytes));
        assert(broadcast_deliveries(ap, bytes) =~= broadcast_deliveries(a, bytes).push(
            DeliveryView { conn: c.id, bytes },
        ));
    } else {
        assert(ap[0] == a[0]);
        assert(ap.drop_first() =~= a.drop_first().push(c));
        lemma_broadcast_push(a.drop_first(), c, bytes);
        assert(broadcast_deliveries(ap, bytes) == seq![DeliveryView { conn: ap[0].id, bytes }]
            + broadcast_deliveries(ap.drop_first(), bytes));
        assert(broadcast_deliveries(a, bytes) == seq![DeliveryView { conn: a[0].id, bytes }]
            + broadcast_deliveries(a.drop_first(), bytes));
        assert(broadcast_deliveries(ap, bytes) =~= broadcast_deliveries(a, bytes).push(
            DeliveryView { conn: c.id, bytes },
        ));
    }
}

proof fn lemma_follower_push(a: Seq<ConnectionView>, c: ConnectionView, name: Seq<u8>, bytes: Seq<u8>)
    ensures
        follower_deliveries(a.push(c), name, bytes) == if c.follows.contains(name) {
            follower_deliveries(a, name, bytes).push(DeliveryView { conn: c.id, bytes })
        } else {
            follower_deliveries(a, name, bytes)
        },
    decreases a.len(),
{
    let ap = a.push(c);
    assert(follower_deliveries(Seq::<ConnectionView>::empty(), name, bytes) == Seq::<
        DeliveryView,
    >::empty());
    if a.len() == 0 {
        assert(ap.drop_first() =~= Seq::<ConnectionView>::empty());
        assert(follower_deliveries(ap, name, bytes) == if ap[0].follows.contains(name) {
            seq![DeliveryView { conn: ap[0].id, bytes }] + follower_deliveries(
                ap.drop_first(),
                name,
                bytes,
            )
        } else {
            follower_deliveries(ap.drop_first(), name, bytes)
        });
        if c.follows.contains(name) {
            assert(follower_deliveries(ap, name, bytes) =~= follower_deliveries(
                a,
                name,
                bytes,
            ).push(DeliveryView { conn: c.id, bytes }));
        } else {
            assert(follower_deliveries(ap, name, bytes) =~= follower_deliveries(a, name, bytes));
        }
    } else {
        assert(ap[0] == a[0]);
        assert(ap.drop_first() =~= a.drop_first().push(c));
        lemma_follower_push(a.drop_first(), c, name, bytes);
        assert(follower_deliveries(ap, name, bytes) == if ap[0].follows.contains(name) {
            seq![DeliveryView { conn: ap[0].id, bytes }] + follower_deliveries(
                ap.drop_first(),
                name,
                bytes,
            )
        } else {
            follower_deliveries(ap.drop_first(), name, bytes)
        });
        assert(follower_deliveries(a, name, bytes) == if a[0].follows.contains(name) {
            seq![DeliveryView { conn: a[0].id, bytes }] + follower_deliveries(
                a.drop_first(),
                name,
                bytes,
            )
        } else {
            follower_deliveries(a.drop_first(), name, bytes)
        });
        if c.follows.contains(name) {
            assert(follower_deliveries(ap, name, bytes) =~= follower_deliveries(
                a,
                name,
                bytes,
            ).push(DeliveryView { conn: c.id, bytes }));
        } else {
            assert(follower_deliveries(ap, name, bytes) =~= follower_deliveries(a, name, bytes));
        }
    }
}

/// Whether some boss-table entry carries `name`.
pub open spec fn has_boss(bs: Seq<crate::model::MetadataView>, name: Seq<u8>) -> bool {
    exists|i: int| 0 <= i < bs.len() && bs[i].boss.name == name
}

/// The boss table after sighting `b` at `now_s` (seconds): the entry of
/// that name is replaced with the new identity and a refreshed last-seen
/// time (its image hash kept); an unknown boss is appended.
pub open spec fn spec_upsert_boss(
    bs: Seq<crate::model::MetadataView>,
    b: crate::model::BossView,
    now_s: u64,
) -> Seq<crate::model::MetadataView> {
    if has_boss(bs, b.name) {
        Seq::new(
            bs.len(),
            |i: int|
                if bs[i].boss.name == b.name {
                    crate::model::MetadataView { boss: b, last_seen: now_s, image_hash: bs[i].image_hash }
                } else {
                    bs[i]
                },
        )
    } else {
        bs.push(crate::model::MetadataView { boss: b, last_seen: now_s, image_hash: None })
    }
}

/// The boss table after sighting every boss of `l` in order.
pub open spec fn spec_upsert_all(
    bs: Seq<crate::model::MetadataView>,
    l: Seq<crate::model::BossView>,
    now_s: u64,
) -> Seq<crate::model::MetadataView>
    decreases l.len(),
{
    if l.len() == 0 {
        bs
    } else {
        spec_upsert_all(spec_upsert_boss(bs, l[0], now_s), l.drop_first(), now_s)
    }
}

/// The boss table with the entry named `name` removed.
pub open spec fn spec_remove_boss(bs: Seq<crate::model::MetadataView>, name: Seq<u8>) -> Seq<
    crate::model::MetadataView,
>
    decreases bs.len(),
{
    if bs.len() == 0 {
        bs
    } else if bs[0].boss.name == name {
        spec_remove_boss(bs.drop_first(), name)
    } else {
        seq![bs[0]] + spec_remove_boss(bs.drop_first(), name)
    }
}

/// A bounded ring after one more tweet: append, evicting the oldest when
/// the ring is full.
pub open spec fn ring_push(ts: Seq<TweetView>, t: TweetView, cap: nat) -> Seq<TweetView> {
    if ts.len() < cap {
        ts.push(t)
    } else {
        ts.drop_first().push(t)
    }
}

/// The history rings after `t` is pushed into the ring of `name`: a new
/// singleton ring when none exists yet.
pub open spec fn spec_push_history(rs: Seq<RingView>, name: Seq<u8>, t: TweetView, cap: nat) -> Seq<
    RingView,
> {
    if exists|i: int| 0 <= i < rs.len() && rs[i].name == name {
        Seq::new(
            rs.len(),
            |i: int|
                if rs[i].name == name {
                    RingView { name: rs[i].name, tweets: ring_push(rs[i].tweets, t, cap) }
                } else {
                    rs[i]
                },
        )
    } else {
        rs.push(RingView { name, tweets: seq![t] })
    }
}

/// The history rings after every tweet of `ts`, in order, is pushed into
/// the ring of its own boss.
pub open spec fn spec_push_history_all(rs: Seq<RingView>, ts: Seq<TweetView>, cap: nat) -> Seq<
    RingView,
>
    decreases ts.len(),
{
    if ts.len() == 0 {
        rs
    } else {
        spec_push_history_all(
            spec_push_history(rs, ts[0].boss_name, ts[0], cap),
            ts.drop_first(),
            cap,
        )
    }
}

/// The buffered tweets of the ring named `name`; empty when none exists.
pub open spec fn ring_tweets(rs: Seq<RingView>, name: Seq<u8>) -> Seq<TweetView>
    decreases rs.len(),
{
    if rs.len() == 0 {
        Seq::empty()
    } else if rs[0].name == name {
        rs[0].tweets
    } else {
        ring_tweets(rs.drop_first(), name)
    }
}

proof fn lemma_ring_tweets_at(rs: Seq<RingView>, name: Seq<u8>, i: int)
    requires
        distinct_ring_names(rs),
        0 <= i < rs.len(),
        rs[i].name == name,
    ensures
        ring_tweets(rs, name) == rs[i].tweets,
    decreases rs.len(),
{
    if i > 0 {
        assert(rs[0].name != name);
        assert forall|x: int, y: int| 0 <= x < y < rs.drop_first().len() implies rs.drop_first()[x].name
            != rs.drop_first()[y].name by {
            assert(rs[x + 1].name != rs[y + 1].name);
        }
        lemma_ring_tweets_at(rs.drop_first(), name, i - 1);
    }
}

proof fn lemma_ring_tweets_absent(rs: Seq<RingView>, name: Seq<u8>)
    requires
        forall|i: int| 0 <= i < rs.len() ==> rs[i].name != name,
    ensures
        ring_tweets(rs, name) == Seq::<TweetView>::empty(),
    decreases rs.len(),
{
    if rs.len() > 0 {
        assert forall|i: int| 0 <= i < rs.drop_first().len() implies rs.drop_first()[i].name
            != name by {
            assert(rs[i + 1].name != name);
        }
        lemma_ring_tweets_absent(rs.drop_first(), name);
    }
}

/// The deliveries a `get_tweets` triggers: the whole ring of `name`,
/// oldest first, each tweet in its own frame, in one write to `id` —
/// nothing at all when nothing is buffered.
pub open spec fn spec_get_tweets_deliveries(rs: Seq<RingView>, id: u64, name: Seq<u8>) -> Seq<
    DeliveryView,
> {
    let ts = ring_tweets(rs, name);
    if ts.len() == 0 {
        Seq::empty()
    } else {
        seq![DeliveryView { conn: id, bytes: envelope::spec_tweet_frames(ts) }]
    }
}

/// The boss identities of a boss table, in order.
pub open spec fn bosses_of(bs: Seq<crate::model::MetadataView>) -> Seq<crate::model::BossView> {
    bs.map_values(|m: crate::model::MetadataView| m.boss)
}

/// The deliveries a domain event causes: heartbeats and boss news go to
/// everyone, a tweet to the followers of its boss, a tweet list to the
/// followers of its first tweet's boss, a removal to nobody.
pub open spec fn event_deliveries(
    cs: Seq<ConnectionView>,
    e: crate::model::EventView,
    now_ms: u64,
) -> Seq<DeliveryView> {
    match e {
        crate::model::EventView::Heartbeat => broadcast_deliveries(
            cs,
            codec::frame_bytes(2, envelope::enc_keepalive_response()),
        ),
        crate::model::EventView::Tweet(t) => follower_deliveries(
            cs,
            t.boss_name,
            codec::frame_bytes(2, envelope::enc_tweet_response(t)),
        ),
        crate::model::EventView::TweetList(ts) => if ts.len() == 0 {
            Seq::empty()
        } else {
            follower_deliveries(cs, ts[0].boss_name, envelope::spec_tweet_frames(ts))
        },
        crate::model::EventView::BossUpdate(b) => broadcast_deliveries(
            cs,
            codec::frame_bytes(2, envelope::enc_bosses_response(seq![b], now_ms)),
        ),
        crate::model::EventView::BossList(bs) => broadcast_deliveries(
            cs,
            codec::frame_bytes(2, envelope::enc_bosses_response(bs, now_ms)),
        ),
        crate::model::EventView::BossRemove(_) => Seq::empty(),
    }
}

/// How a domain event changes the history rings.
pub open spec fn event_history(rs: Seq<RingView>, e: crate::model::EventView, cap: nat) -> Seq<
    RingView,
> {
    match e {
        crate::model::EventView::Tweet(t) => spec_push_history(rs, t.boss_name, t, cap),
        crate::model::EventView::TweetList(ts) => spec_push_history_all(rs, ts, cap),
        _ => rs,
    }
}

/// How a domain event changes the boss table (`now_ms` is taken in
/// milliseconds and recorded in seconds).
pub open spec fn event_bosses(
    bs: Seq<crate::model::MetadataView>,
    e: crate::model::EventView,
    now_ms: u64,
) -> Seq<crate::model::MetadataView> {
    match e {
        crate::model::EventView::BossUpdate(b) => spec_upsert_boss(bs, b, (now_ms / 1000) as u64),
        crate::model::EventView::BossList(l) => spec_upsert_all(bs, l, (now_ms / 1000) as u64),
        crate::model::EventView::BossRemove(n) => spec_remove_boss(bs, n),
        _ => bs,
    }
}

/// The subscription table after connection `id` follows every name of
/// `ns` in order.
pub open spec fn spec_follow_all(cs: Seq<ConnectionView>, id: u64, ns: Seq<Seq<u8>>) -> Seq<
    ConnectionView,
>
    decreases ns.len(),
{
    if ns.len() == 0 {
        cs
    } else {
        spec_follow_all(spec_follow(cs, id, ns[0]), id, ns.drop_first())
    }
}

/// The subscription table after connection `id` unfollows every name of
/// `ns` in order.
pub open spec fn spec_unfollow_all(cs: Seq<ConnectionView>, id: u64, ns: Seq<Seq<u8>>) -> Seq<
    ConnectionView,
>
    decreases ns.len(),
{
    if ns.len() == 0 {
        cs
    } else {
        spec_unfollow_all(spec_unfollow(cs, id, ns[0]), id, ns.drop_first())
    }
}

/// The tweet replays for each name of `ns` in order, all addressed to `id`.
pub open spec fn spec_tweets_for(rs: Seq<RingView>, id: u64, ns: Seq<Seq<u8>>) -> Seq<DeliveryView>
    decreases ns.len(),
{
    if ns.len() == 0 {
        Seq::empty()
    } else {
        spec_get_tweets_deliveries(rs, id, ns[0]) + spec_tweets_for(rs, id, ns.drop_first())
    }
}

/// The deliveries a request triggers, all addressed to the requesting
/// connection alone: a boss snapshot, tweet replays (for a plain request
/// and for a follow alike), nothing for an unfollow.
pub open spec fn request_deliveries(
    bs: Seq<crate::model::MetadataView>,
    rs: Seq<RingView>,
    id: u64,
    q: envelope::RequestView,
    now_ms: u64,
) -> Seq<DeliveryView> {
    match q {
        envelope::RequestView::AllRaidBosses => seq![
            DeliveryView {
                conn: id,
                bytes: codec::frame_bytes(
                    2,
                    envelope::enc_bosses_response(bosses_of(bs), now_ms),
                ),
            },
        ],
        envelope::RequestView::RaidBosses(ns) => spec_tweets_for(rs, id, ns),
        envelope::RequestView::Follow(ns) => spec_tweets_for(rs, id, ns),
        envelope::RequestView::Unfollow(_) => Seq::empty(),
    }
}

/// How a request changes the subscription table.
pub open spec fn request_conns(cs: Seq<ConnectionView>, q: envelope::RequestView, id: u64) -> Seq<
    ConnectionView,
> {
    match q {
        envelope::RequestView::Follow(ns) => spec_follow_all(cs, id, ns),
        envelope::RequestView::Unfollow(ns) => spec_unfollow_all(cs, id, ns),
        _ => cs,
    }
}

proof fn lemma_deep_view_concat<T: DeepView>(pre: Vec<T>, post: Vec<T>, other: Vec<T>)
    requires
        post@ == pre@ + other@,
    ensures
        post.deep_view() =~= pre.deep_view() + other.deep_view(),
{
    assert forall|j: int| 0 <= j < post@.len() implies post.deep_view()[j] == (pre.deep_view()
        + other.deep_view())[j] by {
        if j < pre@.len() {
            assert(post@[j] == pre@[j]);
        } else {
            assert(post@[j] == other@[j - pre@.len()]);
        }
    }
}

impl Broker {
    /// Dispatches one decoded request for connection `id`: a snapshot
    /// request answers with the boss list, a tweets request replays each
    /// named boss's buffer, a follow registers each name and replays its
    /// buffer, an unfollow just deregisters each name.
    pub fn handle_request(&mut self, id: u64, req: &envelope::Request, now_ms: u64) -> (r: Vec<
        Delivery,
    >)
        requires
            old(self).wf(),
        ensures
            final(self).wf(),
            final(self).conns.deep_view() == request_conns(
                old(self).conns.deep_view(),
                req@,
                id,
            ),
            final(self).bosses == old(self).bosses,
            final(self).history == old(self).history,
            final(self).next_id == old(self).next_id,
            final(self).history_size == old(self).history_size,
            r.deep_view() == request_deliveries(
                old(self).bosses.deep_view(),
                old(self).history.deep_view(),
                id,
                req@,
                now_ms,
            ),
    {
        match req {
            envelope::Request::AllRaidBosses => {
                let r = self.get_bosses(id, now_ms);
                r
            },
            envelope::Request::RaidBosses(ns) => {
                let ghost nsv = ns.deep_view();
                let ghost rs = self.history.deep_view();
                let mut out: Vec<Delivery> = Vec::new();
                let mut k: usize = 0;
                proof {
                    assert(nsv.skip(0) =~= nsv);
                    assert(out.deep_view() =~= Seq::<DeliveryView>::empty());
                }
                while k < ns.len()
                    invariant
                        k <= ns@.len(),
                        nsv == ns.deep_view(),
                        rs == self.history.deep_view(),
                        self.wf(),
                        spec_tweets_for(rs, id, nsv) =~= out.deep_view() + spec_tweets_for(
                            rs,
                            id,
                            nsv.skip(k as int),
                        ),
                    decreases ns@.len() - k,
                {
                    let ghost pre = out;
                    let mut d = self.get_tweets(id, &ns[k]);
                    let ghost dsnap = d;
                    out.append(&mut d);
                    proof {
                        lemma_deep_view_concat(pre, out, dsnap);
                        assert(nsv.skip(k as int)[0] == nsv[k as int]);
                        assert(nsv.skip(k as int).drop_first() =~= nsv.skip(k + 1));
                        assert(ns[k as int]@ == nsv[k as int]);
                        assert(spec_tweets_for(rs, id, nsv.skip(k as int))
                            == spec_get_tweets_deliveries(rs, id, nsv[k as int]) + spec_tweets_for(
                            rs,
                            id,
                            nsv.skip(k + 1),
                        ));
                        assert(spec_tweets_for(rs, id, nsv) =~= out.deep_view() + spec_tweets_for(
                            rs,
                            id,
                            nsv.skip(k + 1),
                        ));
                    }
                    k = k + 1;
                }
                proof {
                    assert(nsv.skip(nsv.len() as int) =~= Seq::<Seq<u8>>::empty());
                    assert(spec_tweets_for(rs, id, nsv.skip(nsv.len() as int)) == Seq::<
                        DeliveryView,
                    >::empty());
                    assert(out.deep_view() =~= spec_tweets_for(rs, id, nsv));
                }
                out
            },
            envelope::Request::Follow(ns) => {
                let ghost nsv = ns.deep_view();
                let ghost rs = self.history.deep_view();
                let ghost cs0 = self.conns.deep_view();
                let mut out: Vec<Delivery> = Vec::new();
                let mut k: usize = 0;
                proof {
                    assert(nsv.skip(0) =~= nsv);
                    assert(out.deep_view() =~= Seq::<DeliveryView>::empty());
                }
                while k < ns.len()
                    invariant
                        k <= ns@.len(),
                        nsv == ns.deep_view(),
                        rs == self.history.deep_view(),
                        self.wf(),
                        self.bosses == old(self).bosses,
                        self.history == old(self).history,
                        self.next_id == old(self).next_id,
                        self.history_size == old(self).history_size,
                        spec_follow_all(cs0, id, nsv) == spec_follow_all(
                            self.conns.deep_view(),
                            id,
                            nsv.skip(k as int),
                        ),
                        spec_tweets_for(rs, id, nsv) =~= out.deep_view() + spec_tweets_for(
                            rs,
                            id,
                            nsv.skip(k as int),
                        ),
                    decreases ns@.len() - k,
                {
                    proof {
                        assert(nsv.skip(k as int)[0] == nsv[k as int]);
                        assert(nsv.skip(k as int).drop_first() =~= nsv.skip(k + 1));
                        assert(ns[k as int]@ == nsv[k as int]);
                    }
                    let name = copy_bytes(&ns[k]);
                    self.follow(id, name);
                    let ghost pre = out;
                    let mut d = self.get_tweets(id, &ns[k]);
                    let ghost dsnap = d;
                    out.append(&mut d);
                    proof {
                        lemma_deep_view_concat(pre, out, dsnap);
                        assert(spec_tweets_for(rs, id, nsv.skip(k as int))
                            == spec_get_tweets_deliveries(rs, id, nsv[k as int]) + spec_tweets_for(
                            rs,
                            id,
                            nsv.skip(k + 1),
                        ));
                        assert(spec_tweets_for(rs, id, nsv) =~= out.deep_view() + spec_tweets_for(
                            rs,
                            id,
                            nsv.skip(k + 1),
                        ));
                    }
                    k = k + 1;
                }
                proof {
                    assert(nsv.skip(nsv.len() as int) =~= Seq::<Seq<u8>>::empty());
                    assert(spec_tweets_for(rs, id, nsv.skip(nsv.len() as int)) == Seq::<
                        DeliveryView,
                    >::empty());
                    assert(out.deep_view() =~= spec_tweets_for(rs, id, nsv));
                }
                out
            },
            envelope::Request::Unfollow(ns) => {
                let ghost nsv = ns.deep_view();
                let ghost cs0 = self.conns.deep_view();
                let mut k: usize = 0;
                proof {
                    assert(nsv.skip(0) =~= nsv);
                }
                while k < ns.len()
                    invariant
                        k <= ns@.len(),
                        nsv == ns.deep_view(),
                        self.wf(),
                        self.bosses == old(self).bosses,
                        self.history == old(self).history,
                        self.next_id == old(self).next_id,
                        self.history_size == old(self).history_size,
                        spec_unfollow_all(cs0, id, nsv) == spec_unfollow_all(
                            self.conns.deep_view(),
                            id,
                            nsv.skip(k as int),
                        ),
                    decreases ns@.len() - k,
                {
                    proof {
                        assert(nsv.skip(k as int)[0] == nsv[k as int]);
                        assert(nsv.skip(k as int).drop_first() =~= nsv.skip(k + 1));
                        assert(ns[k as int]@ == nsv[k as int]);
                    }
                    self.unfollow(id, &ns[k]);
                    k = k + 1;
                }
                proof {
                    assert(nsv.skip(nsv.len() as int) =~= Seq::<Seq<u8>>::empty());
                }
                let empty: Vec<Delivery> = Vec::new();
                proof {
                    assert(empty.deep_view() =~= Seq::<DeliveryView>::empty());
                }
                empty
            },
        }
    }

    /// Seeds the boss table with records loaded from the cache, keeping
    /// each record's own last-seen time. A record whose name is already
    /// present (in the table or earlier in the batch) is dropped.
    pub fn set_bosses(&mut self, bosses: &Vec<RaidBossMetadata>)
        requires
            old(self).wf(),
        ensures
            final(self).wf(),
            final(self).bosses.deep_view() == spec_seed_bosses(
                old(self).bosses.deep_view(),
                bosses.deep_view(),
            ),
            final(self).conns == old(self).conns,
            final(self).history == old(self).history,
            final(self).next_id == old(self).next_id,
            final(self).history_size == old(self).history_size,
    {
        let ghost msv = bosses.deep_view();
        let ghost bs0 = self.bosses.deep_view();
        let mut k: usize = 0;
        proof {
            assert(msv.skip(0) =~= msv);
        }
        while k < bosses.len()
            invariant
                k <= bosses@.len(),
                msv == bosses.deep_view(),
                self.wf(),
                self.conns == old(self).conns,
                self.history == old(self).history,
                self.next_id == old(self).next_id,
                self.history_size == old(self).history_size,
                spec_seed_bosses(bs0, msv) == spec_seed_bosses(
                    self.bosses.deep_view(),
                    msv.skip(k as int),
                ),
            decreases bosses@.len() - k,
        {
            proof {
                assert(msv.skip(k as int)[0] == msv[k as int]);
                assert(msv.skip(k as int).drop_first() =~= msv.skip(k + 1));
                assert(bosses[k as int]@ == msv[k as int]);
            }
            let found = self.find_boss(&bosses[k].boss.name);
            match found {
                Some(i) => {
                    proof {
                        assert(has_boss(self.bosses.deep_view(), msv[k as int].boss.name)) by {
                            assert(self.bosses.deep_view()[i as int].boss.name
                                == msv[k as int].boss.name);
                        }
                    }
                },
                None => {
                    proof {
                        assert(!has_boss(self.bosses.deep_view(), msv[k as int].boss.name)) by {
                            if has_boss(self.bosses.deep_view(), msv[k as int].boss.name) {
                                let w = choose|w: int|
                                    0 <= w < self.bosses.deep_view().len()
                                        && self.bosses.deep_view()[w].boss.name
                                        == msv[k as int].boss.name;
                                assert(self.bosses.deep_view()[w].boss.name
                                    != msv[k as int].boss.name);
                            }
                        }
                    }
                    let m = copy_metadata(&bosses[k]);
                    let ghost pre = self.bosses;
                    let ghost msnap = m;
                    self.bosses.push(m);
                    proof {
                        lemma_deep_view_push_gen(pre, self.bosses, msnap);
                        assert(self.bosses.deep_view() =~= pre.deep_view().push(msv[k as int]));
                    }
                },
            }
            k = k + 1;
        }
        proof {
            assert(msv.skip(msv.len() as int) =~= Seq::<crate::model::MetadataView>::empty());
        }
    }

    /// How many connections are subscribed right now: a counter for the
    /// diagnostics snapshot.
    pub fn connection_count(&self) -> (r: usize)
        ensures
            r == self.conns@.len(),
    {
        self.conns.len()
    }

    /// How many bosses the authoritative table knows.
    pub fn boss_count(&self) -> (r: usize)
        ensures
            r == self.bosses@.len(),
    {
        self.bosses.len()
    }

    /// A copy of the whole boss table, for the periodic cache flush.
    pub fn export_metadata(&self) -> (r: Vec<RaidBossMetadata>)
        ensures
            r.deep_view() == self.bosses.deep_view(),
    {
        let mut out: Vec<RaidBossMetadata> = Vec::new();
        let mut i: usize = 0;
        while i < self.bosses.len()
            invariant
                i <= self.bosses@.len(),
                out@.len() == i,
                forall|j: int| 0 <= j < i ==> out@[j]@ == self.bosses.deep_view()[j],
            decreases self.bosses@.len() - i,
        {
            out.push(copy_metadata(&self.bosses[i]));
            i = i + 1;
        }
        proof {
            assert forall|j: int| 0 <= j < out@.len() implies out.deep_view()[j]
                == self.bosses.deep_view()[j] by {
                assert(out.deep_view()[j] == out@[j]@);
            }
            assert(out.deep_view() =~= self.bosses.deep_view());
        }
        out
    }
}

/// The boss table after seeding with a batch of cached records, in order,
/// dropping any record whose name is already present.
pub open spec fn spec_seed_bosses(
    acc: Seq<crate::model::MetadataView>,
    ms: Seq<crate::model::MetadataView>,
) -> Seq<crate::model::MetadataView>
    decreases ms.len(),
{
    if ms.len() == 0 {
        acc
    } else {
        spec_seed_bosses(
            if has_boss(acc, ms[0].boss.name) {
                acc
            } else {
                acc.push(ms[0])
            },
            ms.drop_first(),
        )
    }
}

/// How many of the deliveries `ds` are addressed to `id`.
pub open spec fn deliveries_to(ds: Seq<DeliveryView>, id: u64) -> int
    decreases ds.len(),
{
    if ds.len() == 0 {
        0
    } else {
        (if ds[0].conn == id {
            1int
        } else {
            0int
        }) + deliveries_to(ds.drop_first(), id)
    }
}

/// Fan-out of a followed event: with distinct connection ids, a tweet's
/// deliveries reach a connection exactly once when it follows the boss and
/// never otherwise.
pub proof fn lemma_tweet_fanout(cs: Seq<ConnectionView>, name: Seq<u8>, bytes: Seq<u8>, id: u64)
    requires
        distinct_ids(cs),
    ensures
        deliveries_to(follower_deliveries(cs, name, bytes), id) == if follows(cs, id, name) {
            1int
        } else {
            0int
        },
    decreases cs.len(),
{
    if cs.len() == 0 {
        assert(!follows(cs, id, name));
    } else {
        let rest = cs.drop_first();
        assert(distinct_ids(rest)) by {
            assert forall|x: int, y: int| 0 <= x < y < rest.len() implies rest[x].id
                != rest[y].id by {
                assert(cs[x + 1].id != cs[y + 1].id);
            }
        }
        lemma_tweet_fanout(rest, name, bytes, id);
        let out = follower_deliveries(cs, name, bytes);
        let rout = follower_deliveries(rest, name, bytes);
        if cs[0].id == id {
            assert forall|i: int| 0 <= i < rest.len() implies rest[i].id != id by {
                assert(cs[0].id != cs[i + 1].id);
            }
            assert(!follows(rest, id, name));
            if cs[0].follows.contains(name) {
                assert(out == seq![DeliveryView { conn: cs[0].id, bytes }] + rout);
                assert(out.drop_first() =~= rout);
                assert(follows(cs, id, name)) by {
                    assert(cs[0].id == id && cs[0].follows.contains(name));
                }
                assert(deliveries_to(out, id) == 1);
            } else {
                assert(out == rout);
                assert(!follows(cs, id, name)) by {
                    if follows(cs, id, name) {
                        let w = choose|w: int|
                            0 <= w < cs.len() && cs[w].id == id && cs[w].follows.contains(name);
                        if w == 0 {
                            assert(false);
                        } else {
                            assert(rest[w - 1].id == id);
                        }
                    }
                }
            }
        } else {
            assert(follows(cs, id, name) == follows(rest, id, name)) by {
                if follows(cs, id, name) {
                    let w = choose|w: int|
                        0 <= w < cs.len() && cs[w].id == id && cs[w].follows.contains(name);
                    assert(w != 0);
                    assert(rest[w - 1].id == id && rest[w - 1].follows.contains(name));
                    assert(follows(rest, id, name));
                }
                if follows(rest, id, name) {
                    let w = choose|w: int|
                        0 <= w < rest.len() && rest[w].id == id && rest[w].follows.contains(name);
                    assert(cs[w + 1].id == id && cs[w + 1].follows.contains(name));
                    assert(follows(cs, id, name));
                }
            }
            if cs[0].follows.contains(name) {
                assert(out == seq![DeliveryView { conn: cs[0].id, bytes }] + rout);
                assert(out.drop_first() =~= rout);
                assert(deliveries_to(out, id) == deliveries_to(rout, id));
            } else {
                assert(out == rout);
            }
        }
    }
}

/// Fan-out of a broadcast event: with distinct connection ids, a
/// heartbeat's or boss update's deliveries reach every connection exactly
/// once.
pub proof fn lemma_broadcast_fanout(cs: Seq<ConnectionView>, bytes: Seq<u8>, id: u64)
    requires
        distinct_ids(cs),
    ensures
        deliveries_to(broadcast_deliveries(cs, bytes), id) == if has_conn(cs, id) {
            1int
        } else {
            0int
        },
    decreases cs.len(),
{
    if cs.len() == 0 {
        assert(!has_conn(cs, id));
    } else {
        let rest = cs.drop_first();
        assert(distinct_ids(rest)) by {
            assert forall|x: int, y: int| 0 <= x < y < rest.len() implies rest[x].id
                != rest[y].id by {
                assert(cs[x + 1].id != cs[y + 1].id);
            }
        }
        lemma_broadcast_fanout(rest, bytes, id);
        let out = broadcast_deliveries(cs, bytes);
        let rout = broadcast_deliveries(rest, bytes);
        assert(out == seq![DeliveryView { conn: cs[0].id, bytes }] + rout);
        assert(out.drop_first() =~= rout);
        if cs[0].id == id {
            assert forall|i: int| 0 <= i < rest.len() implies rest[i].id != id by {
                assert(cs[0].id != cs[i + 1].id);
            }
            assert(!has_conn(rest, id));
            assert(has_conn(cs, id)) by {
                assert(cs[0].id == id);
            }
            assert(deliveries_to(out, id) == 1);
        } else {
            assert(has_conn(cs, id) == has_conn(rest, id)) by {
                if has_conn(cs, id) {
                    let w = choose|w: int| 0 <= w < cs.len() && cs[w].id == id;
                    assert(w != 0);
                    assert(rest[w - 1].id == id);
                }
                if has_conn(rest, id) {
                    let w = choose|w: int| 0 <= w < rest.len() && rest[w].id == id;
                    assert(cs[w + 1].id == id);
                }
            }
        }
    }
}

/// One tweet event seen from the boss's own ring: pushing a tweet into
/// the history tables changes exactly that boss's buffered tweets, by one
/// `ring_push`. Together with `lemma_ring_window_step` this keeps every
/// ring holding the most recent window of its boss's tweet history.
pub proof fn lemma_push_history_ring(rs: Seq<RingView>, name: Seq<u8>, t: TweetView, cap: nat)
    requires
        distinct_ring_names(rs),
        cap >= 1,
    ensures
        ring_tweets(spec_push_history(rs, name, t, cap), name) == ring_push(
            ring_tweets(rs, name),
            t,
            cap,
        ),
{
    let out = spec_push_history(rs, name, t, cap);
    if exists|i: int| 0 <= i < rs.len() && rs[i].name == name {
        let i = choose|i: int| 0 <= i < rs.len() && rs[i].name == name;
        lemma_ring_tweets_at(rs, name, i);
        assert(distinct_ring_names(out)) by {
            assert forall|x: int, y: int| 0 <= x < y < out.len() implies out[x].name
                != out[y].name by {
                assert(out[x].name == rs[x].name && out[y].name == rs[y].name);
            }
        }
        assert(out[i].name == name);
        lemma_ring_tweets_at(out, name, i);
        assert(out[i].tweets == ring_push(rs[i].tweets, t, cap));
    } else {
        assert forall|i: int| 0 <= i < rs.len() implies rs[i].name != name by {
            if rs[i].name == name {
                assert(exists|j: int| 0 <= j < rs.len() && rs[j].name == name);
            }
        }
        lemma_ring_tweets_absent(rs, name);
        assert(out == rs.push(RingView { name, tweets: seq![t] }));
        assert(distinct_ring_names(out)) by {
            assert forall|x: int, y: int| 0 <= x < y < out.len() implies out[x].name
                != out[y].name by {
                if y == out.len() - 1 {
                    assert(out[x].name == rs[x].name);
                    assert(out[y].name == name);
                } else {
                    assert(out[x].name == rs[x].name && out[y].name == rs[y].name);
                }
            }
        }
        assert(out[rs.len() as int].name == name);
        lemma_ring_tweets_at(out, name, rs.len() as int);
        assert(ring_push(Seq::<TweetView>::empty(), t, cap) =~= seq![t]);
    }
}

proof fn lemma_push_history_preserves_distinct(rs: Seq<RingView>, name: Seq<u8>, t: TweetView, cap: nat)
    requires
        distinct_ring_names(rs),
    ensures
        distinct_ring_names(spec_push_history(rs, name, t, cap)),
{
    let out = spec_push_history(rs, name, t, cap);
    if exists|i: int| 0 <= i < rs.len() && rs[i].name == name {
        assert forall|x: int, y: int| 0 <= x < y < out.len() implies out[x].name != out[y].name by {
            assert(out[x].name == rs[x].name && out[y].name == rs[y].name);
        }
    } else {
        assert forall|i: int| 0 <= i < rs.len() implies rs[i].name != name by {
            if rs[i].name == name {
                assert(exists|j: int| 0 <= j < rs.len() && rs[j].name == name);
            }
        }
        assert forall|x: int, y: int| 0 <= x < y < out.len() implies out[x].name != out[y].name by {
            if y == out.len() - 1 {
                assert(out[x].name == rs[x].name);
                assert(out[y].name == name);
            } else {
                assert(out[x].name == rs[x].name && out[y].name == rs[y].name);
            }
        }
    }
}

/// A run of tweet events for one boss, seen from that boss's ring: the
/// history tables after all the pushes hold exactly the iterated
/// `ring_push` of the ring's previous contents.
pub proof fn lemma_history_replay_all(rs: Seq<RingView>, ts: Seq<TweetView>, name: Seq<u8>, cap: nat)
    requires
        distinct_ring_names(rs),
        cap >= 1,
        forall|k: int| 0 <= k < ts.len() ==> (#[trigger] ts[k]).boss_name == name,
    ensures
        ring_tweets(spec_push_history_all(rs, ts, cap), name) == ring_push_all(
            ring_tweets(rs, name),
            ts,
            cap,
        ),
    decreases ts.len(),
{
    if ts.len() > 0 {
        let t0 = ts[0];
        let rs1 = spec_push_history(rs, name, t0, cap);
        lemma_push_history_ring(rs, name, t0, cap);
        lemma_push_history_preserves_distinct(rs, name, t0, cap);
        assert forall|k: int| 0 <= k < ts.drop_first().len() implies (#[trigger] ts.drop_first()[k]).boss_name
            == name by {
            assert(ts[k + 1].boss_name == name);
        }
        lemma_history_replay_all(rs1, ts.drop_first(), name, cap);
        assert(spec_push_history_all(rs, ts, cap) == spec_push_history_all(
            rs1,
            ts.drop_first(),
            cap,
        ));
    }
}

/// History replay from scratch: when no ring for `name` existed yet, a
/// run of tweet events for that boss leaves its ring holding exactly the
/// most recent `cap` of them, oldest first — what `get_tweets` replays.
pub proof fn lemma_fresh_history_replay(rs: Seq<RingView>, ts: Seq<TweetView>, name: Seq<u8>, cap: nat)
    requires
        distinct_ring_names(rs),
        cap >= 1,
        forall|k: int| 0 <= k < ts.len() ==> (#[trigger] ts[k]).boss_name == name,
        forall|i: int| 0 <= i < rs.len() ==> (#[trigger] rs[i]).name != name,
    ensures
        ring_tweets(spec_push_history_all(rs, ts, cap), name) == history_window(ts, cap),
{
    lemma_ring_tweets_absent(rs, name);
    lemma_history_replay_all(rs, ts, name, cap);
    lemma_ring_replay(ts, cap);
}

/// The window a bounded ring is meant to hold: the whole history while it
/// fits, else its most recent `cap` entries, oldest first.
pub open spec fn history_window(h: Seq<TweetView>, cap: nat) -> Seq<TweetView> {
    if h.len() <= cap {
        h
    } else {
        h.subrange(h.len() - cap, h.len() as int)
    }
}

/// One push keeps the window property: a ring holding the most recent
/// window of some history, fed one more tweet, holds the most recent
/// window of the extended history.
pub proof fn lemma_ring_window_step(h: Seq<TweetView>, t: TweetView, cap: nat)
    requires
        cap >= 1,
    ensures
        ring_push(history_window(h, cap), t, cap) == history_window(h.push(t), cap),
{
    let w = history_window(h, cap);
    if h.len() < cap {
        assert(w == h);
        assert(ring_push(w, t, cap) == h.push(t));
        assert(history_window(h.push(t), cap) == h.push(t));
    } else if h.len() == cap {
        assert(w == h);
        assert(ring_push(w, t, cap) =~= history_window(h.push(t), cap));
    } else {
        assert(w.len() == cap);
        assert(ring_push(w, t, cap) =~= history_window(h.push(t), cap));
    }
}

/// The ring contents after pushing every tweet of `ts`, in order.
pub open spec fn ring_push_all(r: Seq<TweetView>, ts: Seq<TweetView>, cap: nat) -> Seq<TweetView>
    decreases ts.len(),
{
    if ts.len() == 0 {
        r
    } else {
        ring_push_all(ring_push(r, ts[0], cap), ts.drop_first(), cap)
    }
}

proof fn lemma_ring_window_all(h: Seq<TweetView>, ts: Seq<TweetView>, cap: nat)
    requires
        cap >= 1,
    ensures
        ring_push_all(history_window(h, cap), ts, cap) == history_window(h + ts, cap),
    decreases ts.len(),
{
    if ts.len() == 0 {
        assert(h + ts =~= h);
    } else {
        lemma_ring_window_step(h, ts[0], cap);
        lemma_ring_window_all(h.push(ts[0]), ts.drop_first(), cap);
        assert(h.push(ts[0]) + ts.drop_first() =~= h + ts);
    }
}

/// History replay: feeding any sequence of tweets through an (initially
/// empty) bounded ring leaves exactly the most recent `cap` of them,
/// oldest first — what a later `get_tweets` replays.
pub proof fn lemma_ring_replay(ts: Seq<TweetView>, cap: nat)
    requires
        cap >= 1,
    ensures
        ring_push_all(Seq::empty(), ts, cap) == history_window(ts, cap),
{
    let h0 = Seq::<TweetView>::empty();
    assert(history_window(h0, cap) =~= h0);
    lemma_ring_window_all(h0, ts, cap);
    assert(h0 + ts =~= ts);
}

/// Following a name twice and then unfollowing it once leaves the
/// connection not following it: `follow` is idempotent and `unfollow`
/// undoes it.
pub proof fn lemma_follow_twice_unfollow(cs: Seq<ConnectionView>, id: u64, n: Seq<u8>)
    ensures
        !follows(spec_unfollow(spec_follow(spec_follow(cs, id, n), id, n), id, n), id, n),
{
    let once = spec_follow(cs, id, n);
    let twice = spec_follow(once, id, n);
    let end = spec_unfollow(twice, id, n);
    assert forall|i: int| 0 <= i < end.len() implies !(end[i].id == id && end[i].follows.contains(
        n,
    )) by {
        if end[i].id == id {
            lemma_remove_name_props(twice[i].follows, n);
            assert(end[i].follows == remove_name(twice[i].follows, n));
        }
    }
}

proof fn lemma_deep_view_push_gen<T: DeepView>(pre: Vec<T>, post: Vec<T>, x: T)
    requires
        post@ == pre@.push(x),
    ensures
        post.deep_view() =~= pre.deep_view().push(x.deep_view()),
{
    assert forall|j: int| 0 <= j < post@.len() implies post.deep_view()[j]
        == pre.deep_view().push(x.deep_view())[j] by {
        if j < pre@.len() {
            assert(post@[j] == pre@[j]);
        } else {
            assert(post@[j] == x);
        }
    }
}

/// Removing an absent boss name changes nothing.
proof fn lemma_remove_boss_absent(bs: Seq<crate::model::MetadataView>, name: Seq<u8>)
    requires
        forall|i: int| 0 <= i < bs.len() ==> bs[i].boss.name != name,
    ensures
        spec_remove_boss(bs, name) == bs,
    decreases bs.len(),
{
    if bs.len() > 0 {
        assert forall|i: int| 0 <= i < bs.drop_first().len() implies bs.drop_first()[i].boss.name
            != name by {
            assert(bs[i + 1].boss.name != name);
        }
        lemma_remove_boss_absent(bs.drop_first(), name);
        assert(spec_remove_boss(bs, name) =~= bs);
    }
}

/// When only position `ci` carries `name`, removal is dropping that index.
proof fn lemma_remove_boss_single(bs: Seq<crate::model::MetadataView>, name: Seq<u8>, ci: int)
    requires
        0 <= ci < bs.len(),
        bs[ci].boss.name == name,
        forall|i: int| 0 <= i < bs.len() && i != ci ==> bs[i].boss.name != name,
    ensures
        spec_remove_boss(bs, name) == bs.remove(ci),
    decreases bs.len(),
{
    if ci == 0 {
        assert forall|i: int| 0 <= i < bs.drop_first().len() implies bs.drop_first()[i].boss.name
            != name by {
            assert(bs[i + 1].boss.name != name);
        }
        lemma_remove_boss_absent(bs.drop_first(), name);
        assert(spec_remove_boss(bs, name) =~= bs.remove(0));
    } else {
        assert forall|i: int|
            0 <= i < bs.drop_first().len() && i != ci - 1 implies bs.drop_first()[i].boss.name
            != name by {
            assert(bs[i + 1].boss.name != name);
        }
        lemma_remove_boss_single(bs.drop_first(), name, ci - 1);
        assert(bs.drop_first().remove(ci - 1) =~= bs.remove(ci).drop_first());
        assert(spec_remove_boss(bs, name) =~= bs.remove(ci));
    }
}

impl Broker {
    /// One delivery of a copy of `bytes` to every connection, in order.
    fn broadcast_all(&self, bytes: &Vec<u8>) -> (r: Vec<Delivery>)
        ensures
            r.deep_view() == broadcast_deliveries(self.conns.deep_view(), bytes@),
    {
        let ghost cs = self.conns.deep_view();
        let mut out: Vec<Delivery> = Vec::new();
        let mut i: usize = 0;
        proof {
            assert(cs.take(0) =~= Seq::<ConnectionView>::empty());
            assert(out.deep_view() =~= broadcast_deliveries(cs.take(0), bytes@));
        }
        while i < self.conns.len()
            invariant
                i <= self.conns@.len(),
                cs == self.conns.deep_view(),
                out.deep_view() == broadcast_deliveries(cs.take(i as int), bytes@),
            decreases self.conns@.len() - i,
        {
            let d = Delivery { conn: self.conns[i].id, bytes: copy_bytes(bytes) };
            let ghost pre = out;
            let ghost dsnap = d;
            out.push(d);
            proof {
                lemma_deep_view_push_gen(pre, out, dsnap);
                assert(cs.take(i + 1) =~= cs.take(i as int).push(cs[i as int]));
                lemma_broadcast_push(cs.take(i as int), cs[i as int], bytes@);
                assert(dsnap@ =~= (DeliveryView { conn: cs[i as int].id, bytes: bytes@ }));
                assert(out.deep_view() =~= broadcast_deliveries(cs.take(i + 1), bytes@));
            }
            i = i + 1;
        }
        proof {
            assert(cs.take(cs.len() as int) =~= cs);
        }
        out
    }

    /// One delivery of a copy of `bytes` to every connection following
    /// `name`, in order.
    fn deliver_followers(&self, name: &Vec<u8>, bytes: &Vec<u8>) -> (r: Vec<Delivery>)
        ensures
            r.deep_view() == follower_deliveries(self.conns.deep_view(), name@, bytes@),
    {
        let ghost cs = self.conns.deep_view();
        let mut out: Vec<Delivery> = Vec::new();
        let mut i: usize = 0;
        proof {
            assert(cs.take(0) =~= Seq::<ConnectionView>::empty());
            assert(out.deep_view() =~= follower_deliveries(cs.take(0), name@, bytes@));
        }
        while i < self.conns.len()
            invariant
                i <= self.conns@.len(),
                cs == self.conns.deep_view(),
                out.deep_view() == follower_deliveries(cs.take(i as int), name@, bytes@),
            decreases self.conns@.len() - i,
        {
            proof {
                assert(cs.take(i + 1) =~= cs.take(i as int).push(cs[i as int]));
                lemma_follower_push(cs.take(i as int), cs[i as int], name@, bytes@);
            }
            if contains_name(&self.conns[i].follows, name) {
                let d = Delivery { conn: self.conns[i].id, bytes: copy_bytes(bytes) };
                let ghost pre = out;
                let ghost dsnap = d;
                out.push(d);
                proof {
                    lemma_deep_view_push_gen(pre, out, dsnap);
                    assert(dsnap@ =~= (DeliveryView { conn: cs[i as int].id, bytes: bytes@ }));
                    assert(out.deep_view() =~= follower_deliveries(cs.take(i + 1), name@, bytes@));
                }
            }
            i = i + 1;
        }
        proof {
            assert(cs.take(cs.len() as int) =~= cs);
        }
        out
    }

    /// Index of the ring named `name`, if any.
    fn find_ring(&self, name: &Vec<u8>) -> (r: Option<usize>)
        ensures
            match r {
                Some(i) => i < self.history@.len() && self.history.deep_view()[i as int].name
                    == name@,
                None => forall|i: int|
                    0 <= i < self.history.deep_view().len()
                        ==> self.history.deep_view()[i].name != name@,
            },
    {
        let mut i: usize = 0;
        while i < self.history.len()
            invariant
                i <= self.history@.len(),
                forall|j: int| 0 <= j < i ==> self.history.deep_view()[j].name != name@,
            decreases self.history@.len() - i,
        {
            if bytes_eq(&self.history[i].name, name) {
                return Some(i);
            }
            i = i + 1;
        }
        None
    }

    /// Index of the boss-table entry named `name`, if any.
    fn find_boss(&self, name: &Vec<u8>) -> (r: Option<usize>)
        ensures
            match r {
                Some(i) => i < self.bosses@.len() && self.bosses.deep_view()[i as int].boss.name
                    == name@,
                None => forall|i: int|
                    0 <= i < self.bosses.deep_view().len()
                        ==> self.bosses.deep_view()[i].boss.name != name@,
            },
    {
        let mut i: usize = 0;
        while i < self.bosses.len()
            invariant
                i <= self.bosses@.len(),
                forall|j: int| 0 <= j < i ==> self.bosses.deep_view()[j].boss.name != name@,
            decreases self.bosses@.len() - i,
        {
            if bytes_eq(&self.bosses[i].boss.name, name) {
                return Some(i);
            }
            i = i + 1;
        }
        None
    }

    /// Pushes one tweet into the ring of its boss, evicting the oldest
    /// entry of a full ring; a first tweet opens the ring.
    fn push_history_one(&mut self, t: &RaidTweet)
        requires
            old(self).wf(),
        ensures
            final(self).wf(),
            final(self).history.deep_view() == spec_push_history(
                old(self).history.deep_view(),
                t@.boss_name,
                t@,
                old(self).history_size as nat,
            ),
            final(self).conns == old(self).conns,
            final(self).bosses == old(self).bosses,
            final(self).next_id == old(self).next_id,
            final(self).history_size == old(self).history_size,
    {
        let ghost rs0 = self.history.deep_view();
        let ghost cap = self.history_size as nat;
        let found = self.find_ring(&t.boss_name);
        match found {
            Some(ri) => {
                let mut ring = self.history.remove(ri);
                let ghost oldtweets = ring.tweets.deep_view();
                if ring.tweets.len() >= self.history_size {
                    proof {
                        assert(rs0[ri as int].tweets.len() <= cap);
                    }
                    let _evicted = ring.tweets.remove(0);
                    proof {
                        assert forall|j: int| 0 <= j < ring.tweets.deep_view().len() implies
                            ring.tweets.deep_view()[j] == oldtweets.drop_first()[j] by {
                            assert(ring.tweets@[j] == old(self).history@[ri as int].tweets@[j + 1]);
                        }
                        assert(ring.tweets.deep_view() =~= oldtweets.drop_first());
                    }
                }
                let ghost mid = ring.tweets.deep_view();
                let ghost pre = ring.tweets;
                let tc = copy_tweet(t);
                let ghost tcsnap = tc;
                ring.tweets.push(tc);
                proof {
                    lemma_deep_view_push_gen(pre, ring.tweets, tcsnap);
                    assert(ring.tweets.deep_view() =~= ring_push(oldtweets, t@, cap));
                }
                self.history.insert(ri, ring);
                proof {
                    let rsf = self.history.deep_view();
                    let target = spec_push_history(rs0, t@.boss_name, t@, cap);
                    assert(rs0[ri as int].name == t@.boss_name);
                    assert forall|i: int| 0 <= i < rsf.len() implies rsf[i] == target[i] by {
                        if i != ri as int {
                            assert(self.history@[i] == old(self).history@[i]);
                            assert(rs0[i].name != t@.boss_name) by {
                                if i < ri as int {
                                    assert(rs0[i].name != rs0[ri as int].name);
                                } else {
                                    assert(rs0[ri as int].name != rs0[i].name);
                                }
                            }
                        }
                    }
                    assert(rsf =~= target);
                    assert(final(self).wf());
                }
            },
            None => {
                let mut tweets: Vec<RaidTweet> = Vec::new();
                tweets.push(copy_tweet(t));
                let ring = TweetRing { name: copy_bytes(&t.boss_name), tweets };
                let ghost pre = self.history;
                let ghost ringsnap = ring;
                self.history.push(ring);
                proof {
                    lemma_deep_view_push_gen(pre, self.history, ringsnap);
                    assert(ringsnap@.tweets =~= seq![t@]);
                    assert(ringsnap@ =~= (RingView { name: t@.boss_name, tweets: seq![t@] }));
                    assert(self.history.deep_view() =~= spec_push_history(
                        rs0,
                        t@.boss_name,
                        t@,
                        cap,
                    ));
                    assert(final(self).wf());
                }
            },
        }
    }

    /// Replaces or appends the boss-table entry for a sighted boss,
    /// refreshing its last-seen time (given in seconds).
    fn upsert_boss_one(&mut self, b: &RaidBoss, now_s: u64)
        requires
            old(self).wf(),
        ensures
            final(self).wf(),
            final(self).bosses.deep_view() == spec_upsert_boss(
                old(self).bosses.deep_view(),
                b@,
                now_s,
            ),
            final(self).conns == old(self).conns,
            final(self).history == old(self).history,
            final(self).next_id == old(self).next_id,
            final(self).history_size == old(self).history_size,
    {
        let ghost bs0 = self.bosses.deep_view();
        let found = self.find_boss(&b.name);
        match found {
            Some(bi) => {
                let mut m = self.bosses.remove(bi);
                m.boss = copy_boss(b);
                m.last_seen = now_s;
                self.bosses.insert(bi, m);
                proof {
                    let bsf = self.bosses.deep_view();
                    assert(has_boss(bs0, b@.name)) by {
                        assert(bs0[bi as int].boss.name == b@.name);
                    }
                    let target = spec_upsert_boss(bs0, b@, now_s);
                    assert forall|i: int| 0 <= i < bsf.len() implies bsf[i] == target[i] by {
                        if i != bi as int {
                            assert(self.bosses@[i] == old(self).bosses@[i]);
                            assert(bs0[i].boss.name != b@.name) by {
                                if i < bi as int {
                                    assert(bs0[i].boss.name != bs0[bi as int].boss.name);
                                } else {
                                    assert(bs0[bi as int].boss.name != bs0[i].boss.name);
                                }
                            }
                        }
                    }
                    assert(bsf =~= target);
                    assert(final(self).wf());
                }
            },
            None => {
                let m = RaidBossMetadata { boss: copy_boss(b), last_seen: now_s, image_hash: None };
                let ghost pre = self.bosses;
                let ghost msnap = m;
                self.bosses.push(m);
                proof {
                    lemma_deep_view_push_gen(pre, self.bosses, msnap);
                    assert(!has_boss(bs0, b@.name)) by {
                        if has_boss(bs0, b@.name) {
                            let w = choose|w: int| 0 <= w < bs0.len() && bs0[w].boss.name == b@.name;
                            assert(bs0[w].boss.name != b@.name);
                        }
                    }
                    assert(msnap@ =~= (crate::model::MetadataView {
                        boss: b@,
                        last_seen: now_s,
                        image_hash: None,
                    }));
                    assert(self.bosses.deep_view() =~= spec_upsert_boss(bs0, b@, now_s));
                    assert(final(self).wf());
                }
            },
        }
    }

    /// Drops the boss-table entry of `name`; subscribers are not told.
    fn remove_boss_one(&mut self, name: &Vec<u8>)
        requires
            old(self).wf(),
        ensures
            final(self).wf(),
            final(self).bosses.deep_view() == spec_remove_boss(
                old(self).bosses.deep_view(),
                name@,
            ),
            final(self).conns == old(self).conns,
            final(self).history == old(self).history,
            final(self).next_id == old(self).next_id,
            final(self).history_size == old(self).history_size,
    {
        let ghost bs0 = self.bosses.deep_view();
        let found = self.find_boss(name);
        match found {
            None => {
                proof {
                    lemma_remove_boss_absent(bs0, name@);
                }
            },
            Some(bi) => {
                let _gone = self.bosses.remove(bi);
                proof {
                    assert forall|i: int| 0 <= i < bs0.len() && i != bi as int implies
                        bs0[i].boss.name != name@ by {
                        if bs0[i].boss.name == name@ {
                            if i < bi as int {
                                assert(bs0[i].boss.name != bs0[bi as int].boss.name);
                            } else {
                                assert(bs0[bi as int].boss.name != bs0[i].boss.name);
                            }
                        }
                    }
                    lemma_remove_boss_single(bs0, name@, bi as int);
                    assert(self.bosses.deep_view() =~= bs0.remove(bi as int));
                    assert(final(self).wf());
                }
            },
        }
    }

    /// Applies one domain event: updates the boss table and history rings
    /// and returns exactly the deliveries `event_deliveries` lays down —
    /// heartbeats and boss news broadcast to everyone, a tweet to the
    /// followers of its boss, a boss removal to nobody.
    pub fn handle_event(&mut self, event: &DomainEvent, now_ms: u64) -> (r: Vec<Delivery>)
        requires
            old(self).wf(),
        ensures
            final(self).wf(),
            final(self).conns == old(self).conns,
            final(self).next_id == old(self).next_id,
            final(self).history_size == old(self).history_size,
            final(self).history.deep_view() == event_history(
                old(self).history.deep_view(),
                event@,
                old(self).history_size as nat,
            ),
            final(self).bosses.deep_view() == event_bosses(
                old(self).bosses.deep_view(),
                event@,
                now_ms,
            ),
            r.deep_view() == event_deliveries(old(self).conns.deep_view(), event@, now_ms),
    {
        match event {
            DomainEvent::Heartbeat => {
                match envelope::message_to_bytes(event, now_ms) {
                    Some(bytes) => {
                        let r = self.broadcast_all(&bytes);
                        r
                    },
                    None => {
                        proof {
                            assert(false);
                        }
                        Vec::new()
                    },
                }
            },
            DomainEvent::Tweet(t) => {
                match envelope::message_to_bytes(event, now_ms) {
                    Some(bytes) => {
                        let r = self.deliver_followers(&t.boss_name, &bytes);
                        self.push_history_one(t);
                        r
                    },
                    None => {
                        proof {
                            assert(false);
                        }
                        Vec::new()
                    },
                }
            },
            DomainEvent::TweetList(ts) => {
                match envelope::message_to_bytes(event, now_ms) {
                    Some(bytes) => {
                        let r = if ts.len() > 0 {
                            let r = self.deliver_followers(&ts[0].boss_name, &bytes);
                            proof {
                                assert(ts[0]@.boss_name == ts.deep_view()[0].boss_name);
                            }
                            r
                        } else {
                            let empty: Vec<Delivery> = Vec::new();
                            proof {
                                assert(empty.deep_view() =~= Seq::<DeliveryView>::empty());
                            }
                            empty
                        };
                        let ghost tsv = ts.deep_view();
                        let ghost rs0 = self.history.deep_view();
                        let ghost cap = self.history_size as nat;
                        let mut k: usize = 0;
                        proof {
                            assert(tsv.skip(0) =~= tsv);
                        }
                        while k < ts.len()
                            invariant
                                k <= ts@.len(),
                                tsv == ts.deep_view(),
                                self.wf(),
                                self.history_size as nat == cap,
                                self.conns == old(self).conns,
                                self.bosses == old(self).bosses,
                                self.next_id == old(self).next_id,
                                spec_push_history_all(rs0, tsv, cap) == spec_push_history_all(
                                    self.history.deep_view(),
                                    tsv.skip(k as int),
                                    cap,
                                ),
                            decreases ts@.len() - k,
                        {
                            proof {
                                assert(tsv.skip(k as int)[0] == tsv[k as int]);
                                assert(tsv.skip(k as int).drop_first() =~= tsv.skip(k + 1));
                                assert(ts[k as int]@ == tsv[k as int]);
                            }
                            self.push_history_one(&ts[k]);
                            k = k + 1;
                        }
                        proof {
                            assert(tsv.skip(tsv.len() as int) =~= Seq::<TweetView>::empty());
                        }
                        r
                    },
                    None => {
                        proof {
                            assert(false);
                        }
                        Vec::new()
                    },
                }
            },
            DomainEvent::BossUpdate(b) => {
                match envelope::message_to_bytes(event, now_ms) {
                    Some(bytes) => {
                        let r = self.broadcast_all(&bytes);
                        self.upsert_boss_one(b, now_ms / 1000);
                        r
                    },
                    None => {
                        proof {
                            assert(false);
                        }
                        Vec::new()
                    },
                }
            },
            DomainEvent::BossList(bs) => {
                match envelope::message_to_bytes(event, now_ms) {
                    Some(bytes) => {
                        let r = self.broadcast_all(&bytes);
                        let ghost lv = bs.deep_view();
                        let ghost bs0 = self.bosses.deep_view();
                        let ghost now_s = (now_ms / 1000) as u64;
                        let mut k: usize = 0;
                        proof {
                            assert(lv.skip(0) =~= lv);
                        }
                        while k < bs.len()
                            invariant
                                k <= bs@.len(),
                                lv == bs.deep_view(),
                                self.wf(),
                                self.conns == old(self).conns,
                                self.history == old(self).history,
                                self.next_id == old(self).next_id,
                                self.history_size == old(self).history_size,
                                now_s == (now_ms / 1000) as u64,
                                spec_upsert_all(bs0, lv, now_s) == spec_upsert_all(
                                    self.bosses.deep_view(),
                                    lv.skip(k as int),
                                    now_s,
                                ),
                            decreases bs@.len() - k,
                        {
                            proof {
                                assert(lv.skip(k as int)[0] == lv[k as int]);
                                assert(lv.skip(k as int).drop_first() =~= lv.skip(k + 1));
                                assert(bs[k as int]@ == lv[k as int]);
                            }
                            self.upsert_boss_one(&bs[k], now_ms / 1000);
                            k = k + 1;
                        }
                        proof {
                            assert(lv.skip(lv.len() as int) =~= Seq::<crate::model::BossView>::empty());
                        }
                        r
                    },
                    None => {
                        proof {
                            assert(false);
                        }
                        Vec::new()
                    },
                }
            },
            DomainEvent::BossRemove(n) => {
                self.remove_boss_one(n);
                let empty: Vec<Delivery> = Vec::new();
                proof {
                    assert(empty.deep_view() =~= Seq::<DeliveryView>::empty());
                }
                empty
            },
        }
    }

    /// Snapshot of every known boss, serialized and addressed to `id`
    /// alone; the boss list goes out even when empty.
    pub fn get_bosses(&self, id: u64, now_ms: u64) -> (r: Vec<Delivery>)
        ensures
            r.deep_view() == seq![
                DeliveryView {
                    conn: id,
                    bytes: codec::frame_bytes(
                        2,
                        envelope::enc_bosses_response(bosses_of(self.bosses.deep_view()), now_ms),
                    ),
                },
            ],
    {
        let mut list: Vec<RaidBoss> = Vec::new();
        let mut i: usize = 0;
        while i < self.bosses.len()
            invariant
                i <= self.bosses@.len(),
                list@.len() == i,
                forall|j: int| 0 <= j < i ==> list@[j]@ == self.bosses.deep_view()[j].boss,
            decreases self.bosses@.len() - i,
        {
            list.push(copy_boss(&self.bosses[i].boss));
            i = i + 1;
        }
        proof {
            assert forall|j: int| 0 <= j < list@.len() implies list.deep_view()[j] == bosses_of(
                self.bosses.deep_view(),
            )[j] by {
                assert(list.deep_view()[j] == list@[j]@);
            }
            assert(list.deep_view() =~= bosses_of(self.bosses.deep_view()));
        }
        let mut bytes: Vec<u8> = Vec::new();
        envelope::write_bosses_frame(&mut bytes, &list, now_ms);
        let mut out: Vec<Delivery> = Vec::new();
        out.push(Delivery { conn: id, bytes });
        proof {
            assert(out.deep_view() =~= seq![
                DeliveryView {
                    conn: id,
                    bytes: codec::frame_bytes(
                        2,
                        envelope::enc_bosses_response(bosses_of(self.bosses.deep_view()), now_ms),
                    ),
                },
            ]);
        }
        out
    }

    /// Replays the buffered tweets of `name` — the most recent ones, up to
    /// the history size, oldest first — to `id` alone, as one write of
    /// individually framed tweets; nothing when nothing is buffered.
    pub fn get_tweets(&self, id: u64, name: &Vec<u8>) -> (r: Vec<Delivery>)
        requires
            self.wf(),
        ensures
            r.deep_view() == spec_get_tweets_deliveries(self.history.deep_view(), id, name@),
    {
        let ghost rs = self.history.deep_view();
        let found = self.find_ring(name);
        match found {
            None => {
                proof {
                    lemma_ring_tweets_absent(rs, name@);
                }
                let empty: Vec<Delivery> = Vec::new();
                proof {
                    assert(empty.deep_view() =~= Seq::<DeliveryView>::empty());
                }
                empty
            },
            Some(ri) => {
                proof {
                    lemma_ring_tweets_at(rs, name@, ri as int);
                }
                let ring = &self.history[ri];
                if ring.tweets.len() == 0 {
                    let empty: Vec<Delivery> = Vec::new();
                    proof {
                        assert(empty.deep_view() =~= Seq::<DeliveryView>::empty());
                    }
                    empty
                } else {
                    let ghost tsv = ring.tweets.deep_view();
                    let mut bytes: Vec<u8> = Vec::new();
                    let mut k: usize = 0;
                    proof {
                        assert(tsv.skip(0) =~= tsv);
                    }
                    while k < ring.tweets.len()
                        invariant
                            k <= ring.tweets@.len(),
                            tsv == ring.tweets.deep_view(),
                            envelope::spec_tweet_frames(tsv) =~= bytes@
                                + envelope::spec_tweet_frames(tsv.skip(k as int)),
                        decreases ring.tweets@.len() - k,
                    {
                        let ghost pre = bytes@;
                        envelope::write_tweet_frame(&mut bytes, &ring.tweets[k]);
                        proof {
                            assert(tsv.skip(k as int)[0] == tsv[k as int]);
                            assert(tsv.skip(k as int).drop_first() =~= tsv.skip(k + 1));
                            assert(envelope::spec_tweet_frames(tsv.skip(k as int))
                                == codec::frame_bytes(
                                2,
                                envelope::enc_tweet_response(tsv[k as int]),
                            ) + envelope::spec_tweet_frames(tsv.skip(k + 1)));
                            assert(ring.tweets[k as int]@ == tsv[k as int]);
                            assert(envelope::spec_tweet_frames(tsv) =~= bytes@
                                + envelope::spec_tweet_frames(tsv.skip(k + 1)));
                        }
                        k = k + 1;
                    }
                    proof {
                        assert(tsv.skip(tsv.len() as int) =~= Seq::<TweetView>::empty());
                        assert(bytes@ =~= envelope::spec_tweet_frames(tsv));
                    }
                    let mut out: Vec<Delivery> = Vec::new();
                    out.push(Delivery { conn: id, bytes });
                    proof {
                        assert(out.deep_view() =~= seq![
                            DeliveryView { conn: id, bytes: envelope::spec_tweet_frames(tsv) },
                        ]);
                        assert(tsv.len() > 0);
                    }
                    out
                }
            },
        }
    }
}

} // verus!
