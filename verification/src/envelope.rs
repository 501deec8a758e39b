//! Wire envelope: the schema-defined binary body carried inside one Binary
//! frame.
//!
//! The envelope is a tag/length-prefixed binary record format. Each field is
//! introduced by a varint key `field_number * 8 + wire_type`; wire type 0 is
//! a varint scalar, wire type 2 a length-prefixed byte string or embedded
//! record, wire types 1 and 5 are 8- and 4-byte scalars (skipped when met).
//! A varint is little-endian base-128: each byte carries 7 payload bits, the
//! high bit says another byte follows; at most ten bytes are allowed and the
//! value must fit 64 bits. Unknown fields are skipped; a later occurrence of
//! a field overrides an earlier one; repeated fields accumulate. Scalars
//! equal to their default (zero or empty) are not written.
//!
//! Messages: a request is one of four bodies under fields 1 to 4 of the
//! request envelope (all bosses, tweets-for-names, follow, unfollow; the
//! name-list bodies hold repeated names under field 1). A response carries
//! keep-alive, a single tweet, or a boss list under fields 1 to 3 of the
//! response envelope. A boss entry uses fields 1 name, 2 image, 3 last-seen
//! milliseconds, 4 level, 5 language, 6 translated name; a tweet uses fields
//! 1 boss name, 2 raid id, 3 screen name, 4 tweet id, 5 profile image,
//! 6 text, 7 created-at milliseconds, 8 language.

use vstd::prelude::*;

use crate::model::BossView;
use crate::model::Language;
use crate::model::RaidBoss;
use crate::model::RaidTweet;
use crate::model::TweetView;
use crate::model::copy_boss;
use crate::model::ms_of;
use crate::model::opt_view;
use crate::model::to_milliseconds;
use crate::model::DomainEvent;
use crate::model::EventView;

verus! {

/// Why an envelope body was rejected as malformed.
#[derive(Clone, Copy, Debug, PartialEq, Eq, Structural)]
pub enum DecodeError {
    /// Truncated input, an over-long or overflowing varint, a length that
    /// overruns the body, or an unsupported wire type.
    Malformed,
}

/// Little-endian base-128 bytes of `n`: seven payload bits per byte, the
/// high bit set on every byte but the last.
pub open spec fn enc_varint(n: u64) -> Seq<u8>
    decreases n,
{
    if n < 128 {
        seq![n as u8]
    } else {
        seq![((n % 128) + 128) as u8] + enc_varint((n / 128) as u64)
    }
}

/// Decodes a varint at `i` with `fuel` bytes of budget left; `None` on
/// truncation, an eleventh continuation byte, or a value over 64 bits.
pub open spec fn dec_varint_fueled(s: Seq<u8>, i: int, fuel: nat) -> Option<(u64, int)>
    decreases fuel,
{
    if fuel == 0 || i < 0 || i >= s.len() {
        None
    } else {
        let b = s[i];
        if b < 128 {
            Some((b as u64, i + 1))
        } else {
            match dec_varint_fueled(s, i + 1, (fuel - 1) as nat) {
                None => None,
                Some((hi, j)) => if hi < 0x200000000000000 {
                    Some((((b - 128) + 128 * hi) as u64, j))
                } else {
                    None
                },
            }
        }
    }
}

/// Decodes a varint at `i`: at most ten bytes.
pub open spec fn dec_varint(s: Seq<u8>, i: int) -> Option<(u64, int)> {
    dec_varint_fueled(s, i, 10)
}

/// `128^k`.
spec fn pow128(k: nat) -> int
    decreases k,
{
    if k == 0 {
        1
    } else {
        128 * pow128((k - 1) as nat)
    }
}

proof fn lemma_enc_varint_len_bounded(n: u64, k: nat)
    requires
        k >= 1,
        n < pow128(k),
    ensures
        enc_varint(n).len() <= k,
    decreases n,
{
    if n >= 128 {
        if k == 1 {
            assert(pow128(0) == 1);
            assert(pow128(1) == 128 * pow128(0));
            assert(false);
        }
        let m = (n / 128) as u64;
        assert(pow128(k) == 128 * pow128((k - 1) as nat));
        assert(m < pow128((k - 1) as nat)) by (nonlinear_arith)
            requires
                n < 128 * pow128((k - 1) as nat),
                m == n / 128,
                n >= 128,
        ;
        lemma_enc_varint_len_bounded(m, (k - 1) as nat);
    }
}

/// The encoding of a 64-bit value is one to ten bytes long.
pub proof fn lemma_enc_varint_len(n: u64)
    ensures
        1 <= enc_varint(n).len() <= 10,
{
    assert(pow128(0) == 1);
    assert(pow128(1) == 128 * pow128(0));
    assert(pow128(2) == 128 * pow128(1));
    assert(pow128(3) == 128 * pow128(2));
    assert(pow128(4) == 128 * pow128(3));
    assert(pow128(5) == 128 * pow128(4));
    assert(pow128(6) == 128 * pow128(5));
    assert(pow128(7) == 128 * pow128(6));
    assert(pow128(8) == 128 * pow128(7));
    assert(pow128(9) == 128 * pow128(8));
    assert(pow128(10) == 128 * pow128(9));
    assert(pow128(10) == 0x400000000000000000);
    lemma_enc_varint_len_bounded(n, 10);
}

/// Decoding inverts encoding: wherever the bytes of `enc_varint(n)` sit
/// inside a buffer, decoding from that spot yields `n` and stops right
/// after them.
pub proof fn lemma_varint_round_trip(s: Seq<u8>, i: int, n: u64)
    requires
        0 <= i,
        i + enc_varint(n).len() <= s.len(),
        s.subrange(i, i + enc_varint(n).len()) == enc_varint(n),
    ensures
        dec_varint(s, i) == Some((n, i + enc_varint(n).len())),
{
    lemma_enc_varint_len(n);
    lemma_varint_round_trip_fueled(s, i, n, 10);
}

proof fn lemma_varint_round_trip_fueled(s: Seq<u8>, i: int, n: u64, fuel: nat)
    requires
        0 <= i,
        i + enc_varint(n).len() <= s.len(),
        s.subrange(i, i + enc_varint(n).len()) == enc_varint(n),
        enc_varint(n).len() <= fuel,
    ensures
        dec_varint_fueled(s, i, fuel) == Some((n, i + enc_varint(n).len())),
    decreases n,
{
    let e = enc_varint(n);
    lemma_enc_varint_len(n);
    assert(s[i] == e[0]);
    if n < 128 {
        assert(e[0] == n as u8);
    } else {
        let m = (n / 128) as u64;
        let e2 = enc_varint(m);
        assert(e[0] == ((n % 128) + 128) as u8);
        assert(s[i] >= 128);
        assert(s.subrange(i + 1, i + 1 + e2.len()) =~= e2) by {
            assert forall|t: int| 0 <= t < e2.len() implies s.subrange(
                i + 1,
                i + 1 + e2.len(),
            )[t] == e2[t] by {
                assert(s[i + 1 + t] == e[1 + t]);
                assert(e[1 + t] == e2[t]);
            }
        }
        lemma_varint_round_trip_fueled(s, i + 1, m, (fuel - 1) as nat);
        assert(m < 0x200000000000000);
        assert((s[i] - 128) + 128 * m == n);
    }
}

/// Appends the varint encoding of `n` to `buf`.
pub fn put_varint(buf: &mut Vec<u8>, n: u64)
    ensures
        final(buf)@ == old(buf)@ + enc_varint(n),
{
    let mut m: u64 = n;
    while m >= 128
        invariant
            old(buf)@ + enc_varint(n) =~= buf@ + enc_varint(m),
        decreases m,
    {
        let ghost pre = buf@;
        buf.push(((m % 128) + 128) as u8);
        proof {
            assert(enc_varint(m) == seq![((m % 128) + 128) as u8] + enc_varint((m / 128) as u64));
            assert(pre + enc_varint(m) =~= buf@ + enc_varint((m / 128) as u64));
        }
        m = m / 128;
    }
    buf.push(m as u8);
    proof {
        assert(enc_varint(m) == seq![m as u8]);
        assert(final(buf)@ =~= old(buf)@ + enc_varint(n));
    }
}

/// Decodes a varint of `s` at `i`, exactly as `dec_varint` lays down.
pub fn get_varint(s: &Vec<u8>, i: usize) -> (r: Result<(u64, usize), DecodeError>)
    ensures
        match r {
            Ok((v, j)) => dec_varint(s@, i as int) == Some((v, j as int)) && i < j <= s@.len(),
            Err(_) => dec_varint(s@, i as int) is None,
        },
{
    get_varint_fueled(s, i, 10)
}

fn get_varint_fueled(s: &Vec<u8>, i: usize, fuel: u8) -> (r: Result<(u64, usize), DecodeError>)
    ensures
        match r {
            Ok((v, j)) => dec_varint_fueled(s@, i as int, fuel as nat) == Some((v, j as int)) && i
                < j <= s@.len(),
            Err(_) => dec_varint_fueled(s@, i as int, fuel as nat) is None,
        },
    decreases fuel,
{
    if fuel == 0 || i >= s.len() {
        return Err(DecodeError::Malformed);
    }
    let b = s[i];
    if b < 128 {
        Ok((b as u64, i + 1))
    } else {
        match get_varint_fueled(s, i + 1, fuel - 1) {
            Err(e) => Err(e),
            Ok((hi, j)) => {
                if hi < 0x200000000000000 {
                    Ok((((b - 128) as u64) + 128 * hi, j))
                } else {
                    Err(DecodeError::Malformed)
                }
            },
        }
    }
}

/// The key introducing `field` with wire type `wire`.
pub open spec fn enc_key(field: u64, wire: u64) -> Seq<u8> {
    enc_varint((field * 8 + wire) as u64)
}

/// A length-prefixed field: key, byte count, bytes.
pub open spec fn enc_bytes_field(field: u64, b: Seq<u8>) -> Seq<u8> {
    enc_key(field, 2) + enc_varint(b.len() as u64) + b
}

/// A varint scalar field.
pub open spec fn enc_uint_field(field: u64, n: u64) -> Seq<u8> {
    enc_key(field, 0) + enc_varint(n)
}

/// A length-prefixed field, written only when non-empty.
pub open spec fn opt_bytes_field(field: u64, b: Seq<u8>) -> Seq<u8> {
    if b.len() == 0 {
        Seq::empty()
    } else {
        enc_bytes_field(field, b)
    }
}

/// A varint scalar field, written only when non-zero.
pub open spec fn opt_uint_field(field: u64, n: u64) -> Seq<u8> {
    if n == 0 {
        Seq::empty()
    } else {
        enc_uint_field(field, n)
    }
}

/// Appends a length-prefixed field holding `b` to `buf`.
pub fn put_bytes_field(buf: &mut Vec<u8>, field: u32, b: &Vec<u8>)
    requires
        field < 0x20000000,
    ensures
        final(buf)@ == old(buf)@ + enc_bytes_field(field as u64, b@),
{
    put_varint(buf, (field as u64) * 8 + 2);
    put_varint(buf, b.len() as u64);
    let mut i: usize = 0;
    let ghost mid = buf@;
    while i < b.len()
        invariant
            i <= b@.len(),
            buf@ == mid + b@.subrange(0, i as int),
        decreases b@.len() - i,
    {
        buf.push(b[i]);
        assert(mid + b@.subrange(0, i as int) + seq![b@[i as int]] =~= mid + b@.subrange(
            0,
            i + 1,
        ));
        i = i + 1;
    }
    assert(final(buf)@ =~= old(buf)@ + enc_bytes_field(field as u64, b@));
}

/// Appends a varint scalar field holding `n` to `buf`.
pub fn put_uint_field(buf: &mut Vec<u8>, field: u32, n: u64)
    requires
        field < 0x20000000,
    ensures
        final(buf)@ == old(buf)@ + enc_uint_field(field as u64, n),
{
    put_varint(buf, (field as u64) * 8);
    put_varint(buf, n);
    assert(final(buf)@ =~= old(buf)@ + enc_uint_field(field as u64, n));
}

/// Appends a length-prefixed field when `b` is non-empty.
pub fn put_opt_bytes_field(buf: &mut Vec<u8>, field: u32, b: &Vec<u8>)
    requires
        field < 0x20000000,
    ensures
        final(buf)@ == old(buf)@ + opt_bytes_field(field as u64, b@),
{
    if b.len() > 0 {
        put_bytes_field(buf, field, b);
    } else {
        assert(final(buf)@ =~= old(buf)@ + opt_bytes_field(field as u64, b@));
    }
}

/// Appends a varint scalar field when `n` is non-zero.
pub fn put_opt_uint_field(buf: &mut Vec<u8>, field: u32, n: u64)
    requires
        field < 0x20000000,
    ensures
        final(buf)@ == old(buf)@ + opt_uint_field(field as u64, n),
{
    if n > 0 {
        put_uint_field(buf, field, n);
    } else {
        assert(final(buf)@ =~= old(buf)@ + opt_uint_field(field as u64, n));
    }
}

/// A typed request decoded from the body of one Binary frame.
#[derive(Debug, PartialEq, Eq)]
pub enum Request {
    /// Snapshot of all currently known bosses.
    AllRaidBosses,
    /// Recent tweets for each of the named bosses.
    RaidBosses(Vec<Vec<u8>>),
    /// Register interest in the named bosses (and replay their tweets).
    Follow(Vec<Vec<u8>>),
    /// Drop interest in the named bosses.
    Unfollow(Vec<Vec<u8>>),
}

/// Mathematical image of a `Request`.
#[verifier::ext_equal]
pub enum RequestView {
    AllRaidBosses,
    RaidBosses(Seq<Seq<u8>>),
    Follow(Seq<Seq<u8>>),
    Unfollow(Seq<Seq<u8>>),
}

impl View for Request {
    type V = RequestView;

    open spec fn view(&self) -> RequestView {
        match self {
            Request::AllRaidBosses => RequestView::AllRaidBosses,
            Request::RaidBosses(ns) => RequestView::RaidBosses(ns.deep_view()),
            Request::Follow(ns) => RequestView::Follow(ns.deep_view()),
            Request::Unfollow(ns) => RequestView::Unfollow(ns.deep_view()),
        }
    }
}

/// View of an optional request.
pub open spec fn opt_req_view(o: Option<Request>) -> Option<RequestView> {
    match o {
        Some(q) => Some(q@),
        None => None,
    }
}

/// Walks the fields of a name-list body from `i`, accumulating the names
/// under field 1 in order; unknown fields are skipped, malformed input is
/// an error.
pub open spec fn spec_dec_names(s: Seq<u8>, i: int, acc: Seq<Seq<u8>>) -> Result<
    Seq<Seq<u8>>,
    DecodeError,
>
    decreases s.len() - i,
{
    if i < 0 {
        Err(DecodeError::Malformed)
    } else if i >= s.len() {
        Ok(acc)
    } else {
        match dec_varint(s, i) {
            None => Err(DecodeError::Malformed),
            Some((key, j)) => {
                if j <= i || j > s.len() {
                    Err(DecodeError::Malformed)
                } else {
                    let field = key / 8;
                    let wire = key % 8;
                    if wire == 2 {
                        match dec_varint(s, j) {
                            None => Err(DecodeError::Malformed),
                            Some((len, k)) => {
                                if k <= i || k > s.len() {
                                    Err(DecodeError::Malformed)
                                } else if len > s.len() - k {
                                    Err(DecodeError::Malformed)
                                } else {
                                    let next = k + len;
                                    if field == 1 {
                                        spec_dec_names(s, next, acc.push(s.subrange(k, next)))
                                    } else {
                                        spec_dec_names(s, next, acc)
                                    }
                                }
                            },
                        }
                    } else if wire == 0 {
                        match dec_varint(s, j) {
                            None => Err(DecodeError::Malformed),
                            Some((_, k)) => {
                                if k <= i || k > s.len() {
                                    Err(DecodeError::Malformed)
                                } else {
                                    spec_dec_names(s, k, acc)
                                }
                            },
                        }
                    } else if wire == 1 {
                        if s.len() - j >= 8 {
                            spec_dec_names(s, j + 8, acc)
                        } else {
                            Err(DecodeError::Malformed)
                        }
                    } else if wire == 5 {
                        if s.len() - j >= 4 {
                            spec_dec_names(s, j + 4, acc)
                        } else {
                            Err(DecodeError::Malformed)
                        }
                    } else {
                        Err(DecodeError::Malformed)
                    }
                }
            },
        }
    }
}

/// Walks the fields of a request body from `i`. Fields 1 to 4 select the
/// request variant (a later one overrides an earlier one); anything else is
/// skipped. `Ok(None)` when no recognized field occurred: such a body is
/// silently ignored.
pub open spec fn spec_dec_request(s: Seq<u8>, i: int, acc: Option<RequestView>) -> Result<
    Option<RequestView>,
    DecodeError,
>
    decreases s.len() - i,
{
    if i < 0 {
        Err(DecodeError::Malformed)
    } else if i >= s.len() {
        Ok(acc)
    } else {
        match dec_varint(s, i) {
            None => Err(DecodeError::Malformed),
            Some((key, j)) => {
                if j <= i || j > s.len() {
                    Err(DecodeError::Malformed)
                } else {
                    let field = key / 8;
                    let wire = key % 8;
                    if wire == 2 {
                        match dec_varint(s, j) {
                            None => Err(DecodeError::Malformed),
                            Some((len, k)) => {
                                if k <= i || k > s.len() {
                                    Err(DecodeError::Malformed)
                                } else if len > s.len() - k {
                                    Err(DecodeError::Malformed)
                                } else {
                                    let next = k + len;
                                    let body = s.subrange(k, next);
                                    if field == 1 {
                                        spec_dec_request(s, next, Some(RequestView::AllRaidBosses))
                                    } else if field == 2 {
                                        match spec_dec_names(body, 0, Seq::empty()) {
                                            Ok(ns) => spec_dec_request(
                                                s,
                                                next,
                                                Some(RequestView::RaidBosses(ns)),
                                            ),
                                            Err(e) => Err(e),
                                        }
                                    } else if field == 3 {
                                        match spec_dec_names(body, 0, Seq::empty()) {
                                            Ok(ns) => spec_dec_request(
                                                s,
                                                next,
                                                Some(RequestView::Follow(ns)),
                                            ),
                                            Err(e) => Err(e),
                                        }
                                    } else if field == 4 {
                                        match spec_dec_names(body, 0, Seq::empty()) {
                                            Ok(ns) => spec_dec_request(
                                                s,
                                                next,
                                                Some(RequestView::Unfollow(ns)),
                                            ),
                                            Err(e) => Err(e),
                                        }
                                    } else {
                                        spec_dec_request(s, next, acc)
                                    }
                                }
                            },
                        }
                    } else if wire == 0 {
                        match dec_varint(s, j) {
                            None => Err(DecodeError::Malformed),
                            Some((_, k)) => {
                                if k <= i || k > s.len() {
                                    Err(DecodeError::Malformed)
                                } else {
                                    spec_dec_request(s, k, acc)
                                }
                            },
                        }
                    } else if wire == 1 {
                        if s.len() - j >= 8 {
                            spec_dec_request(s, j + 8, acc)
                        } else {
                            Err(DecodeError::Malformed)
                        }
                    } else if wire == 5 {
                        if s.len() - j >= 4 {
                            spec_dec_request(s, j + 4, acc)
                        } else {
                            Err(DecodeError::Malformed)
                        }
                    } else {
                        Err(DecodeError::Malformed)
                    }
                }
            },
        }
    }
}

proof fn lemma_deep_view_push<T: DeepView>(pre: Vec<T>, post: Vec<T>, x: T)
    requires
        post@ == pre@.push(x),
    ensures
        post.deep_view() =~= pre.deep_view().push(x.deep_view()),
{
    assert forall|j: int| 0 <= j < post@.len() implies post.deep_view()[j]
        == pre.deep_view().push(x.deep_view())[j] by {
        if j < pre@.len() {
            assert(post@[j] == pre@[j]);
        } else {
            assert(post@[j] == x);
        }
    }
}

/// Decodes a name-list body, exactly as `spec_dec_names` lays down.
pub fn decode_names(s: &Vec<u8>) -> (r: Result<Vec<Vec<u8>>, DecodeError>)
    ensures
        match r {
            Ok(names) => spec_dec_names(s@, 0, Seq::empty()) == Ok::<_, DecodeError>(
                names.deep_view(),
            ),
            Err(e) => spec_dec_names(s@, 0, Seq::empty()) == Err::<Seq<Seq<u8>>, _>(e),
        },
{
    let mut acc: Vec<Vec<u8>> = Vec::new();
    let mut i: usize = 0;
    proof {
        assert(acc.deep_view() =~= Seq::<Seq<u8>>::empty());
    }
    while i < s.len()
        invariant
            i <= s@.len(),
            spec_dec_names(s@, 0, Seq::empty()) == spec_dec_names(s@, i as int, acc.deep_view()),
        decreases s@.len() - i,
    {
        let (key, j) = match get_varint(s, i) {
            Ok(kj) => kj,
            Err(e) => {
                return Err(e);
            },
        };
        let field = key / 8;
        let wire = key % 8;
        if wire == 2 {
            let (len, k) = match get_varint(s, j) {
                Ok(lk) => lk,
                Err(e) => {
                    return Err(e);
                },
            };
            if len > (s.len() - k) as u64 {
                return Err(DecodeError::Malformed);
            }
            let next: usize = k + (len as usize);
            if field == 1 {
                let name = copy_range(s, k, next);
                let ghost pre = acc;
                let ghost namesnap = name;
                acc.push(name);
                proof {
                    lemma_deep_view_push(pre, acc, namesnap);
                    assert(namesnap.deep_view() =~= namesnap@);
                }
            }
            i = next;
        } else if wire == 0 {
            let (_v, k) = match get_varint(s, j) {
                Ok(vk) => vk,
                Err(e) => {
                    return Err(e);
                },
            };
            i = k;
        } else if wire == 1 {
            if s.len() - j >= 8 {
                i = j + 8;
            } else {
                return Err(DecodeError::Malformed);
            }
        } else if wire == 5 {
            if s.len() - j >= 4 {
                i = j + 4;
            } else {
                return Err(DecodeError::Malformed);
            }
        } else {
            return Err(DecodeError::Malformed);
        }
    }
    Ok(acc)
}

/// Decodes a request body, exactly as `spec_dec_request` lays down:
/// `Ok(None)` when the body holds no recognized request, an error when it
/// is malformed.
pub fn decode_request(s: &Vec<u8>) -> (r: Result<Option<Request>, DecodeError>)
    ensures
        match r {
            Ok(q) => spec_dec_request(s@, 0, None) == Ok::<_, DecodeError>(opt_req_view(q)),
            Err(e) => spec_dec_request(s@, 0, None) == Err::<Option<RequestView>, _>(e),
        },
{
    let mut acc: Option<Request> = None;
    let mut i: usize = 0;
    while i < s.len()
        invariant
            i <= s@.len(),
            spec_dec_request(s@, 0, None) == spec_dec_request(s@, i as int, opt_req_view(acc)),
        decreases s@.len() - i,
    {
        let (key, j) = match get_varint(s, i) {
            Ok(kj) => kj,
            Err(e) => {
                return Err(e);
            },
        };
        let field = key / 8;
        let wire = key % 8;
        if wire == 2 {
            let (len, k) = match get_varint(s, j) {
                Ok(lk) => lk,
                Err(e) => {
                    return Err(e);
                },
            };
            if len > (s.len() - k) as u64 {
                return Err(DecodeError::Malformed);
            }
            let next: usize = k + (len as usize);
            if field == 1 {
                acc = Some(Request::AllRaidBosses);
            } else if field == 2 || field == 3 || field == 4 {
                let body = copy_range(s, k, next);
                let names = match decode_names(&body) {
                    Ok(ns) => ns,
                    Err(e) => {
                        return Err(e);
                    },
                };
                acc = if field == 2 {
                    Some(Request::RaidBosses(names))
                } else if field == 3 {
                    Some(Request::Follow(names))
                } else {
                    Some(Request::Unfollow(names))
                };
            }
            i = next;
        } else if wire == 0 {
            let (_v, k) = match get_varint(s, j) {
                Ok(vk) => vk,
                Err(e) => {
                    return Err(e);
                },
            };
            i = k;
        } else if wire == 1 {
            if s.len() - j >= 8 {
                i = j + 8;
            } else {
                return Err(DecodeError::Malformed);
            }
        } else if wire == 5 {
            if s.len() - j >= 4 {
                i = j + 4;
            } else {
                return Err(DecodeError::Malformed);
            }
        } else {
            return Err(DecodeError::Malformed);
        }
    }
    Ok(acc)
}

/// The name-list body: each name under field 1, in order.
pub open spec fn enc_names(names: Seq<Seq<u8>>) -> Seq<u8>
    decreases names.len(),
{
    if names.len() == 0 {
        Seq::empty()
    } else {
        enc_bytes_field(1, names[0]) + enc_names(names.drop_first())
    }
}

/// The body of a request envelope.
pub open spec fn enc_request(q: RequestView) -> Seq<u8> {
    match q {
        RequestView::AllRaidBosses => enc_bytes_field(1, Seq::empty()),
        RequestView::RaidBosses(ns) => enc_bytes_field(2, enc_names(ns)),
        RequestView::Follow(ns) => enc_bytes_field(3, enc_names(ns)),
        RequestView::Unfollow(ns) => enc_bytes_field(4, enc_names(ns)),
    }
}

/// Appends the name-list body for `names` to `buf`.
fn put_names(buf: &mut Vec<u8>, names: &Vec<Vec<u8>>)
    ensures
        final(buf)@ == old(buf)@ + enc_names(names.deep_view()),
{
    let ghost ns = names.deep_view();
    let mut i: usize = 0;
    proof {
        assert(ns.skip(0) =~= ns);
    }
    while i < names.len()
        invariant
            i <= names@.len(),
            ns == names.deep_view(),
            old(buf)@ + enc_names(ns) =~= buf@ + enc_names(ns.skip(i as int)),
        decreases names@.len() - i,
    {
        let ghost pre = buf@;
        put_bytes_field(buf, 1, &names[i]);
        proof {
            assert(ns.skip(i as int).len() > 0);
            assert(ns.skip(i as int)[0] == ns[i as int]);
            assert(ns.skip(i as int).drop_first() =~= ns.skip(i + 1));
            assert(enc_names(ns.skip(i as int)) == enc_bytes_field(1, ns[i as int]) + enc_names(
                ns.skip(i + 1),
            ));
            assert(names[i as int]@ == ns[i as int]);
            assert(pre + enc_names(ns.skip(i as int)) =~= buf@ + enc_names(ns.skip(i + 1)));
        }
        i = i + 1;
    }
    proof {
        assert(ns.skip(ns.len() as int) =~= Seq::<Seq<u8>>::empty());
        assert(enc_names(ns.skip(ns.len() as int)) == Seq::<u8>::empty());
        assert(final(buf)@ =~= old(buf)@ + enc_names(ns));
    }
}

/// Serializes a request into an envelope body, exactly `enc_request`.
pub fn encode_request(q: &Request) -> (r: Vec<u8>)
    ensures
        r@ == enc_request(q@),
{
    let mut buf: Vec<u8> = Vec::new();
    match q {
        Request::AllRaidBosses => {
            let empty: Vec<u8> = Vec::new();
            put_bytes_field(&mut buf, 1, &empty);
            assert(empty@ =~= Seq::<u8>::empty());
        },
        Request::RaidBosses(ns) => {
            let mut body: Vec<u8> = Vec::new();
            put_names(&mut body, ns);
            put_bytes_field(&mut buf, 2, &body);
        },
        Request::Follow(ns) => {
            let mut body: Vec<u8> = Vec::new();
            put_names(&mut body, ns);
            put_bytes_field(&mut buf, 3, &body);
        },
        Request::Unfollow(ns) => {
            let mut body: Vec<u8> = Vec::new();
            put_names(&mut body, ns);
            put_bytes_field(&mut buf, 4, &body);
        },
    }
    assert(buf@ =~= enc_request(q@));
    buf
}

/// Copies `s[from..to]` out into a fresh byte string.
pub fn copy_range(s: &Vec<u8>, from: usize, to: usize) -> (r: Vec<u8>)
    requires
        from <= to <= s@.len(),
    ensures
        r@ == s@.subrange(from as int, to as int),
{
    let mut out: Vec<u8> = Vec::new();
    let mut i: usize = from;
    while i < to
        invariant
            from <= i <= to <= s@.len(),
            out@ == s@.subrange(from as int, i as int),
        decreases to - i,
    {
        out.push(s[i]);
        assert(s@.subrange(from as int, i as int) + seq![s@[i as int]] =~= s@.subrange(
            from as int,
            i + 1,
        ));
        i = i + 1;
    }
    out
}

proof fn lemma_subrange_align(s: Seq<u8>, i: int, e: Seq<u8>, a: int, b: int)
    requires
        0 <= i,
        i + e.len() <= s.len(),
        s.subrange(i, i + e.len()) == e,
        0 <= a <= b <= e.len(),
    ensures
        s.subrange(i + a, i + b) =~= e.subrange(a, b),
{
    assert forall|t: int| 0 <= t < b - a implies s.subrange(i + a, i + b)[t] == e.subrange(
        a,
        b,
    )[t] by {
        assert(s.subrange(i, i + e.len())[a + t] == e[a + t]);
    }
}

/// Every name is short enough for the wire's 64-bit length field.
pub open spec fn names_fit(ns: Seq<Seq<u8>>) -> bool {
    forall|k: int| 0 <= k < ns.len() ==> (#[trigger] ns[k]).len() <= u64::MAX
}

proof fn lemma_dec_names_round_trip_at(s: Seq<u8>, i: int, ns: Seq<Seq<u8>>, acc: Seq<Seq<u8>>)
    requires
        0 <= i <= s.len(),
        s.len() == i + enc_names(ns).len(),
        s.subrange(i, s.len() as int) == enc_names(ns),
        names_fit(ns),
    ensures
        spec_dec_names(s, i, acc) == Ok::<_, DecodeError>(acc + ns),
    decreases ns.len(),
{
    let e = enc_names(ns);
    if ns.len() == 0 {
        assert(acc + ns =~= acc);
    } else {
        let b0 = ns[0];
        let ebf = enc_bytes_field(1, b0);
        let etail = enc_names(ns.drop_first());
        assert(e == ebf + etail);
        let lenv = enc_varint(b0.len() as u64);
        lemma_enc_varint_len(b0.len() as u64);
        assert(enc_varint(10) =~= seq![10u8]);
        assert(ebf == seq![10u8] + lenv + b0);
        let j = i + 1;
        let k = j + lenv.len();
        let next = k + b0.len();
        assert(e.subrange(0, 1) =~= seq![10u8]) by {
            assert(e[0] == ebf[0]);
        }
        lemma_subrange_align(s, i, e, 0, 1);
        lemma_varint_round_trip(s, i, 10);
        assert(dec_varint(s, i) == Some((10u64, j)));
        assert(e.subrange(1, 1 + lenv.len() as int) =~= lenv) by {
            assert forall|t: int| 0 <= t < lenv.len() implies e[1 + t] == lenv[t] by {
                assert(e[1 + t] == ebf[1 + t]);
                assert(ebf[1 + t] == (seq![10u8] + lenv)[1 + t]);
            }
        }
        lemma_subrange_align(s, i, e, 1, 1 + lenv.len() as int);
        lemma_varint_round_trip(s, j, b0.len() as u64);
        assert(dec_varint(s, j) == Some((b0.len() as u64, k)));
        assert(e.subrange(ebf.len() - b0.len() as int, ebf.len() as int) =~= b0) by {
            assert forall|t: int| 0 <= t < b0.len() implies e[1 + lenv.len() + t] == b0[t] by {
                assert(e[1 + lenv.len() + t] == ebf[1 + lenv.len() + t]);
            }
        }
        lemma_subrange_align(s, i, e, ebf.len() - b0.len() as int, ebf.len() as int);
        assert(s.subrange(k, next) =~= b0);
        assert(e.subrange(ebf.len() as int, e.len() as int) =~= etail);
        lemma_subrange_align(s, i, e, ebf.len() as int, e.len() as int);
        assert(s.subrange(next, s.len() as int) =~= etail);
        assert(s.subrange(next, next + etail.len()) == etail);
        assert forall|t: int| 0 <= t < ns.drop_first().len() implies (#[trigger] ns.drop_first()[t]).len()
            <= u64::MAX by {
            assert(ns[t + 1].len() <= u64::MAX);
        }
        lemma_dec_names_round_trip_at(s, next, ns.drop_first(), acc.push(b0));
        assert(s.subrange(k, k + b0.len() as int) == b0);
        assert(spec_dec_names(s, i, acc) == spec_dec_names(s, next, acc.push(b0)));
        assert(acc.push(b0) + ns.drop_first() =~= acc + ns);
    }
}

/// Whether a request's names are short enough to encode faithfully.
pub open spec fn request_fits(q: RequestView) -> bool {
    match q {
        RequestView::AllRaidBosses => true,
        RequestView::RaidBosses(ns) => names_fit(ns) && enc_names(ns).len() <= u64::MAX,
        RequestView::Follow(ns) => names_fit(ns) && enc_names(ns).len() <= u64::MAX,
        RequestView::Unfollow(ns) => names_fit(ns) && enc_names(ns).len() <= u64::MAX,
    }
}

proof fn lemma_dec_request_of_one_field(field: u64, body: Seq<u8>, q: RequestView)
    requires
        1 <= field <= 4,
        body.len() <= u64::MAX,
        match spec_dec_names(body, 0, Seq::empty()) {
            Ok(ns) => (field == 1 ==> q == RequestView::AllRaidBosses) && (field == 2 ==> q
                == RequestView::RaidBosses(ns)) && (field == 3 ==> q == RequestView::Follow(ns))
                && (field == 4 ==> q == RequestView::Unfollow(ns)),
            Err(_) => field == 1 && q == RequestView::AllRaidBosses,
        },
    ensures
        spec_dec_request(enc_bytes_field(field, body), 0, None) == Ok::<_, DecodeError>(Some(q)),
{
    let s = enc_bytes_field(field, body);
    let keyv = enc_varint((field * 8 + 2) as u64);
    let lenv = enc_varint(body.len() as u64);
    lemma_enc_varint_len((field * 8 + 2) as u64);
    lemma_enc_varint_len(body.len() as u64);
    let j = keyv.len() as int;
    let k = j + lenv.len();
    let next = k + body.len();
    assert(s == keyv + lenv + body);
    assert(s.subrange(0, j) =~= keyv);
    lemma_varint_round_trip(s, 0, (field * 8 + 2) as u64);
    assert(dec_varint(s, 0) == Some(((field * 8 + 2) as u64, j)));
    assert(s.subrange(j, k) =~= lenv);
    lemma_varint_round_trip(s, j, body.len() as u64);
    assert(dec_varint(s, j) == Some((body.len() as u64, k)));
    assert(s.subrange(k, next) =~= body);
    assert(next == s.len());
    assert((field * 8 + 2) / 8 == field && (field * 8 + 2) % 8 == 2);
    let acc1: Option<RequestView> = Some(q);
    assert(spec_dec_request(s, next, acc1) == Ok::<_, DecodeError>(Some(q)));
}

/// Round trip: a request serialized by `encode_request` decodes back to
/// itself — no request is lost or changed by the envelope.
pub proof fn lemma_request_round_trip(q: RequestView)
    requires
        request_fits(q),
    ensures
        spec_dec_request(enc_request(q), 0, None) == Ok::<_, DecodeError>(Some(q)),
{
    match q {
        RequestView::AllRaidBosses => {
            assert(spec_dec_names(Seq::empty(), 0, Seq::empty()) == Ok::<_, DecodeError>(Seq::<
                Seq<u8>,
            >::empty()));
            lemma_dec_request_of_one_field(1, Seq::empty(), q);
        },
        RequestView::RaidBosses(ns) => {
            let body = enc_names(ns);
            assert(body.subrange(0, body.len() as int) =~= body);
            lemma_dec_names_round_trip_at(body, 0, ns, Seq::empty());
            assert(Seq::<Seq<u8>>::empty() + ns =~= ns);
            lemma_dec_request_of_one_field(2, body, q);
        },
        RequestView::Follow(ns) => {
            let body = enc_names(ns);
            assert(body.subrange(0, body.len() as int) =~= body);
            lemma_dec_names_round_trip_at(body, 0, ns, Seq::empty());
            assert(Seq::<Seq<u8>>::empty() + ns =~= ns);
            lemma_dec_request_of_one_field(3, body, q);
        },
        RequestView::Unfollow(ns) => {
            let body = enc_names(ns);
            assert(body.subrange(0, body.len() as int) =~= body);
            lemma_dec_names_round_trip_at(body, 0, ns, Seq::empty());
            assert(Seq::<Seq<u8>>::empty() + ns =~= ns);
            lemma_dec_request_of_one_field(4, body, q);
        },
    }
}

/// Wire code of a language tag.
pub open spec fn lang_code(l: Language) -> u64 {
    match l {
        Language::English => 1,
        Language::Japanese => 2,
        Language::Other => 0,
    }
}

/// Wire code of a language tag (field value of a boss or tweet record).
pub fn language_to_proto(l: Language) -> (r: u64)
    ensures
        r == lang_code(l),
{
    match l {
        Language::English => 1,
        Language::Japanese => 2,
        Language::Other => 0,
    }
}

/// Language tag of a wire code; unknown codes map to `Other`.
pub open spec fn lang_of_code(code: u64) -> Language {
    if code == 1 {
        Language::English
    } else if code == 2 {
        Language::Japanese
    } else {
        Language::Other
    }
}

/// Language tag of a wire code; unknown codes map to `Other`.
pub fn language_from_proto(code: u64) -> (r: Language)
    ensures
        r == lang_of_code(code),
{
    if code == 1 {
        Language::English
    } else if code == 2 {
        Language::Japanese
    } else {
        Language::Other
    }
}

/// The profile-image URL written for a tweet whose author has none.
pub open spec fn default_image() -> Seq<u8> {
    seq![
        104u8, 116, 116, 112, 115, 58, 47, 47, 97, 98, 115, 46, 116, 119, 105, 109, 103, 46, 99,
        111, 109, 47, 115, 116, 105, 99, 107, 121, 47, 100, 101, 102, 97, 117, 108, 116, 95, 112,
        114, 111, 102, 105, 108, 101, 95, 105, 109, 97, 103, 101, 115, 47, 100, 101, 102, 97, 117,
        108, 116, 95, 112, 114, 111, 102, 105, 108, 101, 95, 109, 105, 110, 105, 46, 112, 110,
        103,
    ]
}

/// The profile-image URL written for a tweet whose author has none.
pub fn default_image_bytes() -> (r: Vec<u8>)
    ensures
        r@ == default_image(),
{
    let r: Vec<u8> = vec![
        104u8, 116, 116, 112, 115, 58, 47, 47, 97, 98, 115, 46, 116, 119, 105, 109, 103, 46, 99,
        111, 109, 47, 115, 116, 105, 99, 107, 121, 47, 100, 101, 102, 97, 117, 108, 116, 95, 112,
        114, 111, 102, 105, 108, 101, 95, 105, 109, 97, 103, 101, 115, 47, 100, 101, 102, 97, 117,
        108, 116, 95, 112, 114, 111, 102, 105, 108, 101, 95, 109, 105, 110, 105, 46, 112, 110,
        103,
    ];
    proof {
        assert(r@ =~= default_image());
    }
    r
}

/// The body of a tweet record. The author's profile image falls back to
/// `default_image`; an absent text is written as empty (and hence omitted);
/// the created-at timestamp is carried in milliseconds.
pub open spec fn enc_tweet_body(t: TweetView) -> Seq<u8> {
    opt_bytes_field(1, t.boss_name) + opt_bytes_field(2, t.raid_id) + opt_bytes_field(3, t.user)
        + opt_uint_field(4, t.tweet_id) + opt_bytes_field(
        5,
        match t.user_image {
            Some(i) => i,
            None => default_image(),
        },
    ) + opt_bytes_field(
        6,
        match t.text {
            Some(x) => x,
            None => Seq::empty(),
        },
    ) + opt_uint_field(7, ms_of(t.created_at)) + opt_uint_field(8, lang_code(t.language))
}

/// The body of a boss record: the boss's identity plus a last-seen
/// timestamp in milliseconds; the first translation, if any, is carried as
/// the translated name.
pub open spec fn enc_boss_body(b: BossView, last_seen_ms: u64) -> Seq<u8> {
    opt_bytes_field(1, b.name) + opt_bytes_field(
        2,
        match b.image {
            Some(i) => i,
            None => Seq::empty(),
        },
    ) + opt_uint_field(3, last_seen_ms) + opt_uint_field(4, b.level as u64) + opt_uint_field(
        5,
        lang_code(b.language),
    ) + opt_bytes_field(
        6,
        if b.translations.len() > 0 {
            b.translations[0]
        } else {
            Seq::empty()
        },
    )
}

/// One boss entry of a boss-list body: the boss record under field 1.
pub open spec fn enc_boss_entry(b: BossView, last_seen_ms: u64) -> Seq<u8> {
    enc_bytes_field(1, enc_boss_body(b, last_seen_ms))
}

/// A boss-list body: one entry per boss, in order, all carrying the same
/// last-seen timestamp.
pub open spec fn enc_boss_list(bs: Seq<BossView>, last_seen_ms: u64) -> Seq<u8>
    decreases bs.len(),
{
    if bs.len() == 0 {
        Seq::empty()
    } else {
        enc_boss_entry(bs[0], last_seen_ms) + enc_boss_list(bs.drop_first(), last_seen_ms)
    }
}

/// The response-envelope body of a keep-alive.
pub open spec fn enc_keepalive_response() -> Seq<u8> {
    enc_bytes_field(1, Seq::empty())
}

/// The response-envelope body of a single tweet.
pub open spec fn enc_tweet_response(t: TweetView) -> Seq<u8> {
    enc_bytes_field(2, enc_tweet_body(t))
}

/// The response-envelope body of a boss list.
pub open spec fn enc_bosses_response(bs: Seq<BossView>, last_seen_ms: u64) -> Seq<u8> {
    enc_bytes_field(3, enc_boss_list(bs, last_seen_ms))
}

/// Appends the tweet-record body of `t` to `buf`.
#[verifier::rlimit(50)]
pub fn put_tweet_body(buf: &mut Vec<u8>, t: &RaidTweet)
    ensures
        final(buf)@ == old(buf)@ + enc_tweet_body(t@),
{
    put_opt_bytes_field(buf, 1, &t.boss_name);
    put_opt_bytes_field(buf, 2, &t.raid_id);
    put_opt_bytes_field(buf, 3, &t.user);
    put_opt_uint_field(buf, 4, t.tweet_id);
    match &t.user_image {
        Some(i) => put_opt_bytes_field(buf, 5, i),
        None => {
            let d = default_image_bytes();
            put_opt_bytes_field(buf, 5, &d);
        },
    }
    match &t.text {
        Some(x) => put_opt_bytes_field(buf, 6, x),
        None => {
            let empty: Vec<u8> = Vec::new();
            assert(empty@ =~= Seq::<u8>::empty());
            put_opt_bytes_field(buf, 6, &empty);
        },
    }
    put_opt_uint_field(buf, 7, to_milliseconds(t.created_at));
    put_opt_uint_field(buf, 8, language_to_proto(t.language));
    assert(final(buf)@ =~= old(buf)@ + enc_tweet_body(t@));
}

/// Appends the boss-record body of `b` to `buf`.
#[verifier::rlimit(50)]
pub fn put_boss_body(buf: &mut Vec<u8>, b: &RaidBoss, last_seen_ms: u64)
    ensures
        final(buf)@ == old(buf)@ + enc_boss_body(b@, last_seen_ms),
{
    put_opt_bytes_field(buf, 1, &b.name);
    match &b.image {
        Some(i) => put_opt_bytes_field(buf, 2, i),
        None => {
            let empty: Vec<u8> = Vec::new();
            assert(empty@ =~= Seq::<u8>::empty());
            put_opt_bytes_field(buf, 2, &empty);
        },
    }
    put_opt_uint_field(buf, 3, last_seen_ms);
    put_opt_uint_field(buf, 4, b.level as u64);
    put_opt_uint_field(buf, 5, language_to_proto(b.language));
    if b.translations.len() > 0 {
        put_opt_bytes_field(buf, 6, &b.translations[0]);
        assert(b.translations[0]@ == b@.translations[0]);
    } else {
        let empty: Vec<u8> = Vec::new();
        assert(empty@ =~= Seq::<u8>::empty());
        put_opt_bytes_field(buf, 6, &empty);
    }
    assert(final(buf)@ =~= old(buf)@ + enc_boss_body(b@, last_seen_ms));
}

/// Appends one boss entry (field 1 of a boss-list body) to `buf`.
pub fn put_boss_entry(buf: &mut Vec<u8>, b: &RaidBoss, last_seen_ms: u64)
    ensures
        final(buf)@ == old(buf)@ + enc_boss_entry(b@, last_seen_ms),
{
    let mut body: Vec<u8> = Vec::new();
    put_boss_body(&mut body, b, last_seen_ms);
    put_bytes_field(buf, 1, &body);
}

/// Appends the boss-list body for `bs` to `buf`.
pub fn put_boss_list(buf: &mut Vec<u8>, bs: &Vec<RaidBoss>, last_seen_ms: u64)
    ensures
        final(buf)@ == old(buf)@ + enc_boss_list(bs.deep_view(), last_seen_ms),
{
    let ghost views = bs.deep_view();
    let mut i: usize = 0;
    proof {
        assert(views.skip(0) =~= views);
    }
    while i < bs.len()
        invariant
            i <= bs@.len(),
            views == bs.deep_view(),
            old(buf)@ + enc_boss_list(views, last_seen_ms) =~= buf@ + enc_boss_list(
                views.skip(i as int),
                last_seen_ms,
            ),
        decreases bs@.len() - i,
    {
        let ghost pre = buf@;
        put_boss_entry(buf, &bs[i], last_seen_ms);
        proof {
            assert(views.skip(i as int).len() > 0);
            assert(views.skip(i as int)[0] == views[i as int]);
            assert(views.skip(i as int).drop_first() =~= views.skip(i + 1));
            assert(enc_boss_list(views.skip(i as int), last_seen_ms) == enc_boss_entry(
                views[i as int],
                last_seen_ms,
            ) + enc_boss_list(views.skip(i + 1), last_seen_ms));
            assert(bs[i as int]@ == views[i as int]);
            assert(pre + enc_boss_list(views.skip(i as int), last_seen_ms) =~= buf@ + enc_boss_list(
                views.skip(i + 1),
                last_seen_ms,
            ));
        }
        i = i + 1;
    }
    proof {
        assert(views.skip(views.len() as int) =~= Seq::<BossView>::empty());
        assert(final(buf)@ =~= old(buf)@ + enc_boss_list(views, last_seen_ms));
    }
}

/// A decoded boss entry, field for field as it stands on the wire: the
/// last-seen timestamp still in milliseconds, the language still a code.
pub struct BossProto {
    pub name: Vec<u8>,
    pub image: Option<Vec<u8>>,
    pub last_seen_ms: u64,
    pub level: u32,
    pub language_code: u64,
    pub translated_name: Option<Vec<u8>>,
}

/// Mathematical image of a `BossProto`.
#[verifier::ext_equal]
pub struct BossProtoView {
    pub name: Seq<u8>,
    pub image: Option<Seq<u8>>,
    pub last_seen_ms: u64,
    pub level: u32,
    pub language_code: u64,
    pub translated_name: Option<Seq<u8>>,
}

impl View for BossProto {
    type V = BossProtoView;

    open spec fn view(&self) -> BossProtoView {
        BossProtoView {
            name: self.name@,
            image: opt_view(self.image),
            last_seen_ms: self.last_seen_ms,
            level: self.level,
            language_code: self.language_code,
            translated_name: opt_view(self.translated_name),
        }
    }
}

impl DeepView for BossProto {
    type V = BossProtoView;

    open spec fn deep_view(&self) -> BossProtoView {
        self.view()
    }
}

/// A boss entry before any field was read: proto defaults.
pub open spec fn default_boss_proto() -> BossProtoView {
    BossProtoView {
        name: Seq::empty(),
        image: None,
        last_seen_ms: 0,
        level: 0,
        language_code: 0,
        translated_name: None,
    }
}

/// Walks the fields of a boss record from `i`. Fields 1, 2 and 6 are byte
/// strings, 3, 4 and 5 varint scalars (the level keeps its low 32 bits);
/// a later occurrence overrides an earlier one; unknown fields and known
/// fields under an unexpected wire type are skipped.
pub open spec fn spec_dec_boss(s: Seq<u8>, i: int, acc: BossProtoView) -> Result<
    BossProtoView,
    DecodeError,
>
    decreases s.len() - i,
{
    if i < 0 {
        Err(DecodeError::Malformed)
    } else if i >= s.len() {
        Ok(acc)
    } else {
        match dec_varint(s, i) {
            None => Err(DecodeError::Malformed),
            Some((key, j)) => {
                if j <= i || j > s.len() {
                    Err(DecodeError::Malformed)
                } else {
                    let field = key / 8;
                    let wire = key % 8;
                    if wire == 2 {
                        match dec_varint(s, j) {
                            None => Err(DecodeError::Malformed),
                            Some((len, k)) => {
                                if k <= i || k > s.len() {
                                    Err(DecodeError::Malformed)
                                } else if len > s.len() - k {
                                    Err(DecodeError::Malformed)
                                } else {
                                    let next = k + len;
                                    let body = s.subrange(k, next);
                                    if field == 1 {
                                        spec_dec_boss(s, next, BossProtoView { name: body, ..acc })
                                    } else if field == 2 {
                                        spec_dec_boss(
                                            s,
                                            next,
                                            BossProtoView { image: Some(body), ..acc },
                                        )
                                    } else if field == 6 {
                                        spec_dec_boss(
                                            s,
                                            next,
                                            BossProtoView { translated_name: Some(body), ..acc },
                                        )
                                    } else {
                                        spec_dec_boss(s, next, acc)
                                    }
                                }
                            },
                        }
                    } else if wire == 0 {
                        match dec_varint(s, j) {
                            None => Err(DecodeError::Malformed),
                            Some((v, k)) => {
                                if k <= i || k > s.len() {
                                    Err(DecodeError::Malformed)
                                } else if field == 3 {
                                    spec_dec_boss(s, k, BossProtoView { last_seen_ms: v, ..acc })
                                } else if field == 4 {
                                    spec_dec_boss(
                                        s,
                                        k,
                                        BossProtoView { level: v as u32, ..acc },
                                    )
                                } else if field == 5 {
                                    spec_dec_boss(s, k, BossProtoView { language_code: v, ..acc })
                                } else {
                                    spec_dec_boss(s, k, acc)
                                }
                            },
                        }
                    } else if wire == 1 {
                        if s.len() - j >= 8 {
                            spec_dec_boss(s, j + 8, acc)
                        } else {
                            Err(DecodeError::Malformed)
                        }
                    } else if wire == 5 {
                        if s.len() - j >= 4 {
                            spec_dec_boss(s, j + 4, acc)
                        } else {
                            Err(DecodeError::Malformed)
                        }
                    } else {
                        Err(DecodeError::Malformed)
                    }
                }
            },
        }
    }
}

/// Walks the fields of a boss-list body from `i`: each field-1 entry
/// decodes to one boss record, in order; unknown fields are skipped.
pub open spec fn spec_dec_boss_entries(s: Seq<u8>, i: int, acc: Seq<BossProtoView>) -> Result<
    Seq<BossProtoView>,
    DecodeError,
>
    decreases s.len() - i,
{
    if i < 0 {
        Err(DecodeError::Malformed)
    } else if i >= s.len() {
        Ok(acc)
    } else {
        match dec_varint(s, i) {
            None => Err(DecodeError::Malformed),
            Some((key, j)) => {
                if j <= i || j > s.len() {
                    Err(DecodeError::Malformed)
                } else {
                    let field = key / 8;
                    let wire = key % 8;
                    if wire == 2 {
                        match dec_varint(s, j) {
                            None => Err(DecodeError::Malformed),
                            Some((len, k)) => {
                                if k <= i || k > s.len() {
                                    Err(DecodeError::Malformed)
                                } else if len > s.len() - k {
                                    Err(DecodeError::Malformed)
                                } else {
                                    let next = k + len;
                                    let body = s.subrange(k, next);
                                    if field == 1 {
                                        match spec_dec_boss(body, 0, default_boss_proto()) {
                                            Ok(b) => spec_dec_boss_entries(s, next, acc.push(b)),
                                            Err(e) => Err(e),
                                        }
                                    } else {
                                        spec_dec_boss_entries(s, next, acc)
                                    }
                                }
                            },
                        }
                    } else if wire == 0 {
                        match dec_varint(s, j) {
                            None => Err(DecodeError::Malformed),
                            Some((_, k)) => {
                                if k <= i || k > s.len() {
                                    Err(DecodeError::Malformed)
                                } else {
                                    spec_dec_boss_entries(s, k, acc)
                                }
                            },
                        }
                    } else if wire == 1 {
                        if s.len() - j >= 8 {
                            spec_dec_boss_entries(s, j + 8, acc)
                        } else {
                            Err(DecodeError::Malformed)
                        }
                    } else if wire == 5 {
                        if s.len() - j >= 4 {
                            spec_dec_boss_entries(s, j + 4, acc)
                        } else {
                            Err(DecodeError::Malformed)
                        }
                    } else {
                        Err(DecodeError::Malformed)
                    }
                }
            },
        }
    }
}

/// How one length-prefixed field changes a boss record being decoded.
pub open spec fn boss_bytes_field_update(acc: BossProtoView, f: u64, b: Seq<u8>) -> BossProtoView {
    if f == 1 {
        BossProtoView { name: b, ..acc }
    } else if f == 2 {
        BossProtoView { image: Some(b), ..acc }
    } else if f == 6 {
        BossProtoView { translated_name: Some(b), ..acc }
    } else {
        acc
    }
}

/// How one varint scalar field changes a boss record being decoded.
pub open spec fn boss_uint_field_update(acc: BossProtoView, f: u64, n: u64) -> BossProtoView {
    if f == 3 {
        BossProtoView { last_seen_ms: n, ..acc }
    } else if f == 4 {
        BossProtoView { level: n as u32, ..acc }
    } else if f == 5 {
        BossProtoView { language_code: n, ..acc }
    } else {
        acc
    }
}

proof fn lemma_cat2_sub(a: Seq<u8>, b: Seq<u8>)
    ensures
        (a + b).subrange(0, a.len() as int) == a,
        (a + b).subrange(a.len() as int, (a + b).len() as int) == b,
{
    assert((a + b).subrange(0, a.len() as int) =~= a);
    assert((a + b).subrange(a.len() as int, (a + b).len() as int) =~= b);
}

proof fn lemma_dec_boss_takes_bytes_field(s: Seq<u8>, i: int, f: u64, b: Seq<u8>, acc: BossProtoView)
    requires
        1 <= f <= 6,
        b.len() <= u64::MAX,
        0 <= i,
        i + enc_bytes_field(f, b).len() <= s.len(),
        s.subrange(i, i + enc_bytes_field(f, b).len()) == enc_bytes_field(f, b),
    ensures
        spec_dec_boss(s, i, acc) == spec_dec_boss(
            s,
            i + enc_bytes_field(f, b).len(),
            boss_bytes_field_update(acc, f, b),
        ),
{
    let e = enc_bytes_field(f, b);
    let keyv = enc_varint((f * 8 + 2) as u64);
    let lenv = enc_varint(b.len() as u64);
    lemma_enc_varint_len((f * 8 + 2) as u64);
    lemma_enc_varint_len(b.len() as u64);
    assert(e == keyv + lenv + b);
    let j = i + keyv.len();
    let k = j + lenv.len();
    let next = k + b.len();
    assert(e.subrange(0, keyv.len() as int) =~= keyv);
    lemma_subrange_align(s, i, e, 0, keyv.len() as int);
    lemma_varint_round_trip(s, i, (f * 8 + 2) as u64);
    assert(e.subrange(keyv.len() as int, keyv.len() + lenv.len() as int) =~= lenv) by {
        assert forall|t: int| 0 <= t < lenv.len() implies e[keyv.len() + t] == lenv[t] by {
            assert(e[keyv.len() + t] == (keyv + lenv)[keyv.len() + t]);
        }
    }
    lemma_subrange_align(s, i, e, keyv.len() as int, keyv.len() + lenv.len() as int);
    lemma_varint_round_trip(s, j, b.len() as u64);
    assert(e.subrange(e.len() - b.len() as int, e.len() as int) =~= b);
    lemma_subrange_align(s, i, e, e.len() - b.len() as int, e.len() as int);
    assert(s.subrange(k, next) =~= b);
    assert((f * 8 + 2) / 8 == f && (f * 8 + 2) % 8 == 2);
    assert(s.subrange(k, k + b.len() as int) == b);
}

proof fn lemma_dec_boss_takes_uint_field(s: Seq<u8>, i: int, f: u64, n: u64, acc: BossProtoView)
    requires
        1 <= f <= 8,
        0 <= i,
        i + enc_uint_field(f, n).len() <= s.len(),
        s.subrange(i, i + enc_uint_field(f, n).len()) == enc_uint_field(f, n),
    ensures
        spec_dec_boss(s, i, acc) == spec_dec_boss(
            s,
            i + enc_uint_field(f, n).len(),
            boss_uint_field_update(acc, f, n),
        ),
{
    let e = enc_uint_field(f, n);
    let keyv = enc_varint((f * 8) as u64);
    let nv = enc_varint(n);
    lemma_enc_varint_len((f * 8) as u64);
    lemma_enc_varint_len(n);
    assert(e == keyv + nv);
    let j = i + keyv.len();
    let k = j + nv.len();
    assert(e.subrange(0, keyv.len() as int) =~= keyv);
    lemma_subrange_align(s, i, e, 0, keyv.len() as int);
    lemma_varint_round_trip(s, i, (f * 8) as u64);
    assert(e.subrange(keyv.len() as int, e.len() as int) =~= nv);
    lemma_subrange_align(s, i, e, keyv.len() as int, e.len() as int);
    lemma_varint_round_trip(s, j, n);
    assert((f * 8) / 8 == f && (f * 8) % 8 == 0);
}

/// A boss identity that the wire can carry faithfully: field contents fit
/// the 64-bit length prefix, and neither the image nor the first
/// translation is the empty string (an empty byte-string field is not
/// written, so it would read back as absent).
pub open spec fn boss_fits(b: BossView) -> bool {
    &&& b.name.len() <= u64::MAX
    &&& match b.image {
        Some(i) => 0 < i.len() <= u64::MAX,
        None => true,
    }
    &&& b.translations.len() > 0 ==> 0 < b.translations[0].len() <= u64::MAX
}

/// The decoded image of an encoded boss record: the identity itself, the
/// timestamp it was written with, the language as its code, the first
/// translation as the translated name.
pub open spec fn boss_wire_view(b: BossView, last_seen_ms: u64) -> BossProtoView {
    BossProtoView {
        name: b.name,
        image: b.image,
        last_seen_ms,
        level: b.level,
        language_code: lang_code(b.language),
        translated_name: if b.translations.len() > 0 {
            Some(b.translations[0])
        } else {
            None
        },
    }
}

/// Round trip for one boss record: the body written by `put_boss_body`
/// decodes back to the boss it encodes.
#[verifier::rlimit(100)]
pub proof fn lemma_boss_body_round_trip(b: BossView, last_seen_ms: u64)
    requires
        boss_fits(b),
    ensures
        spec_dec_boss(enc_boss_body(b, last_seen_ms), 0, default_boss_proto()) == Ok::<
            _,
            DecodeError,
        >(boss_wire_view(b, last_seen_ms)),
{
    let e1 = opt_bytes_field(1, b.name);
    let e2 = opt_bytes_field(
        2,
        match b.image {
            Some(i) => i,
            None => Seq::empty(),
        },
    );
    let e3 = opt_uint_field(3, last_seen_ms);
    let e4 = opt_uint_field(4, b.level as u64);
    let e5 = opt_uint_field(5, lang_code(b.language));
    let e6 = opt_bytes_field(
        6,
        if b.translations.len() > 0 {
            b.translations[0]
        } else {
            Seq::empty()
        },
    );
    let s = enc_boss_body(b, last_seen_ms);
    let p2 = e1 + e2;
    let p3 = p2 + e3;
    let p4 = p3 + e4;
    let p5 = p4 + e5;
    assert(s == p5 + e6);
    let o1 = e1.len() as int;
    let o2 = o1 + e2.len();
    let o3 = o2 + e3.len();
    let o4 = o3 + e4.len();
    let o5 = o4 + e5.len();
    let o6 = o5 + e6.len();
    assert(s.len() == o6);
    lemma_cat2_sub(p5, e6);
    assert(s.subrange(0, o5) == p5 && s.subrange(o5, o6) == e6);
    lemma_cat2_sub(p4, e5);
    lemma_subrange_align(s, 0, p5, 0, o4);
    lemma_subrange_align(s, 0, p5, o4, o5);
    assert(s.subrange(0, o4) == p4 && s.subrange(o4, o5) == e5);
    lemma_cat2_sub(p3, e4);
    lemma_subrange_align(s, 0, p4, 0, o3);
    lemma_subrange_align(s, 0, p4, o3, o4);
    assert(s.subrange(0, o3) == p3 && s.subrange(o3, o4) == e4);
    lemma_cat2_sub(p2, e3);
    lemma_subrange_align(s, 0, p3, 0, o2);
    lemma_subrange_align(s, 0, p3, o2, o3);
    assert(s.subrange(0, o2) == p2 && s.subrange(o2, o3) == e3);
    lemma_cat2_sub(e1, e2);
    lemma_subrange_align(s, 0, p2, 0, o1);
    lemma_subrange_align(s, 0, p2, o1, o2);
    assert(s.subrange(0, o1) == e1 && s.subrange(o1, o2) == e2);
    let a0 = default_boss_proto();
    let a1 = if b.name.len() > 0 {
        boss_bytes_field_update(a0, 1, b.name)
    } else {
        a0
    };
    if b.name.len() > 0 {
        lemma_dec_boss_takes_bytes_field(s, 0, 1, b.name, a0);
    }
    assert(spec_dec_boss(s, 0, a0) == spec_dec_boss(s, o1, a1));
    let a2 = match b.image {
        Some(i) => boss_bytes_field_update(a1, 2, i),
        None => a1,
    };
    match b.image {
        Some(i) => {
            lemma_dec_boss_takes_bytes_field(s, o1, 2, i, a1);
        },
        None => {},
    }
    assert(spec_dec_boss(s, o1, a1) == spec_dec_boss(s, o2, a2));
    let a3 = if last_seen_ms > 0 {
        boss_uint_field_update(a2, 3, last_seen_ms)
    } else {
        a2
    };
    if last_seen_ms > 0 {
        lemma_dec_boss_takes_uint_field(s, o2, 3, last_seen_ms, a2);
    }
    assert(spec_dec_boss(s, o2, a2) == spec_dec_boss(s, o3, a3));
    let a4 = if b.level > 0 {
        boss_uint_field_update(a3, 4, b.level as u64)
    } else {
        a3
    };
    if b.level > 0 {
        lemma_dec_boss_takes_uint_field(s, o3, 4, b.level as u64, a3);
    }
    assert(spec_dec_boss(s, o3, a3) == spec_dec_boss(s, o4, a4));
    let a5 = if lang_code(b.language) > 0 {
        boss_uint_field_update(a4, 5, lang_code(b.language))
    } else {
        a4
    };
    if lang_code(b.language) > 0 {
        lemma_dec_boss_takes_uint_field(s, o4, 5, lang_code(b.language), a4);
    }
    assert(spec_dec_boss(s, o4, a4) == spec_dec_boss(s, o5, a5));
    let a6 = if b.translations.len() > 0 {
        boss_bytes_field_update(a5, 6, b.translations[0])
    } else {
        a5
    };
    if b.translations.len() > 0 {
        lemma_dec_boss_takes_bytes_field(s, o5, 6, b.translations[0], a5);
    }
    assert(spec_dec_boss(s, o5, a5) == spec_dec_boss(s, o6, a6));
    assert(spec_dec_boss(s, o6, a6) == Ok::<_, DecodeError>(a6));
    assert(a6 =~= boss_wire_view(b, last_seen_ms));
}

#[verifier::rlimit(100)]
proof fn lemma_dec_boss_entries_round_trip_at(
    s: Seq<u8>,
    i: int,
    bs: Seq<BossView>,
    last_seen_ms: u64,
    acc: Seq<BossProtoView>,
)
    requires
        0 <= i <= s.len(),
        s.len() == i + enc_boss_list(bs, last_seen_ms).len(),
        s.subrange(i, s.len() as int) == enc_boss_list(bs, last_seen_ms),
        forall|k: int| 0 <= k < bs.len() ==> boss_fits(#[trigger] bs[k]),
        forall|k: int|
            0 <= k < bs.len() ==> enc_boss_body(#[trigger] bs[k], last_seen_ms).len() <= u64::MAX,
    ensures
        spec_dec_boss_entries(s, i, acc) == Ok::<_, DecodeError>(
            acc + bs.map_values(|b: BossView| boss_wire_view(b, last_seen_ms)),
        ),
    decreases bs.len(),
{
    let e = enc_boss_list(bs, last_seen_ms);
    let mapped = bs.map_values(|b: BossView| boss_wire_view(b, last_seen_ms));
    if bs.len() == 0 {
        assert(acc + mapped =~= acc);
    } else {
        let b0 = bs[0];
        let body = enc_boss_body(b0, last_seen_ms);
        let ebf = enc_boss_entry(b0, last_seen_ms);
        let etail = enc_boss_list(bs.drop_first(), last_seen_ms);
        assert(e == ebf + etail);
        let lenv = enc_varint(body.len() as u64);
        lemma_enc_varint_len(body.len() as u64);
        assert(enc_varint(10) =~= seq![10u8]);
        assert(ebf == seq![10u8] + lenv + body);
        let j = i + 1;
        let k = j + lenv.len();
        let next = k + body.len();
        assert(e.subrange(0, 1) =~= seq![10u8]) by {
            assert(e[0] == ebf[0]);
        }
        lemma_subrange_align(s, i, e, 0, 1);
        lemma_varint_round_trip(s, i, 10);
        assert(e.subrange(1, 1 + lenv.len() as int) =~= lenv) by {
            assert forall|t: int| 0 <= t < lenv.len() implies e[1 + t] == lenv[t] by {
                assert(e[1 + t] == ebf[1 + t]);
                assert(ebf[1 + t] == (seq![10u8] + lenv)[1 + t]);
            }
        }
        lemma_subrange_align(s, i, e, 1, 1 + lenv.len() as int);
        lemma_varint_round_trip(s, j, body.len() as u64);
        assert(e.subrange(ebf.len() - body.len() as int, ebf.len() as int) =~= body) by {
            assert forall|t: int| 0 <= t < body.len() implies e[1 + lenv.len() + t] == body[t] by {
                assert(e[1 + lenv.len() + t] == ebf[1 + lenv.len() + t]);
            }
        }
        lemma_subrange_align(s, i, e, ebf.len() - body.len() as int, ebf.len() as int);
        assert(s.subrange(k, next) =~= body);
        assert(s.subrange(k, k + body.len() as int) == body);
        lemma_boss_body_round_trip(b0, last_seen_ms);
        assert(e.subrange(ebf.len() as int, e.len() as int) =~= etail);
        lemma_subrange_align(s, i, e, ebf.len() as int, e.len() as int);
        assert(s.subrange(next, s.len() as int) =~= etail);
        assert forall|t: int| 0 <= t < bs.drop_first().len() implies boss_fits(
            #[trigger] bs.drop_first()[t],
        ) && enc_boss_body(bs.drop_first()[t], last_seen_ms).len() <= u64::MAX by {
            assert(boss_fits(bs[t + 1]));
            assert(enc_boss_body(bs[t + 1], last_seen_ms).len() <= u64::MAX);
        }
        lemma_dec_boss_entries_round_trip_at(
            s,
            next,
            bs.drop_first(),
            last_seen_ms,
            acc.push(boss_wire_view(b0, last_seen_ms)),
        );
        assert(spec_dec_boss_entries(s, i, acc) == spec_dec_boss_entries(
            s,
            next,
            acc.push(boss_wire_view(b0, last_seen_ms)),
        ));
        let tailmapped = bs.drop_first().map_values(
            |b: BossView| boss_wire_view(b, last_seen_ms),
        );
        assert(acc.push(boss_wire_view(b0, last_seen_ms)) + tailmapped =~= acc + mapped);
    }
}

/// Round trip for a boss-list record: the record written entry by entry
/// decodes back to the same bosses with the timestamp they were written
/// with — what the legacy cache reader relies on.
pub proof fn lemma_boss_list_round_trip(bs: Seq<BossView>, last_seen_ms: u64)
    requires
        forall|k: int| 0 <= k < bs.len() ==> boss_fits(#[trigger] bs[k]),
        forall|k: int|
            0 <= k < bs.len() ==> enc_boss_body(#[trigger] bs[k], last_seen_ms).len() <= u64::MAX,
    ensures
        spec_dec_boss_entries(enc_boss_list(bs, last_seen_ms), 0, Seq::empty()) == Ok::<
            _,
            DecodeError,
        >(bs.map_values(|b: BossView| boss_wire_view(b, last_seen_ms))),
{
    let s = enc_boss_list(bs, last_seen_ms);
    assert(s.subrange(0, s.len() as int) =~= s);
    lemma_dec_boss_entries_round_trip_at(s, 0, bs, last_seen_ms, Seq::empty());
    assert(Seq::<BossProtoView>::empty() + bs.map_values(
        |b: BossView| boss_wire_view(b, last_seen_ms),
    ) =~= bs.map_values(|b: BossView| boss_wire_view(b, last_seen_ms)));
}

/// Decodes one boss record, exactly as `spec_dec_boss` lays down.
pub fn decode_boss(s: &Vec<u8>) -> (r: Result<BossProto, DecodeError>)
    ensures
        match r {
            Ok(b) => spec_dec_boss(s@, 0, default_boss_proto()) == Ok::<_, DecodeError>(b@),
            Err(e) => spec_dec_boss(s@, 0, default_boss_proto()) == Err::<BossProtoView, _>(e),
        },
{
    let mut acc = BossProto {
        name: Vec::new(),
        image: None,
        last_seen_ms: 0,
        level: 0,
        language_code: 0,
        translated_name: None,
    };
    let mut i: usize = 0;
    proof {
        assert(acc@ =~= default_boss_proto());
    }
    while i < s.len()
        invariant
            i <= s@.len(),
            spec_dec_boss(s@, 0, default_boss_proto()) == spec_dec_boss(s@, i as int, acc@),
        decreases s@.len() - i,
    {
        let (key, j) = match get_varint(s, i) {
            Ok(kj) => kj,
            Err(e) => {
                return Err(e);
            },
        };
        let field = key / 8;
        let wire = key % 8;
        if wire == 2 {
            let (len, k) = match get_varint(s, j) {
                Ok(lk) => lk,
                Err(e) => {
                    return Err(e);
                },
            };
            if len > (s.len() - k) as u64 {
                return Err(DecodeError::Malformed);
            }
            let next: usize = k + (len as usize);
            if field == 1 {
                acc.name = copy_range(s, k, next);
            } else if field == 2 {
                acc.image = Some(copy_range(s, k, next));
            } else if field == 6 {
                acc.translated_name = Some(copy_range(s, k, next));
            }
            i = next;
        } else if wire == 0 {
            let (v, k) = match get_varint(s, j) {
                Ok(vk) => vk,
                Err(e) => {
                    return Err(e);
                },
            };
            if field == 3 {
                acc.last_seen_ms = v;
            } else if field == 4 {
                acc.level = v as u32;
            } else if field == 5 {
                acc.language_code = v;
            }
            i = k;
        } else if wire == 1 {
            if s.len() - j >= 8 {
                i = j + 8;
            } else {
                return Err(DecodeError::Malformed);
            }
        } else if wire == 5 {
            if s.len() - j >= 4 {
                i = j + 4;
            } else {
                return Err(DecodeError::Malformed);
            }
        } else {
            return Err(DecodeError::Malformed);
        }
    }
    Ok(acc)
}

/// Decodes a boss-list body, exactly as `spec_dec_boss_entries` lays down.
pub fn decode_boss_list(s: &Vec<u8>) -> (r: Result<Vec<BossProto>, DecodeError>)
    ensures
        match r {
            Ok(bs) => spec_dec_boss_entries(s@, 0, Seq::empty()) == Ok::<_, DecodeError>(
                bs.deep_view(),
            ),
            Err(e) => spec_dec_boss_entries(s@, 0, Seq::empty()) == Err::<Seq<BossProtoView>, _>(
                e,
            ),
        },
{
    let mut acc: Vec<BossProto> = Vec::new();
    let mut i: usize = 0;
    proof {
        assert(acc.deep_view() =~= Seq::<BossProtoView>::empty());
    }
    while i < s.len()
        invariant
            i <= s@.len(),
            spec_dec_boss_entries(s@, 0, Seq::empty()) == spec_dec_boss_entries(
                s@,
                i as int,
                acc.deep_view(),
            ),
        decreases s@.len() - i,
    {
        let (key, j) = match get_varint(s, i) {
            Ok(kj) => kj,
            Err(e) => {
                return Err(e);
            },
        };
        let field = key / 8;
        let wire = key % 8;
        if wire == 2 {
            let (len, k) = match get_varint(s, j) {
                Ok(lk) => lk,
                Err(e) => {
                    return Err(e);
                },
            };
            if len > (s.len() - k) as u64 {
                return Err(DecodeError::Malformed);
            }
            let next: usize = k + (len as usize);
            if field == 1 {
                let body = copy_range(s, k, next);
                let boss = match decode_boss(&body) {
                    Ok(b) => b,
                    Err(e) => {
                        return Err(e);
                    },
                };
                let ghost pre = acc;
                let ghost bosssnap = boss;
                acc.push(boss);
                proof {
                    lemma_deep_view_push(pre, acc, bosssnap);
                }
            }
            i = next;
        } else if wire == 0 {
            let (_v, k) = match get_varint(s, j) {
                Ok(vk) => vk,
                Err(e) => {
                    return Err(e);
                },
            };
            i = k;
        } else if wire == 1 {
            if s.len() - j >= 8 {
                i = j + 8;
            } else {
                return Err(DecodeError::Malformed);
            }
        } else if wire == 5 {
            if s.len() - j >= 4 {
                i = j + 4;
            } else {
                return Err(DecodeError::Malformed);
            }
        } else {
            return Err(DecodeError::Malformed);
        }
    }
    Ok(acc)
}

/// The Binary frames a domain event leaves the server as, if any: one frame
/// per message; a tweet list becomes one frame per tweet, concatenated in
/// order; a boss removal is not announced.
pub open spec fn spec_tweet_frames(ts: Seq<TweetView>) -> Seq<u8>
    decreases ts.len(),
{
    if ts.len() == 0 {
        Seq::empty()
    } else {
        crate::codec::frame_bytes(2, enc_tweet_response(ts[0])) + spec_tweet_frames(
            ts.drop_first(),
        )
    }
}

/// The outbound bytes of a domain event: `None` exactly for a boss removal,
/// which updates tables without notifying anyone.
pub open spec fn spec_message_bytes(e: EventView, now_ms: u64) -> Option<Seq<u8>> {
    match e {
        EventView::Heartbeat => Some(crate::codec::frame_bytes(2, enc_keepalive_response())),
        EventView::Tweet(t) => Some(crate::codec::frame_bytes(2, enc_tweet_response(t))),
        EventView::TweetList(ts) => Some(spec_tweet_frames(ts)),
        EventView::BossUpdate(b) => Some(
            crate::codec::frame_bytes(2, enc_bosses_response(seq![b], now_ms)),
        ),
        EventView::BossList(bs) => Some(
            crate::codec::frame_bytes(2, enc_bosses_response(bs, now_ms)),
        ),
        EventView::BossRemove(_) => None,
    }
}

/// Appends one tweet response, framed, to `buf`.
pub fn write_tweet_frame(buf: &mut Vec<u8>, t: &RaidTweet)
    ensures
        final(buf)@ == old(buf)@ + crate::codec::frame_bytes(2, enc_tweet_response(t@)),
{
    let mut body: Vec<u8> = Vec::new();
    put_tweet_body(&mut body, t);
    let mut env: Vec<u8> = Vec::new();
    put_bytes_field(&mut env, 2, &body);
    crate::codec::write_frame(buf, 2, &env);
}

/// Appends one boss-list response, framed, to `buf`.
pub fn write_bosses_frame(buf: &mut Vec<u8>, bs: &Vec<RaidBoss>, now_ms: u64)
    ensures
        final(buf)@ == old(buf)@ + crate::codec::frame_bytes(
            2,
            enc_bosses_response(bs.deep_view(), now_ms),
        ),
{
    let mut list: Vec<u8> = Vec::new();
    put_boss_list(&mut list, bs, now_ms);
    let mut env: Vec<u8> = Vec::new();
    put_bytes_field(&mut env, 3, &list);
    crate::codec::write_frame(buf, 2, &env);
}

/// Serializes a domain event into the bytes written to one subscriber:
/// exactly `spec_message_bytes`. `None` only for a boss removal.
pub fn message_to_bytes(msg: &DomainEvent, now_ms: u64) -> (r: Option<Vec<u8>>)
    ensures
        match r {
            Some(v) => spec_message_bytes(msg@, now_ms) == Some(v@),
            None => spec_message_bytes(msg@, now_ms) is None && msg@ is BossRemove,
        },
{
    match msg {
        DomainEvent::Heartbeat => {
            let empty: Vec<u8> = Vec::new();
            assert(empty@ =~= Seq::<u8>::empty());
            let mut env: Vec<u8> = Vec::new();
            put_bytes_field(&mut env, 1, &empty);
            let mut out: Vec<u8> = Vec::new();
            crate::codec::write_frame(&mut out, 2, &env);
            Some(out)
        },
        DomainEvent::Tweet(t) => {
            let mut out: Vec<u8> = Vec::new();
            write_tweet_frame(&mut out, t);
            Some(out)
        },
        DomainEvent::TweetList(ts) => {
            let ghost views = ts.deep_view();
            let mut out: Vec<u8> = Vec::new();
            let mut i: usize = 0;
            proof {
                assert(views.skip(0) =~= views);
            }
            while i < ts.len()
                invariant
                    i <= ts@.len(),
                    views == ts.deep_view(),
                    spec_tweet_frames(views) =~= out@ + spec_tweet_frames(views.skip(i as int)),
                decreases ts@.len() - i,
            {
                let ghost pre = out@;
                write_tweet_frame(&mut out, &ts[i]);
                proof {
                    assert(views.skip(i as int).len() > 0);
                    assert(views.skip(i as int)[0] == views[i as int]);
                    assert(views.skip(i as int).drop_first() =~= views.skip(i + 1));
                    assert(spec_tweet_frames(views.skip(i as int)) == crate::codec::frame_bytes(
                        2,
                        enc_tweet_response(views[i as int]),
                    ) + spec_tweet_frames(views.skip(i + 1)));
                    assert(ts[i as int]@ == views[i as int]);
                    assert(spec_tweet_frames(views) =~= out@ + spec_tweet_frames(
                        views.skip(i + 1),
                    ));
                }
                i = i + 1;
            }
            proof {
                assert(views.skip(views.len() as int) =~= Seq::<TweetView>::empty());
                assert(out@ =~= spec_tweet_frames(views));
            }
            Some(out)
        },
        DomainEvent::BossUpdate(b) => {
            let mut list: Vec<RaidBoss> = Vec::new();
            list.push(copy_boss(b));
            let mut out: Vec<u8> = Vec::new();
            proof {
                assert(list.deep_view() =~= seq![b@]);
            }
            write_bosses_frame(&mut out, &list, now_ms);
            Some(out)
        },
        DomainEvent::BossList(bs) => {
            let mut out: Vec<u8> = Vec::new();
            write_bosses_frame(&mut out, bs, now_ms);
            Some(out)
        },
        DomainEvent::BossRemove(_) => None,
    }
}

} // verus!
