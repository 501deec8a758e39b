//! WebSocket frame codec: parsing a byte buffer into logical frames and
//! serializing logical frames back into bytes.
//!
//! The wire layout is the standard one: the first byte carries the FIN bit
//! (bit 7) and a 4-bit opcode, the second byte carries the MASK bit (bit 7)
//! and a 7-bit length code (126 and 127 select 16-bit and 64-bit big-endian
//! extended lengths). A masked frame carries a 4-byte key after the length
//! field and every payload byte is XORed with `key[i % 4]`.
//!
//! Only whole, unfragmented frames are accepted: a clear FIN bit is an error,
//! as is a declared payload length above the configured limit.

use vstd::prelude::*;

verus! {

/// Largest payload a peer may declare before the connection is torn down.
pub const MAX_PACKET_SIZE: usize = 10 * 1024 * 1024;

/// A decoded logical frame. Payload bytes are owned (and already unmasked).
#[derive(Debug, PartialEq, Eq)]
pub enum Frame {
    Ping(Vec<u8>),
    Pong(Vec<u8>),
    Text(Vec<u8>),
    Binary(Vec<u8>),
    Close(u16, Vec<u8>),
}

/// The mathematical image of a `Frame`: payloads as byte sequences.
#[verifier::ext_equal]
pub enum FrameView {
    Ping(Seq<u8>),
    Pong(Seq<u8>),
    Text(Seq<u8>),
    Binary(Seq<u8>),
    Close(u16, Seq<u8>),
}

impl View for Frame {
    type V = FrameView;

    open spec fn view(&self) -> FrameView {
        match self {
            Frame::Ping(p) => FrameView::Ping(p@),
            Frame::Pong(p) => FrameView::Pong(p@),
            Frame::Text(p) => FrameView::Text(p@),
            Frame::Binary(p) => FrameView::Binary(p@),
            Frame::Close(code, p) => FrameView::Close(*code, p@),
        }
    }
}

/// Why a frame was rejected. Every variant is fatal to the connection.
#[derive(Clone, Copy, Debug, PartialEq, Eq, Structural)]
pub enum FrameError {
    /// The declared payload length exceeds the configured limit.
    TooLong,
    /// The FIN bit is clear; fragmented frames are not supported.
    Fragmented,
    /// The MASK bit does not match what the caller expects.
    Unmasked,
    /// The 4-bit opcode is not one of Text, Binary, Ping, Pong, Close.
    InvalidOpcode(u8),
}

/// Big-endian bytes of a 16-bit value.
pub open spec fn u16_be(n: int) -> Seq<u8> {
    seq![(n / 256 % 256) as u8, (n % 256) as u8]
}

/// Big-endian bytes of a 64-bit value.
pub open spec fn u64_be(n: int) -> Seq<u8> {
    seq![
        (n / 0x100000000000000 % 256) as u8,
        (n / 0x1000000000000 % 256) as u8,
        (n / 0x10000000000 % 256) as u8,
        (n / 0x100000000 % 256) as u8,
        (n / 0x1000000 % 256) as u8,
        (n / 0x10000 % 256) as u8,
        (n / 0x100 % 256) as u8,
        (n % 256) as u8,
    ]
}

/// The length field of a frame: the MASK bit (if `masked`) plus the 7-bit
/// length code, followed by the extended length bytes when the payload is
/// 126 bytes or longer.
pub open spec fn len_field(masked: bool, len: int) -> Seq<u8> {
    let m: int = if masked { 128 } else { 0 };
    if len < 126 {
        seq![(m + len) as u8]
    } else if len <= 0xFFFF {
        seq![(m + 126) as u8] + u16_be(len)
    } else {
        seq![(m + 127) as u8] + u64_be(len)
    }
}

/// The bytes of an unmasked frame with FIN set: how the server writes
/// every outbound frame.
pub open spec fn frame_bytes(opcode: u8, payload: Seq<u8>) -> Seq<u8> {
    seq![(128 + opcode) as u8] + len_field(false, payload.len() as int) + payload
}

/// `payload` XORed bytewise with the 4-byte `key`.
pub open spec fn mask_seq(payload: Seq<u8>, key: Seq<u8>) -> Seq<u8> {
    Seq::new(payload.len(), |i: int| payload[i] ^ key[i % 4])
}

/// The bytes of a masked frame with FIN set: how a client writes a frame.
pub open spec fn masked_frame_bytes(opcode: u8, payload: Seq<u8>, key: Seq<u8>) -> Seq<u8> {
    seq![(128 + opcode) as u8] + len_field(true, payload.len() as int) + key
        + mask_seq(payload, key)
}

/// Appends an unmasked frame with FIN set to `buf`.
pub fn write_frame(buf: &mut Vec<u8>, opcode: u8, payload: &Vec<u8>)
    requires
        opcode < 16,
    ensures
        final(buf)@ == old(buf)@ + frame_bytes(opcode, payload@),
{
    let len: usize = payload.len();
    buf.push(128 + opcode);
    if len < 126 {
        buf.push(len as u8);
    } else if len <= 0xFFFF {
        let n = len as u64;
        buf.push(126);
        buf.push((n / 256 % 256) as u8);
        buf.push((n % 256) as u8);
    } else {
        let n = len as u64;
        buf.push(127);
        buf.push((n / 0x100000000000000 % 256) as u8);
        buf.push((n / 0x1000000000000 % 256) as u8);
        buf.push((n / 0x10000000000 % 256) as u8);
        buf.push((n / 0x100000000 % 256) as u8);
        buf.push((n / 0x1000000 % 256) as u8);
        buf.push((n / 0x10000 % 256) as u8);
        buf.push((n / 0x100 % 256) as u8);
        buf.push((n % 256) as u8);
    }
    let ghost header_done = buf@;
    assert(header_done =~= old(buf)@ + seq![(128 + opcode) as u8]
        + len_field(false, payload@.len() as int));
    let mut i: usize = 0;
    while i < payload.len()
        invariant
            i <= payload.len(),
            buf@ == header_done + payload@.subrange(0, i as int),
        decreases payload.len() - i,
    {
        buf.push(payload[i]);
        assert(header_done + payload@.subrange(0, i as int) + seq![payload@[i as int]]
            =~= header_done + payload@.subrange(0, i + 1));
        i = i + 1;
    }
    assert(buf@ =~= old(buf)@ + frame_bytes(opcode, payload@));
}

/// The bytes of a Close frame: 2-byte big-endian close code, then the reason.
pub open spec fn close_frame_bytes(code: u16, reason: Seq<u8>) -> Seq<u8> {
    frame_bytes(8, u16_be(code as int) + reason)
}

/// Appends an unmasked Close frame carrying `code` and `reason` to `buf`.
///
/// The reason must leave room for the 2-byte code inside the single-byte
/// length budget of 125, so it is capped at 123 bytes; a longer reason is a
/// caller error, not a runtime failure.
pub fn write_close(buf: &mut Vec<u8>, code: u16, reason: &Vec<u8>)
    requires
        reason@.len() <= 123,
    ensures
        final(buf)@ == old(buf)@ + close_frame_bytes(code, reason@),
{
    let mut body: Vec<u8> = Vec::new();
    body.push((code / 256) as u8);
    body.push((code % 256) as u8);
    let mut i: usize = 0;
    while i < reason.len()
        invariant
            i <= reason.len(),
            body@ == u16_be(code as int) + reason@.subrange(0, i as int),
        decreases reason.len() - i,
    {
        body.push(reason[i]);
        assert(u16_be(code as int) + reason@.subrange(0, i as int) + seq![reason@[i as int]]
            =~= u16_be(code as int) + reason@.subrange(0, i + 1));
        i = i + 1;
    }
    assert(body@ =~= u16_be(code as int) + reason@);
    write_frame(buf, 8, &body);
}

/// The empty Ping frame sent to a client right after the protocol upgrade.
pub fn empty_ping() -> (r: Vec<u8>)
    ensures
        r@ == frame_bytes(9, Seq::<u8>::empty()),
{
    let mut buf: Vec<u8> = Vec::new();
    let payload: Vec<u8> = Vec::new();
    write_frame(&mut buf, 9, &payload);
    assert(payload@ =~= Seq::<u8>::empty());
    buf
}

/// What `parse_frame` decides on a given buffer, stated as a decision tree
/// over the raw bytes. `Ok(None)` means the buffer does not yet hold a
/// complete frame; `Ok(Some((frame, n)))` means the first `n` bytes decode
/// to `frame`.
pub open spec fn spec_parse(buf: Seq<u8>, limit: int, masked: bool) -> Result<
    Option<(FrameView, int)>,
    FrameError,
> {
    if buf.len() < 2 {
        Ok(None)
    } else {
        let lencode = (buf[1] as int) % 128;
        if lencode == 126 && buf.len() < 4 {
            Ok(None)
        } else if lencode == 127 && buf.len() < 10 {
            Ok(None)
        } else {
            let size: int = if lencode == 126 {
                256 * (buf[2] as int) + (buf[3] as int)
            } else if lencode == 127 {
                0x100000000000000 * (buf[2] as int) + 0x1000000000000 * (buf[3] as int)
                    + 0x10000000000 * (buf[4] as int) + 0x100000000 * (buf[5] as int)
                    + 0x1000000 * (buf[6] as int) + 0x10000 * (buf[7] as int)
                    + 0x100 * (buf[8] as int) + (buf[9] as int)
            } else {
                lencode
            };
            let fsize: int = if lencode == 126 { 4 } else if lencode == 127 { 10 } else { 2 };
            if size > limit {
                Err(FrameError::TooLong)
            } else {
                let start = fsize + if masked { 4int } else { 0int };
                if buf.len() < start + size {
                    Ok(None)
                } else {
                    let fin = buf[0] >= 128;
                    let mask = buf[1] >= 128;
                    let opcode = (buf[0] as int) % 16;
                    if !fin {
                        Err(FrameError::Fragmented)
                    } else if mask != masked {
                        Err(FrameError::Unmasked)
                    } else {
                        let data = if mask {
                            mask_seq(buf.subrange(start, start + size), buf.subrange(start - 4, start))
                        } else {
                            buf.subrange(start, start + size)
                        };
                        let consumed = start + size;
                        if opcode == 9 {
                            Ok(Some((FrameView::Ping(data), consumed)))
                        } else if opcode == 10 {
                            Ok(Some((FrameView::Pong(data), consumed)))
                        } else if opcode == 1 {
                            Ok(Some((FrameView::Text(data), consumed)))
                        } else if opcode == 2 {
                            Ok(Some((FrameView::Binary(data), consumed)))
                        } else if opcode == 8 {
                            if data.len() < 2 {
                                Ok(Some((FrameView::Close(1006, Seq::empty()), consumed)))
                            } else {
                                Ok(Some((FrameView::Close(
                                    (256 * (data[0] as int) + (data[1] as int)) as u16,
                                    data.subrange(2, data.len() as int),
                                ), consumed)))
                            }
                        } else {
                            Err(FrameError::InvalidOpcode(opcode as u8))
                        }
                    }
                }
            }
        }
    }
}

/// The mathematical image of a `parse_frame` result.
pub open spec fn parse_view(r: Result<Option<(Frame, usize)>, FrameError>) -> Result<
    Option<(FrameView, int)>,
    FrameError,
> {
    match r {
        Ok(None) => Ok(None),
        Ok(Some((f, n))) => Ok(Some((f@, n as int))),
        Err(e) => Err(e),
    }
}

/// Parses the first complete frame of `buf`, if any.
///
/// Returns `Ok(None)` when the buffer does not yet hold a complete frame
/// (the caller must read more bytes and retry), `Ok(Some((frame, n)))` when
/// the first `n` bytes decode to `frame` (the caller must consume `n` bytes),
/// and an error exactly as `spec_parse` lays down: a declared length above
/// `limit`, a clear FIN bit, a MASK bit different from `masked`, or an
/// unknown opcode. A masked payload is returned unmasked.
pub fn parse_frame(buf: &Vec<u8>, limit: usize, masked: bool) -> (r: Result<
    Option<(Frame, usize)>,
    FrameError,
>)
    ensures
        parse_view(r) == spec_parse(buf@, limit as int, masked),
{
    if buf.len() < 2 {
        return Ok(None);
    }
    let lencode: u8 = buf[1] % 128;
    let (size, fsize): (u64, usize) = if lencode == 126 {
        if buf.len() < 4 {
            return Ok(None);
        }
        (256 * (buf[2] as u64) + (buf[3] as u64), 4)
    } else if lencode == 127 {
        if buf.len() < 10 {
            return Ok(None);
        }
        let s: u64 = 0x100000000000000 * (buf[2] as u64) + 0x1000000000000 * (buf[3] as u64)
            + 0x10000000000 * (buf[4] as u64) + 0x100000000 * (buf[5] as u64)
            + 0x1000000 * (buf[6] as u64) + 0x10000 * (buf[7] as u64)
            + 0x100 * (buf[8] as u64) + (buf[9] as u64);
        (s, 10)
    } else {
        (lencode as u64, 2)
    };
    if size > limit as u64 {
        return Err(FrameError::TooLong);
    }
    let size: usize = size as usize;
    let start: usize = fsize + if masked { 4 } else { 0 };
    if buf.len() < start || buf.len() - start < size {
        return Ok(None);
    }
    let fin = buf[0] >= 128;
    let mask = buf[1] >= 128;
    let opcode: u8 = buf[0] % 16;
    if !fin {
        return Err(FrameError::Fragmented);
    }
    if mask != masked {
        return Err(FrameError::Unmasked);
    }
    let ghost spec_data: Seq<u8> = if mask {
        mask_seq(buf@.subrange(start as int, start + size), buf@.subrange(start - 4, start as int))
    } else {
        buf@.subrange(start as int, start + size)
    };
    let buflen: usize = buf.len();
    let mut data: Vec<u8> = Vec::new();
    if mask {
        let k0 = buf[start - 4];
        let k1 = buf[start - 3];
        let k2 = buf[start - 2];
        let k3 = buf[start - 1];
        let mut i: usize = 0;
        while i < size
            invariant
                i <= size,
                start + size <= buflen,
                buflen == buf@.len(),
                start >= 4,
                k0 == buf@[start - 4],
                k1 == buf@[start - 3],
                k2 == buf@[start - 2],
                k3 == buf@[start - 1],
                spec_data == mask_seq(
                    buf@.subrange(start as int, start + size),
                    buf@.subrange(start - 4, start as int),
                ),
                data@ == spec_data.subrange(0, i as int),
            decreases size - i,
        {
            let kb: u8 = if i % 4 == 0 {
                k0
            } else if i % 4 == 1 {
                k1
            } else if i % 4 == 2 {
                k2
            } else {
                k3
            };
            assert(kb == buf@.subrange(start - 4, start as int)[(i as int) % 4]);
            data.push(buf[start + i] ^ kb);
            assert(spec_data.subrange(0, i as int) + seq![spec_data[i as int]]
                =~= spec_data.subrange(0, i + 1));
            i = i + 1;
        }
    } else {
        let mut i: usize = 0;
        while i < size
            invariant
                i <= size,
                start + size <= buflen,
                buflen == buf@.len(),
                spec_data == buf@.subrange(start as int, start + size),
                data@ == spec_data.subrange(0, i as int),
            decreases size - i,
        {
            data.push(buf[start + i]);
            assert(spec_data.subrange(0, i as int) + seq![spec_data[i as int]]
                =~= spec_data.subrange(0, i + 1));
            i = i + 1;
        }
    }
    assert(data@ =~= spec_data);
    let consumed: usize = start + size;
    if opcode == 9 {
        Ok(Some((Frame::Ping(data), consumed)))
    } else if opcode == 10 {
        Ok(Some((Frame::Pong(data), consumed)))
    } else if opcode == 1 {
        Ok(Some((Frame::Text(data), consumed)))
    } else if opcode == 2 {
        Ok(Some((Frame::Binary(data), consumed)))
    } else if opcode == 8 {
        if data.len() < 2 {
            let empty: Vec<u8> = Vec::new();
            assert(empty@ =~= Seq::<u8>::empty());
            Ok(Some((Frame::Close(1006, empty), consumed)))
        } else {
            let code: u16 = 256 * (data[0] as u16) + (data[1] as u16);
            let mut reason: Vec<u8> = Vec::new();
            let mut i: usize = 2;
            while i < data.len()
                invariant
                    2 <= i <= data@.len(),
                    reason@ == data@.subrange(2, i as int),
                decreases data@.len() - i,
            {
                reason.push(data[i]);
                assert(data@.subrange(2, i as int) + seq![data@[i as int]]
                    =~= data@.subrange(2, i + 1));
                i = i + 1;
            }
            assert(reason@ =~= data@.subrange(2, data@.len() as int));
            Ok(Some((Frame::Close(code, reason), consumed)))
        }
    } else {
        Err(FrameError::InvalidOpcode(opcode))
    }
}

/// The opcodes this codec understands.
pub open spec fn valid_opcode(opcode: u8) -> bool {
    opcode == 1 || opcode == 2 || opcode == 8 || opcode == 9 || opcode == 10
}

/// The frame that a payload of `data` decodes to under `opcode`. For a Close
/// frame, a body shorter than 2 bytes synthesizes code 1006 with an empty
/// reason; otherwise the first two bytes are the big-endian code.
pub open spec fn decoded_frame_view(opcode: u8, data: Seq<u8>) -> FrameView {
    if opcode == 9 {
        FrameView::Ping(data)
    } else if opcode == 10 {
        FrameView::Pong(data)
    } else if opcode == 1 {
        FrameView::Text(data)
    } else if opcode == 2 {
        FrameView::Binary(data)
    } else {
        if data.len() < 2 {
            FrameView::Close(1006, Seq::empty())
        } else {
            FrameView::Close(
                (256 * (data[0] as int) + (data[1] as int)) as u16,
                data.subrange(2, data.len() as int),
            )
        }
    }
}

proof fn lemma_be64_recompose(n: u64)
    ensures
        0x100000000000000 * ((n / 0x100000000000000) % 256) + 0x1000000000000 * ((n
            / 0x1000000000000) % 256) + 0x10000000000 * ((n / 0x10000000000) % 256)
            + 0x100000000 * ((n / 0x100000000) % 256) + 0x1000000 * ((n / 0x1000000) % 256)
            + 0x10000 * ((n / 0x10000) % 256) + 0x100 * ((n / 0x100) % 256) + n % 256 == n,
{
    assert(0x100000000000000 * ((n / 0x100000000000000) % 256) + 0x1000000000000 * ((n
        / 0x1000000000000) % 256) + 0x10000000000 * ((n / 0x10000000000) % 256) + 0x100000000 * ((
    n / 0x100000000) % 256) + 0x1000000 * ((n / 0x1000000) % 256) + 0x10000 * ((n / 0x10000) % 256)
        + 0x100 * ((n / 0x100) % 256) + n % 256 == n) by (bit_vector);
}

/// Round trip: a frame written by `write_frame` parses back to the frame it
/// encodes — same opcode, same payload bytes — and consumes exactly the
/// bytes written, for every payload length the machine can hold.
pub proof fn lemma_write_parse_round_trip(opcode: u8, payload: Seq<u8>, limit: int)
    requires
        valid_opcode(opcode),
        payload.len() <= limit,
        payload.len() <= usize::MAX,
    ensures
        spec_parse(frame_bytes(opcode, payload), limit, false) == Ok::<_, FrameError>(
            Some((decoded_frame_view(opcode, payload), frame_bytes(opcode, payload).len() as int)),
        ),
{
    let b = frame_bytes(opcode, payload);
    let len = payload.len() as int;
    assert(b[0] == (128 + opcode) as u8);
    assert((b[0] as int) % 16 == opcode as int);
    if len < 126 {
        assert(b[1] == len as u8);
        assert(b.subrange(2, 2 + len) =~= payload);
    } else if len <= 0xFFFF {
        assert(b[1] == 126u8);
        assert((b[1] as int) % 128 == 126);
        assert(b[2] == (len / 256 % 256) as u8 && b[3] == (len % 256) as u8);
        assert(256 * (b[2] as int) + (b[3] as int) == len);
        assert(b.subrange(4, 4 + len) =~= payload);
    } else {
        assert(b[1] == 127u8);
        assert((b[1] as int) % 128 == 127);
        let n = len as u64;
        lemma_be64_recompose(n);
        assert(0x100000000000000 * (b[2] as int) + 0x1000000000000 * (b[3] as int)
            + 0x10000000000 * (b[4] as int) + 0x100000000 * (b[5] as int) + 0x1000000 * (
        b[6] as int) + 0x10000 * (b[7] as int) + 0x100 * (b[8] as int) + (b[9] as int) == len);
        assert(b.subrange(10, 10 + len) =~= payload);
    }
}

/// Masking an already-masked payload with the same key gives the payload
/// back: XOR with the key is an involution.
pub proof fn lemma_mask_involution(payload: Seq<u8>, key: Seq<u8>)
    requires
        key.len() == 4,
    ensures
        mask_seq(mask_seq(payload, key), key) =~= payload,
{
    let once = mask_seq(payload, key);
    let twice = mask_seq(once, key);
    assert forall|i: int| 0 <= i < payload.len() implies twice[i] == payload[i] by {
        let p = payload[i];
        let k = key[i % 4];
        assert((p ^ k) ^ k == p) by (bit_vector);
    }
}

/// Round trip for a masked frame: parsing yields the unmasked payload, and
/// (by `lemma_mask_involution`) re-masking that payload with the same key
/// reproduces the payload section of the original wire bytes.
pub proof fn lemma_masked_parse_round_trip(opcode: u8, payload: Seq<u8>, key: Seq<u8>, limit: int)
    requires
        valid_opcode(opcode),
        key.len() == 4,
        payload.len() <= limit,
        payload.len() <= usize::MAX,
    ensures
        spec_parse(masked_frame_bytes(opcode, payload, key), limit, true) == Ok::<_, FrameError>(
            Some((
                decoded_frame_view(opcode, payload),
                masked_frame_bytes(opcode, payload, key).len() as int,
            )),
        ),
{
    let b = masked_frame_bytes(opcode, payload, key);
    let len = payload.len() as int;
    assert(b[0] == (128 + opcode) as u8);
    assert((b[0] as int) % 16 == opcode as int);
    let fsize: int = if len < 126 { 2 } else if len <= 0xFFFF { 4 } else { 10 };
    let start: int = fsize + 4;
    assert(b[1] as int >= 128) by {
        if len < 126 {
            assert(b[1] == (128 + len) as u8);
        } else if len <= 0xFFFF {
            assert(b[1] == (128 + 126) as u8);
        } else {
            assert(b[1] == (128 + 127) as u8);
        }
    }
    if len < 126 {
        assert((b[1] as int) % 128 == len);
    } else if len <= 0xFFFF {
        assert((b[1] as int) % 128 == 126);
        assert(b[2] == (len / 256 % 256) as u8 && b[3] == (len % 256) as u8);
        assert(256 * (b[2] as int) + (b[3] as int) == len);
    } else {
        assert((b[1] as int) % 128 == 127);
        let n = len as u64;
        lemma_be64_recompose(n);
        assert(0x100000000000000 * (b[2] as int) + 0x1000000000000 * (b[3] as int)
            + 0x10000000000 * (b[4] as int) + 0x100000000 * (b[5] as int) + 0x1000000 * (
        b[6] as int) + 0x10000 * (b[7] as int) + 0x100 * (b[8] as int) + (b[9] as int) == len);
    }
    assert(b.subrange(start - 4, start) =~= key);
    assert(b.subrange(start, start + len) =~= mask_seq(payload, key));
    lemma_mask_involution(payload, key);
    assert(mask_seq(b.subrange(start, start + len), b.subrange(start - 4, start)) =~= mask_seq(
        mask_seq(payload, key),
        key,
    ));
}

/// A declared payload length above the limit is rejected with `TooLong`,
/// whatever the opcode. Parsing is a pure function of the buffer, so the
/// rejection leaves nothing behind: the same parse on a fresh buffer is
/// unaffected.
pub proof fn lemma_too_long(opcode: u8, payload: Seq<u8>, limit: int)
    requires
        opcode < 16,
        payload.len() > limit,
        payload.len() <= usize::MAX,
    ensures
        spec_parse(frame_bytes(opcode, payload), limit, false) == Err::<Option<(FrameView, int)>,
            _,
        >(FrameError::TooLong),
{
    let b = frame_bytes(opcode, payload);
    let len = payload.len() as int;
    if len < 126 {
        assert(b[1] == len as u8);
    } else if len <= 0xFFFF {
        assert(b[1] == 126u8);
        assert((b[1] as int) % 128 == 126);
        assert(b[2] == (len / 256 % 256) as u8 && b[3] == (len % 256) as u8);
        assert(256 * (b[2] as int) + (b[3] as int) == len);
    } else {
        assert(b[1] == 127u8);
        assert((b[1] as int) % 128 == 127);
        let n = len as u64;
        lemma_be64_recompose(n);
        assert(0x100000000000000 * (b[2] as int) + 0x1000000000000 * (b[3] as int)
            + 0x10000000000 * (b[4] as int) + 0x100000000 * (b[5] as int) + 0x1000000 * (
        b[6] as int) + 0x10000 * (b[7] as int) + 0x100 * (b[8] as int) + (b[9] as int) == len);
    }
}

/// The bytes of a frame whose FIN bit is clear: `first` is the whole first
/// byte, so any opcode (and any reserved bits) below 128 is covered.
pub open spec fn fragment_bytes(first: u8, payload: Seq<u8>) -> Seq<u8> {
    seq![first] + len_field(false, payload.len() as int) + payload
}

/// A complete frame with FIN clear is rejected with `Fragmented`, regardless
/// of its opcode.
pub proof fn lemma_fragmented(first: u8, payload: Seq<u8>, limit: int)
    requires
        first < 128,
        payload.len() <= limit,
        payload.len() <= usize::MAX,
    ensures
        spec_parse(fragment_bytes(first, payload), limit, false) == Err::<
            Option<(FrameView, int)>,
            _,
        >(FrameError::Fragmented),
{
    let b = fragment_bytes(first, payload);
    let len = payload.len() as int;
    if len < 126 {
        assert(b[1] == len as u8);
    } else if len <= 0xFFFF {
        assert(b[1] == 126u8);
        assert((b[1] as int) % 128 == 126);
        assert(b[2] == (len / 256 % 256) as u8 && b[3] == (len % 256) as u8);
        assert(256 * (b[2] as int) + (b[3] as int) == len);
    } else {
        assert(b[1] == 127u8);
        assert((b[1] as int) % 128 == 127);
        let n = len as u64;
        lemma_be64_recompose(n);
        assert(0x100000000000000 * (b[2] as int) + 0x1000000000000 * (b[3] as int)
            + 0x10000000000 * (b[4] as int) + 0x100000000 * (b[5] as int) + 0x1000000 * (
        b[6] as int) + 0x10000 * (b[7] as int) + 0x100 * (b[8] as int) + (b[9] as int) == len);
    }
}

/// Round trip for Close frames: `write_close` followed by a parse yields the
/// same code and reason back.
pub proof fn lemma_close_round_trip(code: u16, reason: Seq<u8>, limit: int)
    requires
        reason.len() <= 123,
        reason.len() + 2 <= limit,
    ensures
        spec_parse(close_frame_bytes(code, reason), limit, false) == Ok::<_, FrameError>(
            Some((FrameView::Close(code, reason), close_frame_bytes(code, reason).len() as int)),
        ),
{
    let body = u16_be(code as int) + reason;
    lemma_write_parse_round_trip(8, body, limit);
    assert(body.len() >= 2);
    assert(256 * (body[0] as int) + (body[1] as int) == code as int);
    assert(body.subrange(2, body.len() as int) =~= reason);
}

} // verus!
