//! Per-connection read loop decisions: what to do with the bytes buffered
//! so far on one upgraded connection.
//!
//! The caller owns the actual socket: it reads bytes into a buffer, asks
//! `session_step` what to do, consumes what the step says, performs the
//! returned deliveries, and tears the connection down when told to close.
//! Frames are handled strictly in arrival order; only Binary frames carry
//! requests, a Pong is ignored, and anything else — a framing error, a
//! malformed request body, a Text, Ping or Close frame — ends the
//! connection.

use vstd::prelude::*;

use crate::broker::Broker;
use crate::broker::Delivery;
use crate::broker::DeliveryView;
use crate::broker::request_conns;
use crate::broker::request_deliveries;
use crate::codec;
use crate::codec::FrameView;
use crate::codec::MAX_PACKET_SIZE;
use crate::envelope;

verus! {

/// What the caller must do next with one connection.
pub enum Step {
    /// The buffer holds no complete frame yet: read more bytes and retry.
    NeedMore,
    /// One frame was processed: consume this many buffer bytes and perform
    /// these deliveries.
    Advance(usize, Vec<Delivery>),
    /// Protocol violation: close the connection.
    Close,
}

/// Mathematical image of a `Step`.
#[verifier::ext_equal]
pub enum StepView {
    NeedMore,
    Advance(int, Seq<DeliveryView>),
    Close,
}

impl View for Step {
    type V = StepView;

    open spec fn view(&self) -> StepView {
        match self {
            Step::NeedMore => StepView::NeedMore,
            Step::Advance(n, ds) => StepView::Advance(*n as int, ds.deep_view()),
            Step::Close => StepView::Close,
        }
    }
}

/// The whole contract of one session step: how the step and the broker
/// after it follow from the parse of the buffer, the decode of the body,
/// and the request dispatch.
pub open spec fn session_post(
    pre: Broker,
    post: Broker,
    r: StepView,
    conn: u64,
    buf: Seq<u8>,
    now_ms: u64,
) -> bool {
    match codec::spec_parse(buf, MAX_PACKET_SIZE as int, true) {
        Ok(None) => r is NeedMore && post == pre,
        Err(_) => r is Close && post == pre,
        Ok(Some((f, n))) => match f {
            FrameView::Binary(body) => match envelope::spec_dec_request(body, 0, None) {
                Err(_) => r is Close && post == pre,
                Ok(None) => r == StepView::Advance(n, Seq::<DeliveryView>::empty()) && post == pre,
                Ok(Some(q)) => {
                    &&& r == StepView::Advance(
                        n,
                        request_deliveries(
                            pre.bosses.deep_view(),
                            pre.history.deep_view(),
                            conn,
                            q,
                            now_ms,
                        ),
                    )
                    &&& post.conns.deep_view() == request_conns(pre.conns.deep_view(), q, conn)
                    &&& post.bosses == pre.bosses
                    &&& post.history == pre.history
                    &&& post.next_id == pre.next_id
                    &&& post.history_size == pre.history_size
                },
            },
            FrameView::Pong(_) => r == StepView::Advance(n, Seq::<DeliveryView>::empty()) && post
                == pre,
            _ => r is Close && post == pre,
        },
    }
}

/// Processes at most one frame from the front of `buf` for connection
/// `conn`: exactly what `session_post` lays down.
pub fn session_step(broker: &mut Broker, conn: u64, buf: &Vec<u8>, now_ms: u64) -> (r: Step)
    requires
        old(broker).wf(),
    ensures
        final(broker).wf(),
        session_post(*old(broker), *final(broker), r@, conn, buf@, now_ms),
{
    match codec::parse_frame(buf, MAX_PACKET_SIZE, true) {
        Err(_) => Step::Close,
        Ok(None) => Step::NeedMore,
        Ok(Some((frame, n))) => match frame {
            codec::Frame::Binary(body) => match envelope::decode_request(&body) {
                Err(_) => Step::Close,
                Ok(None) => {
                    let empty: Vec<Delivery> = Vec::new();
                    proof {
                        assert(empty.deep_view() =~= Seq::<DeliveryView>::empty());
                    }
                    Step::Advance(n, empty)
                },
                Ok(Some(q)) => {
                    let out = broker.handle_request(conn, &q, now_ms);
                    Step::Advance(n, out)
                },
            },
            codec::Frame::Pong(_) => {
                let empty: Vec<Delivery> = Vec::new();
                proof {
                    assert(empty.deep_view() =~= Seq::<DeliveryView>::empty());
                }
                Step::Advance(n, empty)
            },
            _ => Step::Close,
        },
    }
}

} // verus!
