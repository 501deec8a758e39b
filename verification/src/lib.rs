//! Real-time raid notification core: a hand-rolled WebSocket frame codec,
//! a binary message envelope, a subscription broker with bounded history
//! replay, and the decision logic of a persistent boss-metadata cache.
//!
//! - `codec`: parse and write WebSocket frames, with round-trip and
//!   masking laws.
//! - `envelope`: the tag/length-prefixed message bodies carried inside
//!   Binary frames — requests in, responses and cache records out.
//! - `model`: bosses, tweets, domain events, and their mathematical views.
//! - `broker`: who follows what; fan-out of each domain event to exactly
//!   the right connections; bounded per-boss history rings.
//! - `session`: what to do with the bytes one connection buffered.
//! - `cache`: what a durable-store read means, including the one-time
//!   migration of the legacy record format.
//! - `clock`: the one trusted wall-clock access.
//!
//! Every operation that performs I/O — sockets, the durable store, timers
//! — lives outside this crate; the library computes decisions and byte
//! strings and states exactly which in its contracts.

use vstd::prelude::*;

pub mod broker;
pub mod cache;
pub mod clock;
pub mod codec;
pub mod envelope;
pub mod model;
pub mod session;

verus! {

} // verus!
