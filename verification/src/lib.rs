//! A DNS message codec and the decision logic of a single-question
//! forwarding resolver, with machine-checked contracts.
//!
//! The wire format lives in [`header`], [`name`], [`record`] and
//! [`message`]: bit-exact big-endian encoding, compressed-name decoding
//! with a bounded pointer-dereference count, and serialize/parse
//! round-trip proofs. [`resolver`] builds responses: placeholder answers
//! when no upstream is configured, single-question sub-queries and answer
//! aggregation when one is. Transport (UDP sockets, the server loop) stays
//! outside this crate and hands it plain byte buffers.

pub mod err;
pub mod header;
pub mod name;
pub mod record;
pub mod message;
pub mod resolver;
