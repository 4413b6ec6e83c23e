//! Secure command channel between a local controller and a vehicle.
//!
//! The crate is layered, leaves first:
//!
//! - `wire`: big-endian integers as they stand on the wire;
//! - `codec`: logical commands and envelopes to bytes and back;
//! - `framer`: one message as many small writes, and back;
//! - `session`: the cryptographic context of one vehicle, its signer and its
//!   verifier;
//! - `negotiator`: the handshake as a state machine;
//! - `channel`: everything that belongs to one vehicle, with the request in
//!   flight and those that wait; `channel_model` says what each event makes of
//!   a channel;
//! - `dispatcher`: the registry of the channels, the entry point.
//!
//! The modules whose names end in `_laws` hold what is proved of each layer
//! over whole runs of events. Two small modules hold what the message-bus
//! bridge computes (`config`, `bus`).
//!
//! The library never reads a clock, a radio or a socket, and computes no tag
//! and no key. Time is a `u64` tick count that the caller hands in with every
//! event; bytes to send and results to hand on come back as values; the
//! cryptographic primitives are a [`session::CryptoPolicy`] of the caller's.

pub mod error;
pub mod clock;
pub mod wire;
pub mod codec;
pub mod framer;
pub mod framer_laws;
pub mod session;
pub mod session_laws;
pub mod negotiator;
pub mod negotiator_laws;
pub mod channel_model;
pub mod channel;
pub mod channel_laws;
pub mod dispatcher;
pub mod config;
pub mod bus;
