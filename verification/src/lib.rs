//! Client side of a line-oriented control channel: a worker process talks to
//! its supervisor by writing one JSON request per line on an outbound byte
//! stream and, for the two operations that expect an answer, reading exactly
//! one JSON response line from an inbound byte stream.
//!
//! This crate holds the verified core of that protocol: the wire text of each
//! request, the decoding of request and response lines, the level codes of
//! log records and the ready/unready life cycle of the channel. The byte
//! streams themselves are owned by the caller, which writes and reads the
//! lines this crate produces and accepts.

pub mod channel;
pub mod envelope;
pub mod error;
pub mod text;
