//! Streaming conformance checker for a fixed-width, lexicographically
//! sortable 64-bit identifier encoding: 12-character base-36 records that
//! pack a millisecond timestamp and a per-timestamp counter into a `u64`.

pub mod codec;
pub mod validator;
