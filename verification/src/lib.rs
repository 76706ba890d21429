//! Streaming recognition of delimiter tokens in a chunked byte stream.
//!
//! A serial byte stream arrives in chunks of arbitrary size, split at
//! arbitrary byte offsets.  The [`decoder`] repairs multi-byte character
//! sequences cut by a chunk boundary, the [`scanner`] finds literal marker
//! tokens even when they straddle chunk boundaries, and [`capture`] drives a
//! small state machine that collects a hex-encoded binary payload between an
//! opening and a closing marker.

mod bytes;
pub mod capture;
pub mod decoder;
pub mod scanner;
