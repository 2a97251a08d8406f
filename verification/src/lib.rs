//! Persistent history core of a terminal download manager.
//!
//! The library owns an ordered, key-addressable collection of download
//! records ([`history::Histories`]), assigns monotonically increasing keys,
//! and serializes the whole collection to a human-readable text format
//! ([`codec`]) with a proved save/load round trip.  File and directory I/O
//! stays outside the library: callers hand in the raw bytes of the history
//! file and write back the bytes the library produces.

pub mod app;
pub mod codec;
pub mod error;
pub mod history;
