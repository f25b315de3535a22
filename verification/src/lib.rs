//! Core logic of a BitTorrent tracker that aggregates peers from upstream
//! trackers: the in-memory peer store, the announce protocol (request
//! validation, what is recorded, bencoded responses), info-hash decoding,
//! the requests sent to upstream trackers and the parsing of their replies,
//! the fetches in flight, and the tracker's settings.
pub mod store;
pub mod text;
pub mod encoding;
pub mod query;
pub mod ipv4;
pub mod response;
pub mod reply;
pub mod upstream;
pub mod udp;
pub mod announce;
pub mod inflight;
pub mod config;
pub mod download;
