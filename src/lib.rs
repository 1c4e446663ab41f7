//! A leech-only BitTorrent v1 client library: the peer-wire codec, the
//! connection state machine, the shared piece queue and the per-piece
//! block pipeline, each with its contract.

pub mod wire;
pub mod message;
pub mod digest;
pub mod torrent;
pub mod connection;
pub mod handshake;
pub mod client;
pub mod download;
pub mod tracker;
