//! Core of a BitTorrent client: the bencode codec, the `.torrent` metainfo
//! parser, the peer-wire message codec, the peer session state machine, and
//! the tracker protocol mapping.  All data formats and state transitions are
//! specified and verified; I/O lives outside this crate.
pub mod bencode;
pub mod metainfo;
pub mod piece;
pub mod session;
pub mod stats;
pub mod text;
pub mod tracker;
pub mod wire;
