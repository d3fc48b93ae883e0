//! Core of a peer-to-peer file-distribution client: a verified bencoding
//! codec, the metainfo model with its content identifier, the tracker
//! query builder and response parser, and the fixed-length handshake.
pub mod bencode;
pub mod metainfo;
pub mod tracker;
pub mod handshake;
