//! A verified core for the BitTorrent tracker protocol: the bencode wire
//! format, torrent metainfo decoding, content-identifier hashing over the
//! exact original bytes, and tracker announce request/response handling.

pub mod bencode;
pub mod hashing;
pub mod metainfo;
pub mod text;
pub mod tracker;
pub mod urls;
