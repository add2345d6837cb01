//! Torrent metadata and tracker responses, read out of bencoded values.

pub mod error;
pub mod peer;
pub mod torrent;
pub mod torrent_info;
pub mod tracker_info;
