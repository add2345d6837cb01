//! A bencode codec, verified, and the torrent records that are read out of
//! bencoded values.
//!
//! * `bencoding` holds the value model, the canonical encoder, the lenient
//!   decoder for complete buffers and the strict decoder for byte sources,
//!   with the laws that hold between them.
//! * `torrent` reads the metadata of a torrent and the response of a
//!   tracker out of decoded values.
//! * `client` computes what a client asks a tracker and reads what the
//!   tracker answered.
//! * `utp` draws the header of a uTP packet.

pub mod bencoding;
pub mod client;
pub mod torrent;
pub mod utp;
