//! The bencode value model, its encoder and its two decoders.
//!
//! * `value` is the mathematical model: what a document denotes.
//! * `bencode`, `byte_string` and `error` are the values, keys and errors as
//!   they are held in memory.
//! * `decimal` and `text` read and write numerals and UTF-8 text.
//! * `encoder` writes a value in canonical form.
//! * `decoder` reads a complete buffer and absorbs what is malformed.
//! * `stream_decoder` says what is read from a byte source, where every
//!   fault is an error, and `machine` is the decoder that reads it, one
//!   event at a time.
//! * `canonical` tells canonical bytes from the bytes alone, and `laws`
//!   states what holds between the encoder and the decoders.

pub mod bencode;
pub mod byte_string;
pub mod canonical;
pub mod decimal;
pub mod decoder;
pub mod encoder;
pub mod error;
pub mod laws;
pub mod machine;
pub mod result;
pub mod stream_decoder;
pub mod text;
pub mod value;
