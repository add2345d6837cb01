//! What the strict decoder returns.

use crate::bencoding::bencode::Bencode;
use crate::bencoding::error::Error;
use vstd::prelude::*;

verus! {

/// A decoded value, or the error that stopped the decoder.
pub type Result = std::result::Result<Bencode, Error>;

} // verus!
