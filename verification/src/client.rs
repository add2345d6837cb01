//! What a client computes before it asks a tracker and after the tracker
//! has answered.

pub mod client;
pub mod error;
