//! The header of a uTP packet.

pub mod header;
pub mod packet_type;
