//! The kinds of uTP packets.

use crate::bencoding::text::{ascii_string, ascii_text, is_ascii_bytes};
use crate::utp::header::{hex_minimal, lemma_hex_minimal, write_hex_minimal};
use vstd::prelude::*;

verus! {

/// The kind of a uTP packet.
#[derive(PartialEq, Eq, Clone, Copy, Debug, Structural)]
pub enum PacketType {
    STData,
    STFin,
    STState,
    STReset,
    STSyn,
}

impl PacketType {
    /// The number that stands for the kind on the wire.
    pub open spec fn code_of(self) -> u8 {
        match self {
            PacketType::STData => 0,
            PacketType::STFin => 1,
            PacketType::STState => 2,
            PacketType::STReset => 3,
            PacketType::STSyn => 4,
        }
    }

    /// The kind that `i` stands for.
    pub fn from(i: u8) -> (kind: PacketType)
        requires
            i <= 4,
        ensures
            kind.code_of() == i,
    {
        if i == 0 {
            PacketType::STData
        } else if i == 1 {
            PacketType::STFin
        } else if i == 2 {
            PacketType::STState
        } else if i == 3 {
            PacketType::STReset
        } else {
            PacketType::STSyn
        }
    }

    /// The number that stands for the kind on the wire.
    pub fn code(&self) -> (i: u8)
        ensures
            i == self.code_of(),
    {
        match self {
            PacketType::STData => 0,
            PacketType::STFin => 1,
            PacketType::STState => 2,
            PacketType::STReset => 3,
            PacketType::STSyn => 4,
        }
    }

    /// Shows the kind as its number in hexadecimal, behind `0x`.
    pub fn to_string(&self) -> (shown: String)
        ensures
            shown@ == "0x"@ + ascii_text(hex_minimal(self.code_of() as nat)),
    {
        let mut digits: Vec<u8> = Vec::new();
        write_hex_minimal(&mut digits, self.code() as u32);
        proof {
            lemma_hex_minimal(self.code_of() as nat);
            assert(digits@ =~= hex_minimal(self.code_of() as nat));
            assert(is_ascii_bytes(digits@));
        }
        let mut shown = String::from_str("0x");
        shown.append(ascii_string(digits.as_slice()).as_str());
        shown
    }
}

} // verus!
