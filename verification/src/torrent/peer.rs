//! A peer as a tracker names it: an IPv4 address and a port.

use crate::bencoding::decimal::{lemma_nat_digits, nat_digits, write_nat};
use crate::bencoding::text::{ascii_string, ascii_text, is_ascii_bytes};
use vstd::prelude::*;

verus! {

/// A peer: its IPv4 address as one number, the first octet in the highest
/// byte, and its port.
#[derive(Eq, PartialEq, Clone, Copy, Debug)]
pub struct Peer {
    pub ip: u32,
    pub port: u16,
}

/// The text of the decimal numeral of `n`.
pub open spec fn nat_text(n: nat) -> Seq<char> {
    ascii_text(nat_digits(n))
}

/// The four octets of the address `ip`, the first in the highest byte.
pub open spec fn octets_of(ip: u32) -> (nat, nat, nat, nat) {
    (
        (ip as nat / 16777216) % 256,
        (ip as nat / 65536) % 256,
        (ip as nat / 256) % 256,
        ip as nat % 256,
    )
}

/// How a peer is shown: the four octets in decimal with dots between them,
/// a colon, the port.
pub open spec fn peer_text(peer: Peer) -> Seq<char> {
    let (a, b, c, d) = octets_of(peer.ip);
    nat_text(a) + "."@ + nat_text(b) + "."@ + nat_text(c) + "."@ + nat_text(d) + ":"@ + nat_text(
        peer.port as nat,
    )
}

/// The text of the decimal numeral of `n`.
pub fn nat_string(n: u64) -> (text: String)
    ensures
        text@ == nat_text(n as nat),
{
    let mut digits: Vec<u8> = Vec::new();
    write_nat(&mut digits, n);
    proof {
        lemma_nat_digits(n as nat);
        assert(digits@ =~= nat_digits(n as nat));
        assert(is_ascii_bytes(digits@));
    }
    ascii_string(digits.as_slice())
}

impl Peer {
    /// The four octets of the address, in the order in which they are
    /// written.
    pub fn octets(&self) -> (r: (u8, u8, u8, u8))
        ensures
            (r.0 as nat, r.1 as nat, r.2 as nat, r.3 as nat) == octets_of(self.ip),
    {
        (
            ((self.ip / 16777216) % 256) as u8,
            ((self.ip / 65536) % 256) as u8,
            ((self.ip / 256) % 256) as u8,
            (self.ip % 256) as u8,
        )
    }

    /// Shows the peer as `address:port`.
    pub fn to_string(&self) -> (shown: String)
        ensures
            shown@ == peer_text(*self),
    {
        let (a, b, c, d) = self.octets();
        let mut shown = nat_string(a as u64);
        shown.append(".");
        shown.append(nat_string(b as u64).as_str());
        shown.append(".");
        shown.append(nat_string(c as u64).as_str());
        shown.append(".");
        shown.append(nat_string(d as u64).as_str());
        shown.append(":");
        shown.append(nat_string(self.port as u64).as_str());
        shown
    }
}

} // verus!
