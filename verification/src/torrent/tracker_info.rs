//! The response of a tracker: counters, intervals and the compact list of
//! peers.

use crate::bencoding::bencode::{number_at, removed_bytes, Bencode};
use crate::bencoding::decimal::int_digits;
use crate::bencoding::text::ascii_text;
use crate::bencoding::value::Value;
use crate::torrent::peer::{peer_text, Peer};
use crate::torrent::torrent_info::number_string;
use byteorder::ByteOrder;
use vstd::prelude::*;
use vstd::slice::slice_subrange;

verus! {

/// The number whose big-endian bytes are the first four of `b`.
pub open spec fn be_u32(b: Seq<u8>) -> u32 {
    (b[0] as int * 16777216 + b[1] as int * 65536 + b[2] as int * 256 + b[3] as int) as u32
}

/// The number whose big-endian bytes are the first two of `b`.
pub open spec fn be_u16(b: Seq<u8>) -> u16 {
    (b[0] as int * 256 + b[1] as int) as u16
}

/// Calls `byteorder::BigEndian::read_u32`, which panics on fewer than four
/// bytes. The claim: the result is the big-endian number of the first four.
#[verifier::external_body]
fn read_u32(buf: &[u8]) -> (n: u32)
    requires
        buf@.len() >= 4,
    ensures
        n == be_u32(buf@),
{
    byteorder::BigEndian::read_u32(buf)
}

/// Calls `byteorder::BigEndian::read_u16`, which panics on fewer than two
/// bytes. The claim: the result is the big-endian number of the first two.
#[verifier::external_body]
fn read_u16(buf: &[u8]) -> (n: u16)
    requires
        buf@.len() >= 2,
    ensures
        n == be_u16(buf@),
{
    byteorder::BigEndian::read_u16(buf)
}

/// What a tracker answered.
#[derive(Eq, PartialEq, Clone, Debug)]
pub struct TrackerInfo {
    pub complete: i64,
    pub downloaded: i64,
    pub incomplete: i64,
    pub interval: i64,
    pub min_interval: i64,
    pub peers: Vec<u8>,
}

/// What a `TrackerInfo` holds.
pub struct TrackerInfoView {
    pub complete: i64,
    pub downloaded: i64,
    pub incomplete: i64,
    pub interval: i64,
    pub min_interval: i64,
    pub peers: Seq<u8>,
}

impl View for TrackerInfo {
    type V = TrackerInfoView;

    open spec fn view(&self) -> TrackerInfoView {
        TrackerInfoView {
            complete: self.complete,
            downloaded: self.downloaded,
            incomplete: self.incomplete,
            interval: self.interval,
            min_interval: self.min_interval,
            peers: self.peers@,
        }
    }
}

/// The response that the dictionary `v` describes, or the message of the
/// first field that cannot be read: `complete`, `downloaded`, `incomplete`,
/// `interval`, `min interval` and `peers`, in this order.
pub open spec fn tracker_info_of(v: Value) -> Result<TrackerInfoView, Seq<char>> {
    match number_at(v, "complete"@) {
        Err(message) => Err(message),
        Ok(complete) => match number_at(v, "downloaded"@) {
            Err(message) => Err(message),
            Ok(downloaded) => match number_at(v, "incomplete"@) {
                Err(message) => Err(message),
                Ok(incomplete) => match number_at(v, "interval"@) {
                    Err(message) => Err(message),
                    Ok(interval) => match number_at(v, "min interval"@) {
                        Err(message) => Err(message),
                        Ok(min_interval) => match removed_bytes(v, "peers"@) {
                            Err(message) => Err(message),
                            Ok(peers) => Ok(
                                TrackerInfoView {
                                    complete,
                                    downloaded,
                                    incomplete,
                                    interval,
                                    min_interval,
                                    peers,
                                },
                            ),
                        },
                    },
                },
            },
        },
    }
}

/// The peer that the six bytes of `peers` from position `6 * i` on name:
/// four bytes of address, two of port, each big-endian.
pub open spec fn peer_at(peers: Seq<u8>, i: int) -> Peer {
    Peer {
        ip: be_u32(peers.subrange(6 * i, 6 * i + 4)),
        port: be_u16(peers.subrange(6 * i + 4, 6 * i + 6)),
    }
}

/// The peers shown one after the other, separated by a comma and a space.
pub open spec fn peers_text(peers: Seq<Peer>) -> Seq<char>
    decreases peers.len(),
{
    if peers.len() == 0 {
        Seq::empty()
    } else if peers.len() == 1 {
        peer_text(peers[0])
    } else {
        peers_text(peers.drop_last()) + ", "@ + peer_text(peers.last())
    }
}

/// How the response is shown.
pub open spec fn tracker_info_text(info: TrackerInfoView) -> Seq<char>
    recommends
        info.peers.len() % 6 == 0,
{
    "TrackerInfo: { "@ + "complete: "@ + ascii_text(int_digits(info.complete as int)) + ", "@
        + "downloaded: "@ + ascii_text(int_digits(info.downloaded as int)) + ", "@
        + "incomplete: "@ + ascii_text(int_digits(info.incomplete as int)) + ", "@ + "interval: "@
        + ascii_text(int_digits(info.interval as int)) + ", "@ + "min_interval: "@ + ascii_text(
        int_digits(info.min_interval as int),
    ) + ", "@ + "peers: ["@ + peers_text(
        Seq::new((info.peers.len() / 6) as nat, |i: int| peer_at(info.peers, i)),
    ) + "] }"@
}

impl TrackerInfo {
    /// Reads the response out of the dictionary that a tracker sent.
    pub fn from(input: Bencode) -> (r: Result<Self, String>)
        ensures
            match r {
                Ok(info) => tracker_info_of(input@) == Ok::<TrackerInfoView, Seq<char>>(info@),
                Err(e) => tracker_info_of(input@) == Err::<TrackerInfoView, Seq<char>>(e@),
            },
    {
        let complete = match input.get_number("complete") {
            Ok(n) => n,
            Err(e) => return Err(e.to_string()),
        };
        let downloaded = match input.get_number("downloaded") {
            Ok(n) => n,
            Err(e) => return Err(e.to_string()),
        };
        let incomplete = match input.get_number("incomplete") {
            Ok(n) => n,
            Err(e) => return Err(e.to_string()),
        };
        let interval = match input.get_number("interval") {
            Ok(n) => n,
            Err(e) => return Err(e.to_string()),
        };
        let min_interval = match input.get_number("min interval") {
            Ok(n) => n,
            Err(e) => return Err(e.to_string()),
        };
        let peers = match input.remove_bytestring("peers") {
            Ok(peers) => peers,
            Err(e) => return Err(e.to_string()),
        };
        Ok(Self { complete, downloaded, incomplete, interval, min_interval, peers })
    }

    /// The peers that the compact list names, six bytes each.
    pub fn peer_addrs(&self) -> (ip_addrs: Vec<Peer>)
        requires
            self.peers@.len() % 6 == 0,
        ensures
            ip_addrs@ == Seq::new((self.peers@.len() / 6) as nat, |i: int| peer_at(self.peers@, i)),
    {
        let mut ip_addrs = Vec::<Peer>::new();
        let total: usize = self.peers.len();
        let count: usize = total / 6;
        let mut i: usize = 0;
        while i < count
            invariant
                0 <= i <= count,
                total == self.peers@.len(),
                count == self.peers@.len() / 6,
                6 * count == self.peers@.len(),
                ip_addrs@.len() == i,
                forall|k: int| 0 <= k < i ==> ip_addrs@[k] == peer_at(self.peers@, k),
            decreases count - i,
        {
            let peer = slice_subrange(self.peers.as_slice(), 6 * i, 6 * i + 6);
            let ip = read_u32(slice_subrange(peer, 0, 4));
            let port = read_u16(slice_subrange(peer, 4, 6));
            proof {
                assert(peer@.subrange(0, 4) =~= self.peers@.subrange(6 * i, 6 * i + 4));
                assert(peer@.subrange(4, 6) =~= self.peers@.subrange(6 * i + 4, 6 * i + 6));
            }
            ip_addrs.push(Peer { ip, port });
            i = i + 1;
        }
        assert(ip_addrs@ =~= Seq::new(
            (self.peers@.len() / 6) as nat,
            |i: int| peer_at(self.peers@, i),
        ));
        return ip_addrs;
    }

    /// Shows the response.
    pub fn to_string(&self) -> (shown: String)
        requires
            self.peers@.len() % 6 == 0,
        ensures
            shown@ == tracker_info_text(self@),
    {
        format(self)
    }
}

/// Shows the response: its fields by name, then the peers.
pub fn format(v: &TrackerInfo) -> (shown: String)
    requires
        v.peers@.len() % 6 == 0,
    ensures
        shown@ == tracker_info_text(v@),
{
    let mut shown = String::from_str("TrackerInfo: { ");
    shown.append("complete: ");
    shown.append(number_string(v.complete).as_str());
    shown.append(", ");
    shown.append("downloaded: ");
    shown.append(number_string(v.downloaded).as_str());
    shown.append(", ");
    shown.append("incomplete: ");
    shown.append(number_string(v.incomplete).as_str());
    shown.append(", ");
    shown.append("interval: ");
    shown.append(number_string(v.interval).as_str());
    shown.append(", ");
    shown.append("min_interval: ");
    shown.append(number_string(v.min_interval).as_str());
    shown.append(", ");
    shown.append("peers: [");
    let addrs = v.peer_addrs();
    let len = addrs.len();
    let ghost before = shown@;
    let mut i: usize = 0;
    assert(addrs@.take(0) =~= Seq::<Peer>::empty());
    while i < len
        invariant
            0 <= i <= len,
            len == addrs@.len(),
            shown@ == before + peers_text(addrs@.take(i as int)),
        decreases len - i,
    {
        if i > 0 {
            shown.append(", ");
        }
        shown.append(addrs[i].to_string().as_str());
        proof {
            assert(addrs@.take(i + 1).drop_last() =~= addrs@.take(i as int));
            assert(shown@ =~= before + peers_text(addrs@.take(i + 1)));
        }
        i = i + 1;
    }
    assert(addrs@.take(i as int) =~= addrs@);
    shown.append("] }");
    shown
}

} // verus!
