use bittorrent::torrent::peer::Peer;

fn address(a: u32, b: u32, c: u32, d: u32) -> u32 {
    (a << 24) | (b << 16) | (c << 8) | d
}

#[test]
fn test_to_string() {
    let peer = Peer { ip: address(192, 168, 2, 11), port: 6881 };
    assert_eq!("192.168.2.11:6881", peer.to_string());
}

#[test]
fn peer_test_display() {
    let peer = Peer { ip: address(192, 168, 2, 11), port: 6881 };
    assert_eq!("192.168.2.11:6881", format!("{}", peer.to_string()));
}

#[test]
fn peer_octets_come_from_the_highest_byte_down() {
    let peer = Peer { ip: 0x01020304, port: 0 };
    assert_eq!((1, 2, 3, 4), peer.octets());
    assert_eq!("1.2.3.4:0", peer.to_string());
    let peer = Peer { ip: 0xffffffff, port: 65535 };
    assert_eq!("255.255.255.255:65535", peer.to_string());
}
