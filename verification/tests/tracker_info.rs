use bittorrent::bencoding::decoder::decode;
use bittorrent::torrent::peer::Peer;
use bittorrent::torrent::tracker_info::TrackerInfo;

fn tracker_info(data: &[u8]) -> Result<TrackerInfo, String> {
    TrackerInfo::from(decode(&data.to_vec()))
}

#[test]
fn tracker_info_test_err_when_input_is_not_a_dictionary() {
    let result = tracker_info(b"le");
    assert_eq!(Err("Bencode is not a dict.".to_string()), result);
}

#[test]
fn tracker_info_test_err_when_input_is_an_empty_dictionary() {
    let result = tracker_info(b"de");
    assert_eq!(Err("\"complete\" key is not present in torrent file.".to_string()), result);
}

#[test]
fn test_err_when_complete_is_present() {
    let result = tracker_info(b"d8:completei4ee");
    assert_eq!(Err("\"downloaded\" key is not present in torrent file.".to_string()), result);
}

#[test]
fn test_err_when_downloaded_is_present() {
    let result = tracker_info(b"d8:completei4e10:downloadedi6ee");
    assert_eq!(Err("\"incomplete\" key is not present in torrent file.".to_string()), result);
}

#[test]
fn test_err_when_incomplete_is_present() {
    let result = tracker_info(b"d8:completei4e10:downloadedi6e10:incompletei1ee");
    assert_eq!(Err("\"interval\" key is not present in torrent file.".to_string()), result);
}

#[test]
fn test_err_when_interval_is_present() {
    let result = tracker_info(b"d8:completei4e10:downloadedi6e10:incompletei1e8:intervali1906ee");
    assert_eq!(Err("\"min interval\" key is not present in torrent file.".to_string()), result);
}

#[test]
fn test_err_when_min_interval_is_present() {
    let result = tracker_info(b"d8:completei4e10:downloadedi6e10:incompletei1e8:intervali1906e12:min intervali953ee");
    assert_eq!(Err("\"peers\" key is not present in torrent file.".to_string()), result);
}

#[test]
fn tracker_info_test_ok_when_all_values_are_present() {
    let data = b"d8:completei4e10:downloadedi6e10:incompletei1e8:intervali1906e12:min intervali953e5:peers6:Oz\x00x\x1AAe";
    let result = tracker_info(data);
    let expected = TrackerInfo {
        complete: 4,
        downloaded: 6,
        incomplete: 1,
        interval: 1906,
        min_interval: 953,
        peers: vec![79, 122, 0, 120, 26, 65],
    };

    assert_eq!(Ok(expected), result);
}

#[test]
fn test_peer_addrs() {
    let tracker_info = TrackerInfo {
        complete: 4,
        downloaded: 6,
        incomplete: 1,
        interval: 1906,
        min_interval: 953,
        peers: vec![79, 122, 0, 120, 26, 65],
    };

    let expected = vec![Peer { ip: (79 << 24) | (122 << 16) | 120, port: 6721 }];

    assert_eq!(expected, tracker_info.peer_addrs());
    assert_eq!((79, 122, 0, 120), expected[0].octets());
}

#[test]
fn tracker_info_is_shown_with_its_peers() {
    let tracker_info = TrackerInfo {
        complete: 4,
        downloaded: 6,
        incomplete: 1,
        interval: 1906,
        min_interval: 953,
        peers: vec![79, 122, 0, 120, 26, 65, 192, 168, 2, 11, 26, 225],
    };
    assert_eq!(
        "TrackerInfo: { complete: 4, downloaded: 6, incomplete: 1, interval: 1906, min_interval: 953, peers: [79.122.0.120:6721, 192.168.2.11:6881] }",
        tracker_info.to_string()
    );
}

#[test]
fn tracker_info_without_peers_is_shown_with_an_empty_list() {
    let tracker_info = TrackerInfo {
        complete: 0,
        downloaded: 0,
        incomplete: 0,
        interval: 0,
        min_interval: 0,
        peers: vec![],
    };
    assert_eq!(Vec::<Peer>::new(), tracker_info.peer_addrs());
    assert_eq!(
        "TrackerInfo: { complete: 0, downloaded: 0, incomplete: 0, interval: 0, min_interval: 0, peers: [] }",
        tracker_info.to_string()
    );
}
