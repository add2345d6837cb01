use bittorrent::client::client::Client;
use bittorrent::client::error::Error;
use bittorrent::torrent::torrent::Torrent;
use bittorrent::torrent::torrent_info::TorrentInfo;
use bittorrent::torrent::tracker_info::TrackerInfo;

fn client() -> Client {
    let torrent = Torrent {
        announce: "http://tracker.test/announce".to_string(),
        created_by: "derekstride".to_string(),
        encoding: "UTF-8".to_string(),
        creation_date: 170,
        info: TorrentInfo {
            length: 4,
            name: "derek.jar".to_string(),
            piece_length: 100,
            private: true,
            pieces: vec![b'z', 195, 40],
        },
    };
    Client::new(torrent)
}

fn tracker_info_str() -> &'static [u8] {
    b"d8:completei4e10:downloadedi6e10:incompletei1e8:intervali1906e12:min intervali953e5:peers6:Oz\x00x\x1AAe"
}

#[test]
fn client_asks_at_the_announce_url_with_the_info_hash() {
    let url = client().request_url().unwrap();
    assert!(url.starts_with("http://tracker.test/announce?info_hash=%"));
    assert_eq!(client().request_url(), client().request_url());
}

#[test]
fn client_reads_the_response_of_the_tracker() {
    let expected = TrackerInfo {
        complete: 4,
        downloaded: 6,
        incomplete: 1,
        interval: 1906,
        min_interval: 953,
        peers: vec![79, 122, 0, 120, 26, 65],
    };
    assert_eq!(Ok(expected), client().read_response(tracker_info_str()));
}

#[test]
fn client_reports_a_response_that_cannot_be_read() {
    assert_eq!(
        Err(Error::new("Bencode is not a dict.".to_string())),
        client().read_response(b"")
    );
    assert_eq!(
        Err(Error::new("\"complete\" key is not present in torrent file.".to_string())),
        client().read_response(b"d14:failure reason4:nopee")
    );
    assert_eq!(
        Err(Error::new("\"peers\" value is not a ByteString".to_string())),
        client().read_response(
            b"d8:completei4e10:downloadedi6e10:incompletei1e8:intervali1906e12:min intervali953e5:peersi0ee"
        )
    );
}

#[test]
fn client_is_shown_by_the_name_of_its_torrent() {
    assert_eq!("Client { torrent: \"derek.jar\" }", client().to_string());
    assert_eq!(client(), client());
}

#[test]
fn client_error_keeps_the_message_of_the_torrent_error() {
    let inner = bittorrent::bencoding::error::Error::new("broken".to_string());
    let outer = Error::from(bittorrent::torrent::error::Error::from(inner));
    assert_eq!(Error::new("broken".to_string()), outer);
    assert_eq!("broken", outer.to_string());
    assert_eq!("broken", outer.description());
}
