use bittorrent::bencoding::decoder::decode;
use bittorrent::torrent::error::Error;
use bittorrent::torrent::torrent::Torrent;
use bittorrent::torrent::torrent_info::TorrentInfo;

fn torrent(data: &[u8]) -> Result<Torrent, Error> {
    Torrent::from(decode(&data.to_vec()))
}

fn assert_result_matches_error(msg: String, result: Result<Torrent, Error>) {
    let actual = match result {
        Ok(_) => panic!("Unexpected Ok value."),
        Err(e) => e,
    };
    assert_eq!(msg, actual.to_string());
}

#[test]
fn torrent_test_err_when_input_is_not_a_dictionary() {
    let result = torrent(b"le");
    assert_result_matches_error("Bencode is not a dict.".to_string(), result);
}

#[test]
fn torrent_test_err_when_input_is_an_empty_dictionary() {
    let result = torrent(b"de");
    assert_result_matches_error("\"announce\" key is not present in torrent file.".to_string(), result);
}

#[test]
fn test_err_when_announce_is_present() {
    let result = torrent(b"d8:announce3:yese");
    assert_result_matches_error("\"created by\" key is not present in torrent file.".to_string(), result);
}

#[test]
fn test_err_when_created_by_is_present() {
    let result = torrent(b"d8:announce3:yes10:created by5:dereke");
    assert_result_matches_error("\"encoding\" key is not present in torrent file.".to_string(), result);
}

#[test]
fn test_err_when_encoding_is_present() {
    let result = torrent(b"d8:announce3:yes10:created by5:derek8:encoding5:UTF-8e");
    assert_result_matches_error("\"creation date\" key is not present in torrent file.".to_string(), result);
}

#[test]
fn test_err_when_creation_date_is_present() {
    let result = torrent(b"d8:announce3:yes10:created by5:derek8:encoding5:UTF-813:creation datei170ee");
    assert_result_matches_error("\"info\" key is not present in torrent file.".to_string(), result);
}

#[test]
fn torrent_test_ok_when_all_values_are_present() {
    let result = torrent(
        b"d8:announce3:yes10:created by5:derek8:encoding5:UTF-813:creation datei170e4:infod6:lengthi4e4:name5:derek12:piece lengthi100e6:pieces3:z\xc3\x287:privatei1eee"
    );

    let expected_info = TorrentInfo {
        length: 4,
        name: "derek".to_string(),
        piece_length: 100,
        private: true,
        pieces: vec![b'z', 195, 40],
    };

    let expected = Torrent {
        announce: "yes".to_string(),
        created_by: "derek".to_string(),
        encoding: "UTF-8".to_string(),
        creation_date: 170,
        info: expected_info,
    };

    assert_eq!(Ok(expected), result);
}

#[test]
fn test_announce_url_when_all_values_are_present() {
    let expected_info = TorrentInfo {
        length: 4,
        name: "derek".to_string(),
        piece_length: 100,
        private: true,
        pieces: vec![b'z', 195, 40],
    };

    let expected = Torrent {
        announce: "yes".to_string(),
        created_by: "derek".to_string(),
        encoding: "UTF-8".to_string(),
        creation_date: 170,
        info: expected_info,
    };

    assert_eq!("yes?info_hash=%3AJ%9A%B3%D7%3E%D0t%BDD%DDz%A5%EE%9D%DE%8C%AD%28%AE", expected.announce_url().unwrap())
}

#[test]
fn torrent_is_shown_field_by_field() {
    let torrent = Torrent {
        announce: "yes".to_string(),
        created_by: "derek".to_string(),
        encoding: "UTF-8".to_string(),
        creation_date: -170,
        info: TorrentInfo {
            length: 4,
            name: "derek".to_string(),
            piece_length: 100,
            private: false,
            pieces: vec![b'z', 195, 40],
        },
    };
    assert_eq!(
        "Torrent: { announce: \"yes\", created_by: \"derek\", creation_date: -170, encoding: \"UTF-8\", info: TorrentInfo: { name: \"derek\", length: 4, piece_length: 100, private: false, pieces: [122, 195, 40] } }",
        torrent.to_string()
    );
}

#[test]
fn torrent_with_unreadable_info_reports_the_info_field() {
    let result = torrent(b"d8:announce3:yes10:created by5:derek8:encoding5:UTF-813:creation datei170e4:infod6:lengthi4eee");
    assert_result_matches_error("\"name\" key is not present in torrent file.".to_string(), result);
    let result = torrent(b"d8:announce3:yes10:created by5:derek8:encoding5:UTF-813:creation datei170e4:infoi3ee");
    assert_result_matches_error("Bencode is not a dict.".to_string(), result);
    let result = torrent(b"d8:announcei3ee");
    assert_result_matches_error("\"announce\" value is not a ByteString.".to_string(), result);
    let result = torrent(b"d8:announce2:\xc3\x28e");
    assert_result_matches_error("\"announce\" not valid utf-8.".to_string(), result);
}
