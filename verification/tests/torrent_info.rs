use bittorrent::bencoding::bencode::Bencode;
use bittorrent::bencoding::decoder::decode;
use bittorrent::bencoding::encoder::encode;
use bittorrent::torrent::error::Error;
use bittorrent::torrent::torrent_info::TorrentInfo;
use sha1::Digest;

fn torrent_info(data: &[u8]) -> Result<TorrentInfo, Error> {
    TorrentInfo::from(decode(&data.to_vec()))
}

fn assert_result_matches_error(msg: String, result: Result<TorrentInfo, Error>) {
    let actual = match result {
        Ok(_) => panic!("Unexpected Ok value."),
        Err(e) => e,
    };
    assert_eq!(msg, actual.to_string());
}

#[test]
fn torrent_info_test_err_when_input_is_not_a_dictionary() {
    let result = torrent_info(b"le");
    assert_result_matches_error("Bencode is not a dict.".to_string(), result);
}

#[test]
fn torrent_info_test_err_when_input_is_an_empty_dictionary() {
    let result = torrent_info(b"de");
    assert_result_matches_error("\"length\" key is not present in torrent file.".to_string(), result);
}

#[test]
fn test_err_when_length_is_present() {
    let result = torrent_info(b"d6:lengthi4ee");
    assert_result_matches_error("\"name\" key is not present in torrent file.".to_string(), result);
}

#[test]
fn test_err_when_name_is_present() {
    let result = torrent_info(b"d6:lengthi4e4:name5:dereke");
    assert_result_matches_error("\"piece length\" key is not present in torrent file.".to_string(), result);
}

#[test]
fn test_err_when_piece_length_is_present() {
    let result = torrent_info(b"d6:lengthi4e4:name5:derek12:piece lengthi100ee");
    assert_result_matches_error("\"private\" key is not present in torrent file.".to_string(), result);
}

#[test]
fn test_err_when_private_is_present() {
    let result = torrent_info(b"d6:lengthi4e4:name5:derek12:piece lengthi100e7:privatei1ee");
    assert_result_matches_error("\"pieces\" key is not present in torrent file.".to_string(), result);
}

#[test]
fn torrent_info_test_ok_when_all_values_are_present() {
    let data = b"d6:lengthi4e4:name5:derek12:piece lengthi100e7:privatei1e6:pieces3:z\xc3\x28e";
    let result = torrent_info(data);

    let expected = TorrentInfo {
        length: 4,
        name: "derek".to_string(),
        piece_length: 100,
        private: true,
        pieces: vec![b'z', 195, 40],
    };

    assert_eq!(Ok(expected), result);
}

#[test]
fn test_sha_when_all_values_are_present() {
    let data = b"d6:lengthi4e4:name5:derek12:piece lengthi100e6:pieces3:z\xc3\x287:privatei1ee";
    let mut hasher = sha1::Sha1::new();
    hasher.input(data.to_vec());
    let sha1 = hasher.result();
    let expected_str = percent_encoding::percent_encode(sha1.as_slice(), percent_encoding::NON_ALPHANUMERIC).to_string();

    let torrent = TorrentInfo {
        length: 4,
        name: "derek".to_string(),
        piece_length: 100,
        private: true,
        pieces: vec![b'z', 195, 40],
    };

    assert_eq!("%3AJ%9A%B3%D7%3E%D0t%BDD%DDz%A5%EE%9D%DE%8C%AD%28%AE", expected_str);
    assert_eq!(expected_str, torrent.sha1());
}

#[test]
fn info_dictionary_is_written_with_ascending_keys() {
    let info = TorrentInfo {
        length: 4,
        name: "derek".to_string(),
        piece_length: 100,
        private: false,
        pieces: vec![b'z', 195, 40],
    };
    let value: Bencode = info.torrent_info();
    assert_eq!(
        b"d6:lengthi4e4:name5:derek12:piece lengthi100e6:pieces3:z\xc3\x287:privatei0ee".to_vec(),
        encode(value)
    );
}

#[test]
fn info_with_a_field_of_the_wrong_kind_is_refused() {
    let result = torrent_info(b"d6:length1:4e");
    assert_result_matches_error("\"length\" value is not an i64.".to_string(), result);
    let result = torrent_info(b"d6:lengthi4e4:name5:derek12:piece lengthi100e6:piecesi3e7:privatei1ee");
    assert_result_matches_error("\"pieces\" value is not a ByteString".to_string(), result);
    let result = torrent_info(b"d6:lengthi4e4:name2:\xc3\x28e");
    assert_result_matches_error("\"name\" not valid utf-8.".to_string(), result);
}

#[test]
fn private_is_true_for_one_only() {
    let data = b"d6:lengthi4e4:name5:derek12:piece lengthi100e6:pieces0:7:privatei2ee";
    let info = torrent_info(data).unwrap();
    assert_eq!(false, info.private);
    assert_eq!(Vec::<u8>::new(), info.pieces);
}

#[test]
fn info_is_shown_field_by_field() {
    let info = TorrentInfo {
        length: 4,
        name: "derek".to_string(),
        piece_length: 100,
        private: true,
        pieces: vec![],
    };
    assert_eq!(
        "TorrentInfo: { name: \"derek\", length: 4, piece_length: 100, private: true, pieces: [] }",
        info.to_string()
    );
}
