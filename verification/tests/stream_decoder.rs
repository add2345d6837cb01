use bittorrent::bencoding::bencode::{Bencode, DictMap, ListVec};
use bittorrent::bencoding::byte_string::ByteString;
use bittorrent::bencoding::error::Error;
use bittorrent::bencoding::result::Result;
use bittorrent::bencoding::stream_decoder;
use bittorrent::bencoding::stream_decoder::ByteStream;


const BENCODE_EOF_ERROR: &str = "Unexpected end of stream.";

fn decode(data: Vec<u8>) -> Result {
    stream_decoder::decode(&mut ByteStream::from_bytes(data))
}

#[test]
fn stream_decoder_test_can_decode_an_empty_dictionary() {
    let s = b"de".to_vec();
    let result = decode(s);

    assert_eq!(Bencode::Dict(DictMap::new()), result.unwrap());
}

#[test]
fn stream_decoder_test_can_decode_a_malformed_dictionary() {
    let s = b"d".to_vec();
    let result = match decode(s) {
        Ok(_) => panic!("result should be an error"),
        Err(e) => e,
    };

    assert_eq!(Error::new(BENCODE_EOF_ERROR.to_string()), result);
}

#[test]
fn stream_decoder_test_can_decode_a_dictionary_with_invalid_key() {
    let s = b"d3:fooi-4ei3e4:spam".to_vec();
    let result = match decode(s) {
        Ok(_) => panic!("result should be an error"),
        Err(e) => e,
    };

    assert_eq!(Error::new("Dictionary key was `3`, expected a ByteString".to_string()), result);
}

#[test]
fn stream_decoder_test_can_decode_a_dictionary_with_one_item() {
    let s = b"d4:spami3ee".to_vec();
    let result = decode(s);

    let mut d = DictMap::new();
    d.insert(
        ByteString::from_vec(b"spam".to_vec()),
        Bencode::Number(3)
    );

    assert_eq!(Bencode::Dict(d), result.unwrap());
}

#[test]
fn stream_decoder_test_can_decode_a_dictionary_with_two_items() {
    let s = b"d4:spami3e3:fool4:spami3eee".to_vec();
    let result = decode(s);

    let v = vec![
        Bencode::ByteString(b"spam".to_vec()),
        Bencode::Number(3),
    ];

    let mut d = DictMap::new();
    d.insert(
        ByteString::from_vec(b"spam".to_vec()),
        Bencode::Number(3)
    );
    d.insert(
        ByteString::from_vec(b"foo".to_vec()),
        Bencode::List(v)
    );

    assert_eq!(Bencode::Dict(d), result.unwrap());
}

#[test]
fn stream_decoder_test_can_decode_an_empty_list() {
    let s = b"le".to_vec();
    let result = decode(s);

    assert_eq!(Bencode::List(ListVec::new()), result.unwrap())
}

#[test]
fn stream_decoder_test_can_decode_a_malformed_list() {
    let s = b"l".to_vec();
    let result = match decode(s) {
        Ok(_) => panic!("result should be an error"),
        Err(e) => e,
    };

    assert_eq!(Error::new(BENCODE_EOF_ERROR.to_string()), result);
}

#[test]
fn stream_decoder_test_can_decode_a_list_with_one_item() {
    let s = b"li3ee".to_vec();
    let result = decode(s);

    let v = vec![
        Bencode::Number(3),
    ];

    assert_eq!(Bencode::List(v), result.unwrap())
}

#[test]
fn stream_decoder_test_can_decode_a_list_with_two_items() {
    let s = b"l4:spami3ee".to_vec();
    let result = decode(s);

    let v = vec![
        Bencode::ByteString(b"spam".to_vec()),
        Bencode::Number(3),
    ];

    assert_eq!(Bencode::List(v), result.unwrap())
}

#[test]
fn stream_decoder_test_can_decode_a_list_with_a_list() {
    let s = b"ll4:spami3eee".to_vec();
    let result = decode(s);

    let l = vec![
        Bencode::ByteString(b"spam".to_vec()),
        Bencode::Number(3),
    ];
    let v = vec![Bencode::List(l)];

    assert_eq!(Bencode::List(v), result.unwrap())
}

#[test]
fn stream_decoder_test_can_decode_a_positive_int() {
    let s = b"i13e".to_vec();
    let result = decode(s);

    assert_eq!(Bencode::Number(13), result.unwrap());
}

#[test]
fn stream_decoder_test_can_decode_a_negative_int() {
    let s = b"i-137e".to_vec();
    let result = decode(s);

    assert_eq!(Bencode::Number(-137), result.unwrap());
}

#[test]
fn stream_decoder_test_can_decode_a_string() {
    let s = b"4:spam".to_vec();
    let result = decode(s);

    assert_eq!(Bencode::ByteString(b"spam".to_vec()), result.unwrap());
}

#[test]
fn stream_decoder_test_can_decode_a_string_shorter_than_the_size() {
    let s = b"10:1234567".to_vec();
    let result = match decode(s) {
        Ok(_) => panic!("result should be an error"),
        Err(e) => e,
    };

    assert_eq!(Error::new(BENCODE_EOF_ERROR.to_string()), result);
}

#[test]
fn stream_decoder_test_can_decode_a_malformed_empty_string() {
    let s = b"4:".to_vec();
    let result = match decode(s) {
        Ok(_) => panic!("result should be an error"),
        Err(e) => e,
    };

    assert_eq!(Error::new(BENCODE_EOF_ERROR.to_string()), result);
}

#[test]
fn stream_decoder_test_can_decode_an_empty_string() {
    let s = b"0:".to_vec();
    let result = decode(s);

    assert_eq!(Bencode::ByteString(b"".to_vec()), result.unwrap());
}

#[test]
fn stream_decoder_test_empty_input() {
    let s = b"".to_vec();
    let result = decode(s);

    assert_eq!(Bencode::Empty, result.unwrap());
}

#[test]
fn stream_decoder_test_invalid_utf8_string() {
    let s = b"2:\xc3\x28".to_vec();
    let result = decode(s);
    let bytes = vec![195, 40];

    assert_eq!(Bencode::ByteString(bytes), result.unwrap());
}

#[test]
fn test_key_after_bytestring() {
    let s = b"d3:foo3:bar4:infod6:pieces3:z\xc3\x287:private1:1ee".to_vec();
    let result = decode(s);
    let bytes = vec![122, 195, 40];

    let mut info = DictMap::new();
    info.insert(
        ByteString::from_vec(b"pieces".to_vec()),
        Bencode::ByteString(bytes),
    );
    info.insert(
        ByteString::from_vec(b"private".to_vec()),
        Bencode::ByteString(b"1".to_vec()),
    );

    let mut d = DictMap::new();
    d.insert(
        ByteString::from_vec(b"foo".to_vec()),
        Bencode::ByteString(b"bar".to_vec()),
    );
    d.insert(
        ByteString::from_vec(b"info".to_vec()),
        Bencode::Dict(info),
    );

    assert_eq!(Bencode::Dict(d), result.unwrap());
}
