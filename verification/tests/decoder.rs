use bittorrent::bencoding::bencode::{Bencode, DictMap, ListVec};
use bittorrent::bencoding::byte_string::ByteString;
use bittorrent::bencoding::decoder::decode;


#[test]
fn decoder_test_can_decode_an_empty_dictionary() {
    let s = b"de";
    let result = decode(s);

    assert_eq!(Bencode::Dict(DictMap::new()), result);
}

#[test]
fn decoder_test_can_decode_a_malformed_dictionary() {
    let s = b"d";
    let result = decode(s);

    assert_eq!(Bencode::Dict(DictMap::new()), result);
}

#[test]
fn decoder_test_can_decode_a_dictionary_with_invalid_key() {
    let s = b"d3:fooi-4ei3e4:spam";
    let result = decode(s);

    let mut d = DictMap::new();
    d.insert(
        ByteString::from_vec(b"foo".to_vec()),
        Bencode::Number(-4)
    );

    assert_eq!(Bencode::Dict(d), result);
}

#[test]
fn decoder_test_can_decode_a_dictionary_with_one_item() {
    let s = b"d4:spami3ee";
    let result = decode(s);

    let mut d = DictMap::new();
    d.insert(
        ByteString::from_vec(b"spam".to_vec()),
        Bencode::Number(3)
    );

    assert_eq!(Bencode::Dict(d), result);
}

#[test]
fn decoder_test_can_decode_a_dictionary_with_two_items() {
    let s = b"d4:spami3e3:fool4:spami3eee";
    let result = decode(s);

    let v = vec![
        Bencode::ByteString(b"spam".to_vec()),
        Bencode::Number(3),
    ];

    let mut d = DictMap::new();
    d.insert(
        ByteString::from_vec(b"spam".to_vec()),
        Bencode::Number(3)
    );
    d.insert(
        ByteString::from_vec(b"foo".to_vec()),
        Bencode::List(v)
    );

    assert_eq!(Bencode::Dict(d), result);
}

#[test]
fn decoder_test_can_decode_an_empty_list() {
    let s = b"le";
    let result = decode(s);

    assert_eq!(Bencode::List(ListVec::new()), result)
}

#[test]
fn decoder_test_can_decode_a_malformed_list() {
    let s = b"l";
    let result = decode(s);

    assert_eq!(Bencode::List(ListVec::new()), result)
}

#[test]
fn decoder_test_can_decode_a_list_with_one_item() {
    let s = b"li3ee";
    let result = decode(s);

    let v = vec![
        Bencode::Number(3),
    ];

    assert_eq!(Bencode::List(v), result)
}

#[test]
fn decoder_test_can_decode_a_list_with_two_items() {
    let s = b"l4:spami3ee";
    let result = decode(s);

    let v = vec![
        Bencode::ByteString(b"spam".to_vec()),
        Bencode::Number(3),
    ];

    assert_eq!(Bencode::List(v), result)
}

#[test]
fn decoder_test_can_decode_a_list_with_a_list() {
    let s = b"ll4:spami3eee";
    let result = decode(s);

    let l = vec![
        Bencode::ByteString(b"spam".to_vec()),
        Bencode::Number(3),
    ];
    let v = vec![Bencode::List(l)];

    assert_eq!(Bencode::List(v), result)
}

#[test]
fn decoder_test_can_decode_a_positive_int() {
    let s = b"i13e";
    let result = decode(s);

    assert_eq!(Bencode::Number(13), result);
}

#[test]
fn decoder_test_can_decode_a_negative_int() {
    let s = b"i-137e";
    let result = decode(s);

    assert_eq!(Bencode::Number(-137), result);
}

#[test]
fn decoder_test_can_decode_a_string() {
    let s = b"4:spam";
    let result = decode(s);

    assert_eq!(Bencode::ByteString(b"spam".to_vec()), result);
}

#[test]
fn decoder_test_can_decode_a_string_shorter_than_the_size() {
    let s = b"10:1234567";
    let result = decode(s);

    assert_eq!(Bencode::ByteString(b"1234567".to_vec()), result);
}

#[test]
fn decoder_test_can_decode_a_malformed_empty_string() {
    let s = b"4:";
    let result = decode(s);

    assert_eq!(Bencode::ByteString(b"".to_vec()), result);
}

#[test]
fn decoder_test_can_decode_an_empty_string() {
    let s = b"0:";
    let result = decode(s);

    assert_eq!(Bencode::ByteString(b"".to_vec()), result);
}

#[test]
fn decoder_test_empty_input() {
    let s = b"";
    let result = decode(s);

    assert_eq!(Bencode::Empty, result);
}

#[test]
fn decoder_test_invalid_utf8_string() {
    let s = b"2:\xc3\x28";
    let result = decode(s);
    let bytes = vec![195, 40];

    assert_eq!(Bencode::ByteString(bytes), result);
}
