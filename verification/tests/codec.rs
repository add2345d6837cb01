use bittorrent::bencoding::bencode::{Bencode, DictMap};
use bittorrent::bencoding::byte_string::{fmt_bytestring, lex_rank, ByteString, Rank};
use bittorrent::bencoding::decimal::{
    read_magnitude, read_signed, write_int, write_nat, NumberFault,
};
use bittorrent::bencoding::decoder::{decode, decode_internal};
use bittorrent::bencoding::encoder::{encode, encode_internal};
use bittorrent::bencoding::error::Error;
use bittorrent::bencoding::stream_decoder;
use bittorrent::bencoding::stream_decoder::ByteStream;

fn key(text: &str) -> ByteString {
    ByteString::from_str(text)
}

fn text(bytes: &[u8]) -> Bencode {
    Bencode::ByteString(bytes.to_vec())
}

fn dict(entries: Vec<(&str, Bencode)>) -> Bencode {
    let mut d = DictMap::new();
    for (k, v) in entries {
        d.insert(key(k), v);
    }
    Bencode::Dict(d)
}

fn strict(data: &[u8]) -> Result<Bencode, Error> {
    stream_decoder::decode(&mut ByteStream::from_bytes(data.to_vec()))
}

fn strict_error(data: &[u8]) -> String {
    match strict(data) {
        Ok(value) => panic!("expected an error, got {:?}", value),
        Err(e) => e.to_string(),
    }
}

fn sample() -> Bencode {
    dict(vec![
        ("spam", Bencode::List(vec![Bencode::List(vec![]), Bencode::List(vec![Bencode::Number(1)])])),
        ("eggs", dict(vec![("b", text(b"\xc3\x28")), ("a", Bencode::Number(-7))])),
        ("", text(b"")),
        ("zero", Bencode::Number(0)),
    ])
}

#[test]
fn decimal_numerals_are_written_without_leading_zeros() {
    let mut buffer = vec![b'x'];
    write_nat(&mut buffer, 0);
    write_nat(&mut buffer, 10);
    write_nat(&mut buffer, u64::MAX);
    assert_eq!(b"x01018446744073709551615".to_vec(), buffer);
    let mut buffer = Vec::new();
    write_int(&mut buffer, i64::MIN);
    write_int(&mut buffer, -1);
    write_int(&mut buffer, i64::MAX);
    assert_eq!(b"-9223372036854775808-19223372036854775807".to_vec(), buffer);
}

#[test]
fn unsigned_numerals_are_read_up_to_the_limit() {
    assert_eq!(Ok(0), read_magnitude(b"0", 0));
    assert_eq!(Ok(7), read_magnitude(b"007", 7));
    assert_eq!(Ok(255), read_magnitude(b"255", 255));
    assert_eq!(Err(NumberFault::TooLarge), read_magnitude(b"256", 255));
    assert_eq!(Err(NumberFault::TooLarge), read_magnitude(b"2560x", 255));
    assert_eq!(Err(NumberFault::InvalidDigit), read_magnitude(b"25x0", 255));
    assert_eq!(Err(NumberFault::InvalidDigit), read_magnitude(b"+5", 255));
    assert_eq!(Err(NumberFault::Empty), read_magnitude(b"", 255));
    assert_eq!(Ok(u64::MAX), read_magnitude(b"18446744073709551615", u64::MAX));
    assert_eq!(Err(NumberFault::TooLarge), read_magnitude(b"18446744073709551616", u64::MAX));
}

#[test]
fn signed_numerals_are_read_within_the_range_of_i64() {
    assert_eq!(Ok(0), read_signed(b"-0"));
    assert_eq!(Ok(-137), read_signed(b"-137"));
    assert_eq!(Ok(i64::MAX), read_signed(b"9223372036854775807"));
    assert_eq!(Ok(i64::MIN), read_signed(b"-9223372036854775808"));
    assert_eq!(Err(NumberFault::TooLarge), read_signed(b"9223372036854775808"));
    assert_eq!(Err(NumberFault::TooSmall), read_signed(b"-9223372036854775809"));
    assert_eq!(Err(NumberFault::InvalidDigit), read_signed(b"-"));
    assert_eq!(Err(NumberFault::InvalidDigit), read_signed(b"+5"));
    assert_eq!(Err(NumberFault::InvalidDigit), read_signed(b"--5"));
    assert_eq!(Err(NumberFault::InvalidDigit), read_signed(b"5-"));
    assert_eq!(Err(NumberFault::Empty), read_signed(b""));
}

#[test]
fn byte_strings_are_ordered_by_their_bytes() {
    assert_eq!(Rank::Same, lex_rank(b"", b""));
    assert_eq!(Rank::Before, lex_rank(b"", b"a"));
    assert_eq!(Rank::After, lex_rank(b"a", b""));
    assert_eq!(Rank::Before, lex_rank(b"piece length", b"pieces"));
    assert_eq!(Rank::After, lex_rank(b"private", b"pieces"));
    assert_eq!(Rank::Before, lex_rank(b"a", b"\xff"));
    assert_eq!(Rank::Same, lex_rank(b"spam", b"spam"));
    assert_eq!(Rank::Before, lex_rank(b"spam", b"spams"));
}

#[test]
fn byte_strings_are_shown_as_text_or_as_byte_values() {
    assert_eq!("s\"spam\"", fmt_bytestring(b"spam"));
    assert_eq!("s\"\"", fmt_bytestring(b""));
    assert_eq!("s[195, 40]", fmt_bytestring(b"\xc3\x28"));
    assert_eq!("s[255]", fmt_bytestring(b"\xff"));
    assert_eq!("s\"\u{e9}\"", ByteString::from_vec(vec![0xc3, 0xa9]).to_string());
    assert_eq!(b"spam".to_vec(), ByteString::from_str("spam").unwrap());
    assert_eq!(vec![0xc3, 0xa9], ByteString::from_str("\u{e9}").unwrap());
}

#[test]
fn dictionary_keeps_its_keys_ascending() {
    let mut d = DictMap::new();
    assert_eq!(0, d.len());
    d.insert(key("spam"), Bencode::Number(1));
    d.insert(key("eggs"), Bencode::Number(2));
    d.insert(key("ham"), Bencode::Number(3));
    d.insert(key("eggs"), Bencode::Number(4));
    d.insert(key("zebra"), Bencode::Number(5));
    d.insert(key(""), Bencode::Number(6));
    assert_eq!(5, d.len());
    let keys: Vec<Vec<u8>> = (0..d.len()).map(|i| d.entry(i).0.clone().unwrap()).collect();
    assert_eq!(
        vec![b"".to_vec(), b"eggs".to_vec(), b"ham".to_vec(), b"spam".to_vec(), b"zebra".to_vec()],
        keys
    );
    assert_eq!(&Bencode::Number(4), d.entry(1).1);
    assert_eq!(Some(&Bencode::Number(4)), d.get(&key("eggs")));
    assert_eq!(None, d.get(&key("egg")));
    assert_eq!(Some(Bencode::Number(3)), d.remove(&key("ham")));
    assert_eq!(None, d.remove(&key("ham")));
    assert_eq!(4, d.len());
    assert_eq!(b"d0:i6e4:eggsi4e4:spami1e5:zebrai5ee".to_vec(), encode(Bencode::Dict(d)));
}

#[test]
fn remove_hands_over_the_value_under_the_key() {
    let value = dict(vec![("info", dict(vec![("length", Bencode::Number(4))])), ("n", Bencode::Number(1))]);
    assert_eq!(Ok(dict(vec![("length", Bencode::Number(4))])), value.remove("info"));
    assert_eq!(
        Err(Error::new("\"info\" key is not present in torrent file.".to_string())),
        dict(vec![]).remove("info")
    );
    assert_eq!(Err(Error::new("Bencode is not a dict".to_string())), Bencode::Number(1).remove("info"));
    assert_eq!(Err(Error::new("Bencode is not a dict".to_string())), Bencode::Empty.remove("info"));
}

#[test]
fn remove_bytestring_asks_for_a_byte_string() {
    assert_eq!(
        Ok(vec![b'z', 195, 40]),
        dict(vec![("pieces", text(b"z\xc3\x28"))]).remove_bytestring("pieces")
    );
    assert_eq!(
        Err(Error::new("\"pieces\" key is not present in torrent file.".to_string())),
        dict(vec![("piece", text(b"z"))]).remove_bytestring("pieces")
    );
    assert_eq!(
        Err(Error::new("\"pieces\" value is not a ByteString".to_string())),
        dict(vec![("pieces", Bencode::Number(3))]).remove_bytestring("pieces")
    );
    assert_eq!(
        Err(Error::new("Bencode is not a dict".to_string())),
        Bencode::List(vec![]).remove_bytestring("pieces")
    );
}

#[test]
fn get_string_asks_for_utf8_text() {
    let value = dict(vec![("name", text(b"derek")), ("bad", decode(b"2:\xc3\x28")), ("n", Bencode::Number(3))]);
    assert_eq!(Ok("derek".to_string()), value.get_string("name"));
    assert_eq!(Err(Error::new("\"bad\" not valid utf-8.".to_string())), value.get_string("bad"));
    assert_eq!(Err(Error::new("\"n\" value is not a ByteString.".to_string())), value.get_string("n"));
    assert_eq!(
        Err(Error::new("\"nam\" key is not present in torrent file.".to_string())),
        value.get_string("nam")
    );
    assert_eq!(Err(Error::new("Bencode is not a dict.".to_string())), text(b"name").get_string("name"));
    assert_eq!(Ok("\u{e9}".to_string()), dict(vec![("\u{e9}", text(b"\xc3\xa9"))]).get_string("\u{e9}"));
}

#[test]
fn get_number_asks_for_a_number() {
    let value = dict(vec![("length", Bencode::Number(-4)), ("name", text(b"derek"))]);
    assert_eq!(Ok(-4), value.get_number("length"));
    assert_eq!(Err(Error::new("\"name\" value is not an i64.".to_string())), value.get_number("name"));
    assert_eq!(
        Err(Error::new("\"size\" key is not present in torrent file.".to_string())),
        value.get_number("size")
    );
    assert_eq!(Err(Error::new("Bencode is not a dict.".to_string())), Bencode::Number(4).get_number("length"));
    assert_eq!(Ok(-4), value.get_number("length"));
}

#[test]
fn values_are_shown_with_their_members() {
    assert_eq!("", Bencode::Empty.to_string());
    assert_eq!("-137", Bencode::Number(-137).to_string());
    assert_eq!("s\"spam\"", text(b"spam").to_string());
    assert_eq!("[]", Bencode::List(vec![]).to_string());
    assert_eq!("[3]", Bencode::List(vec![Bencode::Number(3)]).to_string());
    assert_eq!(
        "[3, s\"spam\", [], s[195, 40]]",
        Bencode::List(vec![Bencode::Number(3), text(b"spam"), Bencode::List(vec![]), text(b"\xc3\x28")]).to_string()
    );
    assert_eq!("{}", dict(vec![]).to_string());
    assert_eq!(
        "{s\"eggs\": [1, 2], s\"spam\": {s\"a\": 0}}",
        dict(vec![
            ("spam", dict(vec![("a", Bencode::Number(0))])),
            ("eggs", Bencode::List(vec![Bencode::Number(1), Bencode::Number(2)])),
        ]).to_string()
    );
}

#[test]
fn errors_are_compared_and_shown_by_their_message() {
    let e = Error::new("Unexpected end of stream.".to_string());
    assert_eq!(Error::end_of_stream(), e);
    assert_eq!("Unexpected end of stream.", e.to_string());
    assert_eq!("Unexpected end of stream.", e.description());
    assert_eq!(Error::from_text("\"k\" gone"), Error::about_key("k", "\" gone"));
    assert_eq!("invalid digit found in string", Error::from_fault(NumberFault::InvalidDigit).to_string());
    assert_eq!("cannot parse integer from empty string", Error::from_fault(NumberFault::Empty).to_string());
    assert_eq!("number too large to fit in target type", Error::from_fault(NumberFault::TooLarge).to_string());
    assert_eq!("number too small to fit in target type", Error::from_fault(NumberFault::TooSmall).to_string());
}

#[test]
fn empty_is_encoded_as_nothing() {
    assert_eq!(Vec::<u8>::new(), encode(Bencode::Empty));
    let mut buffer = b"abc".to_vec();
    encode_internal(&mut buffer, &Bencode::Empty);
    encode_internal(&mut buffer, &Bencode::Number(0));
    assert_eq!(b"abci0e".to_vec(), buffer);
}

#[test]
fn extreme_numbers_are_encoded_in_full() {
    assert_eq!(b"i-9223372036854775808e".to_vec(), encode(Bencode::Number(i64::MIN)));
    assert_eq!(b"i9223372036854775807e".to_vec(), encode(Bencode::Number(i64::MAX)));
    assert_eq!(b"i0e".to_vec(), encode(Bencode::Number(0)));
    assert_eq!(b"12:abcdefghijkl".to_vec(), encode(text(b"abcdefghijkl")));
}

#[test]
fn round_trip_gives_the_value_back() {
    let bytes = encode(sample());
    assert_eq!(
        b"d0:0:4:eggsd1:ai-7e1:b2:\xc3\x28e4:spamlleli1eee4:zeroi0ee".to_vec(),
        bytes
    );
    assert_eq!(sample(), decode(&bytes));
    assert_eq!(Ok(sample()), strict(&bytes));
    assert_eq!(Bencode::Empty, decode(&encode(Bencode::Empty)));
    for n in [i64::MIN, -1, 0, 1, i64::MAX] {
        assert_eq!(Bencode::Number(n), decode(&encode(Bencode::Number(n))));
        assert_eq!(Ok(Bencode::Number(n)), strict(&encode(Bencode::Number(n))));
    }
}

#[test]
fn canonical_bytes_are_reproduced() {
    let bytes = b"d8:announce3:yes4:infod6:lengthi4e6:pieces3:z\xc3\x28e5:peersl1:a1:bee".to_vec();
    assert_eq!(bytes, encode(decode(&bytes)));
    assert_eq!(bytes, encode(strict(&bytes).unwrap()));
}

#[test]
fn decoding_puts_keys_in_order_and_keeps_the_last_of_equal_keys() {
    assert_eq!(b"d1:ai2e1:bi1ee".to_vec(), encode(decode(b"d1:bi1e1:ai2ee")));
    assert_eq!(dict(vec![("foo", Bencode::Number(2))]), decode(b"d3:fooi1e3:fooi2ee"));
    assert_eq!(Ok(dict(vec![("foo", Bencode::Number(2))])), strict(b"d3:fooi1e3:fooi2ee"));
    assert_eq!(b"d1:ai2e1:bi1ee".to_vec(), encode(strict(b"d1:bi1e1:ai2ee").unwrap()));
    let once = encode(decode(b"d1:bi01e1:ai2e"));
    assert_eq!(b"d1:ai2e1:bi1ee".to_vec(), once);
    assert_eq!(once, encode(decode(&once)));
}

#[test]
fn lists_inside_lists_end_at_their_own_terminator() {
    let expected = Bencode::List(vec![Bencode::List(vec![]), Bencode::List(vec![Bencode::Number(1)])]);
    assert_eq!(expected, decode(b"lleli1eee"));
    assert_eq!(Ok(expected), strict(b"lleli1eee"));
    let expected = Bencode::List(vec![dict(vec![]), dict(vec![("a", Bencode::List(vec![]))]), Bencode::Number(2)]);
    assert_eq!(expected, decode(b"lded1:aleei2ee"));
    assert_eq!(Ok(expected), strict(b"lded1:aleei2ee"));
}

#[test]
fn lenient_decoder_reports_where_it_stopped() {
    assert_eq!((text(b""), 2), decode_internal(b"0:", 0));
    assert_eq!((text(b""), 2), decode_internal(b"4:", 0));
    assert_eq!((text(b"spam"), 6), decode_internal(b"4:spami3e", 0));
    assert_eq!((Bencode::Number(3), 9), decode_internal(b"4:spami3e", 6));
    assert_eq!((Bencode::Empty, 9), decode_internal(b"4:spami3e", 9));
    assert_eq!((Bencode::Empty, 12), decode_internal(b"4:spami3e", 12));
    assert_eq!((Bencode::List(vec![]), 2), decode_internal(b"le", 0));
    assert_eq!((Bencode::List(vec![]), 1), decode_internal(b"l", 0));
    assert_eq!((Bencode::List(vec![]), 1), decode_internal(b"lxe", 0));
    assert_eq!((dict(vec![("foo", Bencode::Number(-4))]), 13), decode_internal(b"d3:fooi-4ei3e4:spam", 0));
    assert_eq!((Bencode::Empty, 0), decode_internal(b"xyz", 0));
}

#[test]
fn declared_length_beyond_the_input_is_clamped() {
    assert_eq!(text(b"1234567"), decode(b"10:1234567"));
    assert_eq!(text(b"abc"), decode(b"99999999999999999999999999999999:abc"));
    assert_eq!(text(b""), decode(b"99999999999999999999999999999999:"));
    assert_eq!(text(b"ab"), decode(b"002:abc"));
    assert_eq!(Bencode::List(vec![text(b"ab")]), decode(b"l5:ab"));
    assert_eq!(dict(vec![("foo", text(b"abc"))]), decode(b"d3:foo10:abc"));
}

#[test]
fn malformed_input_is_absorbed_by_the_lenient_decoder() {
    assert_eq!(Bencode::Empty, decode(b"x"));
    assert_eq!(Bencode::Empty, decode(b"e"));
    assert_eq!(Bencode::Empty, decode(b"12"));
    assert_eq!(Bencode::Empty, decode(b"1x:abc"));
    assert_eq!(Bencode::Empty, decode(b"1\xff:abc"));
    assert_eq!(Bencode::Empty, decode(b"ie"));
    assert_eq!(Bencode::Empty, decode(b"i-e"));
    assert_eq!(Bencode::Empty, decode(b"i12"));
    assert_eq!(Bencode::Empty, decode(b"i1x2e"));
    assert_eq!(Bencode::Empty, decode(b"i+5e"));
    assert_eq!(Bencode::Empty, decode(b"i\xff5e"));
    assert_eq!(Bencode::Empty, decode(b"i9223372036854775808e"));
    assert_eq!(Bencode::Empty, decode(b"i-9223372036854775809e"));
    assert_eq!(Bencode::Number(7), decode(b"i007e"));
    assert_eq!(Bencode::Number(0), decode(b"i-0e"));
    assert_eq!(Bencode::Number(i64::MIN), decode(b"i-9223372036854775808e"));
    assert_eq!(Bencode::List(vec![Bencode::Number(1)]), decode(b"li1exi2ee"));
    assert_eq!(Bencode::List(vec![Bencode::List(vec![Bencode::Number(1)])]), decode(b"lli1exi2eee"));
    assert_eq!(dict(vec![]), decode(b"d3:fooe"));
    assert_eq!(dict(vec![]), decode(b"d3:foo"));
    assert_eq!(dict(vec![]), decode(b"dxe"));
    assert_eq!(dict(vec![("a", Bencode::Number(1))]), decode(b"d1:ai1e1:bxe"));
    assert_eq!(dict(vec![("a", Bencode::Number(1))]), decode(b"d1:ai1ele1:bi2ee"));
}

#[test]
fn strict_decoder_fails_where_the_lenient_one_stops() {
    assert_eq!("Unexpected end of stream.", strict_error(b"l"));
    assert_eq!("Unexpected end of stream.", strict_error(b"li1e"));
    assert_eq!("Unexpected end of stream.", strict_error(b"lxe"));
    assert_eq!("Unexpected end of stream.", strict_error(b"d"));
    assert_eq!("Unexpected end of stream.", strict_error(b"d3:foo"));
    assert_eq!("Unexpected end of stream.", strict_error(b"d3:fooe"));
    assert_eq!("Unexpected end of stream.", strict_error(b"d3:fooxe"));
    assert_eq!("Unexpected end of stream.", strict_error(b"12"));
    assert_eq!("Unexpected end of stream.", strict_error(b"i12"));
    assert_eq!("Unexpected end of stream.", strict_error(b"i"));
    assert_eq!("Unexpected end of stream.", strict_error(b"5:spam"));
    assert_eq!(Ok(Bencode::Empty), strict(b""));
    assert_eq!(Ok(Bencode::Empty), strict(b"x"));
    assert_eq!(Ok(Bencode::Empty), strict(b"e"));
}

#[test]
fn strict_decoder_reports_numerals_that_cannot_be_read() {
    assert_eq!("invalid digit found in string", strict_error(b"i+5e"));
    assert_eq!("invalid digit found in string", strict_error(b"i-e"));
    assert_eq!("invalid digit found in string", strict_error(b"i1x2e"));
    assert_eq!("cannot parse integer from empty string", strict_error(b"ie"));
    assert_eq!("number too large to fit in target type", strict_error(b"i9223372036854775808e"));
    assert_eq!("number too small to fit in target type", strict_error(b"i-9223372036854775809e"));
    assert_eq!("invalid digit found in string", strict_error(b"1x:abc"));
    assert_eq!(
        "number too large to fit in target type",
        strict_error(b"99999999999999999999999999999999:abc")
    );
    assert_eq!(Ok(Bencode::Number(7)), strict(b"i007e"));
    assert_eq!(Ok(Bencode::Number(0)), strict(b"i-0e"));
    assert_eq!(Ok(text(b"ab")), strict(b"002:abc"));
}

#[test]
fn strict_decoder_reports_digits_that_are_no_text() {
    assert_eq!("invalid utf-8 sequence of 1 bytes from index 1", strict_error(b"1\xff:abc"));
    assert_eq!("invalid utf-8 sequence of 1 bytes from index 0", strict_error(b"i\xff5e"));
    assert_eq!("incomplete utf-8 byte sequence from index 1", strict_error(b"i1\xc3e"));
}

#[test]
fn strict_decoder_names_what_stands_in_place_of_a_key() {
    assert_eq!("Dictionary key was `3`, expected a ByteString", strict_error(b"d3:fooi-4ei3e4:spam"));
    assert_eq!("Dictionary key was `[]`, expected a ByteString", strict_error(b"dle3:fooe"));
    assert_eq!("Dictionary key was `{s\"a\": [1]}`, expected a ByteString", strict_error(b"dd1:ali1eeee"));
    assert_eq!("Dictionary key was ``, expected a ByteString", strict_error(b"dxe"));
}

#[test]
fn failure_of_the_source_is_handed_on() {
    let items = vec![Ok(b'l'), Ok(b'i'), Ok(b'1'), Err("broken pipe".to_string()), Ok(b'e')];
    let mut stream = ByteStream::new(items);
    assert_eq!(Err(Error::new("broken pipe".to_string())), stream_decoder::decode(&mut stream));
    let mut stream = ByteStream::new(vec![Err("no such file".to_string())]);
    assert_eq!(Err(Error::new("no such file".to_string())), stream_decoder::decode(&mut stream));
    let mut stream = ByteStream::new(vec![Ok(b'l'), Err("reset".to_string())]);
    assert_eq!(Err(Error::new("reset".to_string())), stream_decoder::decode(&mut stream));
    let mut stream = ByteStream::new(vec![Ok(b'2'), Ok(b':'), Ok(b'a'), Err("reset".to_string())]);
    assert_eq!(Err(Error::new("reset".to_string())), stream_decoder::decode(&mut stream));
}

#[test]
fn source_moves_forward_one_byte_at_a_time() {
    let mut stream = ByteStream::from_bytes(b"i1ei2ex".to_vec());
    assert_eq!(Ok(b'i'), stream_decoder::peek(&stream));
    assert_eq!(Ok(Bencode::Number(1)), stream_decoder::decode(&mut stream));
    assert_eq!(Ok(b'i'), stream_decoder::peek(&stream));
    assert_eq!(Ok(Bencode::Number(2)), stream_decoder::decode(&mut stream));
    assert_eq!(Ok(Bencode::Empty), stream_decoder::decode(&mut stream));
    assert_eq!(Ok(b'x'), stream_decoder::peek(&stream));
    assert_eq!(Ok(b'x'), stream_decoder::next(&mut stream));
    assert_eq!(Err(Error::end_of_stream()), stream_decoder::peek(&stream));
    assert_eq!(Err(Error::end_of_stream()), stream_decoder::next(&mut stream));
    assert_eq!(Ok(Bencode::Empty), stream_decoder::decode(&mut stream));
    let mut stream = ByteStream::new(vec![Err("reset".to_string()), Ok(b'x')]);
    assert_eq!(Err(Error::new("reset".to_string())), stream_decoder::peek(&stream));
    assert_eq!(Err(Error::new("reset".to_string())), stream_decoder::next(&mut stream));
    assert_eq!(Ok(b'x'), stream_decoder::next(&mut stream));
}

#[test]
fn strict_decoder_takes_nested_values_in_one_pass() {
    let mut stream = ByteStream::from_bytes(b"d1:ad1:bleee3:end".to_vec());
    assert_eq!(
        Ok(dict(vec![("a", dict(vec![("b", Bencode::List(vec![]))]))])),
        stream_decoder::decode(&mut stream)
    );
    assert_eq!(Ok(text(b"end")), stream_decoder::decode(&mut stream));
    assert_eq!(Ok(Bencode::Empty), stream_decoder::decode(&mut stream));
}

#[test]
fn encoder_writes_the_canonical_form_of_what_was_decoded() {
    let inputs: Vec<&[u8]> = vec![
        b"d1:bi01e1:ai-0e1:a2:xyzz",
        b"l3:abci+1ee",
        b"li1e",
        b"d1:ad1:cle1:bi2ee",
        b"004:spam",
        b"",
        b"x",
    ];
    let expected: Vec<&[u8]> = vec![
        b"d1:a2:xy1:bi1ee",
        b"l3:abce",
        b"li1ee",
        b"d1:ad1:bi2e1:cleee",
        b"4:spam",
        b"",
        b"",
    ];
    for (input, canonical) in inputs.iter().zip(expected.iter()) {
        let once = encode(decode(input));
        assert_eq!(canonical.to_vec(), once);
        assert_eq!(once, encode(decode(&once)));
        assert_eq!(decode(input), decode(&once));
        assert_eq!(Ok(decode(&once)), strict(&once));
    }
}

#[test]
fn lenient_decoder_reads_what_the_strict_decoder_reads() {
    let inputs: Vec<&[u8]> = vec![
        b"",
        b"x",
        b"i007e",
        b"i-0e",
        b"002:abc",
        b"d1:bi1e1:ai2e1:bi3ee",
        b"lded1:aleei2eetrailing",
        b"d3:foo3:bar4:infod6:pieces3:z\xc3\x287:private1:1ee",
        b"l4:spami3ee",
        b"li1e",
        b"d3:fooe",
        b"10:1234567",
        b"i+5e",
    ];
    let mut read = 0;
    for input in inputs {
        if let Ok(value) = strict(input) {
            assert_eq!(value, decode(input));
            read += 1;
        }
    }
    assert_eq!(9, read);
}
