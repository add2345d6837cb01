use bittorrent::bencoding::bencode::{Bencode, DictMap};
use bittorrent::bencoding::byte_string::ByteString;
use bittorrent::bencoding::error::Error;
use bittorrent::bencoding::machine::{Decoder, Request};
use bittorrent::bencoding::stream_decoder;
use bittorrent::bencoding::stream_decoder::{ByteStream, FileByte};

/// Drives a decoder over `pulls` and counts how many of them were taken.
fn drive(pulls: &[FileByte]) -> (Result<Bencode, Error>, usize) {
    let mut decoder = Decoder::new();
    let mut taken = 0;
    loop {
        let event = pulls.get(taken).cloned();
        let looked = decoder.request() == Request::Peek;
        let outcome = decoder.step(event.clone());
        if !looked && event.is_some() {
            taken += 1;
        }
        if let Some(outcome) = outcome {
            return (outcome, taken);
        }
    }
}

fn bytes(data: &[u8]) -> Vec<FileByte> {
    data.iter().map(|byte| Ok(*byte)).collect()
}

fn inputs() -> Vec<Vec<FileByte>> {
    let plain: Vec<&[u8]> = vec![
        b"",
        b"x",
        b"e",
        b"i13e",
        b"i-137e4:spam",
        b"i+5e",
        b"ie",
        b"i12",
        b"i9223372036854775808e",
        b"i\xff5e",
        b"0:",
        b"4:",
        b"4:spamx",
        b"10:1234567",
        b"1x:abc",
        b"1\xff:abc",
        b"99999999999999999999999999999999:abc",
        b"le",
        b"l",
        b"lxe",
        b"li3ee",
        b"l4:spami3eei1e",
        b"ll4:spami3eee",
        b"lleli1eee",
        b"de",
        b"d",
        b"dxe",
        b"d3:fooe",
        b"d3:foo",
        b"d3:fooxe",
        b"d4:spami3ee",
        b"d4:spami3e3:fool4:spami3eeei0e",
        b"d3:fooi-4ei3e4:spam",
        b"dle3:fooe",
        b"dd1:ali1eeee",
        b"d1:bi1e1:ai2e1:bi3ee",
        b"d3:foo3:bar4:infod6:pieces3:z\xc3\x287:private1:1ee",
        b"lded1:aleei2ee",
    ];
    let mut all: Vec<Vec<FileByte>> = plain.iter().map(|data| bytes(data)).collect();
    all.push(vec![Err("reset".to_string())]);
    all.push(vec![Ok(b'l'), Err("reset".to_string())]);
    all.push(vec![Ok(b'l'), Ok(b'i'), Ok(b'1'), Err("broken pipe".to_string()), Ok(b'e')]);
    all.push(vec![Ok(b'2'), Ok(b':'), Ok(b'a'), Err("reset".to_string()), Ok(b'b')]);
    all.push(vec![Ok(b'd'), Ok(b'1'), Ok(b':'), Ok(b'a'), Err("reset".to_string())]);
    all.push(vec![Ok(b'1'), Err("reset".to_string())]);
    all
}

#[test]
fn decoder_driven_by_hand_reads_what_decode_reads() {
    for pulls in inputs() {
        let mut stream = ByteStream::new(pulls.clone());
        let expected = stream_decoder::decode(&mut stream);
        let mut left = 0;
        while stream.next().is_some() {
            left += 1;
        }
        let (outcome, taken) = drive(&pulls);
        assert_eq!(expected, outcome, "on {:?}", pulls);
        assert_eq!(pulls.len() - left, taken, "on {:?}", pulls);
    }
}

#[test]
fn decoder_asks_for_a_look_where_a_value_begins() {
    let mut decoder = Decoder::new();
    assert_eq!(Request::Peek, decoder.request());
    assert_eq!(None, decoder.step(Some(Ok(b'l'))));
    assert_eq!(Request::Next, decoder.request());
    assert_eq!(None, decoder.step(Some(Ok(b'l'))));
    assert_eq!(Request::Peek, decoder.request());
    assert_eq!(None, decoder.step(Some(Ok(b'2'))));
    assert_eq!(Request::Next, decoder.request());
    assert_eq!(None, decoder.step(Some(Ok(b'2'))));
    assert_eq!(Request::Next, decoder.request());
    assert_eq!(None, decoder.step(Some(Ok(b':'))));
    assert_eq!(Request::Next, decoder.request());
    assert_eq!(None, decoder.step(Some(Ok(b'h'))));
    assert_eq!(Request::Next, decoder.request());
    assert_eq!(None, decoder.step(Some(Ok(b'i'))));
    assert_eq!(Request::Peek, decoder.request());
    assert_eq!(None, decoder.step(Some(Ok(b'e'))));
    assert_eq!(Request::Next, decoder.request());
    assert_eq!(
        Some(Ok(Bencode::List(vec![Bencode::ByteString(b"hi".to_vec())]))),
        decoder.step(Some(Ok(b'e')))
    );
    assert_eq!(Request::Peek, decoder.request());
    assert_eq!(Some(Ok(Bencode::Empty)), decoder.step(None));
}

#[test]
fn decoder_is_ready_for_the_next_value_after_an_outcome() {
    let pulls = bytes(b"i1eli2eexd1:ai3eei");
    let mut taken = 0;
    let mut outcomes = Vec::new();
    for _ in 0..6 {
        let (outcome, used) = drive(&pulls[taken..]);
        taken += used;
        outcomes.push(outcome);
    }
    let mut d = DictMap::new();
    d.insert(ByteString::from_str("a"), Bencode::Number(3));
    assert_eq!(
        vec![
            Ok(Bencode::Number(1)),
            Ok(Bencode::List(vec![Bencode::Number(2)])),
            Ok(Bencode::Empty),
            Ok(Bencode::Empty),
            Ok(Bencode::Empty),
            Ok(Bencode::Empty),
        ],
        outcomes
    );
    assert_eq!(8, taken);
    let (outcome, used) = drive(&pulls[9..]);
    assert_eq!(Ok(Bencode::Dict(d)), outcome);
    assert_eq!(8, used);
    let (outcome, used) = drive(&pulls[17..]);
    assert_eq!(Err(Error::end_of_stream()), outcome);
    assert_eq!(1, used);
}

#[test]
fn decoder_reads_no_byte_before_it_needs_it() {
    let data = b"d1:al1:bi-2eee";
    let mut source = data.iter().map(|byte| Ok::<u8, String>(*byte)).chain(
        std::iter::from_fn(|| -> Option<FileByte> { panic!("read past the value") }),
    ).peekable();
    let mut decoder = Decoder::new();
    let outcome = loop {
        let event = match decoder.request() {
            Request::Peek => source.peek().cloned(),
            Request::Next => source.next(),
        };
        if let Some(outcome) = decoder.step(event) {
            break outcome;
        }
    };
    let mut d = DictMap::new();
    d.insert(
        ByteString::from_str("a"),
        Bencode::List(vec![Bencode::ByteString(b"b".to_vec()), Bencode::Number(-2)]),
    );
    assert_eq!(Ok(Bencode::Dict(d)), outcome);
}

#[test]
fn decoder_fails_on_events_that_no_source_would_give() {
    let mut decoder = Decoder::new();
    assert_eq!(None, decoder.step(Some(Ok(b'i'))));
    assert_eq!(Some(Err(Error::end_of_stream())), decoder.step(None));
    assert_eq!(Request::Peek, decoder.request());
    assert_eq!(None, decoder.step(Some(Ok(b'l'))));
    assert_eq!(Some(Err(Error::new("gone".to_string()))), decoder.step(Some(Err("gone".to_string()))));
    assert_eq!(Request::Peek, decoder.request());
    assert_eq!(None, decoder.step(Some(Ok(b'3'))));
    assert_eq!(None, decoder.step(Some(Ok(b'1'))));
    assert_eq!(None, decoder.step(Some(Ok(b':'))));
    assert_eq!(Some(Ok(Bencode::ByteString(b"x".to_vec()))), decoder.step(Some(Ok(b'x'))));
}
