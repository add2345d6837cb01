//! The strict decoder: reads a value from a source that hands out one byte
//! at a time, may fail, and cannot be rewound. Whatever the lenient decoder
//! absorbs is an error here.
//!
//! What the decoder reads is said here, as a function of what the source
//! hands out. The decisions themselves are taken by the `Decoder` of the
//! module `machine`, one event at a time; `decode` drives it over a source
//! that is held in memory.

use crate::bencoding::bencode::Bencode;
use crate::bencoding::decimal::{fault_text, is_digit, parse_magnitude, parse_signed};
use crate::bencoding::decoder::lemma_entries_wf_insert;
use crate::bencoding::error::{end_of_stream_text, Error};
use crate::bencoding::machine::{
    event_view, initial, lemma_run_decodes, run, Decoder, Request,
};
use crate::bencoding::text::utf8_fault_text;
use crate::bencoding::value::{dict_insert, value_text, Entries, Value};
use vstd::prelude::*;
use vstd::utf8::valid_utf8;

verus! {

/// What one pull from a byte source gives.
pub enum Pull {
    /// The next byte.
    Byte(u8),
    /// The source failed, with this message.
    Failure(Seq<char>),
}

/// What the source hands out: a byte, or the message of its failure.
pub type FileByte = std::result::Result<u8, String>;

/// A byte source: what it will hand out, pull by pull, and how many pulls
/// were taken. It only moves forward.
pub struct ByteStream {
    items: Vec<FileByte>,
    position: usize,
}

/// The pulls that `s` stands for.
pub open spec fn pulls_of(s: Seq<FileByte>) -> Seq<Pull> {
    Seq::new(
        s.len(),
        |i: int|
            match s[i] {
                Ok(byte) => Pull::Byte(byte),
                Err(message) => Pull::Failure(message@),
            },
    )
}

/// A source that hands out `data` and then ends.
pub open spec fn byte_pulls(data: Seq<u8>) -> Seq<Pull> {
    Seq::new(data.len(), |i: int| Pull::Byte(data[i]))
}

/// What the source hands out at position `at`, if it has not ended there.
pub open spec fn pull_at(items: Seq<Pull>, at: int) -> Option<Pull> {
    if 0 <= at < items.len() {
        Some(items[at])
    } else {
        None
    }
}

impl ByteStream {
    /// All that the source hands out, from its first pull on.
    pub closed spec fn items(&self) -> Seq<Pull> {
        pulls_of(self.items@)
    }

    /// The number of pulls taken so far.
    pub closed spec fn position(&self) -> int {
        self.position as int
    }

    /// A source that hands out `items` in order and then ends.
    pub fn new(items: Vec<FileByte>) -> (stream: ByteStream)
        ensures
            stream.items() == pulls_of(items@),
            stream.position() == 0,
    {
        ByteStream { items, position: 0 }
    }

    /// A source that hands out the bytes of `data` and then ends.
    pub fn from_bytes(data: Vec<u8>) -> (stream: ByteStream)
        ensures
            stream.items() == byte_pulls(data@),
            stream.position() == 0,
    {
        let mut items: Vec<FileByte> = Vec::new();
        let mut i: usize = 0;
        while i < data.len()
            invariant
                0 <= i <= data.len(),
                items@.len() == i,
                forall|k: int| 0 <= k < i ==> items@[k] == Ok::<u8, String>(data@[k]),
            decreases data.len() - i,
        {
            items.push(Ok(data[i]));
            i = i + 1;
        }
        assert(pulls_of(items@) =~= byte_pulls(data@));
        ByteStream { items, position: 0 }
    }

    /// What the source hands out next, left in the source.
    pub fn peek(&self) -> (event: Option<FileByte>)
        ensures
            event_view(event) == pull_at(self.items(), self.position()),
    {
        if self.position >= self.items.len() {
            return None;
        }
        match &self.items[self.position] {
            Ok(byte) => Some(Ok(*byte)),
            Err(message) => Some(Err(message.clone())),
        }
    }

    /// What the source hands out next, taken out of the source. A source
    /// that has ended stays where it is.
    pub fn next(&mut self) -> (event: Option<FileByte>)
        ensures
            final(self).items() == old(self).items(),
            event_view(event) == pull_at(old(self).items(), old(self).position()),
            final(self).position() == if event is Some {
                old(self).position() + 1
            } else {
                old(self).position()
            },
    {
        let event = self.peek();
        if self.position < self.items.len() {
            self.position = self.position + 1;
        }
        event
    }
}

/// The message of the error for a key position that holds `found`, shown as
/// `shown`.
pub open spec fn key_not_byte_string_text(shown: Seq<char>) -> Seq<char> {
    "Dictionary key was `"@ + shown + "`, expected a ByteString"@
}

/// The source moved forward from `from` to `to` and not past its end.
pub open spec fn pulled(items: Seq<Pull>, from: int, to: int) -> bool {
    0 <= from < to <= items.len()
}

/// Pulling bytes from `at` on, behind the bytes `done`, up to and including
/// the first byte `stop`: the bytes before it, or the failure of the source,
/// or the end of the stream; and the position then.
pub open spec fn read_until(items: Seq<Pull>, at: int, stop: u8, done: Seq<u8>) -> (
    std::result::Result<Seq<u8>, Seq<char>>,
    int,
)
    decreases items.len() - at,
{
    match pull_at(items, at) {
        None => (Err(end_of_stream_text()), at),
        Some(Pull::Failure(message)) => (Err(message), at + 1),
        Some(Pull::Byte(byte)) => if byte == stop {
            (Ok(done), at + 1)
        } else {
            read_until(items, at + 1, stop, done.push(byte))
        },
    }
}

/// Pulling `count` bytes from `at` on, behind the bytes `done`: the bytes,
/// or the failure of the source, or the end of the stream; and the position
/// then.
pub open spec fn read_exactly(items: Seq<Pull>, at: int, count: nat, done: Seq<u8>) -> (
    std::result::Result<Seq<u8>, Seq<char>>,
    int,
)
    decreases count,
{
    if count == 0 {
        (Ok(done), at)
    } else {
        match pull_at(items, at) {
            None => (Err(end_of_stream_text()), at),
            Some(Pull::Failure(message)) => (Err(message), at + 1),
            Some(Pull::Byte(byte)) => read_exactly(
                items,
                at + 1,
                (count - 1) as nat,
                done.push(byte),
            ),
        }
    }
}

/// What the digits `text` of a length prefix denote: they must be UTF-8
/// text, then a numeral that a `usize` holds.
pub open spec fn length_of(text: Seq<u8>) -> std::result::Result<nat, Seq<char>> {
    if !valid_utf8(text) {
        Err(utf8_fault_text(text))
    } else {
        match parse_magnitude(text, usize::MAX as nat) {
            Ok(length) => Ok(length),
            Err(fault) => Err(fault_text(fault)),
        }
    }
}

/// What the numeral `text` of a number denotes: it must be UTF-8 text, then
/// a numeral that an `i64` holds.
pub open spec fn number_of(text: Seq<u8>) -> std::result::Result<i64, Seq<char>> {
    if !valid_utf8(text) {
        Err(utf8_fault_text(text))
    } else {
        match parse_signed(text) {
            Ok(n) => Ok(n),
            Err(fault) => Err(fault_text(fault)),
        }
    }
}

/// A byte string pulled from `at` on: the length up to the colon, then
/// exactly that many bytes.
pub open spec fn stream_str_at(items: Seq<Pull>, at: int) -> (
    std::result::Result<Value, Seq<char>>,
    int,
) {
    let (digits, after_colon) = read_until(items, at, 58, Seq::empty());
    match digits {
        Err(message) => (Err(message), after_colon),
        Ok(text) => match length_of(text) {
            Err(message) => (Err(message), after_colon),
            Ok(length) => {
                let (bytes, end) = read_exactly(items, after_colon, length, Seq::empty());
                match bytes {
                    Err(message) => (Err(message), end),
                    Ok(b) => (Ok(Value::ByteString(b)), end),
                }
            },
        },
    }
}

/// A number pulled from `at` on, where the `i` stands: the numeral up to
/// the `e`.
pub open spec fn stream_int_at(items: Seq<Pull>, at: int) -> (
    std::result::Result<Value, Seq<char>>,
    int,
) {
    let (numeral, end) = read_until(items, at + 1, 101, Seq::empty());
    match numeral {
        Err(message) => (Err(message), end),
        Ok(text) => match number_of(text) {
            Err(message) => (Err(message), end),
            Ok(n) => (Ok(Value::Integer(n)), end),
        },
    }
}

/// The value pulled from `at` on and the position behind it, or the error
/// and the position at which it came. At the end of the stream, and before a
/// byte that starts no value, the result is `Absent` and nothing is pulled.
pub open spec fn stream_decode_at(items: Seq<Pull>, at: int) -> (
    std::result::Result<Value, Seq<char>>,
    int,
)
    decreases items.len() - at, 0nat,
{
    match pull_at(items, at) {
        None => (Ok(Value::Absent), at),
        Some(Pull::Failure(message)) => (Err(message), at),
        Some(Pull::Byte(byte)) => if byte == 105 {
            stream_int_at(items, at)
        } else if byte == 108 {
            let (members, end) = stream_items_at(items, at + 1, Seq::empty());
            match members {
                Ok(l) => (Ok(Value::List(l)), end),
                Err(message) => (Err(message), end),
            }
        } else if byte == 100 {
            let (entries, end) = stream_entries_at(items, at + 1, Seq::empty());
            match entries {
                Ok(d) => (Ok(Value::Dictionary(d)), end),
                Err(message) => (Err(message), end),
            }
        } else if is_digit(byte) {
            stream_str_at(items, at)
        } else {
            (Ok(Value::Absent), at)
        },
    }
}

/// The members of a list pulled from `at` on, behind the members `done`.
/// The list ends behind its `e`. A stream that ends first, or a position at
/// which no value starts, is an error. (That a value which is pulled ends
/// behind where it began is shown by `lemma_stream_decode_at`; the
/// definition asks for it so that it is well founded.)
pub open spec fn stream_items_at(items: Seq<Pull>, at: int, done: Seq<Value>) -> (
    std::result::Result<Seq<Value>, Seq<char>>,
    int,
)
    decreases items.len() - at, 1nat,
{
    match pull_at(items, at) {
        None => (Err(end_of_stream_text()), at),
        Some(Pull::Failure(message)) => (Err(message), at),
        Some(Pull::Byte(byte)) => if byte == 101 {
            (Ok(done), at + 1)
        } else {
            let (member, next) = stream_decode_at(items, at);
            match member {
                Err(message) => (Err(message), next),
                Ok(v) => if v is Absent || !pulled(items, at, next) {
                    (Err(end_of_stream_text()), at)
                } else {
                    stream_items_at(items, next, done.push(v))
                },
            }
        },
    }
}

/// The entries of a dictionary pulled from `at` on, added to the entries
/// `done`. The dictionary ends behind its `e`. A key position that holds
/// anything but a byte string is an error that shows what was found; a
/// stream that ends first, or a value position at which no value starts, is
/// an error.
pub open spec fn stream_entries_at(items: Seq<Pull>, at: int, done: Entries) -> (
    std::result::Result<Entries, Seq<char>>,
    int,
)
    decreases items.len() - at, 1nat,
{
    match pull_at(items, at) {
        None => (Err(end_of_stream_text()), at),
        Some(Pull::Failure(message)) => (Err(message), at),
        Some(Pull::Byte(byte)) => if byte == 101 {
            (Ok(done), at + 1)
        } else {
            let (key, after_key) = stream_decode_at(items, at);
            match key {
                Err(message) => (Err(message), after_key),
                Ok(Value::ByteString(k)) => if !pulled(items, at, after_key) {
                    (Err(end_of_stream_text()), at)
                } else {
                    let (value, next) = stream_decode_at(items, after_key);
                    match value {
                        Err(message) => (Err(message), next),
                        Ok(v) => if v is Absent || !pulled(items, after_key, next) {
                            (Err(end_of_stream_text()), after_key)
                        } else {
                            stream_entries_at(items, next, dict_insert(done, k, v))
                        },
                    }
                },
                Ok(found) => (Err(key_not_byte_string_text(value_text(found))), after_key),
            }
        },
    }
}

pub proof fn lemma_read_until(items: Seq<Pull>, at: int, stop: u8, done: Seq<u8>)
    requires
        0 <= at <= items.len(),
    ensures
        at <= read_until(items, at, stop, done).1 <= items.len(),
        read_until(items, at, stop, done).0 is Ok ==> at < read_until(items, at, stop, done).1,
    decreases items.len() - at,
{
    match pull_at(items, at) {
        Some(Pull::Byte(byte)) => {
            if byte != stop {
                lemma_read_until(items, at + 1, stop, done.push(byte));
            }
        },
        _ => {},
    }
}

pub proof fn lemma_read_exactly(items: Seq<Pull>, at: int, count: nat, done: Seq<u8>)
    requires
        0 <= at <= items.len(),
    ensures
        at <= read_exactly(items, at, count, done).1 <= items.len(),
    decreases count,
{
    if count > 0 {
        match pull_at(items, at) {
            Some(Pull::Byte(byte)) => {
                lemma_read_exactly(items, at + 1, (count - 1) as nat, done.push(byte));
            },
            _ => {},
        }
    }
}

/// A value that is pulled is well formed and ends behind where it began;
/// `Absent` pulls nothing; and no position lies past the end of the stream.
pub proof fn lemma_stream_decode_at(items: Seq<Pull>, at: int)
    requires
        0 <= at <= items.len(),
    ensures
        at <= stream_decode_at(items, at).1 <= items.len(),
        stream_decode_at(items, at).0 matches Ok(v) ==> v.wf() && (v is Absent ==> stream_decode_at(
            items,
            at,
        ).1 == at) && (!(v is Absent) ==> at < stream_decode_at(items, at).1),
    decreases items.len() - at, 0nat,
{
    match pull_at(items, at) {
        Some(Pull::Byte(byte)) => {
            if byte == 105 {
                lemma_read_until(items, at + 1, 101, Seq::empty());
            } else if byte == 108 {
                lemma_stream_items_at(items, at + 1, Seq::empty());
            } else if byte == 100 {
                lemma_stream_entries_at(items, at + 1, Seq::empty());
            } else if is_digit(byte) {
                lemma_read_until(items, at, 58, Seq::empty());
                let (digits, after_colon) = read_until(items, at, 58, Seq::empty());
                match digits {
                    Ok(text) => match length_of(text) {
                        Ok(length) => {
                            lemma_read_exactly(items, after_colon, length, Seq::empty());
                        },
                        _ => {},
                    },
                    _ => {},
                }
            }
        },
        _ => {},
    }
}

pub proof fn lemma_stream_items_at(items: Seq<Pull>, at: int, done: Seq<Value>)
    requires
        0 <= at <= items.len(),
        Value::List(done).wf(),
    ensures
        at <= stream_items_at(items, at, done).1 <= items.len(),
        stream_items_at(items, at, done).0 matches Ok(l) ==> Value::List(l).wf() && at
            < stream_items_at(items, at, done).1,
    decreases items.len() - at, 1nat,
{
    match pull_at(items, at) {
        Some(Pull::Byte(byte)) => {
            if byte != 101 {
                lemma_stream_decode_at(items, at);
                let (member, next) = stream_decode_at(items, at);
                match member {
                    Ok(v) => {
                        if !(v is Absent) {
                            let more = done.push(v);
                            assert forall|i: int| 0 <= i < more.len() implies (
                            #[trigger] more[i]).wf() && !(more[i] is Absent) by {
                                if i < done.len() {
                                    assert(more[i] == done[i]);
                                }
                            }
                            lemma_stream_items_at(items, next, more);
                        }
                    },
                    _ => {},
                }
            }
        },
        _ => {},
    }
}

pub proof fn lemma_stream_entries_at(items: Seq<Pull>, at: int, done: Entries)
    requires
        0 <= at <= items.len(),
        Value::Dictionary(done).wf(),
    ensures
        at <= stream_entries_at(items, at, done).1 <= items.len(),
        stream_entries_at(items, at, done).0 matches Ok(d) ==> Value::Dictionary(d).wf() && at
            < stream_entries_at(items, at, done).1,
    decreases items.len() - at, 1nat,
{
    match pull_at(items, at) {
        Some(Pull::Byte(byte)) => {
            if byte != 101 {
                lemma_stream_decode_at(items, at);
                let (key, after_key) = stream_decode_at(items, at);
                match key {
                    Ok(Value::ByteString(k)) => {
                        lemma_stream_decode_at(items, after_key);
                        let (value, next) = stream_decode_at(items, after_key);
                        match value {
                            Ok(v) => {
                                if !(v is Absent) {
                                    lemma_entries_wf_insert(done, k, v);
                                    lemma_stream_entries_at(items, next, dict_insert(done, k, v));
                                }
                            },
                            _ => {},
                        }
                    },
                    _ => {},
                }
            }
        },
        _ => {},
    }
}

/// The members of a list end inside the stream, and behind where they
/// began if they end well.
pub proof fn lemma_stream_items_end(items: Seq<Pull>, at: int, done: Seq<Value>)
    requires
        0 <= at <= items.len(),
    ensures
        at <= stream_items_at(items, at, done).1 <= items.len(),
        stream_items_at(items, at, done).0 is Ok ==> at < stream_items_at(items, at, done).1,
    decreases items.len() - at,
{
    match pull_at(items, at) {
        Some(Pull::Byte(byte)) => {
            if byte != 101 {
                lemma_stream_decode_at(items, at);
                let (member, next) = stream_decode_at(items, at);
                match member {
                    Ok(v) => {
                        if !(v is Absent) {
                            lemma_stream_items_end(items, next, done.push(v));
                        }
                    },
                    _ => {},
                }
            }
        },
        _ => {},
    }
}

/// The entries of a dictionary end inside the stream, and behind where they
/// began if they end well.
pub proof fn lemma_stream_entries_end(items: Seq<Pull>, at: int, done: Entries)
    requires
        0 <= at <= items.len(),
    ensures
        at <= stream_entries_at(items, at, done).1 <= items.len(),
        stream_entries_at(items, at, done).0 is Ok ==> at < stream_entries_at(items, at, done).1,
    decreases items.len() - at,
{
    match pull_at(items, at) {
        Some(Pull::Byte(byte)) => {
            if byte != 101 {
                lemma_stream_decode_at(items, at);
                let (key, after_key) = stream_decode_at(items, at);
                match key {
                    Ok(Value::ByteString(k)) => {
                        lemma_stream_decode_at(items, after_key);
                        let (value, next) = stream_decode_at(items, after_key);
                        match value {
                            Ok(v) => {
                                if !(v is Absent) {
                                    lemma_stream_entries_end(items, next, dict_insert(done, k, v));
                                }
                            },
                            _ => {},
                        }
                    },
                    _ => {},
                }
            }
        },
        _ => {},
    }
}

/// The outcome `r` of a function and the position of the source behind it
/// are what `expected` says.
pub open spec fn outcome_is(
    r: std::result::Result<Bencode, Error>,
    position: int,
    expected: (std::result::Result<Value, Seq<char>>, int),
) -> bool {
    &&& position == expected.1
    &&& match r {
        Ok(value) => expected.0 == Ok::<Value, Seq<char>>(value@),
        Err(e) => expected.0 == Err::<Value, Seq<char>>(e@),
    }
}

/// Reads one value from `data`. Every failure of the source and every
/// departure from the format is an error; at the end of the stream, and
/// before a byte that starts no value, the result is `Empty`. The source is
/// asked for one event at a time, as the decoder needs it, and is left
/// behind the last byte that was taken.
pub fn decode(data: &mut ByteStream) -> (r: std::result::Result<Bencode, Error>)
    ensures
        final(data).items() == old(data).items(),
        outcome_is(
            r,
            final(data).position(),
            stream_decode_at(old(data).items(), old(data).position()),
        ),
        r matches Ok(value) ==> value@.wf(),
{
    let ghost items = data.items();
    let ghost start = data.position();
    proof {
        if start <= items.len() {
            lemma_stream_decode_at(items, start);
            lemma_run_decodes(items, start);
        }
    }
    let mut decoder = Decoder::new();
    loop
        invariant
            items == old(data).items(),
            start == old(data).position(),
            data.items() == items,
            0 <= start <= data.position(),
            stream_decode_at(items, start).0 matches Ok(v) ==> v.wf(),
            data.position() <= items.len() || (data.position() == start && decoder@ == initial()),
            run(decoder@, items, data.position()) == stream_decode_at(items, start),
        decreases
            items.len() - data.position(),
            (if decoder@.mode is Begin {
                1nat
            } else {
                0nat
            }),
    {
        let event = match decoder.request() {
            Request::Peek => data.peek(),
            Request::Next => data.next(),
        };
        match decoder.step(event) {
            Some(outcome) => {
                return outcome;
            },
            None => {},
        }
    }
}

/// What pulling once from the source at position `at` gives: the byte, or
/// the message of the error.
pub open spec fn next_at(items: Seq<Pull>, at: int) -> std::result::Result<u8, Seq<char>> {
    match pull_at(items, at) {
        None => Err(end_of_stream_text()),
        Some(Pull::Failure(message)) => Err(message),
        Some(Pull::Byte(byte)) => Ok(byte),
    }
}

/// Pulls the next byte. A source that has ended stays where it is; a
/// failure of the source is pulled and returned as the error.
pub fn next(data: &mut ByteStream) -> (r: std::result::Result<u8, Error>)
    ensures
        final(data).items() == old(data).items(),
        final(data).position() == if pull_at(old(data).items(), old(data).position()) is Some {
            old(data).position() + 1
        } else {
            old(data).position()
        },
        match r {
            Ok(byte) => next_at(old(data).items(), old(data).position()) == Ok::<u8, Seq<char>>(
                byte,
            ),
            Err(e) => next_at(old(data).items(), old(data).position()) == Err::<u8, Seq<char>>(
                e@,
            ),
        },
{
    match data.next() {
        Some(Ok(v)) => Ok(v),
        Some(Err(message)) => Err(Error::new(message)),
        None => Err(Error::end_of_stream()),
    }
}

/// Looks at the next byte and leaves it in the source.
pub fn peek(data: &ByteStream) -> (r: std::result::Result<u8, Error>)
    ensures
        match r {
            Ok(byte) => next_at(data.items(), data.position()) == Ok::<u8, Seq<char>>(byte),
            Err(e) => next_at(data.items(), data.position()) == Err::<u8, Seq<char>>(e@),
        },
{
    match data.peek() {
        Some(Ok(v)) => Ok(v),
        Some(Err(message)) => Err(Error::new(message)),
        None => Err(Error::end_of_stream()),
    }
}

} // verus!
