//! The strict decoder as a machine that is fed one event at a time. It asks
//! for its next event, a look at the next byte or the next byte itself, and
//! whoever drives it performs the read and hands the result over. So the
//! bytes can come from any source, and none is read before the decoder
//! needs it.

use crate::bencoding::bencode::{list_view, Bencode, DictMap, ListVec};
use crate::bencoding::byte_string::ByteString;
use crate::bencoding::decimal::{is_digit, read_magnitude, read_signed};
use crate::bencoding::error::{end_of_stream_text, Error};
use crate::bencoding::stream_decoder::{
    key_not_byte_string_text, lemma_read_until, lemma_stream_decode_at,
    lemma_stream_entries_end, lemma_stream_items_end, length_of, number_of, pull_at, pulled,
    read_exactly, read_until, stream_decode_at, stream_entries_at, stream_items_at, FileByte,
    Pull,
};
use crate::bencoding::text::text_from_utf8;
use crate::bencoding::value::{dict_insert, value_text, Entries, Value};
use vstd::prelude::*;

verus! {

/// A list or dictionary that has begun and not ended yet.
pub enum Frame {
    /// A list, with the members read so far.
    List(ListVec),
    /// A dictionary that expects a key or its end, with the entries read so
    /// far.
    Key(DictMap),
    /// A dictionary that expects the value of the key that was read last.
    Entry(DictMap, ByteString),
}

/// What the decoder is in the middle of.
pub enum Mode {
    /// A value is to begin; the decoder asks for a look at the next byte.
    Begin,
    /// The `i` of a number was seen and is to be taken.
    OpenInt,
    /// The `l` of a list was seen and is to be taken.
    OpenList,
    /// The `d` of a dictionary was seen and is to be taken.
    OpenDict,
    /// The `e` of the innermost list or dictionary was seen and is to be
    /// taken.
    Close,
    /// Inside the numeral of a number, with the bytes read so far.
    Numeral(Vec<u8>),
    /// Inside the length of a byte string, with the bytes read so far.
    Length(Vec<u8>),
    /// Inside a byte string, with the number of bytes that are still to
    /// come and the bytes read so far.
    Body(usize, Vec<u8>),
}

/// What a `Frame` holds.
pub enum FrameView {
    List(Seq<Value>),
    Key(Entries),
    Entry(Entries, Seq<u8>),
}

/// What a `Mode` holds.
pub enum ModeView {
    Begin,
    OpenInt,
    OpenList,
    OpenDict,
    Close,
    Numeral(Seq<u8>),
    Length(Seq<u8>),
    Body(nat, Seq<u8>),
}

/// The state of a decoder: the lists and dictionaries that are open, the
/// innermost last, and what the decoder is in the middle of.
pub struct DecoderView {
    pub stack: Seq<FrameView>,
    pub mode: ModeView,
}

impl View for Frame {
    type V = FrameView;

    open spec fn view(&self) -> FrameView {
        match self {
            Frame::List(members) => FrameView::List(list_view(members@)),
            Frame::Key(entries) => FrameView::Key(entries@),
            Frame::Entry(entries, key) => FrameView::Entry(entries@, key@),
        }
    }
}

impl View for Mode {
    type V = ModeView;

    open spec fn view(&self) -> ModeView {
        match self {
            Mode::Begin => ModeView::Begin,
            Mode::OpenInt => ModeView::OpenInt,
            Mode::OpenList => ModeView::OpenList,
            Mode::OpenDict => ModeView::OpenDict,
            Mode::Close => ModeView::Close,
            Mode::Numeral(bytes) => ModeView::Numeral(bytes@),
            Mode::Length(bytes) => ModeView::Length(bytes@),
            Mode::Body(left, bytes) => ModeView::Body(*left as nat, bytes@),
        }
    }
}

/// What the frames of `s` hold.
pub open spec fn stack_view(s: Seq<Frame>) -> Seq<FrameView> {
    Seq::new(s.len(), |i: int| s[i]@)
}

/// What an event holds: the end of the source, a byte, or the message of a
/// failure.
pub open spec fn event_view(event: Option<FileByte>) -> Option<Pull> {
    match event {
        None => None,
        Some(Ok(byte)) => Some(Pull::Byte(byte)),
        Some(Err(message)) => Some(Pull::Failure(message@)),
    }
}

/// What an outcome holds: the value, or the message of the error.
pub open spec fn outcome_view(outcome: Result<Bencode, Error>) -> Result<Value, Seq<char>> {
    match outcome {
        Ok(value) => Ok(value@),
        Err(e) => Err(e@),
    }
}

/// What comes of a step: the state of the decoder after it, and the outcome
/// if the step was the last.
pub type Stepped = (DecoderView, Option<Result<Value, Seq<char>>>);

/// The state of a decoder before its first event: nothing open, a value to
/// begin.
pub open spec fn initial() -> DecoderView {
    DecoderView { stack: Seq::empty(), mode: ModeView::Begin }
}

/// The decoder ends with `outcome` and is ready for the next value.
pub open spec fn finished(outcome: Result<Value, Seq<char>>) -> Stepped {
    (initial(), Some(outcome))
}

/// The decoder goes on in `mode`.
pub open spec fn goes_on(stack: Seq<FrameView>, mode: ModeView) -> Stepped {
    (DecoderView { stack, mode }, None)
}

/// The value `v` is complete. Outside every list and dictionary it is the
/// outcome. In a list it is the next member. Where a dictionary expects a
/// key it is the key, and must be a byte string. Where a dictionary expects
/// a value it is put under the key.
pub open spec fn deliver(stack: Seq<FrameView>, v: Value) -> Stepped {
    if stack.len() == 0 {
        finished(Ok(v))
    } else {
        let below = stack.drop_last();
        match stack.last() {
            FrameView::List(done) => goes_on(
                below.push(FrameView::List(done.push(v))),
                ModeView::Begin,
            ),
            FrameView::Key(d) => match v {
                Value::ByteString(k) => goes_on(
                    below.push(FrameView::Entry(d, k)),
                    ModeView::Begin,
                ),
                _ => finished(Err(key_not_byte_string_text(value_text(v)))),
            },
            FrameView::Entry(d, k) => goes_on(
                below.push(FrameView::Key(dict_insert(d, k, v))),
                ModeView::Begin,
            ),
        }
    }
}

/// No value begins where one was expected: at the end of the source if
/// `ended`, else before a byte that starts none. Outside every list and
/// dictionary the outcome is `Absent`; inside, it is an error.
pub open spec fn nothing_begins(stack: Seq<FrameView>, ended: bool) -> Stepped {
    if stack.len() == 0 {
        finished(Ok(Value::Absent))
    } else if !ended && stack.last() is Key {
        finished(Err(key_not_byte_string_text(value_text(Value::Absent))))
    } else {
        finished(Err(end_of_stream_text()))
    }
}

/// The step that the decoder takes in state `s` on `event`.
pub open spec fn step_spec(s: DecoderView, event: Option<Pull>) -> Stepped {
    match event {
        None => match s.mode {
            ModeView::Begin => nothing_begins(s.stack, true),
            _ => finished(Err(end_of_stream_text())),
        },
        Some(Pull::Failure(message)) => finished(Err(message)),
        Some(Pull::Byte(byte)) => match s.mode {
            ModeView::Begin => if byte == 105 {
                goes_on(s.stack, ModeView::OpenInt)
            } else if byte == 108 {
                goes_on(s.stack, ModeView::OpenList)
            } else if byte == 100 {
                goes_on(s.stack, ModeView::OpenDict)
            } else if is_digit(byte) {
                goes_on(s.stack, ModeView::Length(Seq::empty()))
            } else if byte == 101 && s.stack.len() > 0 && !(s.stack.last() is Entry) {
                goes_on(s.stack, ModeView::Close)
            } else {
                nothing_begins(s.stack, false)
            },
            ModeView::OpenInt => goes_on(s.stack, ModeView::Numeral(Seq::empty())),
            ModeView::OpenList => goes_on(
                s.stack.push(FrameView::List(Seq::empty())),
                ModeView::Begin,
            ),
            ModeView::OpenDict => goes_on(
                s.stack.push(FrameView::Key(Seq::empty())),
                ModeView::Begin,
            ),
            ModeView::Close => if s.stack.len() == 0 {
                finished(Err(end_of_stream_text()))
            } else {
                match s.stack.last() {
                    FrameView::List(done) => deliver(s.stack.drop_last(), Value::List(done)),
                    FrameView::Key(d) => deliver(s.stack.drop_last(), Value::Dictionary(d)),
                    FrameView::Entry(_, _) => finished(Err(end_of_stream_text())),
                }
            },
            ModeView::Numeral(text) => if byte == 101 {
                match number_of(text) {
                    Ok(n) => deliver(s.stack, Value::Integer(n)),
                    Err(message) => finished(Err(message)),
                }
            } else {
                goes_on(s.stack, ModeView::Numeral(text.push(byte)))
            },
            ModeView::Length(text) => if byte == 58 {
                match length_of(text) {
                    Ok(length) => if length == 0 {
                        deliver(s.stack, Value::ByteString(Seq::empty()))
                    } else {
                        goes_on(s.stack, ModeView::Body(length, Seq::empty()))
                    },
                    Err(message) => finished(Err(message)),
                }
            } else {
                goes_on(s.stack, ModeView::Length(text.push(byte)))
            },
            ModeView::Body(left, bytes) => if left <= 1 {
                deliver(s.stack, Value::ByteString(bytes.push(byte)))
            } else {
                goes_on(s.stack, ModeView::Body((left - 1) as nat, bytes.push(byte)))
            },
        },
    }
}

/// What the decoder asks for next.
#[derive(Debug, PartialEq, Eq, Clone, Copy, Structural)]
pub enum Request {
    /// A look at the next byte, which stays in the source.
    Peek,
    /// The next byte, taken out of the source.
    Next,
}

/// The strict decoder, fed one event at a time.
pub struct Decoder {
    stack: Vec<Frame>,
    mode: Mode,
}

impl View for Decoder {
    type V = DecoderView;

    closed spec fn view(&self) -> DecoderView {
        DecoderView { stack: stack_view(self.stack@), mode: self.mode@ }
    }
}

impl Decoder {
    /// A decoder before its first event.
    pub fn new() -> (decoder: Decoder)
        ensures
            decoder@ == initial(),
    {
        let decoder = Decoder { stack: Vec::new(), mode: Mode::Begin };
        assert(decoder@.stack =~= Seq::<FrameView>::empty());
        decoder
    }

    /// What the decoder asks for next: a look at the next byte where a
    /// value is to begin, else the next byte itself.
    pub fn request(&self) -> (request: Request)
        ensures
            request is Peek <==> self@.mode is Begin,
    {
        match self.mode {
            Mode::Begin => Request::Peek,
            _ => Request::Next,
        }
    }

    /// Ends with `outcome` and makes the decoder ready for the next value.
    fn finish(&mut self, outcome: Result<Bencode, Error>) -> (r: Option<Result<Bencode, Error>>)
        ensures
            final(self)@ == initial(),
            r == Some(outcome),
    {
        self.stack = Vec::new();
        self.mode = Mode::Begin;
        assert(self@.stack =~= Seq::<FrameView>::empty());
        Some(outcome)
    }

    /// Takes the complete value `value` into the innermost open list or
    /// dictionary, or ends with it where none is open.
    fn deliver(&mut self, value: Bencode) -> (r: Option<Result<Bencode, Error>>)
        requires
            old(self)@.mode is Begin,
        ensures
            match r {
                None => deliver(old(self)@.stack, value@) == (final(self)@, None::<
                    Result<Value, Seq<char>>,
                >),
                Some(outcome) => final(self)@ == initial() && deliver(old(self)@.stack, value@)
                    == finished(outcome_view(outcome)),
            },
    {
        let ghost stack = self@.stack;
        match self.stack.pop() {
            None => self.finish(Ok(value)),
            Some(Frame::List(mut members)) => {
                proof {
                    assert(list_view(members@.push(value)) =~= list_view(members@).push(value@));
                    assert(stack.last() == FrameView::List(list_view(members@)));
                }
                members.push(value);
                self.stack.push(Frame::List(members));
                proof {
                    assert(self@.stack =~= stack.drop_last().push(
                        FrameView::List(stack.last()->List_0.push(value@)),
                    ));
                }
                None
            },
            Some(Frame::Key(entries)) => {
                proof {
                    assert(stack.last() == FrameView::Key(entries@));
                }
                match value {
                    Bencode::ByteString(k) => {
                        self.stack.push(Frame::Entry(entries, ByteString::from_vec(k)));
                        proof {
                            assert(self@.stack =~= stack.drop_last().push(
                                FrameView::Entry(entries@, k@),
                            ));
                        }
                        None
                    },
                    _ => {
                        let mut message = String::from_str("Dictionary key was `");
                        let shown = value.to_string();
                        message.append(shown.as_str());
                        message.append("`, expected a ByteString");
                        self.finish(Err(Error::new(message)))
                    },
                }
            },
            Some(Frame::Entry(mut entries, key)) => {
                proof {
                    assert(stack.last() == FrameView::Entry(entries@, key@));
                }
                let ghost before = entries@;
                entries.insert(key, value);
                self.stack.push(Frame::Key(entries));
                proof {
                    assert(self@.stack =~= stack.drop_last().push(
                        FrameView::Key(dict_insert(before, key@, value@)),
                    ));
                }
                None
            },
        }
    }

    /// Ends where no value begins though one was expected.
    fn nothing_begins(&mut self, ended: bool) -> (r: Option<Result<Bencode, Error>>)
        ensures
            final(self)@ == initial(),
            r matches Some(outcome) && nothing_begins(old(self)@.stack, ended) == finished(
                outcome_view(outcome),
            ),
    {
        if self.stack.len() == 0 {
            return self.finish(Ok(Bencode::Empty));
        }
        let in_key = match &self.stack[self.stack.len() - 1] {
            Frame::Key(_) => true,
            _ => false,
        };
        if !ended && in_key {
            let mut message = String::from_str("Dictionary key was `");
            let shown = Bencode::Empty.to_string();
            message.append(shown.as_str());
            message.append("`, expected a ByteString");
            self.finish(Err(Error::new(message)))
        } else {
            self.finish(Err(Error::end_of_stream()))
        }
    }

    /// Takes the event that was asked for. The result is the outcome if the
    /// value is complete or an error came; the decoder is then ready for the
    /// next value. Without a result the decoder asks for its next event.
    pub fn step(&mut self, event: Option<FileByte>) -> (r: Option<Result<Bencode, Error>>)
        ensures
            match r {
                None => step_spec(old(self)@, event_view(event)) == (final(self)@, None::<
                    Result<Value, Seq<char>>,
                >),
                Some(outcome) => final(self)@ == initial() && step_spec(
                    old(self)@,
                    event_view(event),
                ) == finished(outcome_view(outcome)),
            },
    {
        let mut mode = Mode::Begin;
        core::mem::swap(&mut mode, &mut self.mode);
        let byte: u8 = match event {
            None => {
                return match mode {
                    Mode::Begin => self.nothing_begins(true),
                    _ => self.finish(Err(Error::end_of_stream())),
                };
            },
            Some(Err(message)) => {
                return self.finish(Err(Error::new(message)));
            },
            Some(Ok(byte)) => byte,
        };
        match mode {
            Mode::Begin => {
                if byte == 105 {
                    self.mode = Mode::OpenInt;
                    None
                } else if byte == 108 {
                    self.mode = Mode::OpenList;
                    None
                } else if byte == 100 {
                    self.mode = Mode::OpenDict;
                    None
                } else if byte >= 48 && byte <= 57 {
                    self.mode = Mode::Length(Vec::new());
                    None
                } else if byte == 101 && self.closes() {
                    self.mode = Mode::Close;
                    None
                } else {
                    self.nothing_begins(false)
                }
            },
            Mode::OpenInt => {
                self.mode = Mode::Numeral(Vec::new());
                None
            },
            Mode::OpenList => {
                let ghost stack = self@.stack;
                self.stack.push(Frame::List(ListVec::new()));
                proof {
                    assert(list_view(Seq::<Bencode>::empty()) =~= Seq::<Value>::empty());
                    assert(self@.stack =~= stack.push(FrameView::List(Seq::empty())));
                }
                None
            },
            Mode::OpenDict => {
                let ghost stack = self@.stack;
                self.stack.push(Frame::Key(DictMap::new()));
                proof {
                    assert(self@.stack =~= stack.push(FrameView::Key(Seq::empty())));
                }
                None
            },
            Mode::Close => {
                let ghost stack = self@.stack;
                match self.stack.pop() {
                    Some(Frame::List(members)) => {
                        proof {
                            assert(stack.last() == FrameView::List(list_view(members@)));
                            assert(self@.stack =~= stack.drop_last());
                        }
                        self.deliver(Bencode::List(members))
                    },
                    Some(Frame::Key(entries)) => {
                        proof {
                            assert(stack.last() == FrameView::Key(entries@));
                            assert(self@.stack =~= stack.drop_last());
                        }
                        self.deliver(Bencode::Dict(entries))
                    },
                    Some(Frame::Entry(entries, key)) => {
                        proof {
                            assert(stack.last() == FrameView::Entry(entries@, key@));
                        }
                        self.finish(Err(Error::end_of_stream()))
                    },
                    None => self.finish(Err(Error::end_of_stream())),
                }
            },
            Mode::Numeral(mut text) => {
                if byte == 101 {
                    match text_from_utf8(text.as_slice()) {
                        Ok(_) => {},
                        Err(message) => return self.finish(Err(Error::new(message))),
                    }
                    match read_signed(text.as_slice()) {
                        Ok(number) => self.deliver(Bencode::Number(number)),
                        Err(fault) => self.finish(Err(Error::from_fault(fault))),
                    }
                } else {
                    text.push(byte);
                    self.mode = Mode::Numeral(text);
                    None
                }
            },
            Mode::Length(mut text) => {
                if byte == 58 {
                    match text_from_utf8(text.as_slice()) {
                        Ok(_) => {},
                        Err(message) => return self.finish(Err(Error::new(message))),
                    }
                    match read_magnitude(text.as_slice(), usize::MAX as u64) {
                        Ok(length) => {
                            if length == 0 {
                                self.deliver(Bencode::ByteString(Vec::new()))
                            } else {
                                self.mode = Mode::Body(length as usize, Vec::new());
                                None
                            }
                        },
                        Err(fault) => self.finish(Err(Error::from_fault(fault))),
                    }
                } else {
                    text.push(byte);
                    self.mode = Mode::Length(text);
                    None
                }
            },
            Mode::Body(left, mut bytes) => {
                bytes.push(byte);
                if left <= 1 {
                    self.deliver(Bencode::ByteString(bytes))
                } else {
                    self.mode = Mode::Body(left - 1, bytes);
                    None
                }
            },
        }
    }

    /// Whether an `e` closes something here: a list, or a dictionary that
    /// expects a key.
    fn closes(&self) -> (b: bool)
        ensures
            b == (self@.stack.len() > 0 && !(self@.stack.last() is Entry)),
    {
        if self.stack.len() == 0 {
            return false;
        }
        match &self.stack[self.stack.len() - 1] {
            Frame::Entry(_, _) => false,
            _ => true,
        }
    }
}

/// What a run of the decoder comes to: the outcome, and the position of the
/// source then.
pub type Ended = (Result<Value, Seq<char>>, int);

/// The run of the decoder from state `s` over the source `items` from
/// position `at` on: each event is what the source holds at the position, a
/// look leaves the position and a taken byte or failure moves it on by one.
pub open spec fn run(s: DecoderView, items: Seq<Pull>, at: int) -> Ended
    decreases items.len() - at, (if s.mode is Begin {
        1nat
    } else {
        0nat
    }),
{
    let event = pull_at(items, at);
    let (next, outcome) = step_spec(s, event);
    if s.mode is Begin {
        match outcome {
            Some(r) => (r, at),
            None => if next.mode is Begin {
                (Err(end_of_stream_text()), at)
            } else {
                run(next, items, at)
            },
        }
    } else {
        match outcome {
            Some(r) => (
                r,
                if event is Some {
                    at + 1
                } else {
                    at
                },
            ),
            None => if event is Some {
                run(next, items, at + 1)
            } else {
                (Err(end_of_stream_text()), at)
            },
        }
    }
}

/// What is to come when a value is to begin at position `at` with the lists
/// and dictionaries of `stack` open: the rest of the innermost of them is
/// read as the strict decoder reads it, and what it gives is handed on to
/// the next.
pub open spec fn expect(stack: Seq<FrameView>, items: Seq<Pull>, at: int) -> Ended
    decreases items.len() - at, 0nat,
{
    if stack.len() == 0 {
        stream_decode_at(items, at)
    } else {
        let below = stack.drop_last();
        match stack.last() {
            FrameView::List(done) => {
                let (members, end) = stream_items_at(items, at, done);
                match members {
                    Err(message) => (Err(message), end),
                    Ok(l) => if pulled(items, at, end) {
                        resume(below, Value::List(l), items, end)
                    } else {
                        (Err(end_of_stream_text()), at)
                    },
                }
            },
            FrameView::Key(done) => {
                let (entries, end) = stream_entries_at(items, at, done);
                match entries {
                    Err(message) => (Err(message), end),
                    Ok(d) => if pulled(items, at, end) {
                        resume(below, Value::Dictionary(d), items, end)
                    } else {
                        (Err(end_of_stream_text()), at)
                    },
                }
            },
            FrameView::Entry(d, k) => {
                let (value, next) = stream_decode_at(items, at);
                match value {
                    Err(message) => (Err(message), next),
                    Ok(v) => if v is Absent || !pulled(items, at, next) {
                        (Err(end_of_stream_text()), at)
                    } else {
                        expect(below.push(FrameView::Key(dict_insert(d, k, v))), items, next)
                    },
                }
            },
        }
    }
}

/// What is to come when the value `v` is complete at position `at` with the
/// lists and dictionaries of `stack` open.
pub open spec fn resume(stack: Seq<FrameView>, v: Value, items: Seq<Pull>, at: int) -> Ended
    decreases items.len() - at, 1nat,
{
    let (next, outcome) = deliver(stack, v);
    match outcome {
        Some(r) => (r, at),
        None => expect(next.stack, items, at),
    }
}

/// What is to come when a value was read with the result `read`: its error,
/// or what follows the value.
pub open spec fn after_value(stack: Seq<FrameView>, items: Seq<Pull>, read: Ended) -> Ended {
    match read.0 {
        Err(message) => (Err(message), read.1),
        Ok(v) => resume(stack, v, items, read.1),
    }
}

/// What is to come when the numeral of a number was read with the result
/// `read`.
pub open spec fn after_numeral(
    stack: Seq<FrameView>,
    items: Seq<Pull>,
    read: (Result<Seq<u8>, Seq<char>>, int),
) -> Ended {
    match read.0 {
        Err(message) => (Err(message), read.1),
        Ok(text) => match number_of(text) {
            Err(message) => (Err(message), read.1),
            Ok(n) => resume(stack, Value::Integer(n), items, read.1),
        },
    }
}

/// What is to come when the bytes of a byte string were read with the
/// result `read`.
pub open spec fn after_body(
    stack: Seq<FrameView>,
    items: Seq<Pull>,
    read: (Result<Seq<u8>, Seq<char>>, int),
) -> Ended {
    match read.0 {
        Err(message) => (Err(message), read.1),
        Ok(bytes) => resume(stack, Value::ByteString(bytes), items, read.1),
    }
}

/// What is to come when the length of a byte string was read with the
/// result `read`.
pub open spec fn after_length(
    stack: Seq<FrameView>,
    items: Seq<Pull>,
    read: (Result<Seq<u8>, Seq<char>>, int),
) -> Ended {
    match read.0 {
        Err(message) => (Err(message), read.1),
        Ok(text) => match length_of(text) {
            Err(message) => (Err(message), read.1),
            Ok(length) => after_body(
                stack,
                items,
                read_exactly(items, read.1, length, Seq::empty()),
            ),
        },
    }
}

/// The byte `byte` begins a value.
pub open spec fn begins_value(byte: u8) -> bool {
    byte == 105 || byte == 108 || byte == 100 || is_digit(byte)
}

/// Where a value begins, what is to come is the value and then what
/// follows it.
pub proof fn lemma_expect_value(stack: Seq<FrameView>, items: Seq<Pull>, at: int)
    requires
        0 <= at < items.len(),
        items[at] matches Pull::Byte(byte) && begins_value(byte),
    ensures
        expect(stack, items, at) == after_value(stack, items, stream_decode_at(items, at)),
        stream_decode_at(items, at).0 matches Ok(v) ==> !(v is Absent),
{
    lemma_stream_decode_at(items, at);
    let (read, end) = stream_decode_at(items, at);
    reveal_with_fuel(expect, 3);
    if stack.len() > 0 {
        let below = stack.drop_last();
        match (stack.last(), read) {
            (FrameView::List(done), Ok(v)) => {
                let more = below.push(FrameView::List(done.push(v)));
                assert(more.drop_last() =~= below);
                lemma_stream_items_end(items, end, done.push(v));
            },
            (FrameView::Key(done), Ok(Value::ByteString(k))) => {
                let more = below.push(FrameView::Entry(done, k));
                assert(more.drop_last() =~= below);
                lemma_stream_decode_at(items, end);
                let (value, next) = stream_decode_at(items, end);
                if value is Ok && !(value->Ok_0 is Absent) {
                    let inserted = dict_insert(done, k, value->Ok_0);
                    let last = below.push(FrameView::Key(inserted));
                    assert(last.drop_last() =~= below);
                    lemma_stream_entries_end(items, next, inserted);
                    let (entries, closed) = stream_entries_at(items, next, inserted);
                    let rest: Ended = match entries {
                        Err(message) => (Err(message), closed),
                        Ok(d) => resume(below, Value::Dictionary(d), items, closed),
                    };
                    assert(expect(last, items, next) == rest);
                    assert(expect(more, items, end) == rest);
                    assert(expect(stack, items, at) == rest);
                }
            },
            _ => {},
        }
    }
}

/// The run of the decoder inside a numeral comes to what the strict decoder
/// reads.
pub proof fn lemma_run_numeral(stack: Seq<FrameView>, text: Seq<u8>, items: Seq<Pull>, at: int)
    requires
        0 <= at <= items.len(),
    ensures
        run(DecoderView { stack, mode: ModeView::Numeral(text) }, items, at) == after_numeral(
            stack,
            items,
            read_until(items, at, 101, text),
        ),
    decreases items.len() - at, 1nat,
{
    match pull_at(items, at) {
        Some(Pull::Byte(byte)) => {
            if byte == 101 {
                match number_of(text) {
                    Ok(n) => {
                        lemma_resume_runs(stack, Value::Integer(n), items, at + 1);
                    },
                    Err(_) => {},
                }
            } else {
                lemma_run_numeral(stack, text.push(byte), items, at + 1);
            }
        },
        _ => {},
    }
}

/// The run of the decoder inside a byte string comes to what the strict
/// decoder reads.
pub proof fn lemma_run_body(
    stack: Seq<FrameView>,
    left: nat,
    bytes: Seq<u8>,
    items: Seq<Pull>,
    at: int,
)
    requires
        0 <= at <= items.len(),
        left >= 1,
    ensures
        run(DecoderView { stack, mode: ModeView::Body(left, bytes) }, items, at) == after_body(
            stack,
            items,
            read_exactly(items, at, left, bytes),
        ),
    decreases items.len() - at, 1nat,
{
    match pull_at(items, at) {
        Some(Pull::Byte(byte)) => {
            if left <= 1 {
                assert(read_exactly(items, at + 1, 0, bytes.push(byte)) == (
                    Ok::<Seq<u8>, Seq<char>>(bytes.push(byte)),
                    at + 1,
                ));
                lemma_resume_runs(stack, Value::ByteString(bytes.push(byte)), items, at + 1);
            } else {
                lemma_run_body(stack, (left - 1) as nat, bytes.push(byte), items, at + 1);
            }
        },
        _ => {},
    }
}

/// The run of the decoder inside the length of a byte string comes to what
/// the strict decoder reads.
pub proof fn lemma_run_length(stack: Seq<FrameView>, text: Seq<u8>, items: Seq<Pull>, at: int)
    requires
        0 <= at <= items.len(),
    ensures
        run(DecoderView { stack, mode: ModeView::Length(text) }, items, at) == after_length(
            stack,
            items,
            read_until(items, at, 58, text),
        ),
    decreases items.len() - at, 1nat,
{
    match pull_at(items, at) {
        Some(Pull::Byte(byte)) => {
            if byte == 58 {
                match length_of(text) {
                    Ok(length) => {
                        if length == 0 {
                            lemma_resume_runs(
                                stack,
                                Value::ByteString(Seq::empty()),
                                items,
                                at + 1,
                            );
                        } else {
                            lemma_run_body(stack, length, Seq::empty(), items, at + 1);
                        }
                    },
                    Err(_) => {},
                }
            } else {
                lemma_run_length(stack, text.push(byte), items, at + 1);
            }
        },
        _ => {},
    }
}

/// When a value is complete, the run of the decoder comes to what is to
/// come.
pub proof fn lemma_resume_runs(stack: Seq<FrameView>, v: Value, items: Seq<Pull>, at: int)
    requires
        0 <= at <= items.len(),
    ensures
        deliver(stack, v).1 is None ==> run(deliver(stack, v).0, items, at) == resume(
            stack,
            v,
            items,
            at,
        ),
    decreases items.len() - at, 3nat,
{
    let (next, outcome) = deliver(stack, v);
    if outcome is None {
        lemma_run_begin(next.stack, items, at);
    }
}

/// Where a value is to begin, the run of the decoder comes to what is to
/// come.
pub proof fn lemma_run_begin(stack: Seq<FrameView>, items: Seq<Pull>, at: int)
    requires
        0 <= at <= items.len(),
    ensures
        run(DecoderView { stack, mode: ModeView::Begin }, items, at) == expect(stack, items, at),
    decreases items.len() - at, 2nat,
{
    reveal_with_fuel(run, 3);
    let s = DecoderView { stack, mode: ModeView::Begin };
    match pull_at(items, at) {
        Some(Pull::Byte(byte)) => {
            if begins_value(byte) {
                lemma_expect_value(stack, items, at);
                if byte == 105 {
                    lemma_run_numeral(stack, Seq::empty(), items, at + 1);
                } else if byte == 108 {
                    let more = stack.push(FrameView::List(Seq::empty()));
                    assert(more.drop_last() =~= stack);
                    lemma_run_begin(more, items, at + 1);
                    lemma_stream_items_end(items, at + 1, Seq::empty());
                } else if byte == 100 {
                    let more = stack.push(FrameView::Key(Seq::empty()));
                    assert(more.drop_last() =~= stack);
                    lemma_run_begin(more, items, at + 1);
                    lemma_stream_entries_end(items, at + 1, Seq::empty());
                } else {
                    lemma_run_length(stack, Seq::empty(), items, at);
                    lemma_read_until(items, at, 58, Seq::empty());
                }
            } else if byte == 101 && stack.len() > 0 && !(stack.last() is Entry) {
                let below = stack.drop_last();
                let closing = DecoderView { stack, mode: ModeView::Close };
                assert(run(s, items, at) == run(closing, items, at));
                match stack.last() {
                    FrameView::List(done) => {
                        lemma_resume_runs(below, Value::List(done), items, at + 1);
                        assert(expect(stack, items, at) == resume(
                            below,
                            Value::List(done),
                            items,
                            at + 1,
                        ));
                    },
                    FrameView::Key(d) => {
                        lemma_resume_runs(below, Value::Dictionary(d), items, at + 1);
                        assert(expect(stack, items, at) == resume(
                            below,
                            Value::Dictionary(d),
                            items,
                            at + 1,
                        ));
                    },
                    FrameView::Entry(_, _) => {},
                }
            }
        },
        _ => {},
    }
}

/// The decoder, run from its initial state over a source, comes to what the
/// strict decoder reads from the source, and leaves the source where the
/// strict decoder leaves it.
pub proof fn lemma_run_decodes(items: Seq<Pull>, at: int)
    requires
        0 <= at <= items.len(),
    ensures
        run(initial(), items, at) == stream_decode_at(items, at),
{
    lemma_run_begin(Seq::empty(), items, at);
}

} // verus!
