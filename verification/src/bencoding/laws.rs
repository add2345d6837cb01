//! What holds between the encoder and the two decoders.

use crate::bencoding::byte_string::lex_less;
use crate::bencoding::canonical::{is_canonical, lemma_canonical_decodes, lemma_encoded_canonical};
use crate::bencoding::decimal::{
    find_byte, int_digits, is_digit, lemma_find_byte, lemma_find_byte_is, lemma_nat_digits,
    lemma_parse_int_digits, lemma_parse_nat_digits, lemma_skip_digits, lemma_skip_digits_is,
    nat_digits,
};
use crate::bencoding::decoder::{
    decode_at, decode_entries_at, decode_items_at, decode_value, entries_wf, items_wf,
    lemma_decode_at,
};
use crate::bencoding::encoder::{
    encode_bytes, encode_entries, encode_items, encode_number, encode_value,
    lemma_encode_entries_first, lemma_encode_first_byte, lemma_encode_items_first,
    lemma_occurs_split, lemma_occurs_subrange, occurs_at,
};
use crate::bencoding::stream_decoder::{
    byte_pulls, lemma_stream_decode_at, length_of, number_of, read_exactly, read_until,
    stream_decode_at, stream_entries_at, stream_items_at,
};
use crate::bencoding::text::{is_ascii_bytes, lemma_ascii_is_utf8};
use crate::bencoding::value::{
    dict_insert, dict_sorted, lemma_dict_insert_last, Entries, Value,
};
use vstd::prelude::*;

verus! {

/// A byte string that stands written in `data` is read back whole.
pub proof fn lemma_decode_bytes_at(data: Seq<u8>, index: int, bytes: Seq<u8>)
    requires
        occurs_at(data, index, encode_bytes(bytes)),
    ensures
        decode_at(data, index) == (
            Value::ByteString(bytes),
            index + encode_bytes(bytes).len(),
        ),
{
    let digits = nat_digits(bytes.len());
    lemma_nat_digits(bytes.len());
    lemma_occurs_split(data, index, digits + seq![58u8], bytes);
    lemma_occurs_split(data, index, digits, seq![58u8]);
    let colon = index + digits.len();
    assert(data[colon] == seq![58u8][0]);
    assert forall|i: int| index <= i < colon implies is_digit(#[trigger] data[i]) by {
        assert(data[index + (i - index)] == digits[i - index]);
    }
    lemma_skip_digits_is(data, index, colon);
    lemma_occurs_subrange(data, index, digits);
    lemma_occurs_subrange(data, colon + 1, bytes);
    assert(is_digit(data[index])) by {
        assert(data[index + 0] == digits[0]);
    }
}

/// A number that stands written in `data` is read back.
pub proof fn lemma_decode_number_at(data: Seq<u8>, index: int, n: i64)
    requires
        occurs_at(data, index, encode_number(n)),
    ensures
        decode_at(data, index) == (Value::Integer(n), index + encode_number(n).len()),
{
    let numeral = int_digits(n as int);
    if n < 0 {
        lemma_nat_digits((-(n as int)) as nat);
    } else {
        lemma_nat_digits(n as nat);
    }
    lemma_occurs_split(data, index, seq![105u8] + numeral, seq![101u8]);
    lemma_occurs_split(data, index, seq![105u8], numeral);
    let end = index + 1 + numeral.len();
    assert(data[index + 0] == seq![105u8][0]);
    assert(data[end + 0] == seq![101u8][0]);
    assert forall|i: int| index + 1 <= i < end implies #[trigger] data[i] != 101 by {
        assert(data[index + 1 + (i - index - 1)] == numeral[i - index - 1]);
        if n < 0 && i > index + 1 {
            assert(numeral[i - index - 1] == nat_digits((-(n as int)) as nat)[i - index - 2]);
        }
    }
    lemma_find_byte_is(data, index + 1, 101, end);
    lemma_occurs_subrange(data, index + 1, numeral);
    lemma_parse_int_digits(n);
}

/// A well-formed value that stands written in `data` is read back, and the
/// reading ends where the writing ends.
pub proof fn lemma_decode_encoded_at(data: Seq<u8>, index: int, v: Value)
    requires
        v.wf(),
        !(v is Absent),
        occurs_at(data, index, encode_value(v)),
    ensures
        decode_at(data, index) == (v, index + encode_value(v).len()),
    decreases v, 0nat,
{
    lemma_encode_first_byte(v);
    assert(data[index + 0] == encode_value(v)[0]);
    match v {
        Value::Absent => {},
        Value::Integer(n) => {
            lemma_decode_number_at(data, index, n);
        },
        Value::ByteString(bytes) => {
            lemma_decode_bytes_at(data, index, bytes);
        },
        Value::List(l) => {
            lemma_occurs_split(data, index, seq![108u8] + encode_items(l), seq![101u8]);
            lemma_occurs_split(data, index, seq![108u8], encode_items(l));
            assert(data[index + 1 + encode_items(l).len() + 0] == seq![101u8][0]);
            lemma_decode_items_encoded_at(data, index + 1, l, Seq::empty());
            assert(Seq::<Value>::empty() + l =~= l);
        },
        Value::Dictionary(d) => {
            lemma_occurs_split(data, index, seq![100u8] + encode_entries(d), seq![101u8]);
            lemma_occurs_split(data, index, seq![100u8], encode_entries(d));
            assert(data[index + 1 + encode_entries(d).len() + 0] == seq![101u8][0]);
            assert(Seq::<(Seq<u8>, Value)>::empty() + d =~= d);
            lemma_decode_entries_encoded_at(data, index + 1, d, Seq::empty());
        },
    }
}

/// The members of a list that stand written in `data`, closed by an `e`,
/// are read back behind the members read before.
pub proof fn lemma_decode_items_encoded_at(
    data: Seq<u8>,
    index: int,
    l: Seq<Value>,
    done: Seq<Value>,
)
    requires
        items_wf(l),
        occurs_at(data, index, encode_items(l)),
        index + encode_items(l).len() < data.len(),
        data[index + encode_items(l).len()] == 101,
    ensures
        decode_items_at(data, index, done) == (done + l, index + encode_items(l).len() + 1),
    decreases l, 1nat,
{
    if l.len() == 0 {
        assert(done + l =~= done);
    } else {
        let first = l[0];
        let rest = l.drop_first();
        lemma_encode_items_first(l);
        lemma_occurs_split(data, index, encode_value(first), encode_items(rest));
        lemma_encode_first_byte(first);
        assert(data[index + 0] == encode_value(first)[0]);
        lemma_decode_encoded_at(data, index, first);
        let next = index + encode_value(first).len();
        assert forall|i: int| 0 <= i < rest.len() implies (#[trigger] rest[i]).wf()
            && !(rest[i] is Absent) by {
            assert(rest[i] == l[i + 1]);
        }
        lemma_decode_items_encoded_at(data, next, rest, done.push(first));
        assert(done.push(first) + rest =~= done + l);
    }
}

/// The entries of a dictionary that stand written in `data`, closed by an
/// `e`, are read back behind the entries read before, where all of them
/// together ascend.
pub proof fn lemma_decode_entries_encoded_at(
    data: Seq<u8>,
    index: int,
    d: Entries,
    done: Entries,
)
    requires
        entries_wf(d),
        dict_sorted(done + d),
        occurs_at(data, index, encode_entries(d)),
        index + encode_entries(d).len() < data.len(),
        data[index + encode_entries(d).len()] == 101,
    ensures
        decode_entries_at(data, index, done) == (done + d, index + encode_entries(d).len() + 1),
    decreases d, 1nat,
{
    if d.len() == 0 {
        assert(done + d =~= done);
    } else {
        let key = d[0].0;
        let value = d[0].1;
        let rest = d.drop_first();
        lemma_encode_entries_first(d);
        lemma_occurs_split(
            data,
            index,
            encode_bytes(key) + encode_value(value),
            encode_entries(rest),
        );
        lemma_occurs_split(data, index, encode_bytes(key), encode_value(value));
        lemma_encode_first_byte(Value::ByteString(key));
        assert(data[index + 0] == encode_bytes(key)[0]);
        lemma_decode_bytes_at(data, index, key);
        let after_key = index + encode_bytes(key).len();
        lemma_decode_encoded_at(data, after_key, value);
        let next = after_key + encode_value(value).len();
        lemma_encode_first_byte(value);
        let more = done.push((key, value));
        assert(more + rest =~= done + d);
        assert forall|i: int, j: int| 0 <= i < j < more.len() implies lex_less(
            #[trigger] more[i].0,
            #[trigger] more[j].0,
        ) by {
            assert(more[i] == (done + d)[i]);
            assert(more[j] == (done + d)[j]);
        }
        lemma_dict_insert_last(done, key, value);
        assert forall|i: int| 0 <= i < rest.len() implies (#[trigger] rest[i]).1.wf()
            && !(rest[i].1 is Absent) by {
            assert(rest[i] == d[i + 1]);
        }
        assert(dict_sorted(rest)) by {
            assert forall|i: int, j: int| 0 <= i < j < rest.len() implies lex_less(
                #[trigger] rest[i].0,
                #[trigger] rest[j].0,
            ) by {
                assert(rest[i] == d[i + 1]);
                assert(rest[j] == d[j + 1]);
            }
        }
        lemma_decode_entries_encoded_at(data, next, rest, more);
    }
}

/// Round trip: decoding what the encoder wrote for a well-formed value gives
/// the value back.
pub proof fn lemma_round_trip(v: Value)
    requires
        v.wf(),
    ensures
        decode_value(encode_value(v)) == v,
{
    if !(v is Absent) {
        lemma_decode_encoded_at(encode_value(v), 0, v);
    }
}

/// What the encoder writes for a well-formed value is canonical.
pub proof fn lemma_encode_is_canonical(v: Value)
    requires
        v.wf(),
    ensures
        is_canonical(encode_value(v)),
{
    if !(v is Absent) {
        lemma_encoded_canonical(encode_value(v), 0, v);
    }
}

/// Canonical stability: decoding canonical bytes and encoding the result
/// reproduces the bytes exactly.
pub proof fn lemma_canonical_stability(bytes: Seq<u8>)
    requires
        is_canonical(bytes),
    ensures
        encode_value(decode_value(bytes)) == bytes,
{
    if bytes.len() > 0 {
        lemma_canonical_decodes(bytes, 0);
        assert(bytes.subrange(0, bytes.len() as int) =~= bytes);
    }
}

/// Only canonical bytes are reproduced: bytes that come back from decoding
/// and encoding are canonical.
pub proof fn lemma_stable_bytes_are_canonical(bytes: Seq<u8>)
    requires
        encode_value(decode_value(bytes)) == bytes,
    ensures
        is_canonical(bytes),
{
    lemma_decode_at(bytes, 0);
    lemma_encode_is_canonical(decode_value(bytes));
}

/// Whatever the bytes, the encoder writes the canonical form of what the
/// decoder read: decoding that form gives the same value again.
pub proof fn lemma_decode_normalizes(bytes: Seq<u8>)
    ensures
        is_canonical(encode_value(decode_value(bytes))),
        decode_value(encode_value(decode_value(bytes))) == decode_value(bytes),
{
    lemma_decode_at(bytes, 0);
    lemma_encode_is_canonical(decode_value(bytes));
    lemma_round_trip(decode_value(bytes));
}

/// From a source of plain bytes, the bytes before the first `stop` are
/// pulled, and the `stop` with them.
pub proof fn lemma_read_until_bytes(data: Seq<u8>, from: int, at: int, stop: u8, done: Seq<u8>)
    requires
        0 <= from <= at < data.len(),
        forall|i: int| from <= i < at ==> #[trigger] data[i] != stop,
        data[at] == stop,
    ensures
        read_until(byte_pulls(data), from, stop, done) == (
            Ok::<Seq<u8>, Seq<char>>(done + data.subrange(from, at)),
            at + 1,
        ),
    decreases at - from,
{
    if from < at {
        lemma_read_until_bytes(data, from + 1, at, stop, done.push(data[from]));
        assert(done.push(data[from]) + data.subrange(from + 1, at) =~= done + data.subrange(
            from,
            at,
        ));
    } else {
        assert(done + data.subrange(from, at) =~= done);
    }
}

/// From a source of plain bytes that holds enough of them, exactly `count`
/// bytes are pulled.
pub proof fn lemma_read_exactly_bytes(data: Seq<u8>, from: int, count: nat, done: Seq<u8>)
    requires
        0 <= from,
        from + count <= data.len(),
    ensures
        read_exactly(byte_pulls(data), from, count, done) == (
            Ok::<Seq<u8>, Seq<char>>(done + data.subrange(from, from + count)),
            from + count,
        ),
    decreases count,
{
    if count > 0 {
        lemma_read_exactly_bytes(data, from + 1, (count - 1) as nat, done.push(data[from]));
        assert(done.push(data[from]) + data.subrange(from + 1, from + count) =~= done
            + data.subrange(from, from + count));
    } else {
        assert(done + data.subrange(from, from + count) =~= done);
    }
}

/// A byte string that stands written in a source of plain bytes is pulled
/// back whole.
pub proof fn lemma_stream_bytes_at(data: Seq<u8>, index: int, bytes: Seq<u8>)
    requires
        data.len() <= usize::MAX,
        occurs_at(data, index, encode_bytes(bytes)),
    ensures
        stream_decode_at(byte_pulls(data), index) == (
            Ok::<Value, Seq<char>>(Value::ByteString(bytes)),
            index + encode_bytes(bytes).len(),
        ),
{
    let digits = nat_digits(bytes.len());
    lemma_nat_digits(bytes.len());
    lemma_occurs_split(data, index, digits + seq![58u8], bytes);
    lemma_occurs_split(data, index, digits, seq![58u8]);
    let colon = index + digits.len();
    assert(data[colon + 0] == seq![58u8][0]);
    assert(data[index + 0] == digits[0]);
    assert forall|i: int| index <= i < colon implies #[trigger] data[i] != 58 by {
        assert(data[index + (i - index)] == digits[i - index]);
    }
    lemma_read_until_bytes(data, index, colon, 58, Seq::empty());
    lemma_occurs_subrange(data, index, digits);
    assert(Seq::<u8>::empty() + data.subrange(index, colon) =~= digits);
    assert(is_ascii_bytes(digits));
    lemma_ascii_is_utf8(digits);
    lemma_parse_nat_digits(bytes.len(), usize::MAX as nat);
    assert(length_of(digits) == Ok::<nat, Seq<char>>(bytes.len()));
    lemma_read_exactly_bytes(data, colon + 1, bytes.len(), Seq::empty());
    lemma_occurs_subrange(data, colon + 1, bytes);
    assert(Seq::<u8>::empty() + data.subrange(colon + 1, colon + 1 + bytes.len()) =~= bytes);
}

/// A number that stands written in a source of plain bytes is pulled back.
pub proof fn lemma_stream_number_at(data: Seq<u8>, index: int, n: i64)
    requires
        occurs_at(data, index, encode_number(n)),
    ensures
        stream_decode_at(byte_pulls(data), index) == (
            Ok::<Value, Seq<char>>(Value::Integer(n)),
            index + encode_number(n).len(),
        ),
{
    let numeral = int_digits(n as int);
    if n < 0 {
        lemma_nat_digits((-(n as int)) as nat);
    } else {
        lemma_nat_digits(n as nat);
    }
    lemma_occurs_split(data, index, seq![105u8] + numeral, seq![101u8]);
    lemma_occurs_split(data, index, seq![105u8], numeral);
    let end = index + 1 + numeral.len();
    assert(data[index + 0] == seq![105u8][0]);
    assert(data[end + 0] == seq![101u8][0]);
    assert forall|i: int| index + 1 <= i < end implies #[trigger] data[i] != 101 by {
        assert(data[index + 1 + (i - index - 1)] == numeral[i - index - 1]);
        if n < 0 && i > index + 1 {
            assert(numeral[i - index - 1] == nat_digits((-(n as int)) as nat)[i - index - 2]);
        }
    }
    lemma_read_until_bytes(data, index + 1, end, 101, Seq::empty());
    lemma_occurs_subrange(data, index + 1, numeral);
    assert(Seq::<u8>::empty() + data.subrange(index + 1, end) =~= numeral);
    assert(is_ascii_bytes(numeral)) by {
        assert forall|i: int| 0 <= i < numeral.len() implies #[trigger] numeral[i] < 128 by {
            if n < 0 && i > 0 {
                assert(numeral[i] == nat_digits((-(n as int)) as nat)[i - 1]);
            }
        }
    }
    lemma_ascii_is_utf8(numeral);
    lemma_parse_int_digits(n);
    assert(number_of(numeral) == Ok::<i64, Seq<char>>(n));
}

/// A well-formed value that stands written in a source of plain bytes is
/// pulled back, and the source then stands where the writing ends.
pub proof fn lemma_stream_encoded_at(data: Seq<u8>, index: int, v: Value)
    requires
        data.len() <= usize::MAX,
        v.wf(),
        !(v is Absent),
        occurs_at(data, index, encode_value(v)),
    ensures
        stream_decode_at(byte_pulls(data), index) == (
            Ok::<Value, Seq<char>>(v),
            index + encode_value(v).len(),
        ),
    decreases v, 0nat,
{
    lemma_encode_first_byte(v);
    assert(data[index + 0] == encode_value(v)[0]);
    match v {
        Value::Absent => {},
        Value::Integer(n) => {
            lemma_stream_number_at(data, index, n);
        },
        Value::ByteString(bytes) => {
            lemma_stream_bytes_at(data, index, bytes);
        },
        Value::List(l) => {
            lemma_occurs_split(data, index, seq![108u8] + encode_items(l), seq![101u8]);
            lemma_occurs_split(data, index, seq![108u8], encode_items(l));
            assert(data[index + 1 + encode_items(l).len() + 0] == seq![101u8][0]);
            lemma_stream_items_encoded_at(data, index + 1, l, Seq::empty());
            assert(Seq::<Value>::empty() + l =~= l);
        },
        Value::Dictionary(d) => {
            lemma_occurs_split(data, index, seq![100u8] + encode_entries(d), seq![101u8]);
            lemma_occurs_split(data, index, seq![100u8], encode_entries(d));
            assert(data[index + 1 + encode_entries(d).len() + 0] == seq![101u8][0]);
            assert(Seq::<(Seq<u8>, Value)>::empty() + d =~= d);
            lemma_stream_entries_encoded_at(data, index + 1, d, Seq::empty());
        },
    }
}

/// The members of a list that stand written in a source of plain bytes,
/// closed by an `e`, are pulled back behind the members pulled before.
pub proof fn lemma_stream_items_encoded_at(
    data: Seq<u8>,
    index: int,
    l: Seq<Value>,
    done: Seq<Value>,
)
    requires
        data.len() <= usize::MAX,
        items_wf(l),
        occurs_at(data, index, encode_items(l)),
        index + encode_items(l).len() < data.len(),
        data[index + encode_items(l).len()] == 101,
    ensures
        stream_items_at(byte_pulls(data), index, done) == (
            Ok::<Seq<Value>, Seq<char>>(done + l),
            index + encode_items(l).len() + 1,
        ),
    decreases l, 1nat,
{
    if l.len() == 0 {
        assert(done + l =~= done);
    } else {
        let first = l[0];
        let rest = l.drop_first();
        lemma_encode_items_first(l);
        lemma_occurs_split(data, index, encode_value(first), encode_items(rest));
        lemma_encode_first_byte(first);
        assert(data[index + 0] == encode_value(first)[0]);
        lemma_stream_encoded_at(data, index, first);
        let next = index + encode_value(first).len();
        assert forall|i: int| 0 <= i < rest.len() implies (#[trigger] rest[i]).wf()
            && !(rest[i] is Absent) by {
            assert(rest[i] == l[i + 1]);
        }
        lemma_stream_items_encoded_at(data, next, rest, done.push(first));
        assert(done.push(first) + rest =~= done + l);
    }
}

/// The entries of a dictionary that stand written in a source of plain
/// bytes, closed by an `e`, are pulled back behind the entries pulled
/// before, where all of them together ascend.
pub proof fn lemma_stream_entries_encoded_at(
    data: Seq<u8>,
    index: int,
    d: Entries,
    done: Entries,
)
    requires
        data.len() <= usize::MAX,
        entries_wf(d),
        dict_sorted(done + d),
        occurs_at(data, index, encode_entries(d)),
        index + encode_entries(d).len() < data.len(),
        data[index + encode_entries(d).len()] == 101,
    ensures
        stream_entries_at(byte_pulls(data), index, done) == (
            Ok::<Entries, Seq<char>>(done + d),
            index + encode_entries(d).len() + 1,
        ),
    decreases d, 1nat,
{
    if d.len() == 0 {
        assert(done + d =~= done);
    } else {
        let key = d[0].0;
        let value = d[0].1;
        let rest = d.drop_first();
        lemma_encode_entries_first(d);
        lemma_occurs_split(
            data,
            index,
            encode_bytes(key) + encode_value(value),
            encode_entries(rest),
        );
        lemma_occurs_split(data, index, encode_bytes(key), encode_value(value));
        lemma_encode_first_byte(Value::ByteString(key));
        assert(data[index + 0] == encode_bytes(key)[0]);
        lemma_stream_bytes_at(data, index, key);
        let after_key = index + encode_bytes(key).len();
        lemma_stream_encoded_at(data, after_key, value);
        let next = after_key + encode_value(value).len();
        lemma_encode_first_byte(value);
        let more = done.push((key, value));
        assert(more + rest =~= done + d);
        assert forall|i: int, j: int| 0 <= i < j < more.len() implies lex_less(
            #[trigger] more[i].0,
            #[trigger] more[j].0,
        ) by {
            assert(more[i] == (done + d)[i]);
            assert(more[j] == (done + d)[j]);
        }
        lemma_dict_insert_last(done, key, value);
        assert forall|i: int| 0 <= i < rest.len() implies (#[trigger] rest[i]).1.wf()
            && !(rest[i].1 is Absent) by {
            assert(rest[i] == d[i + 1]);
        }
        assert(dict_sorted(rest)) by {
            assert forall|i: int, j: int| 0 <= i < j < rest.len() implies lex_less(
                #[trigger] rest[i].0,
                #[trigger] rest[j].0,
            ) by {
                assert(rest[i] == d[i + 1]);
                assert(rest[j] == d[j + 1]);
            }
        }
        lemma_stream_entries_encoded_at(data, next, rest, more);
    }
}

/// Round trip through the strict decoder: pulling what the encoder wrote
/// for a well-formed value gives the value back and uses up the bytes.
pub proof fn lemma_stream_round_trip(v: Value)
    requires
        v.wf(),
        encode_value(v).len() <= usize::MAX,
    ensures
        stream_decode_at(byte_pulls(encode_value(v)), 0) == (
            Ok::<Value, Seq<char>>(v),
            encode_value(v).len() as int,
        ),
{
    if !(v is Absent) {
        lemma_stream_encoded_at(encode_value(v), 0, v);
    }
}

/// What was pulled from a source of plain bytes up to a `stop` are the
/// bytes before the first `stop`.
pub proof fn lemma_read_until_found(data: Seq<u8>, from: int, stop: u8, done: Seq<u8>)
    requires
        0 <= from <= data.len(),
        read_until(byte_pulls(data), from, stop, done).0 is Ok,
    ensures
        find_byte(data, from, stop) < data.len(),
        read_until(byte_pulls(data), from, stop, done) == (
            Ok::<Seq<u8>, Seq<char>>(done + data.subrange(from, find_byte(data, from, stop))),
            find_byte(data, from, stop) + 1,
        ),
    decreases data.len() - from,
{
    if from < data.len() {
        if data[from] == stop {
            assert(done + data.subrange(from, from) =~= done);
        } else {
            lemma_read_until_found(data, from + 1, stop, done.push(data[from]));
            lemma_find_byte(data, from + 1, stop);
            let at = find_byte(data, from + 1, stop);
            assert(done.push(data[from]) + data.subrange(from + 1, at) =~= done
                + data.subrange(from, at));
        }
    }
}

/// What was pulled from a source of plain bytes by count are the bytes
/// that stand there, and the source holds that many.
pub proof fn lemma_read_exactly_found(data: Seq<u8>, from: int, count: nat, done: Seq<u8>)
    requires
        0 <= from <= data.len(),
        read_exactly(byte_pulls(data), from, count, done).0 is Ok,
    ensures
        from + count <= data.len(),
        read_exactly(byte_pulls(data), from, count, done) == (
            Ok::<Seq<u8>, Seq<char>>(done + data.subrange(from, from + count)),
            from + count,
        ),
    decreases count,
{
    if count > 0 {
        lemma_read_exactly_found(data, from + 1, (count - 1) as nat, done.push(data[from]));
        assert(done.push(data[from]) + data.subrange(from + 1, from + count) =~= done
            + data.subrange(from, from + count));
    } else {
        assert(done + data.subrange(from, from + count) =~= done);
    }
}

/// The lenient decoder reads what the strict decoder reads: where the
/// strict decoder reads a value from a source of plain bytes, the lenient
/// decoder reads the same value from the bytes and ends at the same
/// position. The two differ only where the strict decoder fails.
pub proof fn lemma_lenient_reads_what_strict_reads(data: Seq<u8>, index: int)
    requires
        0 <= index <= data.len(),
        stream_decode_at(byte_pulls(data), index).0 is Ok,
    ensures
        decode_at(data, index) == (
            stream_decode_at(byte_pulls(data), index).0->Ok_0,
            stream_decode_at(byte_pulls(data), index).1,
        ),
    decreases data.len() - index, 0nat,
{
    let items = byte_pulls(data);
    if index < data.len() {
        let byte = data[index];
        if byte == 105 {
            lemma_read_until_found(data, index + 1, 101, Seq::empty());
            lemma_find_byte(data, index + 1, 101);
            let end = find_byte(data, index + 1, 101);
            assert(Seq::<u8>::empty() + data.subrange(index + 1, end) =~= data.subrange(
                index + 1,
                end,
            ));
        } else if byte == 108 {
            lemma_lenient_reads_items(data, index + 1, Seq::empty());
        } else if byte == 100 {
            lemma_lenient_reads_entries(data, index + 1, Seq::empty());
        } else if is_digit(byte) {
            lemma_read_until_found(data, index, 58, Seq::empty());
            let colon = find_byte(data, index, 58);
            let text = data.subrange(index, colon);
            assert(Seq::<u8>::empty() + text =~= text);
            let length = length_of(text)->Ok_0;
            lemma_skip_digits(text, 0);
            assert(text.take(text.len() as int) =~= text);
            lemma_find_byte(data, index, 58);
            assert forall|i: int| index <= i < colon implies is_digit(#[trigger] data[i]) by {
                assert(text.subrange(0, text.len() as int)[i - index] == data[i]);
            }
            lemma_skip_digits_is(data, index, colon);
            lemma_read_exactly_found(data, colon + 1, length, Seq::empty());
            assert(Seq::<u8>::empty() + data.subrange(colon + 1, colon + 1 + length)
                =~= data.subrange(colon + 1, colon + 1 + length));
        }
    }
}

/// The lenient decoder reads the members of a list that the strict decoder
/// reads.
pub proof fn lemma_lenient_reads_items(data: Seq<u8>, index: int, done: Seq<Value>)
    requires
        0 <= index <= data.len(),
        stream_items_at(byte_pulls(data), index, done).0 is Ok,
    ensures
        decode_items_at(data, index, done) == (
            stream_items_at(byte_pulls(data), index, done).0->Ok_0,
            stream_items_at(byte_pulls(data), index, done).1,
        ),
    decreases data.len() - index, 1nat,
{
    let items = byte_pulls(data);
    if index < data.len() && data[index] != 101 {
        lemma_stream_decode_at(items, index);
        lemma_lenient_reads_what_strict_reads(data, index);
        let (member, next) = stream_decode_at(items, index);
        lemma_lenient_reads_items(data, next, done.push(member->Ok_0));
    }
}

/// The lenient decoder reads the entries of a dictionary that the strict
/// decoder reads.
pub proof fn lemma_lenient_reads_entries(data: Seq<u8>, index: int, done: Entries)
    requires
        0 <= index <= data.len(),
        stream_entries_at(byte_pulls(data), index, done).0 is Ok,
    ensures
        decode_entries_at(data, index, done) == (
            stream_entries_at(byte_pulls(data), index, done).0->Ok_0,
            stream_entries_at(byte_pulls(data), index, done).1,
        ),
    decreases data.len() - index, 1nat,
{
    let items = byte_pulls(data);
    if index < data.len() && data[index] != 101 {
        lemma_stream_decode_at(items, index);
        lemma_lenient_reads_what_strict_reads(data, index);
        let (key, after_key) = stream_decode_at(items, index);
        lemma_stream_decode_at(items, after_key);
        lemma_lenient_reads_what_strict_reads(data, after_key);
        let (value, next) = stream_decode_at(items, after_key);
        lemma_lenient_reads_entries(
            data,
            next,
            dict_insert(done, key->Ok_0->ByteString_0, value->Ok_0),
        );
    }
}

} // verus!
