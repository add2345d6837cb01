//! The lenient decoder: reads a value out of a complete buffer and absorbs
//! what is malformed or cut short into a partial result, or into `Empty`.

use crate::bencoding::bencode::{list_view, Bencode, DictMap, ListVec};
use crate::bencoding::byte_string::ByteString;
use crate::bencoding::decimal::{
    digits_value, find_byte, is_digit, lemma_digits_value_push, lemma_find_byte_is,
    lemma_skip_digits, lemma_skip_digits_is, parse_signed, read_signed, skip_digits,
};
use crate::bencoding::value::{
    dict_insert, key_rank, lemma_dict_insert_sorted, lemma_key_rank_from, Entries, Value,
};
use vstd::prelude::*;
use vstd::slice::{slice_subrange, slice_to_vec};

verus! {

/// The decoder moved forward from `from` to `to` and stayed inside `data`.
pub open spec fn advanced(data: Seq<u8>, from: int, to: int) -> bool {
    0 <= from < to <= data.len()
}

/// A byte string read at `index`: the digits up to the colon give its
/// length, and it holds that many of the bytes behind the colon, or all that
/// are left where fewer are. Without digits closed by a colon nothing is
/// read.
pub open spec fn decode_str_at(data: Seq<u8>, index: int) -> (Value, int) {
    let colon = skip_digits(data, index);
    if index < colon < data.len() && data[colon] == 58 {
        let declared = digits_value(data.subrange(index, colon));
        let left = data.len() - colon - 1;
        let length = if declared < left {
            declared as int
        } else {
            left
        };
        (Value::ByteString(data.subrange(colon + 1, colon + 1 + length)), colon + 1 + length)
    } else {
        (Value::Absent, index)
    }
}

/// A number read at `index`, where an `i` stands: the numeral between the
/// `i` and the next `e`. Without an `e`, or with a numeral that is no `i64`,
/// nothing is read.
pub open spec fn decode_int_at(data: Seq<u8>, index: int) -> (Value, int) {
    let end = find_byte(data, index + 1, 101);
    if 0 <= index < end < data.len() {
        match parse_signed(data.subrange(index + 1, end)) {
            Ok(n) => (Value::Integer(n), end + 1),
            Err(_) => (Value::Absent, index),
        }
    } else {
        (Value::Absent, index)
    }
}

/// The value read at `index`, and the position behind it. Where no value
/// can be read the result is `Absent` and the position is `index`.
pub open spec fn decode_at(data: Seq<u8>, index: int) -> (Value, int)
    decreases data.len() - index, 0nat,
{
    if index < 0 || index >= data.len() {
        (Value::Absent, index)
    } else if is_digit(data[index]) {
        decode_str_at(data, index)
    } else if data[index] == 105 {
        decode_int_at(data, index)
    } else if data[index] == 108 {
        let (items, end) = decode_items_at(data, index + 1, Seq::empty());
        (Value::List(items), end)
    } else if data[index] == 100 {
        let (entries, end) = decode_entries_at(data, index + 1, Seq::empty());
        (Value::Dictionary(entries), end)
    } else {
        (Value::Absent, index)
    }
}

/// The members of a list read from `index` on, behind the members `done`
/// that were read before. The list ends behind an `e`, or where the data
/// ends, or before a position at which no value can be read. (That a value
/// which is read ends behind where it began is shown by `lemma_decode_at`;
/// the definition asks for it so that it is well founded.)
pub open spec fn decode_items_at(data: Seq<u8>, index: int, done: Seq<Value>) -> (Seq<Value>, int)
    decreases data.len() - index, 1nat,
{
    if index < 0 || index >= data.len() {
        (done, index)
    } else if data[index] == 101 {
        (done, index + 1)
    } else {
        let (item, next) = decode_at(data, index);
        if item is Absent || !advanced(data, index, next) {
            (done, index)
        } else {
            decode_items_at(data, next, done.push(item))
        }
    }
}

/// The entries of a dictionary read from `index` on, added to the entries
/// `done` that were read before. The dictionary ends behind an `e`, or
/// where the data ends; behind a key position that holds something other
/// than a byte string; or behind a key whose value cannot be read. What is
/// left of a dictionary that ends early is dropped.
pub open spec fn decode_entries_at(data: Seq<u8>, index: int, done: Entries) -> (Entries, int)
    decreases data.len() - index, 1nat,
{
    if index < 0 || index >= data.len() {
        (done, index)
    } else if data[index] == 101 {
        (done, index + 1)
    } else {
        let (key, after_key) = decode_at(data, index);
        match key {
            Value::ByteString(k) => {
                if !advanced(data, index, after_key) {
                    (done, index)
                } else {
                    let (value, next) = decode_at(data, after_key);
                    if value is Absent || !advanced(data, after_key, next) {
                        (done, after_key)
                    } else {
                        decode_entries_at(data, next, dict_insert(done, k, value))
                    }
                }
            },
            _ => (done, after_key),
        }
    }
}

/// The value that `data` denotes: what is read at its start.
pub open spec fn decode_value(data: Seq<u8>) -> Value {
    decode_at(data, 0).0
}

/// Every member is well formed and none is `Absent`.
pub open spec fn items_wf(l: Seq<Value>) -> bool {
    Value::List(l).wf()
}

/// The keys ascend, every value is well formed and none is `Absent`.
pub open spec fn entries_wf(d: Entries) -> bool {
    Value::Dictionary(d).wf()
}

/// What is read is well formed; a value that is read ends behind where it
/// began and inside the data, and `Absent` takes nothing.
pub proof fn lemma_decode_at(data: Seq<u8>, index: int)
    ensures
        decode_at(data, index).0.wf(),
        decode_at(data, index).0 is Absent ==> decode_at(data, index).1 == index,
        !(decode_at(data, index).0 is Absent) ==> advanced(data, index, decode_at(data, index).1),
    decreases data.len() - index, 0nat,
{
    if index < 0 || index >= data.len() {
    } else if is_digit(data[index]) {
        lemma_skip_digits(data, index);
    } else if data[index] == 105 {
    } else if data[index] == 108 {
        lemma_decode_items_at(data, index + 1, Seq::empty());
    } else if data[index] == 100 {
        lemma_decode_entries_at(data, index + 1, Seq::empty());
    }
}

pub proof fn lemma_decode_items_at(data: Seq<u8>, index: int, done: Seq<Value>)
    requires
        0 <= index <= data.len(),
        items_wf(done),
    ensures
        items_wf(decode_items_at(data, index, done).0),
        index <= decode_items_at(data, index, done).1 <= data.len(),
    decreases data.len() - index, 1nat,
{
    if index >= data.len() {
    } else if data[index] == 101 {
    } else {
        lemma_decode_at(data, index);
        let (item, next) = decode_at(data, index);
        if !(item is Absent) {
            let more = done.push(item);
            assert forall|i: int| 0 <= i < more.len() implies (#[trigger] more[i]).wf()
            && !(more[i] is Absent) by {
                if i < done.len() {
                    assert(more[i] == done[i]);
                }
            }
            lemma_decode_items_at(data, next, more);
        }
    }
}

pub proof fn lemma_decode_entries_at(data: Seq<u8>, index: int, done: Entries)
    requires
        0 <= index <= data.len(),
        entries_wf(done),
    ensures
        entries_wf(decode_entries_at(data, index, done).0),
        index <= decode_entries_at(data, index, done).1 <= data.len(),
    decreases data.len() - index, 1nat,
{
    if index >= data.len() {
    } else if data[index] == 101 {
    } else {
        lemma_decode_at(data, index);
        let (key, after_key) = decode_at(data, index);
        match key {
            Value::ByteString(k) => {
                lemma_decode_at(data, after_key);
                let (value, next) = decode_at(data, after_key);
                if !(value is Absent) {
                    lemma_entries_wf_insert(done, k, value);
                    lemma_decode_entries_at(data, next, dict_insert(done, k, value));
                }
            },
            _ => {},
        }
    }
}

/// Well-formed entries stay well formed when a well-formed value is put
/// under a key.
pub proof fn lemma_entries_wf_insert(done: Entries, key: Seq<u8>, value: Value)
    requires
        entries_wf(done),
        value.wf(),
        !(value is Absent),
    ensures
        entries_wf(dict_insert(done, key, value)),
{
    let more = dict_insert(done, key, value);
    lemma_dict_insert_sorted(done, key, value);
    let at = key_rank(done, key);
    lemma_key_rank_from(done, key, 0);
    assert forall|i: int| 0 <= i < more.len() implies (#[trigger] more[i]).1.wf()
            && !(more[i].1 is Absent) by {
        if at < done.len() && done[at].0 == key {
            if i != at {
                assert(more[i] == done[i]);
            }
        } else {
            if i < at {
                assert(more[i] == done[i]);
            } else if i > at {
                assert(more[i] == done[i - 1]);
            }
        }
    }
}

/// A declared length beyond what is left yields exactly the bytes that are
/// left, and no failure.
pub proof fn lemma_truncated_string(data: Seq<u8>, index: int, colon: int)
    requires
        0 <= index < colon < data.len(),
        forall|i: int| index <= i < colon ==> is_digit(#[trigger] data[i]),
        data[colon] == 58,
        digits_value(data.subrange(index, colon)) >= data.len() - colon - 1,
    ensures
        decode_at(data, index) == (
            Value::ByteString(data.subrange(colon + 1, data.len() as int)),
            data.len() as int,
        ),
{
    lemma_skip_digits_is(data, index, colon);
}

/// The value that `data` holds, as far as it can be read.
pub fn decode(data: &[u8]) -> (value: Bencode)
    ensures
        value@ == decode_value(data@),
        value@.wf(),
{
    proof {
        lemma_decode_at(data@, 0);
    }
    decode_internal(data, 0).0
}

/// The value that stands at `index`, and the position behind it.
pub fn decode_internal(data: &[u8], index: usize) -> (r: (Bencode, usize))
    ensures
        (r.0@, r.1 as int) == decode_at(data@, index as int),
    decreases data.len() - index, 1nat,
{
    if index >= data.len() {
        return (Bencode::Empty, index);
    }
    let code = data[index];
    if code >= 48 && code <= 57 {
        decode_str(data, index)
    } else if code == 105 {
        decode_int(data, index)
    } else if code == 108 {
        decode_list(data, index)
    } else if code == 100 {
        decode_dictionary(data, index)
    } else {
        (Bencode::Empty, index)
    }
}

/// The number that the digits of `data` from `from` up to `to` denote, or
/// `cap` where they denote more.
fn capped_value(data: &[u8], from: usize, to: usize, cap: usize) -> (n: usize)
    requires
        from <= to <= data.len(),
        forall|i: int| from <= i < to ==> is_digit(#[trigger] data@[i]),
    ensures
        n == if digits_value(data@.subrange(from as int, to as int)) < cap {
            digits_value(data@.subrange(from as int, to as int)) as int
        } else {
            cap as int
        },
{
    let mut n: usize = 0;
    let mut i: usize = from;
    assert(digits_value(data@.subrange(from as int, from as int)) == 0);
    while i < to
        invariant
            from <= i <= to <= data.len(),
            forall|k: int| from <= k < to ==> is_digit(#[trigger] data@[k]),
            n == if digits_value(data@.subrange(from as int, i as int)) < cap {
                digits_value(data@.subrange(from as int, i as int)) as int
            } else {
                cap as int
            },
        decreases to - i,
    {
        let digit: u128 = (data[i] - 48) as u128;
        proof {
            let before = data@.subrange(from as int, i as int);
            assert(data@.subrange(from as int, i + 1) =~= before.push(data@[i as int]));
            lemma_digits_value_push(before, data@[i as int]);
        }
        if n < cap {
            let more: u128 = (n as u128) * 10 + digit;
            if more < cap as u128 {
                n = more as usize;
            } else {
                n = cap;
            }
        }
        i = i + 1;
    }
    n
}

/// Reads the byte string whose length starts at `index`.
fn decode_str(data: &[u8], index: usize) -> (r: (Bencode, usize))
    requires
        index <= data.len(),
    ensures
        (r.0@, r.1 as int) == decode_str_at(data@, index as int),
{
    let mut colon: usize = index;
    while colon < data.len() && data[colon] >= 48 && data[colon] <= 57
        invariant
            index <= colon <= data.len(),
            forall|i: int| index <= i < colon ==> is_digit(#[trigger] data@[i]),
        decreases data.len() - colon,
    {
        colon = colon + 1;
    }
    proof {
        lemma_skip_digits_is(data@, index as int, colon as int);
    }
    if colon == index || colon >= data.len() || data[colon] != 58 {
        return (Bencode::Empty, index);
    }
    let left: usize = data.len() - colon - 1;
    let length = capped_value(data, index, colon, left);
    let bytes = slice_to_vec(slice_subrange(data, colon + 1, colon + 1 + length));
    (Bencode::ByteString(bytes), colon + 1 + length)
}

/// Reads the number that starts with the `i` at `index`.
fn decode_int(data: &[u8], index: usize) -> (r: (Bencode, usize))
    requires
        index < data.len(),
    ensures
        (r.0@, r.1 as int) == decode_int_at(data@, index as int),
{
    let mut end: usize = index + 1;
    while end < data.len() && data[end] != 101
        invariant
            index < end <= data.len(),
            forall|i: int| index + 1 <= i < end ==> #[trigger] data@[i] != 101,
        decreases data.len() - end,
    {
        end = end + 1;
    }
    proof {
        lemma_find_byte_is(data@, index + 1, 101, end as int);
    }
    if end >= data.len() {
        return (Bencode::Empty, index);
    }
    match read_signed(slice_subrange(data, index + 1, end)) {
        Ok(number) => (Bencode::Number(number), end + 1),
        Err(_) => (Bencode::Empty, index),
    }
}

/// Reads the list that starts with the `l` at `index`.
fn decode_list(data: &[u8], index: usize) -> (r: (Bencode, usize))
    requires
        index < data.len(),
    ensures
        r.0@ == Value::List(decode_items_at(data@, index + 1, Seq::empty()).0),
        r.1 == decode_items_at(data@, index + 1, Seq::empty()).1,
    decreases data.len() - index, 0nat,
{
    let mut list = ListVec::new();
    let mut i: usize = index + 1;
    assert(list_view(list@) =~= Seq::<Value>::empty());
    loop
        invariant
            index < i <= data.len(),
            decode_items_at(data@, index + 1, Seq::empty()) == decode_items_at(
                data@,
                i as int,
                list_view(list@),
            ),
        decreases data.len() - i,
    {
        if i >= data.len() {
            return (Bencode::List(list), i);
        }
        if data[i] == 101 {
            return (Bencode::List(list), i + 1);
        }
        proof {
            lemma_decode_at(data@, i as int);
        }
        let (item, next) = decode_internal(data, i);
        if matches!(item, Bencode::Empty) {
            return (Bencode::List(list), i);
        }
        proof {
            assert(list_view(list@.push(item)) =~= list_view(list@).push(item@));
        }
        list.push(item);
        i = next;
    }
}

/// Reads the dictionary that starts with the `d` at `index`.
fn decode_dictionary(data: &[u8], index: usize) -> (r: (Bencode, usize))
    requires
        index < data.len(),
    ensures
        r.0@ == Value::Dictionary(decode_entries_at(data@, index + 1, Seq::empty()).0),
        r.1 == decode_entries_at(data@, index + 1, Seq::empty()).1,
    decreases data.len() - index, 0nat,
{
    let mut dict = DictMap::new();
    let mut i: usize = index + 1;
    loop
        invariant
            index < i <= data.len(),
            decode_entries_at(data@, index + 1, Seq::empty()) == decode_entries_at(
                data@,
                i as int,
                dict@,
            ),
        decreases data.len() - i,
    {
        if i >= data.len() {
            return (Bencode::Dict(dict), i);
        }
        if data[i] == 101 {
            return (Bencode::Dict(dict), i + 1);
        }
        proof {
            lemma_decode_at(data@, i as int);
        }
        let (found, after_key) = decode_internal(data, i);
        let key = match found {
            Bencode::ByteString(v) => ByteString::from_vec(v),
            _ => return (Bencode::Dict(dict), after_key),
        };
        proof {
            lemma_decode_at(data@, after_key as int);
        }
        let (value, next) = decode_internal(data, after_key);
        if matches!(value, Bencode::Empty) {
            return (Bencode::Dict(dict), after_key);
        }
        dict.insert(key, value);
        i = next;
    }
}

} // verus!
