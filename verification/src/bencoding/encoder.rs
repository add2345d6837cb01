//! The canonical encoder: a value written out as bencoded bytes.

use crate::bencoding::bencode::{list_view, Bencode, DictMap, ListVec};
use crate::bencoding::decimal::{
    int_digits, is_digit, lemma_nat_digits, nat_digits, write_int, write_nat,
};
use crate::bencoding::value::{Entries, Value};
use vstd::prelude::*;

verus! {

/// A byte string written out: its length in decimal, a colon, its bytes.
pub open spec fn encode_bytes(bytes: Seq<u8>) -> Seq<u8> {
    nat_digits(bytes.len()) + seq![58u8] + bytes
}

/// A number written out: `i`, its decimal numeral, `e`.
pub open spec fn encode_number(n: i64) -> Seq<u8> {
    seq![105u8] + int_digits(n as int) + seq![101u8]
}

/// The bencoded form of a value. A list is `l`, its members and `e`; a
/// dictionary is `d`, each key followed by its value, in the order of the
/// entries, and `e`; `Absent` is written as nothing.
pub open spec fn encode_value(v: Value) -> Seq<u8>
    decreases v, 0nat,
{
    match v {
        Value::Absent => Seq::empty(),
        Value::Integer(n) => encode_number(n),
        Value::ByteString(bytes) => encode_bytes(bytes),
        Value::List(l) => seq![108u8] + encode_items(l) + seq![101u8],
        Value::Dictionary(d) => seq![100u8] + encode_entries(d) + seq![101u8],
    }
}

/// The members of a list written out one after the other.
pub open spec fn encode_items(l: Seq<Value>) -> Seq<u8>
    decreases l, 1nat,
{
    if l.len() == 0 {
        Seq::empty()
    } else {
        encode_items(l.drop_last()) + encode_value(l.last())
    }
}

/// The entries of a dictionary written out one after the other, each as its
/// key and its value.
pub open spec fn encode_entries(d: Entries) -> Seq<u8>
    decreases d, 1nat,
{
    if d.len() == 0 {
        Seq::empty()
    } else {
        encode_entries(d.drop_last()) + encode_bytes(d.last().0) + encode_value(d.last().1)
    }
}

/// The bencoded form of `data`.
pub fn encode(data: Bencode) -> (buffer: Vec<u8>)
    ensures
        buffer@ == encode_value(data@),
{
    let mut buffer = Vec::<u8>::new();
    encode_internal(&mut buffer, &data);
    assert(buffer@ =~= encode_value(data@));
    return buffer;
}

/// Appends the bencoded form of `data` to `buffer`.
pub fn encode_internal(buffer: &mut Vec<u8>, data: &Bencode)
    ensures
        final(buffer)@ == old(buffer)@ + encode_value(data@),
    decreases data, 0nat,
{
    match data {
        Bencode::ByteString(s) => encode_str(buffer, s.as_slice()),
        Bencode::Number(n) => encode_int(buffer, *n),
        Bencode::List(l) => encode_list(buffer, l),
        Bencode::Dict(d) => encode_dictionary(buffer, d),
        _ => {
            assert(buffer@ =~= old(buffer)@ + encode_value(data@));
        },
    }
}

/// Appends a byte string: its length, a colon, its bytes.
fn encode_str(buffer: &mut Vec<u8>, data: &[u8])
    ensures
        final(buffer)@ == old(buffer)@ + encode_bytes(data@),
{
    write_nat(buffer, data.len() as u64);
    buffer.push(58u8);
    let mut i: usize = 0;
    while i < data.len()
        invariant
            0 <= i <= data.len(),
            buffer@ == old(buffer)@ + nat_digits(data@.len()) + seq![58u8] + data@.take(i as int),
        decreases data.len() - i,
    {
        buffer.push(data[i]);
        assert(data@.take(i + 1) =~= data@.take(i as int).push(data@[i as int]));
        i = i + 1;
    }
    assert(data@.take(i as int) =~= data@);
    assert(buffer@ =~= old(buffer)@ + encode_bytes(data@));
}

/// Appends a number: `i`, its numeral, `e`.
fn encode_int(buffer: &mut Vec<u8>, data: i64)
    ensures
        final(buffer)@ == old(buffer)@ + encode_number(data),
{
    buffer.push(105u8);
    write_int(buffer, data);
    buffer.push(101u8);
    assert(buffer@ =~= old(buffer)@ + encode_number(data));
}

/// Appends a list: `l`, its members in order, `e`.
fn encode_list(buffer: &mut Vec<u8>, data: &ListVec)
    ensures
        final(buffer)@ == old(buffer)@ + (seq![108u8] + encode_items(list_view(data@)) + seq![
            101u8,
        ]),
    decreases data, 1nat,
{
    let ghost items = list_view(data@);
    buffer.push(108u8);
    let mut i: usize = 0;
    while i < data.len()
        invariant
            0 <= i <= data@.len(),
            items == list_view(data@),
            buffer@ == old(buffer)@ + seq![108u8] + encode_items(items.take(i as int)),
        decreases data@.len() - i,
    {
        proof {
            assert(decreases_to!(data => data[i as int]));
        }
        encode_internal(buffer, &data[i]);
        proof {
            assert(items.take(i + 1).drop_last() =~= items.take(i as int));
            assert(items.take(i + 1).last() == data@[i as int]@);
            assert(buffer@ =~= old(buffer)@ + seq![108u8] + encode_items(items.take(i + 1)));
        }
        i = i + 1;
    }
    assert(items.take(i as int) =~= items);
    buffer.push(101u8);
    assert(buffer@ =~= old(buffer)@ + (seq![108u8] + encode_items(items) + seq![101u8]));
}

/// Appends a dictionary: `d`, each key and its value in ascending order of
/// the keys, `e`.
fn encode_dictionary(buffer: &mut Vec<u8>, data: &DictMap)
    ensures
        final(buffer)@ == old(buffer)@ + (seq![100u8] + encode_entries(data@) + seq![101u8]),
    decreases data, 1nat,
{
    let ghost entries = data@;
    buffer.push(100u8);
    let mut i: usize = 0;
    while i < data.len()
        invariant
            0 <= i <= entries.len(),
            entries == data@,
            buffer@ == old(buffer)@ + seq![100u8] + encode_entries(entries.take(i as int)),
        decreases entries.len() - i,
    {
        let (key, value) = data.entry(i);
        encode_str(buffer, key.as_slice());
        encode_internal(buffer, value);
        proof {
            assert(entries.take(i + 1).drop_last() =~= entries.take(i as int));
            assert(entries.take(i + 1).last() == entries[i as int]);
            assert(buffer@ =~= old(buffer)@ + seq![100u8] + encode_entries(entries.take(i + 1)));
        }
        i = i + 1;
    }
    assert(entries.take(i as int) =~= entries);
    buffer.push(101u8);
    assert(buffer@ =~= old(buffer)@ + (seq![100u8] + encode_entries(entries) + seq![101u8]));
}

/// The bytes `part` stand in `data` from position `index` on.
pub open spec fn occurs_at(data: Seq<u8>, index: int, part: Seq<u8>) -> bool {
    &&& 0 <= index
    &&& index + part.len() <= data.len()
    &&& forall|i: int| 0 <= i < part.len() ==> data[index + i] == #[trigger] part[i]
}

/// Where two parts stand one behind the other, each stands in its place.
pub proof fn lemma_occurs_split(data: Seq<u8>, index: int, a: Seq<u8>, b: Seq<u8>)
    requires
        occurs_at(data, index, a + b),
    ensures
        occurs_at(data, index, a),
        occurs_at(data, index + a.len(), b),
{
    assert forall|i: int| 0 <= i < a.len() implies data[index + i] == #[trigger] a[i] by {
        assert((a + b)[i] == a[i]);
    }
    assert forall|i: int| 0 <= i < b.len() implies data[index + a.len() + i] == #[trigger] b[i] by {
        assert((a + b)[a.len() + i] == b[i]);
    }
}

/// What stands in `data` from `index` on is the part of `data` that begins
/// there.
pub proof fn lemma_occurs_subrange(data: Seq<u8>, index: int, part: Seq<u8>)
    requires
        occurs_at(data, index, part),
    ensures
        data.subrange(index, index + part.len()) == part,
{
    assert(data.subrange(index, index + part.len()) =~= part);
}

/// A list is written as its first member followed by the others.
pub proof fn lemma_encode_items_first(l: Seq<Value>)
    requires
        l.len() > 0,
    ensures
        encode_items(l) == encode_value(l[0]) + encode_items(l.drop_first()),
    decreases l.len(),
{
    if l.len() == 1 {
        assert(l.drop_last() =~= Seq::<Value>::empty());
        assert(l.drop_first() =~= Seq::<Value>::empty());
        assert(encode_items(l) =~= encode_value(l[0]) + encode_items(l.drop_first()));
    } else {
        lemma_encode_items_first(l.drop_last());
        assert(l.drop_last().drop_first() =~= l.drop_first().drop_last());
        assert(l.drop_first().last() == l.last());
        assert(l.drop_last()[0] == l[0]);
        assert(encode_items(l) =~= encode_value(l[0]) + encode_items(l.drop_first()));
    }
}

/// A dictionary is written as its first entry followed by the others.
pub proof fn lemma_encode_entries_first(d: Entries)
    requires
        d.len() > 0,
    ensures
        encode_entries(d) == encode_bytes(d[0].0) + encode_value(d[0].1) + encode_entries(
            d.drop_first(),
        ),
    decreases d.len(),
{
    if d.len() == 1 {
        assert(d.drop_last() =~= Seq::<(Seq<u8>, Value)>::empty());
        assert(d.drop_first() =~= Seq::<(Seq<u8>, Value)>::empty());
        assert(encode_entries(d) =~= encode_bytes(d[0].0) + encode_value(d[0].1)
            + encode_entries(d.drop_first()));
    } else {
        lemma_encode_entries_first(d.drop_last());
        assert(d.drop_last().drop_first() =~= d.drop_first().drop_last());
        assert(d.drop_first().last() == d.last());
        assert(d.drop_last()[0] == d[0]);
        assert(encode_entries(d) =~= encode_bytes(d[0].0) + encode_value(d[0].1)
            + encode_entries(d.drop_first()));
    }
}

/// A value other than `Absent` is written with at least one byte, and the
/// first tells its kind: a digit, `i`, `l` or `d`.
pub proof fn lemma_encode_first_byte(v: Value)
    requires
        !(v is Absent),
    ensures
        encode_value(v).len() > 0,
        v is ByteString <==> is_digit(encode_value(v)[0]),
        v is Integer <==> encode_value(v)[0] == 105,
        v is List <==> encode_value(v)[0] == 108,
        v is Dictionary <==> encode_value(v)[0] == 100,
{
    match v {
        Value::ByteString(bytes) => {
            lemma_nat_digits(bytes.len());
            assert(encode_value(v)[0] == nat_digits(bytes.len())[0]);
        },
        _ => {},
    }
}

} // verus!
