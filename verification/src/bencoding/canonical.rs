//! The canonical form of bencoded bytes, told from the bytes alone: numerals
//! in shortest form, byte strings of the declared length, lists and
//! dictionaries closed by their `e`, and the keys of every dictionary in
//! strictly ascending order.

use crate::bencoding::byte_string::{lemma_lex_less_transitive, lex_less};
use crate::bencoding::decimal::{
    all_digits, digits_value, find_byte, int_digits, is_digit, lemma_find_byte,
    lemma_find_byte_is, lemma_nat_digits, lemma_parse_int_digits, lemma_skip_digits,
    lemma_skip_digits_is, nat_digits, parse_signed, skip_digits, NumberFault,
};
use crate::bencoding::decoder::{
    advanced, decode_at, decode_entries_at, decode_items_at, entries_wf, items_wf, lemma_decode_at,
};
use crate::bencoding::encoder::{
    encode_bytes, encode_entries, encode_items, encode_number, encode_value,
    lemma_encode_entries_first, lemma_encode_first_byte, lemma_encode_items_first,
    lemma_occurs_split, lemma_occurs_subrange, occurs_at,
};
use crate::bencoding::value::{dict_sorted, lemma_dict_insert_last, Entries, Value};
use vstd::prelude::*;

verus! {

/// `s` is a numeral in shortest form: digits only, at least one, and no
/// leading zero but for zero itself.
pub open spec fn is_plain_numeral(s: Seq<u8>) -> bool {
    &&& s.len() > 0
    &&& all_digits(s)
    &&& s.len() > 1 ==> s[0] != 48
}

/// `s` is a signed numeral in shortest form: a plain numeral, or `-` before
/// a plain numeral other than zero.
pub open spec fn is_plain_signed(s: Seq<u8>) -> bool {
    if s.len() > 0 && s[0] == 45 {
        is_plain_numeral(s.skip(1)) && s.skip(1) != seq![48u8]
    } else {
        is_plain_numeral(s)
    }
}

/// Digits that do not begin with a zero denote a positive number.
pub proof fn lemma_leading_digit(s: Seq<u8>)
    requires
        s.len() > 0,
        all_digits(s),
        s[0] != 48,
    ensures
        digits_value(s) > 0,
    decreases s.len(),
{
    if s.len() > 1 {
        let t = s.drop_last();
        assert forall|i: int| 0 <= i < t.len() implies is_digit(#[trigger] t[i]) by {
            assert(t[i] == s[i]);
        }
        lemma_leading_digit(t);
    } else {
        assert(s.drop_last() =~= Seq::<u8>::empty());
    }
}

/// A plain numeral is what `nat_digits` writes for the number it denotes.
pub proof fn lemma_plain_numeral(s: Seq<u8>)
    requires
        is_plain_numeral(s),
    ensures
        nat_digits(digits_value(s)) == s,
    decreases s.len(),
{
    let t = s.drop_last();
    let d = s.last();
    assert(is_digit(s[s.len() - 1]));
    if s.len() == 1 {
        assert(t =~= Seq::<u8>::empty());
        assert(digits_value(t) == 0);
        assert(digits_value(s) == d - 48);
        assert(nat_digits(digits_value(s)) =~= s);
    } else {
        assert forall|i: int| 0 <= i < t.len() implies is_digit(#[trigger] t[i]) by {
            assert(t[i] == s[i]);
        }
        assert(t[0] == s[0]);
        lemma_leading_digit(t);
        lemma_plain_numeral(t);
        let n = digits_value(s);
        assert(n == digits_value(t) * 10 + (d - 48));
        assert(n / 10 == digits_value(t));
        assert(n % 10 == d - 48);
        assert(nat_digits(n) =~= s);
    }
}

/// A plain signed numeral that an `i64` holds is what `int_digits` writes
/// for the number it denotes.
pub proof fn lemma_plain_signed(s: Seq<u8>, n: i64)
    requires
        is_plain_signed(s),
        parse_signed(s) == Ok::<i64, NumberFault>(n),
    ensures
        int_digits(n as int) == s,
{
    if s[0] == 45 {
        let m = s.skip(1);
        lemma_plain_numeral(m);
        lemma_skip_digits(m, 0);
        assert(m.take(m.len() as int) =~= m);
        let v = digits_value(m);
        if v == 0 {
            assert(nat_digits(0) =~= seq![48u8]);
        }
        assert(n == -v);
        assert(int_digits(n as int) =~= s);
    } else {
        lemma_plain_numeral(s);
        lemma_skip_digits(s, 0);
        assert(s.take(s.len() as int) =~= s);
        assert(n == digits_value(s));
    }
}

/// Where the canonical byte string that begins at `index` ends: behind a
/// plain numeral, a colon and as many bytes as the numeral says, all of them
/// present.
pub open spec fn canonical_str_at(data: Seq<u8>, index: int) -> Option<int> {
    let colon = skip_digits(data, index);
    let length = digits_value(data.subrange(index, colon));
    if 0 <= index < colon < data.len() && data[colon] == 58 && is_plain_numeral(
        data.subrange(index, colon),
    ) && colon + 1 + length <= data.len() {
        Some(colon + 1 + length)
    } else {
        None
    }
}

/// The bytes of the canonical byte string that begins at `index`.
pub open spec fn str_body_at(data: Seq<u8>, index: int) -> Seq<u8> {
    let colon = skip_digits(data, index);
    data.subrange(colon + 1, colon + 1 + digits_value(data.subrange(index, colon)))
}

/// Where the canonical number that begins with the `i` at `index` ends:
/// behind a plain signed numeral that an `i64` holds, and its `e`.
pub open spec fn canonical_int_at(data: Seq<u8>, index: int) -> Option<int> {
    let end = find_byte(data, index + 1, 101);
    if 0 <= index < end < data.len() && is_plain_signed(data.subrange(index + 1, end))
        && parse_signed(data.subrange(index + 1, end)) is Ok {
        Some(end + 1)
    } else {
        None
    }
}

/// Where the canonical value that begins at `index` ends, if one begins
/// there.
pub open spec fn canonical_at(data: Seq<u8>, index: int) -> Option<int>
    decreases data.len() - index, 0nat,
{
    if index < 0 || index >= data.len() {
        None
    } else if is_digit(data[index]) {
        canonical_str_at(data, index)
    } else if data[index] == 105 {
        canonical_int_at(data, index)
    } else if data[index] == 108 {
        canonical_items_at(data, index + 1)
    } else if data[index] == 100 {
        canonical_entries_at(data, index + 1, None)
    } else {
        None
    }
}

/// Where a list ends whose members from `index` on are canonical and which
/// is closed by an `e`.
pub open spec fn canonical_items_at(data: Seq<u8>, index: int) -> Option<int>
    decreases data.len() - index, 1nat,
{
    if index < 0 || index >= data.len() {
        None
    } else if data[index] == 101 {
        Some(index + 1)
    } else {
        match canonical_at(data, index) {
            Some(next) => if advanced(data, index, next) {
                canonical_items_at(data, next)
            } else {
                None
            },
            None => None,
        }
    }
}

/// Where a dictionary ends whose entries from `index` on are canonical,
/// whose keys ascend strictly from the key `last` of the entry before, and
/// which is closed by an `e`.
pub open spec fn canonical_entries_at(data: Seq<u8>, index: int, last: Option<Seq<u8>>) -> Option<
    int,
>
    decreases data.len() - index, 1nat,
{
    if index < 0 || index >= data.len() {
        None
    } else if data[index] == 101 {
        Some(index + 1)
    } else if !is_digit(data[index]) {
        None
    } else {
        match canonical_str_at(data, index) {
            Some(after_key) => {
                let key = str_body_at(data, index);
                if advanced(data, index, after_key) && (last matches Some(before) ==> lex_less(
                    before,
                    key,
                )) {
                    match canonical_at(data, after_key) {
                        Some(next) => if advanced(data, after_key, next) {
                            canonical_entries_at(data, next, Some(key))
                        } else {
                            None
                        },
                        None => None,
                    }
                } else {
                    None
                }
            },
            None => None,
        }
    }
}

/// `bytes` are a canonical document: nothing at all, or one canonical value
/// and nothing behind it.
pub open spec fn is_canonical(bytes: Seq<u8>) -> bool {
    bytes.len() == 0 || canonical_at(bytes, 0) == Some(bytes.len() as int)
}

/// A canonical byte string is decoded whole, and encoding it writes the
/// bytes from which it was decoded.
pub proof fn lemma_canonical_str(data: Seq<u8>, index: int)
    requires
        canonical_str_at(data, index) is Some,
    ensures
        decode_at(data, index) == (
            Value::ByteString(str_body_at(data, index)),
            canonical_str_at(data, index)->0,
        ),
        encode_bytes(str_body_at(data, index)) == data.subrange(
            index,
            canonical_str_at(data, index)->0,
        ),
        advanced(data, index, canonical_str_at(data, index)->0),
{
    let colon = skip_digits(data, index);
    let digits = data.subrange(index, colon);
    let end = canonical_str_at(data, index)->0;
    lemma_skip_digits(data, index);
    lemma_plain_numeral(digits);
    assert(is_digit(data[index])) by {
        assert(is_digit(digits[0]));
    }
    assert(encode_bytes(str_body_at(data, index)) =~= data.subrange(index, end));
}

/// A canonical number is decoded, and encoding it writes the bytes from
/// which it was decoded.
pub proof fn lemma_canonical_int(data: Seq<u8>, index: int)
    requires
        0 <= index < data.len(),
        data[index] == 105,
        canonical_int_at(data, index) is Some,
    ensures
        decode_at(data, index).0 is Integer,
        decode_at(data, index).1 == canonical_int_at(data, index)->0,
        encode_value(decode_at(data, index).0) == data.subrange(
            index,
            canonical_int_at(data, index)->0,
        ),
        advanced(data, index, canonical_int_at(data, index)->0),
{
    let end = find_byte(data, index + 1, 101);
    let numeral = data.subrange(index + 1, end);
    lemma_find_byte(data, index + 1, 101);
    let n = parse_signed(numeral)->Ok_0;
    lemma_plain_signed(numeral, n);
    assert(encode_number(n) =~= data.subrange(index, end + 1));
}

/// A canonical value is decoded to a well-formed value, the decoder ends
/// where the value ends, and encoding the value writes the bytes from which
/// it was decoded.
pub proof fn lemma_canonical_decodes(data: Seq<u8>, index: int)
    requires
        canonical_at(data, index) is Some,
    ensures
        decode_at(data, index).1 == canonical_at(data, index)->0,
        decode_at(data, index).0.wf(),
        !(decode_at(data, index).0 is Absent),
        advanced(data, index, canonical_at(data, index)->0),
        encode_value(decode_at(data, index).0) == data.subrange(
            index,
            canonical_at(data, index)->0,
        ),
    decreases data.len() - index, 0nat,
{
    lemma_decode_at(data, index);
    let end = canonical_at(data, index)->0;
    if is_digit(data[index]) {
        lemma_canonical_str(data, index);
    } else if data[index] == 105 {
        lemma_canonical_int(data, index);
    } else if data[index] == 108 {
        lemma_canonical_items(data, index + 1, Seq::empty());
        let l = decode_items_at(data, index + 1, Seq::empty()).0;
        assert(Seq::<Value>::empty() + l =~= l);
        assert(seq![108u8] + encode_items(l) + seq![101u8] =~= data.subrange(index, end)) by {
            assert(data.subrange(index, end) =~= seq![108u8] + data.subrange(index + 1, end));
        }
    } else if data[index] == 100 {
        lemma_canonical_entries(data, index + 1, None, Seq::empty());
        let d = decode_entries_at(data, index + 1, Seq::empty()).0;
        assert(Seq::<(Seq<u8>, Value)>::empty() + d =~= d);
        assert(seq![100u8] + encode_entries(d) + seq![101u8] =~= data.subrange(index, end)) by {
            assert(data.subrange(index, end) =~= seq![100u8] + data.subrange(index + 1, end));
        }
    }
}

/// The canonical members of a list are decoded behind the members `done`
/// that were decoded before, and encoding them writes the bytes from which
/// they were decoded.
pub proof fn lemma_canonical_items(data: Seq<u8>, index: int, done: Seq<Value>)
    requires
        canonical_items_at(data, index) is Some,
        items_wf(done),
    ensures
        decode_items_at(data, index, done) == (
            done + decode_items_at(data, index, Seq::empty()).0,
            canonical_items_at(data, index)->0,
        ),
        items_wf(decode_items_at(data, index, Seq::empty()).0),
        advanced(data, index, canonical_items_at(data, index)->0),
        encode_items(decode_items_at(data, index, Seq::empty()).0) + seq![101u8]
            == data.subrange(index, canonical_items_at(data, index)->0),
    decreases data.len() - index, 1nat,
{
    let end = canonical_items_at(data, index)->0;
    let l = decode_items_at(data, index, Seq::empty()).0;
    if data[index] == 101 {
        assert(done + l =~= done);
        assert(encode_items(l) + seq![101u8] =~= data.subrange(index, end));
    } else {
        lemma_canonical_decodes(data, index);
        let (v, next) = decode_at(data, index);
        let first = Seq::<Value>::empty().push(v);
        let more = done.push(v);
        assert forall|i: int| 0 <= i < more.len() implies (#[trigger] more[i]).wf()
            && !(more[i] is Absent) by {
            if i < done.len() {
                assert(more[i] == done[i]);
            }
        }
        lemma_canonical_items(data, next, first);
        lemma_canonical_items(data, next, more);
        let rest = decode_items_at(data, next, Seq::empty()).0;
        assert(l == first + rest);
        assert(more + rest =~= done + l);
        assert forall|i: int| 0 <= i < l.len() implies (#[trigger] l[i]).wf()
            && !(l[i] is Absent) by {
            if i > 0 {
                assert(l[i] == rest[i - 1]);
            }
        }
        lemma_encode_items_first(l);
        assert(l.drop_first() =~= rest);
        assert(encode_items(l) + seq![101u8] =~= data.subrange(index, end)) by {
            assert(data.subrange(index, end) =~= data.subrange(index, next) + data.subrange(
                next,
                end,
            ));
        }
    }
}

/// The canonical entries of a dictionary are decoded behind the entries
/// `done` that were decoded before, the last of them under the key `last`;
/// they ascend from that key on, and encoding them writes the bytes from
/// which they were decoded.
pub proof fn lemma_canonical_entries(
    data: Seq<u8>,
    index: int,
    last: Option<Seq<u8>>,
    done: Entries,
)
    requires
        canonical_entries_at(data, index, last) is Some,
        entries_wf(done),
        last is None ==> done.len() == 0,
        last matches Some(before) ==> done.len() > 0 && done.last().0 == before,
    ensures
        decode_entries_at(data, index, done) == (
            done + decode_entries_at(data, index, Seq::empty()).0,
            canonical_entries_at(data, index, last)->0,
        ),
        entries_wf(decode_entries_at(data, index, Seq::empty()).0),
        last matches Some(before) ==> forall|i: int|
            0 <= i < decode_entries_at(data, index, Seq::empty()).0.len() ==> lex_less(
                before,
                #[trigger] decode_entries_at(data, index, Seq::empty()).0[i].0,
            ),
        advanced(data, index, canonical_entries_at(data, index, last)->0),
        encode_entries(decode_entries_at(data, index, Seq::empty()).0) + seq![101u8]
            == data.subrange(index, canonical_entries_at(data, index, last)->0),
    decreases data.len() - index, 1nat,
{
    let end = canonical_entries_at(data, index, last)->0;
    let d = decode_entries_at(data, index, Seq::empty()).0;
    if data[index] == 101 {
        assert(done + d =~= done);
        assert(encode_entries(d) + seq![101u8] =~= data.subrange(index, end));
    } else {
        lemma_canonical_str(data, index);
        let key = str_body_at(data, index);
        let after_key = canonical_str_at(data, index)->0;
        lemma_canonical_decodes(data, after_key);
        let (value, next) = decode_at(data, after_key);
        let first = Seq::<(Seq<u8>, Value)>::empty().push((key, value));
        let more = done.push((key, value));
        assert forall|i: int, j: int| 0 <= i < j < more.len() implies lex_less(
            #[trigger] more[i].0,
            #[trigger] more[j].0,
        ) by {
            if j < done.len() {
                assert(lex_less(done[i].0, done[j].0));
            } else if i < done.len() - 1 {
                assert(lex_less(done[i].0, done[done.len() - 1].0));
                lemma_lex_less_transitive(done[i].0, done.last().0, key);
            }
        }
        assert forall|i: int| 0 <= i < more.len() implies (#[trigger] more[i]).1.wf()
            && !(more[i].1 is Absent) by {
            if i < done.len() {
                assert(more[i] == done[i]);
            }
        }
        lemma_dict_insert_last(done, key, value);
        lemma_dict_insert_last(Seq::empty(), key, value);
        lemma_canonical_entries(data, next, Some(key), first);
        lemma_canonical_entries(data, next, Some(key), more);
        let rest = decode_entries_at(data, next, Seq::empty()).0;
        assert(d == first + rest);
        assert(more + rest =~= done + d);
        assert forall|i: int| 0 <= i < d.len() implies (#[trigger] d[i]).1.wf()
            && !(d[i].1 is Absent) by {
            if i > 0 {
                assert(d[i] == rest[i - 1]);
            }
        }
        assert forall|i: int, j: int| 0 <= i < j < d.len() implies lex_less(
            #[trigger] d[i].0,
            #[trigger] d[j].0,
        ) by {
            assert(d[j] == rest[j - 1]);
            if i > 0 {
                assert(d[i] == rest[i - 1]);
                assert(lex_less(rest[i - 1].0, rest[j - 1].0));
            }
        }
        if last is Some {
            let before = last->0;
            assert forall|i: int| 0 <= i < d.len() implies lex_less(before, #[trigger] d[i].0) by {
                if i > 0 {
                    assert(d[i] == rest[i - 1]);
                    lemma_lex_less_transitive(before, key, rest[i - 1].0);
                }
            }
        }
        lemma_encode_entries_first(d);
        assert(d.drop_first() =~= rest);
        assert(encode_entries(d) + seq![101u8] =~= data.subrange(index, end)) by {
            assert(data.subrange(index, end) =~= data.subrange(index, after_key)
                + data.subrange(after_key, next) + data.subrange(next, end));
        }
    }
}

/// A byte string that stands written in `data` is canonical there.
pub proof fn lemma_encoded_bytes_canonical(data: Seq<u8>, index: int, bytes: Seq<u8>)
    requires
        occurs_at(data, index, encode_bytes(bytes)),
    ensures
        canonical_str_at(data, index) == Some(index + encode_bytes(bytes).len()),
        str_body_at(data, index) == bytes,
        is_digit(data[index]),
{
    let digits = nat_digits(bytes.len());
    lemma_nat_digits(bytes.len());
    lemma_occurs_split(data, index, digits + seq![58u8], bytes);
    lemma_occurs_split(data, index, digits, seq![58u8]);
    let colon = index + digits.len();
    assert(data[colon + 0] == seq![58u8][0]);
    assert(data[index + 0] == digits[0]);
    assert forall|i: int| index <= i < colon implies is_digit(#[trigger] data[i]) by {
        assert(data[index + (i - index)] == digits[i - index]);
    }
    lemma_skip_digits_is(data, index, colon);
    lemma_occurs_subrange(data, index, digits);
    lemma_occurs_subrange(data, colon + 1, bytes);
}

/// A number that stands written in `data` is canonical there.
pub proof fn lemma_encoded_number_canonical(data: Seq<u8>, index: int, n: i64)
    requires
        occurs_at(data, index, encode_number(n)),
    ensures
        canonical_int_at(data, index) == Some(index + encode_number(n).len()),
        data[index] == 105,
{
    let numeral = int_digits(n as int);
    if n < 0 {
        lemma_nat_digits((-(n as int)) as nat);
        assert(numeral.skip(1) =~= nat_digits((-(n as int)) as nat));
    } else {
        lemma_nat_digits(n as nat);
    }
    lemma_occurs_split(data, index, seq![105u8] + numeral, seq![101u8]);
    lemma_occurs_split(data, index, seq![105u8], numeral);
    let end = index + 1 + numeral.len();
    assert(data[index + 0] == seq![105u8][0]);
    assert(data[end + 0] == seq![101u8][0]);
    assert forall|i: int| index + 1 <= i < end implies #[trigger] data[i] != 101 by {
        assert(data[index + 1 + (i - index - 1)] == numeral[i - index - 1]);
        if n < 0 && i > index + 1 {
            assert(numeral[i - index - 1] == nat_digits((-(n as int)) as nat)[i - index - 2]);
        }
    }
    lemma_find_byte_is(data, index + 1, 101, end);
    lemma_occurs_subrange(data, index + 1, numeral);
    lemma_parse_int_digits(n);
}

/// A well-formed value that stands written in `data` is canonical there.
pub proof fn lemma_encoded_canonical(data: Seq<u8>, index: int, v: Value)
    requires
        v.wf(),
        !(v is Absent),
        occurs_at(data, index, encode_value(v)),
    ensures
        canonical_at(data, index) == Some(index + encode_value(v).len()),
    decreases v, 0nat,
{
    lemma_encode_first_byte(v);
    assert(data[index + 0] == encode_value(v)[0]);
    match v {
        Value::Absent => {},
        Value::Integer(n) => {
            lemma_encoded_number_canonical(data, index, n);
        },
        Value::ByteString(bytes) => {
            lemma_encoded_bytes_canonical(data, index, bytes);
        },
        Value::List(l) => {
            lemma_occurs_split(data, index, seq![108u8] + encode_items(l), seq![101u8]);
            lemma_occurs_split(data, index, seq![108u8], encode_items(l));
            assert(data[index + 1 + encode_items(l).len() + 0] == seq![101u8][0]);
            lemma_encoded_items_canonical(data, index + 1, l);
        },
        Value::Dictionary(d) => {
            lemma_occurs_split(data, index, seq![100u8] + encode_entries(d), seq![101u8]);
            lemma_occurs_split(data, index, seq![100u8], encode_entries(d));
            assert(data[index + 1 + encode_entries(d).len() + 0] == seq![101u8][0]);
            lemma_encoded_entries_canonical(data, index + 1, d, None);
        },
    }
}

/// The members of a well-formed list that stand written in `data`, closed
/// by an `e`, are canonical there.
pub proof fn lemma_encoded_items_canonical(data: Seq<u8>, index: int, l: Seq<Value>)
    requires
        items_wf(l),
        occurs_at(data, index, encode_items(l)),
        index + encode_items(l).len() < data.len(),
        data[index + encode_items(l).len()] == 101,
    ensures
        canonical_items_at(data, index) == Some(index + encode_items(l).len() + 1),
    decreases l, 1nat,
{
    if l.len() > 0 {
        let first = l[0];
        let rest = l.drop_first();
        lemma_encode_items_first(l);
        lemma_occurs_split(data, index, encode_value(first), encode_items(rest));
        lemma_encode_first_byte(first);
        assert(data[index + 0] == encode_value(first)[0]);
        lemma_encoded_canonical(data, index, first);
        assert forall|i: int| 0 <= i < rest.len() implies (#[trigger] rest[i]).wf()
            && !(rest[i] is Absent) by {
            assert(rest[i] == l[i + 1]);
        }
        lemma_encoded_items_canonical(data, index + encode_value(first).len(), rest);
    }
}

/// The entries of a well-formed dictionary that stand written in `data`,
/// closed by an `e`, are canonical there, behind an entry under a key `last`
/// that is below all of their keys.
pub proof fn lemma_encoded_entries_canonical(
    data: Seq<u8>,
    index: int,
    d: Entries,
    last: Option<Seq<u8>>,
)
    requires
        entries_wf(d),
        last matches Some(before) ==> d.len() > 0 ==> lex_less(before, d[0].0),
        occurs_at(data, index, encode_entries(d)),
        index + encode_entries(d).len() < data.len(),
        data[index + encode_entries(d).len()] == 101,
    ensures
        canonical_entries_at(data, index, last) == Some(index + encode_entries(d).len() + 1),
    decreases d, 1nat,
{
    if d.len() > 0 {
        let key = d[0].0;
        let value = d[0].1;
        let rest = d.drop_first();
        lemma_encode_entries_first(d);
        lemma_occurs_split(
            data,
            index,
            encode_bytes(key) + encode_value(value),
            encode_entries(rest),
        );
        lemma_occurs_split(data, index, encode_bytes(key), encode_value(value));
        lemma_encoded_bytes_canonical(data, index, key);
        let after_key = index + encode_bytes(key).len();
        lemma_encoded_canonical(data, after_key, value);
        lemma_encode_first_byte(value);
        assert forall|i: int| 0 <= i < rest.len() implies (#[trigger] rest[i]).1.wf()
            && !(rest[i].1 is Absent) by {
            assert(rest[i] == d[i + 1]);
        }
        assert(dict_sorted(rest)) by {
            assert forall|i: int, j: int| 0 <= i < j < rest.len() implies lex_less(
                #[trigger] rest[i].0,
                #[trigger] rest[j].0,
            ) by {
                assert(rest[i] == d[i + 1]);
                assert(rest[j] == d[j + 1]);
            }
        }
        if rest.len() > 0 {
            assert(rest[0] == d[1]);
            assert(lex_less(d[0].0, d[1].0));
        }
        lemma_encoded_entries_canonical(
            data,
            after_key + encode_value(value).len(),
            rest,
            Some(key),
        );
    }
}

} // verus!
