//! The mathematical model of a bencoded value, and of a dictionary as the
//! ascending sequence of its entries.

use crate::bencoding::byte_string::{
    byte_string_text, lemma_lex_less_asymmetric, lemma_lex_less_total,
    lemma_lex_less_transitive, lex_less,
};
use crate::bencoding::decimal::int_digits;
use crate::bencoding::text::ascii_text;
use vstd::prelude::*;

verus! {

/// What a bencoded document denotes.
pub enum Value {
    /// Nothing was decoded.
    Absent,
    /// A whole number.
    Integer(i64),
    /// Arbitrary bytes.
    ByteString(Seq<u8>),
    /// Values in order.
    List(Seq<Value>),
    /// Entries, each a key and its value, in the order in which they are
    /// written out.
    Dictionary(Seq<(Seq<u8>, Value)>),
}

/// The entries of a dictionary.
pub type Entries = Seq<(Seq<u8>, Value)>;

/// The keys of `d` ascend strictly in byte-lexicographic order, so that no
/// key occurs twice.
pub open spec fn dict_sorted(d: Entries) -> bool {
    forall|i: int, j: int| 0 <= i < j < d.len() ==> lex_less(#[trigger] d[i].0, #[trigger] d[j].0)
}

/// The first position at or after `from` whose key is not below `key`, or
/// the length of `d`.
pub open spec fn key_rank_from(d: Entries, key: Seq<u8>, from: int) -> int
    decreases d.len() - from,
{
    if 0 <= from < d.len() && lex_less(d[from].0, key) {
        key_rank_from(d, key, from + 1)
    } else {
        from
    }
}

/// The position that `key` has, or would have, among the ascending keys of
/// `d`.
pub open spec fn key_rank(d: Entries, key: Seq<u8>) -> int {
    key_rank_from(d, key, 0)
}

/// `d` with `value` under `key`: in place of the entry that `key` had, or
/// as a new entry where the order of the keys puts it.
pub open spec fn dict_insert(d: Entries, key: Seq<u8>, value: Value) -> Entries {
    let at = key_rank(d, key);
    if at < d.len() && d[at].0 == key {
        d.update(at, (key, value))
    } else {
        d.insert(at, (key, value))
    }
}

/// The first position at or after `from` whose key is `key`, or the length
/// of `d`.
pub open spec fn key_index_from(d: Entries, key: Seq<u8>, from: int) -> int
    decreases d.len() - from,
{
    if 0 <= from < d.len() {
        if d[from].0 == key {
            from
        } else {
            key_index_from(d, key, from + 1)
        }
    } else {
        d.len() as int
    }
}

/// Where the entry of `key` stands in `d`, or the length of `d` when there
/// is none.
pub open spec fn key_index(d: Entries, key: Seq<u8>) -> int {
    key_index_from(d, key, 0)
}

/// The value that `d` holds under `key`.
pub open spec fn dict_get(d: Entries, key: Seq<u8>) -> Option<Value> {
    let at = key_index(d, key);
    if at < d.len() {
        Some(d[at].1)
    } else {
        None
    }
}

impl Value {
    /// Every dictionary in the value has strictly ascending keys, and no
    /// list or dictionary holds `Absent`.
    pub open spec fn wf(self) -> bool
        decreases self,
    {
        match self {
            Value::List(l) => forall|i: int|
                0 <= i < l.len() ==> (#[trigger] l[i]).wf() && !(l[i] is Absent),
            Value::Dictionary(d) => dict_sorted(d) && forall|i: int|
                0 <= i < d.len() ==> (#[trigger] d[i]).1.wf() && !(d[i].1 is Absent),
            _ => true,
        }
    }
}

/// How a value is shown: a number in decimal, a byte string as
/// `byte_string_text` shows it, a list in square brackets and a dictionary in
/// braces, their members separated by a comma and a space.
pub open spec fn value_text(v: Value) -> Seq<char>
    decreases v, 0nat,
{
    match v {
        Value::Absent => Seq::empty(),
        Value::Integer(n) => ascii_text(int_digits(n as int)),
        Value::ByteString(b) => byte_string_text(b),
        Value::List(l) => "["@ + items_text(l) + "]"@,
        Value::Dictionary(d) => "{"@ + entries_text(d) + "}"@,
    }
}

/// The members of a list as they are shown.
pub open spec fn items_text(l: Seq<Value>) -> Seq<char>
    decreases l, 1nat,
{
    if l.len() == 0 {
        Seq::empty()
    } else if l.len() == 1 {
        value_text(l[0])
    } else {
        items_text(l.drop_last()) + ", "@ + value_text(l.last())
    }
}

/// One entry as it is shown: the key, a colon and a space, the value.
pub open spec fn entry_text(key: Seq<u8>, value: Value) -> Seq<char>
    decreases value, 1nat,
{
    byte_string_text(key) + ": "@ + value_text(value)
}

/// The entries of a dictionary as they are shown.
pub open spec fn entries_text(d: Entries) -> Seq<char>
    decreases d, 1nat,
{
    if d.len() == 0 {
        Seq::empty()
    } else if d.len() == 1 {
        entry_text(d[0].0, d[0].1)
    } else {
        entries_text(d.drop_last()) + ", "@ + entry_text(d.last().0, d.last().1)
    }
}

pub proof fn lemma_key_rank_from(d: Entries, key: Seq<u8>, from: int)
    requires
        0 <= from <= d.len(),
    ensures
        from <= key_rank_from(d, key, from) <= d.len(),
        forall|i: int| from <= i < key_rank_from(d, key, from) ==> lex_less(#[trigger] d[i].0, key),
        key_rank_from(d, key, from) < d.len() ==> !lex_less(
            d[key_rank_from(d, key, from)].0,
            key,
        ),
    decreases d.len() - from,
{
    if from < d.len() && lex_less(d[from].0, key) {
        lemma_key_rank_from(d, key, from + 1);
    }
}

/// The position before which every key is below `key`, and at which the key
/// is not, is the rank of `key`.
pub proof fn lemma_key_rank_is(d: Entries, key: Seq<u8>, from: int, at: int)
    requires
        0 <= from <= at <= d.len(),
        forall|i: int| from <= i < at ==> lex_less(#[trigger] d[i].0, key),
        at < d.len() ==> !lex_less(d[at].0, key),
    ensures
        key_rank_from(d, key, from) == at,
    decreases at - from,
{
    if from < at {
        lemma_key_rank_is(d, key, from + 1, at);
    }
}

pub proof fn lemma_key_index_from(d: Entries, key: Seq<u8>, from: int)
    requires
        0 <= from <= d.len(),
    ensures
        from <= key_index_from(d, key, from) <= d.len(),
        forall|i: int| from <= i < key_index_from(d, key, from) ==> (#[trigger] d[i]).0 != key,
        key_index_from(d, key, from) < d.len() ==> d[key_index_from(d, key, from)].0 == key,
    decreases d.len() - from,
{
    if from < d.len() && d[from].0 != key {
        lemma_key_index_from(d, key, from + 1);
    }
}

/// The first position that holds `key` is its index.
pub proof fn lemma_key_index_is(d: Entries, key: Seq<u8>, from: int, at: int)
    requires
        0 <= from <= at <= d.len(),
        forall|i: int| from <= i < at ==> (#[trigger] d[i]).0 != key,
        at < d.len() ==> d[at].0 == key,
    ensures
        key_index_from(d, key, from) == at,
    decreases at - from,
{
    if from < at {
        lemma_key_index_is(d, key, from + 1, at);
    }
}

/// Inserting into ascending entries leaves them ascending.
pub proof fn lemma_dict_insert_sorted(d: Entries, key: Seq<u8>, value: Value)
    requires
        dict_sorted(d),
    ensures
        dict_sorted(dict_insert(d, key, value)),
{
    let at = key_rank(d, key);
    lemma_key_rank_from(d, key, 0);
    let r = dict_insert(d, key, value);
    if at < d.len() && d[at].0 == key {
        assert forall|i: int, j: int| 0 <= i < j < r.len() implies lex_less(
            #[trigger] r[i].0,
            #[trigger] r[j].0,
        ) by {
            assert(lex_less(d[i].0, d[j].0));
        }
    } else {
        if at < d.len() {
            lemma_lex_less_total(d[at].0, key);
        }
        assert forall|i: int, j: int| 0 <= i < j < r.len() implies lex_less(
            #[trigger] r[i].0,
            #[trigger] r[j].0,
        ) by {
            if j < at {
                assert(lex_less(d[i].0, d[j].0));
            } else if j == at {
                assert(lex_less(d[i].0, key));
            } else if i < at {
                assert(lex_less(d[i].0, d[j - 1].0));
            } else if i == at {
                if j - 1 > at {
                    assert(lex_less(d[at].0, d[j - 1].0));
                    lemma_lex_less_transitive(key, d[at].0, d[j - 1].0);
                }
            } else {
                assert(lex_less(d[i - 1].0, d[j - 1].0));
            }
        }
    }
}

/// A key above all the keys of ascending entries is inserted at their end.
pub proof fn lemma_dict_insert_last(d: Entries, key: Seq<u8>, value: Value)
    requires
        dict_sorted(d.push((key, value))),
    ensures
        dict_insert(d, key, value) == d.push((key, value)),
{
    let e = d.push((key, value));
    assert forall|i: int| 0 <= i < d.len() implies lex_less(#[trigger] d[i].0, key) by {
        assert(lex_less(e[i].0, e[d.len() as int].0));
    }
    lemma_key_rank_is(d, key, 0, d.len() as int);
    assert(d.insert(d.len() as int, (key, value)) =~= e);
}

/// Ascending entries behave as a mapping: after `value` is put under
/// `key`, the dictionary holds `value` under `key` and, under every other
/// key, what it held before.
pub proof fn lemma_dict_insert_get(d: Entries, key: Seq<u8>, value: Value, other: Seq<u8>)
    requires
        dict_sorted(d),
    ensures
        dict_get(dict_insert(d, key, value), other) == if other == key {
            Some(value)
        } else {
            dict_get(d, other)
        },
{
    let at = key_rank(d, key);
    let r = dict_insert(d, key, value);
    let replaced = at < d.len() && d[at].0 == key;
    lemma_key_rank_from(d, key, 0);
    lemma_key_index_from(d, other, 0);
    let found = key_index(d, other);
    assert forall|i: int| 0 <= i < at implies (#[trigger] d[i]).0 != key by {
        assert(lex_less(d[i].0, key));
        lemma_lex_less_asymmetric(d[i].0, key);
    }
    if other == key {
        assert forall|i: int| 0 <= i < at implies (#[trigger] r[i]).0 != key by {
            assert(r[i] == d[i]);
        }
        lemma_key_index_is(r, key, 0, at);
    } else if found < d.len() {
        let to = if replaced || found < at {
            found
        } else {
            found + 1
        };
        assert forall|i: int| 0 <= i < to implies (#[trigger] r[i]).0 != other by {
            if replaced {
                if i != at {
                    assert(r[i] == d[i]);
                }
            } else if i < at {
                assert(r[i] == d[i]);
            } else if i > at {
                assert(r[i] == d[i - 1]);
            }
        }
        lemma_key_index_is(r, other, 0, to);
    } else {
        assert forall|i: int| 0 <= i < r.len() implies (#[trigger] r[i]).0 != other by {
            if replaced {
                if i != at {
                    assert(r[i] == d[i]);
                }
            } else if i < at {
                assert(r[i] == d[i]);
            } else if i > at {
                assert(r[i] == d[i - 1]);
            }
        }
        lemma_key_index_is(r, other, 0, r.len() as int);
    }
}

} // verus!
