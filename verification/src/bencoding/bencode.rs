//! Bencoded values as they are held in memory, and the accessors through
//! which a dictionary's fields are read or taken out.

use crate::bencoding::byte_string::{
    byte_string_text, fmt_bytestring, lemma_lex_less_asymmetric, lemma_lex_less_transitive,
    lex_less, lex_rank, ByteString, Rank,
};
use crate::bencoding::decimal::{int_digits, lemma_nat_digits, write_int};
use crate::bencoding::error::{key_text, Error};
use crate::bencoding::text::{ascii_string, is_ascii_bytes, text_from_utf8};
use crate::bencoding::value::{
    dict_get, dict_insert, dict_sorted, entries_text, entry_text, items_text, key_index,
    lemma_dict_insert_sorted, lemma_key_index_is, lemma_key_rank_is, value_text, Entries, Value,
};
use vstd::prelude::*;
use vstd::utf8::{decode_utf8, encode_utf8, valid_utf8};

verus! {

/// A bencoded value.
#[derive(PartialEq, Eq, Debug)]
pub enum Bencode {
    /// Nothing was decoded.
    Empty,
    Number(i64),
    ByteString(Vec<u8>),
    List(ListVec),
    Dict(DictMap),
}

/// The members of a list.
pub type ListVec = Vec<Bencode>;

/// A dictionary: entries kept in strictly ascending order of their keys.
#[derive(PartialEq, Eq, Debug)]
pub struct DictMap {
    entries: Vec<(ByteString, Bencode)>,
}

/// The values that the members of `l` denote.
pub open spec fn list_view(l: Seq<Bencode>) -> Seq<Value>
    decreases l,
{
    Seq::new(
        l.len(),
        |i: int|
            if 0 <= i < l.len() {
                l[i]@
            } else {
                Value::Absent
            },
    )
}

/// The entries that `s` denotes.
pub open spec fn entries_view(s: Seq<(ByteString, Bencode)>) -> Entries
    decreases s,
{
    Seq::new(
        s.len(),
        |i: int|
            if 0 <= i < s.len() {
                (s[i].0@, s[i].1@)
            } else {
                (Seq::empty(), Value::Absent)
            },
    )
}

impl View for DictMap {
    type V = Entries;

    closed spec fn view(&self) -> Entries
        decreases self,
    {
        entries_view(self.entries@)
    }
}

impl View for Bencode {
    type V = Value;

    open spec fn view(&self) -> Value
        decreases self,
    {
        match self {
            Bencode::Empty => Value::Absent,
            Bencode::Number(n) => Value::Integer(*n),
            Bencode::ByteString(b) => Value::ByteString(b@),
            Bencode::List(l) => Value::List(list_view(l@)),
            Bencode::Dict(d) => Value::Dictionary(d@),
        }
    }
}

impl DictMap {
    #[verifier::type_invariant]
    spec fn ascending(&self) -> bool {
        dict_sorted(self@)
    }

    proof fn lemma_view(&self)
        ensures
            self@ == entries_view(self.entries@),
    {
    }

    /// A dictionary without entries.
    pub fn new() -> (d: DictMap)
        ensures
            d@ == Seq::<(Seq<u8>, Value)>::empty(),
    {
        let d = DictMap { entries: Vec::new() };
        assert(d@ =~= Seq::<(Seq<u8>, Value)>::empty());
        d
    }

    /// The number of entries.
    pub fn len(&self) -> (n: usize)
        ensures
            n == self@.len(),
    {
        self.entries.len()
    }

    /// The entry at position `at`, counted in ascending order of the keys.
    pub fn entry(&self, at: usize) -> (e: (&ByteString, &Bencode))
        requires
            at < self@.len(),
        ensures
            e.0@ == self@[at as int].0,
            e.1@ == self@[at as int].1,
            decreases_to!(self => e.1),
    {
        assert(decreases_to!(self.entries => self.entries[at as int]));
        let pair = &self.entries[at];
        (&pair.0, &pair.1)
    }

    /// Puts `value` under `key`, in place of what `key` held before.
    pub fn insert(&mut self, key: ByteString, value: Bencode)
        ensures
            final(self)@ == dict_insert(old(self)@, key@, value@),
            dict_sorted(final(self)@),
    {
        proof {
            use_type_invariant(&*self);
            self.lemma_view();
        }
        let ghost d = self@;
        let ghost k = key@;
        let mut at: usize = self.entries.len();
        let mut above: bool = at > 0 && matches!(
            lex_rank(key.as_slice(), self.entries[at - 1].0.as_slice()),
            Rank::Before
        );
        while above
            invariant
                0 <= at <= self.entries@.len(),
                self@ == d,
                d == entries_view(self.entries@),
                k == key@,
                dict_sorted(d),
                forall|i: int| at <= i < d.len() ==> lex_less(k, #[trigger] d[i].0),
                above ==> at > 0 && lex_less(k, d[at - 1].0),
                !above && at > 0 ==> !lex_less(k, d[at - 1].0),
            decreases at,
        {
            at = at - 1;
            above = at > 0 && matches!(
                lex_rank(key.as_slice(), self.entries[at - 1].0.as_slice()),
                Rank::Before
            );
        }
        proof {
            lemma_dict_insert_sorted(d, k, value@);
            if at < d.len() {
                lemma_lex_less_asymmetric(k, d[at as int].0);
            }
        }
        if at > 0 {
            let rank = lex_rank(self.entries[at - 1].0.as_slice(), key.as_slice());
            if matches!(rank, Rank::Same) {
                proof {
                    assert forall|i: int| 0 <= i < at - 1 implies lex_less(
                        #[trigger] d[i].0,
                        k,
                    ) by {
                        assert(lex_less(d[i].0, d[at - 1].0));
                    }
                    if lex_less(d[at - 1].0, k) {
                        lemma_lex_less_asymmetric(d[at - 1].0, k);
                    }
                    lemma_key_rank_is(d, k, 0, at - 1);
                    assert(entries_view(self.entries@.update(at - 1, (key, value)))
                        =~= dict_insert(d, k, value@));
                }
                let mut entries: Vec<(ByteString, Bencode)> = Vec::new();
                core::mem::swap(&mut entries, &mut self.entries);
                entries.set(at - 1, (key, value));
                self.entries = entries;
                proof {
                    self.lemma_view();
                }
                return;
            }
            proof {
                assert(lex_less(d[at - 1].0, k));
                assert forall|i: int| 0 <= i < at implies lex_less(#[trigger] d[i].0, k) by {
                    if i < at - 1 {
                        assert(lex_less(d[i].0, d[at - 1].0));
                        lemma_lex_less_transitive(d[i].0, d[at - 1].0, k);
                    }
                }
            }
        }
        proof {
            lemma_key_rank_is(d, k, 0, at as int);
            if at < d.len() {
                assert(d[at as int].0 != k);
            }
            assert(entries_view(self.entries@.insert(at as int, (key, value))) =~= dict_insert(
                d,
                k,
                value@,
            ));
        }
        let mut entries: Vec<(ByteString, Bencode)> = Vec::new();
        core::mem::swap(&mut entries, &mut self.entries);
        entries.insert(at, (key, value));
        self.entries = entries;
        proof {
            self.lemma_view();
        }
    }

    /// Where the entry of `key` stands, or the number of entries when there
    /// is none.
    fn position(&self, key: &ByteString) -> (at: usize)
        ensures
            at == key_index(self@, key@),
            at <= self@.len(),
            at < self@.len() ==> self@[at as int].0 == key@,
    {
        proof {
            self.lemma_view();
        }
        let mut at: usize = 0;
        while at < self.entries.len()
            invariant
                0 <= at <= self.entries@.len(),
                self@ == entries_view(self.entries@),
                forall|i: int| 0 <= i < at ==> (#[trigger] self@[i]).0 != key@,
            decreases self.entries@.len() - at,
        {
            if matches!(lex_rank(self.entries[at].0.as_slice(), key.as_slice()), Rank::Same) {
                proof {
                    lemma_key_index_is(self@, key@, 0, at as int);
                }
                return at;
            }
            at = at + 1;
        }
        proof {
            lemma_key_index_is(self@, key@, 0, at as int);
        }
        at
    }

    /// The value under `key`.
    pub fn get(&self, key: &ByteString) -> (found: Option<&Bencode>)
        ensures
            match found {
                Some(value) => dict_get(self@, key@) == Some(value@),
                None => dict_get(self@, key@) is None,
            },
    {
        let at = self.position(key);
        if at < self.entries.len() {
            proof {
                self.lemma_view();
            }
            Some(&self.entries[at].1)
        } else {
            None
        }
    }

    /// Takes the entry of `key` out and hands its value over; the other
    /// entries stay as they are.
    pub fn remove(&mut self, key: &ByteString) -> (taken: Option<Bencode>)
        ensures
            match taken {
                Some(value) => {
                    &&& dict_get(old(self)@, key@) == Some(value@)
                    &&& final(self)@ == old(self)@.remove(key_index(old(self)@, key@))
                },
                None => dict_get(old(self)@, key@) is None && final(self)@ == old(self)@,
            },
            dict_sorted(final(self)@),
    {
        proof {
            use_type_invariant(&*self);
            self.lemma_view();
        }
        let ghost d = self@;
        let at = self.position(key);
        if at < self.entries.len() {
            proof {
                let r = d.remove(at as int);
                assert(entries_view(self.entries@.remove(at as int)) =~= r);
                assert forall|i: int, j: int| 0 <= i < j < r.len() implies lex_less(
                    #[trigger] r[i].0,
                    #[trigger] r[j].0,
                ) by {
                    let a = if i < at { i } else { i + 1 };
                    let b = if j < at { j } else { j + 1 };
                    assert(lex_less(d[a].0, d[b].0));
                }
            }
            let mut entries: Vec<(ByteString, Bencode)> = Vec::new();
            core::mem::swap(&mut entries, &mut self.entries);
            let pair = entries.remove(at);
            self.entries = entries;
            proof {
                self.lemma_view();
            }
            Some(pair.1)
        } else {
            None
        }
    }
}

/// No dictionary where one was asked for.
pub open spec fn not_a_dict_text() -> Seq<char> {
    "Bencode is not a dict."@
}

/// No entry under `key`.
pub open spec fn key_missing_text(key: Seq<char>) -> Seq<char> {
    key_text(key, "\" key is not present in torrent file."@)
}

/// The entry under `key` holds no byte string.
pub open spec fn not_a_byte_string_text(key: Seq<char>) -> Seq<char> {
    key_text(key, "\" value is not a ByteString."@)
}

/// The entry under `key` holds no number.
pub open spec fn not_a_number_text(key: Seq<char>) -> Seq<char> {
    key_text(key, "\" value is not an i64."@)
}

/// The byte string under `key` is not UTF-8 text.
pub open spec fn invalid_utf8_text(key: Seq<char>) -> Seq<char> {
    key_text(key, "\" not valid utf-8."@)
}

/// What `remove` gives for the value `v` and the key `key`: the value under
/// the key, or the message of the error.
pub open spec fn removed(v: Value, key: Seq<char>) -> Result<Value, Seq<char>> {
    match v {
        Value::Dictionary(d) => match dict_get(d, encode_utf8(key)) {
            Some(value) => Ok(value),
            None => Err(key_missing_text(key)),
        },
        _ => Err("Bencode is not a dict"@),
    }
}

/// What `remove_bytestring` gives: the bytes under the key, or the message
/// of the error.
pub open spec fn removed_bytes(v: Value, key: Seq<char>) -> Result<Seq<u8>, Seq<char>> {
    match v {
        Value::Dictionary(d) => match dict_get(d, encode_utf8(key)) {
            Some(Value::ByteString(bytes)) => Ok(bytes),
            Some(_) => Err(key_text(key, "\" value is not a ByteString"@)),
            None => Err(key_missing_text(key)),
        },
        _ => Err("Bencode is not a dict"@),
    }
}

/// What `get_string` gives: the text under the key, or the message of the
/// error.
pub open spec fn string_at(v: Value, key: Seq<char>) -> Result<Seq<char>, Seq<char>> {
    match v {
        Value::Dictionary(d) => match dict_get(d, encode_utf8(key)) {
            Some(Value::ByteString(bytes)) => if valid_utf8(bytes) {
                Ok(decode_utf8(bytes))
            } else {
                Err(invalid_utf8_text(key))
            },
            Some(_) => Err(not_a_byte_string_text(key)),
            None => Err(key_missing_text(key)),
        },
        _ => Err(not_a_dict_text()),
    }
}

/// What `get_number` gives: the number under the key, or the message of the
/// error.
pub open spec fn number_at(v: Value, key: Seq<char>) -> Result<i64, Seq<char>> {
    match v {
        Value::Dictionary(d) => match dict_get(d, encode_utf8(key)) {
            Some(Value::Integer(n)) => Ok(n),
            Some(_) => Err(not_a_number_text(key)),
            None => Err(key_missing_text(key)),
        },
        _ => Err(not_a_dict_text()),
    }
}

impl Bencode {
    /// Takes the value under `key` out of a dictionary and hands it over.
    pub fn remove(self, key: &str) -> (r: Result<Bencode, Error>)
        ensures
            match r {
                Ok(value) => removed(self@, key@) == Ok::<Value, Seq<char>>(value@),
                Err(e) => removed(self@, key@) == Err::<Value, Seq<char>>(e@),
            },
    {
        let mut dict = match self {
            Bencode::Dict(d) => d,
            _ => return Err(Error::from_text("Bencode is not a dict")),
        };
        match dict.remove(&ByteString::from_str(key)) {
            Some(value) => Ok(value),
            None => Err(Error::about_key(key, "\" key is not present in torrent file.")),
        }
    }

    /// Takes the byte string under `key` out of a dictionary and hands its
    /// bytes over.
    pub fn remove_bytestring(self, key: &str) -> (r: Result<Vec<u8>, Error>)
        ensures
            match r {
                Ok(bytes) => removed_bytes(self@, key@) == Ok::<Seq<u8>, Seq<char>>(bytes@),
                Err(e) => removed_bytes(self@, key@) == Err::<Seq<u8>, Seq<char>>(e@),
            },
    {
        let mut dict = match self {
            Bencode::Dict(d) => d,
            _ => return Err(Error::from_text("Bencode is not a dict")),
        };
        let index = ByteString::from_str(key);
        match dict.remove(&index) {
            Some(Bencode::ByteString(s)) => Ok(s),
            Some(_) => Err(Error::about_key(key, "\" value is not a ByteString")),
            None => Err(Error::about_key(key, "\" key is not present in torrent file.")),
        }
    }

    /// The text of the byte string under `key`.
    pub fn get_string(&self, key: &str) -> (r: Result<String, Error>)
        ensures
            match r {
                Ok(text) => string_at(self@, key@) == Ok::<Seq<char>, Seq<char>>(text@),
                Err(e) => string_at(self@, key@) == Err::<Seq<char>, Seq<char>>(e@),
            },
    {
        let dict = match self {
            Bencode::Dict(d) => d,
            _ => return Err(Error::from_text("Bencode is not a dict.")),
        };
        let bencode_value = match dict.get(&ByteString::from_str(key)) {
            Some(value) => value,
            None => return Err(Error::about_key(key, "\" key is not present in torrent file.")),
        };
        let byte_string = match bencode_value {
            Bencode::ByteString(s) => s,
            _ => return Err(Error::about_key(key, "\" value is not a ByteString.")),
        };
        match text_from_utf8(byte_string.as_slice()) {
            Ok(utf8) => Ok(utf8),
            Err(_) => Err(Error::about_key(key, "\" not valid utf-8.")),
        }
    }

    /// The number under `key`.
    pub fn get_number(&self, key: &str) -> (r: Result<i64, Error>)
        ensures
            match r {
                Ok(n) => number_at(self@, key@) == Ok::<i64, Seq<char>>(n),
                Err(e) => number_at(self@, key@) == Err::<i64, Seq<char>>(e@),
            },
    {
        let dict = match self {
            Bencode::Dict(d) => d,
            _ => return Err(Error::from_text("Bencode is not a dict.")),
        };
        let bencode_value = match dict.get(&ByteString::from_str(key)) {
            Some(value) => value,
            None => return Err(Error::about_key(key, "\" key is not present in torrent file.")),
        };
        match bencode_value {
            Bencode::Number(s) => Ok(*s),
            _ => Err(Error::about_key(key, "\" value is not an i64.")),
        }
    }

    /// Shows the value as `format` does.
    pub fn to_string(&self) -> (shown: String)
        ensures
            shown@ == value_text(self@),
    {
        format(self)
    }
}

/// Shows a value: a number in decimal, a byte string as `fmt_bytestring`
/// shows it, a list in square brackets, a dictionary in braces.
pub fn format(v: &Bencode) -> (shown: String)
    ensures
        shown@ == value_text(v@),
    decreases v,
{
    match v {
        Bencode::Empty => String::new(),
        Bencode::Number(n) => {
            let mut digits: Vec<u8> = Vec::new();
            write_int(&mut digits, *n);
            proof {
                if *n < 0 {
                    lemma_nat_digits((-(*n as int)) as nat);
                } else {
                    lemma_nat_digits(*n as nat);
                }
                assert(digits@ =~= int_digits(*n as int));
                assert(is_ascii_bytes(digits@));
            }
            ascii_string(digits.as_slice())
        },
        Bencode::ByteString(b) => fmt_bytestring(b.as_slice()),
        Bencode::List(l) => {
            let ghost items = list_view(l@);
            let mut shown = String::from_str("[");
            let mut i: usize = 0;
            while i < l.len()
                invariant
                    0 <= i <= l@.len(),
                    items == list_view(l@),
                    decreases_to!(v => l),
                    shown@ == "["@ + items_text(items.take(i as int)),
                decreases l@.len() - i,
            {
                if i > 0 {
                    shown.append(", ");
                }
                proof {
                    assert(decreases_to!(l => l[i as int]));
                }
                let item = format(&l[i]);
                shown.append(item.as_str());
                proof {
                    assert(items.take(i + 1).drop_last() =~= items.take(i as int));
                    assert(items.take(i + 1).last() == l@[i as int]@);
                    assert(shown@ =~= "["@ + items_text(items.take(i + 1)));
                }
                i = i + 1;
            }
            assert(items.take(i as int) =~= items);
            shown.append("]");
            shown
        },
        Bencode::Dict(d) => {
            let ghost entries = d@;
            proof {
                d.lemma_view();
            }
            let mut shown = String::from_str("{");
            let mut i: usize = 0;
            while i < d.entries.len()
                invariant
                    0 <= i <= d.entries@.len(),
                    entries == entries_view(d.entries@),
                    decreases_to!(v => d.entries),
                    shown@ == "{"@ + entries_text(entries.take(i as int)),
                decreases d.entries@.len() - i,
            {
                if i > 0 {
                    shown.append(", ");
                }
                let key = d.entries[i].0.to_string();
                shown.append(key.as_str());
                shown.append(": ");
                proof {
                    assert(decreases_to!(d.entries => d.entries[i as int]));
                }
                let value = format(&d.entries[i].1);
                shown.append(value.as_str());
                proof {
                    assert(entries.take(i + 1).drop_last() =~= entries.take(i as int));
                    assert(entries.take(i + 1).last() == entries[i as int]);
                    assert(entries[i as int] == (d.entries@[i as int].0@, d.entries@[i as int].1@));
                    let e = entries[i as int];
                    assert(entry_text(e.0, e.1) == byte_string_text(e.0) + ": "@ + value_text(e.1));
                    if i > 0 {
                        assert(entries_text(entries.take(i + 1)) == entries_text(
                            entries.take(i as int),
                        ) + ", "@ + entry_text(e.0, e.1));
                    } else {
                        assert(entries_text(entries.take(i + 1)) == entry_text(e.0, e.1));
                        assert(entries_text(entries.take(0)) =~= Seq::<char>::empty());
                    }
                    assert(shown@ =~= "{"@ + entries_text(entries.take(i + 1)));
                }
                i = i + 1;
            }
            assert(entries.take(i as int) =~= entries);
            shown.append("}");
            shown
        },
    }
}

} // verus!
