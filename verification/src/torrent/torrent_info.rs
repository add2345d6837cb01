//! The info dictionary of a torrent: the part whose canonical encoding is
//! hashed to identify the torrent.

use crate::bencoding::bencode::{number_at, removed_bytes, string_at, Bencode, DictMap};
use crate::bencoding::byte_string::{
    byte_list_text, lemma_lex_less_transitive, lex_less, lex_less_at, ByteString,
};
use crate::bencoding::decimal::{int_digits, lemma_nat_digits, nat_digits, write_int, write_nat};
use crate::bencoding::encoder::{encode, encode_value};
use crate::bencoding::text::{ascii_string, ascii_text, is_ascii_bytes};
use crate::bencoding::value::{dict_sorted, lemma_dict_insert_last, Entries, Value};
use crate::torrent::error::Error;
use sha1::Digest;
use vstd::prelude::*;
use vstd::slice::slice_to_vec;
use vstd::utf8::{encode_utf8, is_ascii_chars, is_ascii_chars_encode_utf8};

verus! {

/// The SHA-1 digest of `data`.
pub uninterp spec fn sha1_digest(data: Seq<u8>) -> Seq<u8>;

/// Calls `sha1::Sha1::digest`, which feeds `data` to a fresh hasher and
/// returns its result. The claim: what comes back depends on the bytes
/// alone.
#[verifier::external_body]
fn sha1_of(data: &[u8]) -> (digest: Vec<u8>)
    ensures
        digest@ == sha1_digest(data@),
{
    sha1::Sha1::digest(data).to_vec()
}

/// `b` is an ASCII letter or digit.
pub open spec fn is_alphanumeric(b: u8) -> bool {
    48 <= b <= 57 || 65 <= b <= 90 || 97 <= b <= 122
}

/// The upper-case hexadecimal digit of `n`, which is below 16.
pub open spec fn hex_upper(n: int) -> char {
    if n < 10 {
        (48 + n) as u8 as char
    } else {
        (55 + n) as u8 as char
    }
}

/// One byte percent-encoded: a letter or digit stands for itself, any other
/// byte is `%` and its two upper-case hexadecimal digits.
pub open spec fn percent_byte(b: u8) -> Seq<char> {
    if is_alphanumeric(b) {
        seq![b as char]
    } else {
        seq!['%', hex_upper(b as int / 16), hex_upper(b as int % 16)]
    }
}

/// The bytes percent-encoded one after the other.
pub open spec fn percent_text(bytes: Seq<u8>) -> Seq<char>
    decreases bytes.len(),
{
    if bytes.len() == 0 {
        Seq::empty()
    } else {
        percent_text(bytes.drop_last()) + percent_byte(bytes.last())
    }
}

/// Calls `percent_encoding::percent_encode` with the set
/// `NON_ALPHANUMERIC` and collects what it displays. The claim: every byte
/// that is no ASCII letter or digit comes out as `%` and two upper-case
/// hexadecimal digits, every other byte as itself.
#[verifier::external_body]
fn percent_encode_all(bytes: &[u8]) -> (text: String)
    ensures
        text@ == percent_text(bytes@),
{
    percent_encoding::percent_encode(bytes, percent_encoding::NON_ALPHANUMERIC).to_string()
}

/// The info dictionary of a torrent.
#[derive(Eq, PartialEq, Clone, Debug)]
pub struct TorrentInfo {
    pub length: i64,
    pub name: String,
    pub piece_length: i64,
    pub private: bool,
    pub pieces: Vec<u8>,
}

/// What a `TorrentInfo` holds.
pub struct TorrentInfoView {
    pub length: i64,
    pub name: Seq<char>,
    pub piece_length: i64,
    pub private: bool,
    pub pieces: Seq<u8>,
}

impl View for TorrentInfo {
    type V = TorrentInfoView;

    open spec fn view(&self) -> TorrentInfoView {
        TorrentInfoView {
            length: self.length,
            name: self.name@,
            piece_length: self.piece_length,
            private: self.private,
            pieces: self.pieces@,
        }
    }
}

/// The record that the dictionary `v` describes, or the message of the
/// first field that cannot be read: `length`, `name`, `piece length`,
/// `private` and `pieces`, in this order.
pub open spec fn info_of(v: Value) -> Result<TorrentInfoView, Seq<char>> {
    match number_at(v, "length"@) {
        Err(message) => Err(message),
        Ok(length) => match string_at(v, "name"@) {
            Err(message) => Err(message),
            Ok(name) => match number_at(v, "piece length"@) {
                Err(message) => Err(message),
                Ok(piece_length) => match number_at(v, "private"@) {
                    Err(message) => Err(message),
                    Ok(private) => match removed_bytes(v, "pieces"@) {
                        Err(message) => Err(message),
                        Ok(pieces) => Ok(
                            TorrentInfoView {
                                length,
                                name,
                                piece_length,
                                private: private == 1,
                                pieces,
                            },
                        ),
                    },
                },
            },
        },
    }
}

/// The entries of the info dictionary of `info`, in ascending order of
/// their keys.
pub open spec fn info_entries(info: TorrentInfoView) -> Entries {
    seq![
        (encode_utf8("length"@), Value::Integer(info.length)),
        (encode_utf8("name"@), Value::ByteString(encode_utf8(info.name))),
        (encode_utf8("piece length"@), Value::Integer(info.piece_length)),
        (encode_utf8("pieces"@), Value::ByteString(info.pieces)),
        (
            encode_utf8("private"@),
            Value::Integer(
                if info.private {
                    1i64
                } else {
                    0i64
                },
            ),
        ),
    ]
}

/// The info dictionary of `info` as a value.
pub open spec fn info_value(info: TorrentInfoView) -> Value {
    Value::Dictionary(info_entries(info))
}

/// The identifier of the torrent as it stands in a URL: the SHA-1 digest of
/// the canonical encoding of the info dictionary, percent-encoded.
pub open spec fn info_hash_text(info: TorrentInfoView) -> Seq<char> {
    percent_text(sha1_digest(encode_value(info_value(info))))
}

/// How the record is shown.
pub open spec fn info_text(info: TorrentInfoView) -> Seq<char> {
    "TorrentInfo: { "@ + "name: \""@ + info.name + "\", "@ + "length: "@ + ascii_text(
        int_digits(info.length as int),
    ) + ", "@ + "piece_length: "@ + ascii_text(int_digits(info.piece_length as int)) + ", "@
        + "private: "@ + (if info.private {
        "true"@
    } else {
        "false"@
    }) + ", "@ + "pieces: ["@ + byte_list_text(info.pieces) + "] "@ + "}"@
}

/// The bytes of ASCII text are its characters.
proof fn lemma_ascii_key(chars: Seq<char>)
    requires
        is_ascii_chars(chars),
    ensures
        encode_utf8(chars) == Seq::new(chars.len(), |i: int| chars[i] as u8),
{
    is_ascii_chars_encode_utf8(chars);
    assert(encode_utf8(chars) =~= Seq::new(chars.len(), |i: int| chars[i] as u8));
}

/// The five keys of the info dictionary ascend in the order `length`,
/// `name`, `piece length`, `pieces`, `private`.
proof fn lemma_info_keys_ascend(info: TorrentInfoView)
    ensures
        dict_sorted(info_entries(info)),
{
    reveal_strlit("length");
    reveal_strlit("name");
    reveal_strlit("piece length");
    reveal_strlit("pieces");
    reveal_strlit("private");
    lemma_ascii_key("length"@);
    lemma_ascii_key("name"@);
    lemma_ascii_key("piece length"@);
    lemma_ascii_key("pieces"@);
    lemma_ascii_key("private"@);
    let k0 = encode_utf8("length"@);
    let k1 = encode_utf8("name"@);
    let k2 = encode_utf8("piece length"@);
    let k3 = encode_utf8("pieces"@);
    let k4 = encode_utf8("private"@);
    assert(lex_less_at(k0, k1, 0));
    assert(lex_less_at(k1, k2, 0));
    assert(lex_less_at(k2, k3, 5));
    assert(lex_less_at(k3, k4, 1));
    lemma_lex_less_transitive(k0, k1, k2);
    lemma_lex_less_transitive(k0, k2, k3);
    lemma_lex_less_transitive(k0, k3, k4);
    lemma_lex_less_transitive(k1, k2, k3);
    lemma_lex_less_transitive(k1, k3, k4);
    lemma_lex_less_transitive(k2, k3, k4);
    let d = info_entries(info);
    assert(d[0].0 == k0 && d[1].0 == k1 && d[2].0 == k2 && d[3].0 == k3 && d[4].0 == k4);
}

/// A prefix of ascending entries ascends.
proof fn lemma_sorted_prefix(d: Entries, n: int)
    requires
        dict_sorted(d),
        0 <= n <= d.len(),
    ensures
        dict_sorted(d.take(n)),
{
    assert forall|i: int, j: int| 0 <= i < j < n implies lex_less(
        #[trigger] d.take(n)[i].0,
        #[trigger] d.take(n)[j].0,
    ) by {
        assert(lex_less(d[i].0, d[j].0));
    }
}

impl TorrentInfo {
    /// Reads the record out of an info dictionary.
    pub fn from(input: Bencode) -> (r: Result<Self, Error>)
        ensures
            match r {
                Ok(info) => info_of(input@) == Ok::<TorrentInfoView, Seq<char>>(info@),
                Err(e) => info_of(input@) == Err::<TorrentInfoView, Seq<char>>(e@),
            },
    {
        let length = match input.get_number("length") {
            Ok(length) => length,
            Err(e) => return Err(Error::from(e)),
        };
        let name = match input.get_string("name") {
            Ok(name) => name,
            Err(e) => return Err(Error::from(e)),
        };
        let piece_length = match input.get_number("piece length") {
            Ok(piece_length) => piece_length,
            Err(e) => return Err(Error::from(e)),
        };
        let private_num = match input.get_number("private") {
            Ok(private_num) => private_num,
            Err(e) => return Err(Error::from(e)),
        };
        let private = private_num == 1;
        let pieces = match input.remove_bytestring("pieces") {
            Ok(pieces) => pieces,
            Err(e) => return Err(Error::from(e)),
        };
        Ok(Self { length, name, piece_length, private, pieces })
    }

    /// The identifier of the torrent, ready for a URL: the SHA-1 digest of
    /// the encoded info dictionary, percent-encoded.
    pub fn sha1(&self) -> (text: String)
        ensures
            text@ == info_hash_text(self@),
    {
        let encoded_info = encode(self.torrent_info());
        let sha1 = sha1_of(encoded_info.as_slice());
        percent_encode_all(sha1.as_slice())
    }

    /// The info dictionary of the record, in canonical order.
    pub fn torrent_info(&self) -> (value: Bencode)
        ensures
            value@ == info_value(self@),
            value@.wf(),
    {
        let ghost d = info_entries(self@);
        proof {
            lemma_info_keys_ascend(self@);
            lemma_sorted_prefix(d, 1);
            lemma_sorted_prefix(d, 2);
            lemma_sorted_prefix(d, 3);
            lemma_sorted_prefix(d, 4);
            lemma_sorted_prefix(d, 5);
            assert(d.take(0) =~= Seq::<(Seq<u8>, Value)>::empty());
            assert(d.take(1) =~= d.take(0).push(d[0]));
            assert(d.take(2) =~= d.take(1).push(d[1]));
            assert(d.take(3) =~= d.take(2).push(d[2]));
            assert(d.take(4) =~= d.take(3).push(d[3]));
            assert(d.take(5) =~= d.take(4).push(d[4]));
            assert(d.take(5) =~= d);
            lemma_dict_insert_last(d.take(0), d[0].0, d[0].1);
            lemma_dict_insert_last(d.take(1), d[1].0, d[1].1);
            lemma_dict_insert_last(d.take(2), d[2].0, d[2].1);
            lemma_dict_insert_last(d.take(3), d[3].0, d[3].1);
            lemma_dict_insert_last(d.take(4), d[4].0, d[4].1);
            assert forall|i: int| 0 <= i < d.len() implies (#[trigger] d[i]).1.wf() && !(d[i].1
                is Absent) by {
                assert(i == 0 || i == 1 || i == 2 || i == 3 || i == 4);
            }
        }
        let mut dict = DictMap::new();
        dict.insert(ByteString::from_str("length"), Bencode::Number(self.length));
        let name = self.name.as_str().as_bytes_vec();
        dict.insert(ByteString::from_str("name"), Bencode::ByteString(name));
        dict.insert(ByteString::from_str("piece length"), Bencode::Number(self.piece_length));
        let v = slice_to_vec(self.pieces.as_slice());
        dict.insert(ByteString::from_str("pieces"), Bencode::ByteString(v));
        let private: i64 = if self.private {
            1
        } else {
            0
        };
        dict.insert(ByteString::from_str("private"), Bencode::Number(private));
        return Bencode::Dict(dict)
    }

    /// Shows the record.
    pub fn to_string(&self) -> (shown: String)
        ensures
            shown@ == info_text(self@),
    {
        format(self)
    }
}

/// The text of the decimal numeral of `n`.
pub fn number_string(n: i64) -> (text: String)
    ensures
        text@ == ascii_text(int_digits(n as int)),
{
    let mut digits: Vec<u8> = Vec::new();
    write_int(&mut digits, n);
    proof {
        if n < 0 {
            lemma_nat_digits((-(n as int)) as nat);
        } else {
            lemma_nat_digits(n as nat);
        }
        assert(digits@ =~= int_digits(n as int));
        assert(is_ascii_bytes(digits@));
    }
    ascii_string(digits.as_slice())
}

/// The decimal numerals of `bytes`, separated by a comma and a space.
pub fn byte_list_string(bytes: &[u8]) -> (text: String)
    ensures
        text@ == byte_list_text(bytes@),
{
    let mut text = String::new();
    let mut i: usize = 0;
    assert(bytes@.take(0) =~= Seq::<u8>::empty());
    while i < bytes.len()
        invariant
            0 <= i <= bytes.len(),
            text@ == byte_list_text(bytes@.take(i as int)),
        decreases bytes.len() - i,
    {
        if i > 0 {
            text.append(", ");
        }
        let mut digits: Vec<u8> = Vec::new();
        write_nat(&mut digits, bytes[i] as u64);
        proof {
            lemma_nat_digits(bytes[i as int] as nat);
            assert(digits@ =~= nat_digits(bytes[i as int] as nat));
            assert(is_ascii_bytes(digits@));
            assert(bytes@.take(i + 1).drop_last() =~= bytes@.take(i as int));
        }
        let numeral = ascii_string(digits.as_slice());
        text.append(numeral.as_str());
        assert(text@ =~= byte_list_text(bytes@.take(i + 1)));
        i = i + 1;
    }
    assert(bytes@.take(i as int) =~= bytes@);
    text
}

/// Shows the record: its fields by name, the pieces as a list of byte
/// values.
pub fn format(v: &TorrentInfo) -> (shown: String)
    ensures
        shown@ == info_text(v@),
{
    let mut shown = String::from_str("TorrentInfo: { ");
    shown.append("name: \"");
    shown.append(v.name.as_str());
    shown.append("\", ");
    shown.append("length: ");
    shown.append(number_string(v.length).as_str());
    shown.append(", ");
    shown.append("piece_length: ");
    shown.append(number_string(v.piece_length).as_str());
    shown.append(", ");
    shown.append("private: ");
    if v.private {
        shown.append("true");
    } else {
        shown.append("false");
    }
    shown.append(", ");
    shown.append("pieces: [");
    shown.append(byte_list_string(v.pieces.as_slice()).as_str());
    shown.append("] ");
    shown.append("}");
    shown
}

} // verus!
