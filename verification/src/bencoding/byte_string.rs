//! Raw byte strings and their order.

use crate::bencoding::decimal::{lemma_nat_digits, nat_digits, write_nat};
use crate::bencoding::text::{ascii_string, ascii_text, is_ascii_bytes, text_from_utf8};
use vstd::prelude::*;
use vstd::string::*;
use vstd::utf8::*;

verus! {

/// `a` and `b` agree on their first `k` bytes, and there `a` ends while `b`
/// goes on, or `a` holds the smaller byte.
pub open spec fn lex_less_at(a: Seq<u8>, b: Seq<u8>, k: int) -> bool {
    &&& 0 <= k <= a.len()
    &&& k <= b.len()
    &&& forall|i: int| 0 <= i < k ==> a[i] == b[i]
    &&& (k == a.len() && k < b.len()) || (k < a.len() && k < b.len() && a[k] < b[k])
}

/// `a` comes before `b` in byte-lexicographic order.
pub open spec fn lex_less(a: Seq<u8>, b: Seq<u8>) -> bool {
    exists|k: int| lex_less_at(a, b, k)
}

/// No byte string comes before itself, and of two at most one comes first.
pub proof fn lemma_lex_less_asymmetric(a: Seq<u8>, b: Seq<u8>)
    requires
        lex_less(a, b),
    ensures
        !lex_less(b, a),
        a != b,
{
    let k = choose|k: int| lex_less_at(a, b, k);
    if lex_less(b, a) {
        let j = choose|j: int| lex_less_at(b, a, j);
        if j < k {
            assert(a[j] == b[j]);
        } else if k < j {
            assert(b[k] == a[k]);
        }
    }
}

/// The order is transitive.
pub proof fn lemma_lex_less_transitive(a: Seq<u8>, b: Seq<u8>, c: Seq<u8>)
    requires
        lex_less(a, b),
        lex_less(b, c),
    ensures
        lex_less(a, c),
{
    let k = choose|k: int| lex_less_at(a, b, k);
    let j = choose|j: int| lex_less_at(b, c, j);
    let m = if k <= j { k } else { j };
    assert forall|i: int| 0 <= i < m implies a[i] == c[i] by {
        assert(a[i] == b[i]);
        assert(b[i] == c[i]);
    }
    if k < j {
        assert(b[k] == c[k]);
    } else if j < k {
        assert(a[j] == b[j]);
    }
    assert(lex_less_at(a, c, m));
}

/// Of two different byte strings one comes before the other.
pub proof fn lemma_lex_less_total(a: Seq<u8>, b: Seq<u8>)
    ensures
        lex_less(a, b) || a == b || lex_less(b, a),
    decreases a.len(),
{
    if a.len() == 0 {
        if b.len() == 0 {
            assert(a =~= b);
        } else {
            assert(lex_less_at(a, b, 0));
        }
    } else if b.len() == 0 {
        assert(lex_less_at(b, a, 0));
    } else if a[0] < b[0] {
        assert(lex_less_at(a, b, 0));
    } else if b[0] < a[0] {
        assert(lex_less_at(b, a, 0));
    } else {
        let x = a.drop_first();
        let y = b.drop_first();
        lemma_lex_less_total(x, y);
        if lex_less(x, y) {
            let k = choose|k: int| lex_less_at(x, y, k);
            assert forall|i: int| 0 <= i < k + 1 implies a[i] == b[i] by {
                if i > 0 {
                    assert(x[i - 1] == y[i - 1]);
                }
            }
            assert(lex_less_at(a, b, k + 1));
        } else if lex_less(y, x) {
            let k = choose|k: int| lex_less_at(y, x, k);
            assert forall|i: int| 0 <= i < k + 1 implies b[i] == a[i] by {
                if i > 0 {
                    assert(y[i - 1] == x[i - 1]);
                }
            }
            assert(lex_less_at(b, a, k + 1));
        } else {
            assert(a =~= seq![a[0]] + x);
            assert(b =~= seq![b[0]] + y);
        }
    }
}

/// Where one byte string stands relative to another.
#[derive(Debug, PartialEq, Eq, Clone, Copy, Structural)]
pub enum Rank {
    Before,
    Same,
    After,
}

/// Places `a` relative to `b` in byte-lexicographic order.
pub fn lex_rank(a: &[u8], b: &[u8]) -> (r: Rank)
    ensures
        r is Before <==> lex_less(a@, b@),
        r is Same <==> a@ == b@,
        r is After <==> lex_less(b@, a@),
{
    let mut i: usize = 0;
    while i < a.len() && i < b.len()
        invariant
            0 <= i <= a.len(),
            i <= b.len(),
            forall|k: int| 0 <= k < i ==> a@[k] == b@[k],
        decreases a.len() - i,
    {
        if a[i] < b[i] {
            proof {
                assert(lex_less_at(a@, b@, i as int));
                lemma_lex_less_asymmetric(a@, b@);
            }
            return Rank::Before;
        }
        if a[i] > b[i] {
            proof {
                assert(lex_less_at(b@, a@, i as int));
                lemma_lex_less_asymmetric(b@, a@);
            }
            return Rank::After;
        }
        i = i + 1;
    }
    if i < b.len() {
        proof {
            assert(lex_less_at(a@, b@, i as int));
            lemma_lex_less_asymmetric(a@, b@);
        }
        Rank::Before
    } else if i < a.len() {
        proof {
            assert(lex_less_at(b@, a@, i as int));
            lemma_lex_less_asymmetric(b@, a@);
        }
        Rank::After
    } else {
        proof {
            assert(a@ =~= b@);
            if lex_less(a@, b@) {
                lemma_lex_less_asymmetric(a@, b@);
            }
        }
        Rank::Same
    }
}

/// The decimal numerals of the bytes of `bytes`, separated by a comma and a
/// space.
pub open spec fn byte_list_text(bytes: Seq<u8>) -> Seq<char>
    decreases bytes.len(),
{
    if bytes.len() == 0 {
        Seq::empty()
    } else if bytes.len() == 1 {
        ascii_text(nat_digits(bytes[0] as nat))
    } else {
        byte_list_text(bytes.drop_last()) + ", "@ + ascii_text(nat_digits(bytes.last() as nat))
    }
}

/// How a byte string is shown: as quoted text where it is UTF-8, as a list
/// of byte values where it is not.
pub open spec fn byte_string_text(bytes: Seq<u8>) -> Seq<char> {
    if valid_utf8(bytes) {
        "s\""@ + decode_utf8(bytes) + "\""@
    } else {
        "s["@ + byte_list_text(bytes) + "]"@
    }
}

/// Shows a byte string: `s"..."` for UTF-8 text, `s[.., ..]` otherwise.
pub fn fmt_bytestring(bytes: &[u8]) -> (shown: String)
    ensures
        shown@ == byte_string_text(bytes@),
{
    match text_from_utf8(bytes) {
        Ok(text) => {
            let mut shown = String::from_str("s\"");
            shown.append(text.as_str());
            shown.append("\"");
            shown
        },
        Err(_) => {
            let mut shown = String::from_str("s[");
            let mut i: usize = 0;
            while i < bytes.len()
                invariant
                    0 <= i <= bytes.len(),
                    shown@ == "s["@ + byte_list_text(bytes@.take(i as int)),
                decreases bytes.len() - i,
            {
                if i > 0 {
                    shown.append(", ");
                }
                let mut digits: Vec<u8> = Vec::new();
                write_nat(&mut digits, bytes[i] as u64);
                proof {
                    lemma_nat_digits(bytes[i as int] as nat);
                    assert(digits@ =~= nat_digits(bytes[i as int] as nat));
                    assert(is_ascii_bytes(digits@));
                    assert(bytes@.take(i + 1).drop_last() =~= bytes@.take(i as int));
                }
                let numeral = ascii_string(digits.as_slice());
                shown.append(numeral.as_str());
                assert(shown@ =~= "s["@ + byte_list_text(bytes@.take(i + 1)));
                i = i + 1;
            }
            assert(bytes@.take(i as int) =~= bytes@);
            shown.append("]");
            shown
        },
    }
}

/// A byte string as a dictionary key: ordered and compared by its raw
/// bytes.
#[derive(Eq, PartialEq, Clone, Ord, PartialOrd, Hash, Debug)]
pub struct ByteString(Vec<u8>);

impl View for ByteString {
    type V = Seq<u8>;

    closed spec fn view(&self) -> Seq<u8> {
        self.0@
    }
}

impl ByteString {
    /// The UTF-8 bytes of `s`.
    pub fn from_str(s: &str) -> (key: ByteString)
        ensures
            key@ == encode_utf8(s@),
    {
        ByteString(s.as_bytes_vec())
    }

    /// The bytes of `s`.
    pub fn from_vec(s: Vec<u8>) -> (key: ByteString)
        ensures
            key@ == s@,
    {
        ByteString(s)
    }

    /// The bytes, given back.
    pub fn unwrap(self) -> (bytes: Vec<u8>)
        ensures
            bytes@ == self@,
    {
        let ByteString(v) = self;
        v
    }

    /// The bytes, borrowed.
    pub fn as_slice(&self) -> (bytes: &[u8])
        ensures
            bytes@ == self@,
    {
        self.0.as_slice()
    }

    /// Shows the byte string as `fmt_bytestring` does.
    pub fn to_string(&self) -> (shown: String)
        ensures
            shown@ == byte_string_text(self@),
    {
        fmt_bytestring(self.0.as_slice())
    }
}

} // verus!
