//! ASCII decimal numerals: how numbers are written into and read out of
//! bencoded bytes.

use vstd::prelude::*;

verus! {

/// `b` is one of the ASCII characters `0` to `9`.
pub open spec fn is_digit(b: u8) -> bool {
    48 <= b <= 57
}

/// Every byte of `s` is an ASCII digit.
pub open spec fn all_digits(s: Seq<u8>) -> bool {
    forall|i: int| 0 <= i < s.len() ==> is_digit(#[trigger] s[i])
}

/// The number that the digit string `s` denotes; leading zeros are allowed
/// and the empty string denotes zero.
pub open spec fn digits_value(s: Seq<u8>) -> nat
    decreases s.len(),
{
    if s.len() == 0 {
        0
    } else {
        digits_value(s.drop_last()) * 10 + (s.last() - 48) as nat
    }
}

/// The shortest digit string that denotes `n`.
pub open spec fn nat_digits(n: nat) -> Seq<u8>
    decreases n,
{
    if n < 10 {
        seq![(48 + n) as u8]
    } else {
        nat_digits(n / 10).push((48 + n % 10) as u8)
    }
}

/// The decimal numeral of `n`, with a leading `-` when `n` is negative.
pub open spec fn int_digits(n: int) -> Seq<u8> {
    if n < 0 {
        seq![45u8] + nat_digits((-n) as nat)
    } else {
        nat_digits(n as nat)
    }
}

/// The first position at or after `from` that holds no digit, or the end of
/// `data` when digits run to the end.
pub open spec fn skip_digits(data: Seq<u8>, from: int) -> int
    decreases data.len() - from,
{
    if 0 <= from < data.len() && is_digit(data[from]) {
        skip_digits(data, from + 1)
    } else {
        from
    }
}

/// The first position at or after `from` that holds `byte`, or the length of
/// `data` when there is none.
pub open spec fn find_byte(data: Seq<u8>, from: int, byte: u8) -> int
    decreases data.len() - from,
{
    if 0 <= from < data.len() {
        if data[from] == byte {
            from
        } else {
            find_byte(data, from + 1, byte)
        }
    } else {
        data.len() as int
    }
}

/// Why a numeral was rejected.
#[derive(Debug, PartialEq, Eq, Clone, Copy, Structural)]
pub enum NumberFault {
    /// Nothing to read.
    Empty,
    /// A byte that is no digit.
    InvalidDigit,
    /// The digits denote more than the target can hold.
    TooLarge,
    /// The digits, negated, denote less than the target can hold.
    TooSmall,
}

/// Reading the unsigned numeral `s` with the largest accepted value `max`.
/// The numeral is read left to right and the first fault decides: the
/// leading digits exceed `max` before a non-digit is reached, or a non-digit
/// follows digits that are still in range.
pub open spec fn parse_magnitude(s: Seq<u8>, max: nat) -> Result<nat, NumberFault> {
    let run = skip_digits(s, 0);
    if s.len() == 0 {
        Err(NumberFault::Empty)
    } else if digits_value(s.take(run)) > max {
        Err(NumberFault::TooLarge)
    } else if run < s.len() {
        Err(NumberFault::InvalidDigit)
    } else {
        Ok(digits_value(s))
    }
}

/// Reading the signed numeral `s`: an optional `-`, then at least one digit,
/// with a value that an `i64` holds.
pub open spec fn parse_signed(s: Seq<u8>) -> Result<i64, NumberFault> {
    if s.len() == 0 {
        Err(NumberFault::Empty)
    } else if s[0] == 45 {
        if s.len() == 1 {
            Err(NumberFault::InvalidDigit)
        } else {
            match parse_magnitude(s.skip(1), 0x8000_0000_0000_0000) {
                Ok(v) => Ok((-v) as i64),
                Err(NumberFault::TooLarge) => Err(NumberFault::TooSmall),
                Err(fault) => Err(fault),
            }
        }
    } else {
        match parse_magnitude(s, 0x7fff_ffff_ffff_ffff) {
            Ok(v) => Ok(v as i64),
            Err(fault) => Err(fault),
        }
    }
}

/// The text that reports `fault`.
pub open spec fn fault_text(fault: NumberFault) -> Seq<char> {
    match fault {
        NumberFault::Empty => "cannot parse integer from empty string"@,
        NumberFault::InvalidDigit => "invalid digit found in string"@,
        NumberFault::TooLarge => "number too large to fit in target type"@,
        NumberFault::TooSmall => "number too small to fit in target type"@,
    }
}

pub proof fn lemma_skip_digits(data: Seq<u8>, from: int)
    requires
        0 <= from <= data.len(),
    ensures
        from <= skip_digits(data, from) <= data.len(),
        all_digits(data.subrange(from, skip_digits(data, from))),
        skip_digits(data, from) < data.len() ==> !is_digit(data[skip_digits(data, from)]),
    decreases data.len() - from,
{
    if from < data.len() && is_digit(data[from]) {
        lemma_skip_digits(data, from + 1);
        let end = skip_digits(data, from);
        assert forall|i: int| 0 <= i < end - from implies is_digit(
            #[trigger] data.subrange(from, end)[i],
        ) by {
            if i > 0 {
                assert(data.subrange(from, end)[i] == data.subrange(from + 1, end)[i - 1]);
            }
        }
    }
}

/// A run of digits that ends at a non-digit (or the end) is the run that
/// `skip_digits` finds.
pub proof fn lemma_skip_digits_is(data: Seq<u8>, from: int, end: int)
    requires
        0 <= from <= end <= data.len(),
        forall|i: int| from <= i < end ==> is_digit(#[trigger] data[i]),
        end < data.len() ==> !is_digit(data[end]),
    ensures
        skip_digits(data, from) == end,
    decreases end - from,
{
    if from < end {
        lemma_skip_digits_is(data, from + 1, end);
    }
}

pub proof fn lemma_find_byte(data: Seq<u8>, from: int, byte: u8)
    requires
        0 <= from <= data.len(),
    ensures
        from <= find_byte(data, from, byte) <= data.len(),
        forall|i: int| from <= i < find_byte(data, from, byte) ==> #[trigger] data[i] != byte,
        find_byte(data, from, byte) < data.len() ==> data[find_byte(data, from, byte)] == byte,
    decreases data.len() - from,
{
    if from < data.len() && data[from] != byte {
        lemma_find_byte(data, from + 1, byte);
    }
}

/// The first occurrence of `byte` at or after `from` is what `find_byte`
/// finds.
pub proof fn lemma_find_byte_is(data: Seq<u8>, from: int, byte: u8, at: int)
    requires
        0 <= from <= at <= data.len(),
        forall|i: int| from <= i < at ==> #[trigger] data[i] != byte,
        at < data.len() ==> data[at] == byte,
    ensures
        find_byte(data, from, byte) == at,
    decreases at - from,
{
    if from < at {
        lemma_find_byte_is(data, from + 1, byte, at);
    }
}

pub proof fn lemma_digits_value_push(s: Seq<u8>, d: u8)
    ensures
        digits_value(s.push(d)) == digits_value(s) * 10 + (d - 48) as nat,
{
    assert(s.push(d).drop_last() =~= s);
}

/// Reading further digits never lowers the value read so far.
pub proof fn lemma_digits_value_grows(s: Seq<u8>, i: int, j: int)
    requires
        0 <= i <= j <= s.len(),
        all_digits(s.take(j)),
    ensures
        digits_value(s.take(i)) <= digits_value(s.take(j)),
    decreases j - i,
{
    if i < j {
        assert(s.take(j).drop_last() =~= s.take(j - 1));
        assert(is_digit(s.take(j)[j - 1]));
        assert forall|k: int| 0 <= k < j - 1 implies is_digit(#[trigger] s.take(j - 1)[k]) by {
            assert(s.take(j - 1)[k] == s.take(j)[k]);
        }
        lemma_digits_value_grows(s, i, j - 1);
    }
}

/// `nat_digits` writes digits only, at least one, with no leading zero but
/// for zero itself, and they denote the number written.
pub proof fn lemma_nat_digits(n: nat)
    ensures
        nat_digits(n).len() >= 1,
        all_digits(nat_digits(n)),
        digits_value(nat_digits(n)) == n,
        n > 0 ==> nat_digits(n)[0] != 48,
    decreases n,
{
    if n < 10 {
        assert(nat_digits(n).drop_last() =~= Seq::<u8>::empty());
        assert(digits_value(Seq::<u8>::empty()) == 0);
    } else {
        lemma_nat_digits(n / 10);
        lemma_digits_value_push(nat_digits(n / 10), (48 + n % 10) as u8);
    }
}

/// Reading back what `nat_digits` wrote gives the number, whenever it is in
/// range.
pub proof fn lemma_parse_nat_digits(n: nat, max: nat)
    requires
        n <= max,
    ensures
        parse_magnitude(nat_digits(n), max) == Ok::<nat, NumberFault>(n),
{
    let s = nat_digits(n);
    lemma_nat_digits(n);
    lemma_skip_digits_is(s, 0, s.len() as int);
    assert(s.take(s.len() as int) =~= s);
}

/// Reading back what `int_digits` wrote gives the number.
pub proof fn lemma_parse_int_digits(n: i64)
    ensures
        parse_signed(int_digits(n as int)) == Ok::<i64, NumberFault>(n),
{
    if n < 0 {
        let m = (-n) as nat;
        lemma_nat_digits(m);
        lemma_parse_nat_digits(m, 0x8000_0000_0000_0000);
        assert(int_digits(n as int).skip(1) =~= nat_digits(m));
    } else {
        lemma_nat_digits(n as nat);
        lemma_parse_nat_digits(n as nat, 0x7fff_ffff_ffff_ffff);
    }
}

/// Appends the decimal numeral of `n` to `buffer`.
pub fn write_nat(buffer: &mut Vec<u8>, n: u64)
    ensures
        final(buffer)@ == old(buffer)@ + nat_digits(n as nat),
    decreases n,
{
    if n >= 10 {
        write_nat(buffer, n / 10);
    }
    let digit: u8 = 48 + (n % 10) as u8;
    buffer.push(digit);
    proof {
        if n < 10 {
            assert(old(buffer)@.push(digit) =~= old(buffer)@ + nat_digits(n as nat));
        } else {
            assert((old(buffer)@ + nat_digits((n / 10) as nat)).push(digit) =~= old(buffer)@
                + nat_digits(n as nat));
        }
    }
}

/// Appends the decimal numeral of `n` to `buffer`, with a leading `-` when
/// `n` is negative.
pub fn write_int(buffer: &mut Vec<u8>, n: i64)
    ensures
        final(buffer)@ == old(buffer)@ + int_digits(n as int),
{
    if n < 0 {
        buffer.push(45u8);
        let magnitude: u64 = (-(n + 1)) as u64 + 1;
        write_nat(buffer, magnitude);
        assert(buffer@ =~= old(buffer)@ + int_digits(n as int));
    } else {
        write_nat(buffer, n as u64);
    }
}

/// Reads the unsigned numeral `text`, accepting values up to `max`.
pub fn read_magnitude(text: &[u8], max: u64) -> (r: Result<u64, NumberFault>)
    ensures
        match r {
            Ok(v) => parse_magnitude(text@, max as nat) == Ok::<nat, NumberFault>(v as nat),
            Err(fault) => parse_magnitude(text@, max as nat) == Err::<nat, NumberFault>(fault),
        },
        r matches Ok(v) ==> v <= max,
{
    if text.len() == 0 {
        return Err(NumberFault::Empty);
    }
    let mut value: u64 = 0;
    let mut i: usize = 0;
    while i < text.len()
        invariant
            0 <= i <= text.len(),
            forall|k: int| 0 <= k < i ==> is_digit(#[trigger] text@[k]),
            value == digits_value(text@.take(i as int)),
            value <= max,
        decreases text.len() - i,
    {
        let byte = text[i];
        if byte < 48 || byte > 57 {
            proof {
                lemma_skip_digits_is(text@, 0, i as int);
            }
            return Err(NumberFault::InvalidDigit);
        }
        let digit: u64 = (byte - 48) as u64;
        proof {
            lemma_skip_digits(text@, 0);
            let run = skip_digits(text@, 0);
            if run <= i {
                assert(!is_digit(text@[run]));
            }
            assert(text@.take(i + 1).drop_last() =~= text@.take(i as int));
            assert(all_digits(text@.take(run))) by {
                assert(text@.take(run) =~= text@.subrange(0, run));
            }
            lemma_digits_value_grows(text@, i + 1, run);
        }
        if value > max / 10 || digit > max - value * 10 {
            return Err(NumberFault::TooLarge);
        }
        value = value * 10 + digit;
        i = i + 1;
    }
    proof {
        lemma_skip_digits_is(text@, 0, text@.len() as int);
        assert(text@.take(text@.len() as int) =~= text@);
    }
    Ok(value)
}

/// Reads the signed numeral `text` into an `i64`.
pub fn read_signed(text: &[u8]) -> (r: Result<i64, NumberFault>)
    ensures
        r == parse_signed(text@),
{
    if text.len() == 0 {
        return Err(NumberFault::Empty);
    }
    if text[0] == 45u8 {
        if text.len() == 1 {
            return Err(NumberFault::InvalidDigit);
        }
        let digits = vstd::slice::slice_subrange(text, 1, text.len());
        assert(digits@ =~= text@.skip(1));
        match read_magnitude(digits, 0x8000_0000_0000_0000) {
            Ok(v) => {
                if v == 0x8000_0000_0000_0000 {
                    Ok(i64::MIN)
                } else {
                    Ok(-(v as i64))
                }
            },
            Err(NumberFault::TooLarge) => Err(NumberFault::TooSmall),
            Err(fault) => Err(fault),
        }
    } else {
        match read_magnitude(text, 0x7fff_ffff_ffff_ffff) {
            Ok(v) => Ok(v as i64),
            Err(fault) => Err(fault),
        }
    }
}

} // verus!
