//! The header of a uTP packet, version 1, and how it is drawn.
//!
//! ```text
//! 0       4       8               16              24              32
//! +-------+-------+---------------+---------------+---------------+
//! | type  | ver   | extension     | connection_id                 |
//! +-------+-------+---------------+---------------+---------------+
//! | timestamp_microseconds                                        |
//! +---------------+---------------+---------------+---------------+
//! | timestamp_difference_microseconds                             |
//! +---------------+---------------+---------------+---------------+
//! | wnd_size                                                      |
//! +---------------+---------------+---------------+---------------+
//! | seq_nr                        | ack_nr                        |
//! +---------------+---------------+---------------+---------------+
//! ```

use crate::bencoding::text::{ascii_string, ascii_text, is_ascii_bytes};
use vstd::prelude::*;

verus! {

/// The lower-case hexadecimal digit of `n`, which is below 16.
pub open spec fn hex_lower(n: nat) -> u8 {
    if n < 10 {
        (48 + n) as u8
    } else {
        (87 + n) as u8
    }
}

/// The last `width` hexadecimal digits of `n`, with leading zeros.
pub open spec fn hex_digits(n: nat, width: nat) -> Seq<u8>
    decreases width,
{
    if width == 0 {
        Seq::empty()
    } else {
        hex_digits(n / 16, (width - 1) as nat).push(hex_lower(n % 16))
    }
}

/// The hexadecimal digits of `n` without leading zeros; one zero for zero.
pub open spec fn hex_minimal(n: nat) -> Seq<u8>
    decreases n,
{
    if n < 16 {
        seq![hex_lower(n)]
    } else {
        hex_minimal(n / 16).push(hex_lower(n % 16))
    }
}

pub proof fn lemma_hex_digits(n: nat, width: nat)
    ensures
        hex_digits(n, width).len() == width,
        is_ascii_bytes(hex_digits(n, width)),
    decreases width,
{
    if width > 0 {
        lemma_hex_digits(n / 16, (width - 1) as nat);
    }
}

pub proof fn lemma_hex_minimal(n: nat)
    ensures
        hex_minimal(n).len() >= 1,
        is_ascii_bytes(hex_minimal(n)),
    decreases n,
{
    if n >= 16 {
        lemma_hex_minimal(n / 16);
    }
}

/// The hexadecimal digit of `n`.
fn hex_digit(n: u32) -> (digit: u8)
    requires
        n < 16,
    ensures
        digit == hex_lower(n as nat),
{
    if n < 10 {
        48 + n as u8
    } else {
        87 + n as u8
    }
}

/// Appends the last `width` hexadecimal digits of `n`.
pub fn write_hex(buffer: &mut Vec<u8>, n: u32, width: usize)
    ensures
        final(buffer)@ == old(buffer)@ + hex_digits(n as nat, width as nat),
    decreases width,
{
    if width == 0 {
        assert(buffer@ =~= old(buffer)@ + hex_digits(n as nat, 0));
    } else {
        write_hex(buffer, n / 16, width - 1);
        buffer.push(hex_digit(n % 16));
        assert(buffer@ =~= old(buffer)@ + hex_digits(n as nat, width as nat));
    }
}

/// Appends the hexadecimal digits of `n` without leading zeros.
pub fn write_hex_minimal(buffer: &mut Vec<u8>, n: u32)
    ensures
        final(buffer)@ == old(buffer)@ + hex_minimal(n as nat),
    decreases n,
{
    if n >= 16 {
        write_hex_minimal(buffer, n / 16);
    }
    buffer.push(hex_digit(n % 16));
    assert(buffer@ =~= old(buffer)@ + hex_minimal(n as nat));
}

/// The text `0x` and the last `width` hexadecimal digits of `n`.
pub open spec fn hex_text(n: nat, width: nat) -> Seq<char> {
    "0x"@ + ascii_text(hex_digits(n, width))
}

/// The text `0x` and the hexadecimal digits of `n` without leading zeros.
pub open spec fn hex_minimal_text(n: nat) -> Seq<char> {
    "0x"@ + ascii_text(hex_minimal(n))
}

/// The text `0x` and the last `width` hexadecimal digits of `n`.
pub fn hex_string(n: u32, width: usize) -> (text: String)
    ensures
        text@ == hex_text(n as nat, width as nat),
{
    let mut digits: Vec<u8> = Vec::new();
    write_hex(&mut digits, n, width);
    proof {
        lemma_hex_digits(n as nat, width as nat);
        assert(digits@ =~= hex_digits(n as nat, width as nat));
    }
    let mut text = String::from_str("0x");
    text.append(ascii_string(digits.as_slice()).as_str());
    text
}

/// The text `0x` and the hexadecimal digits of `n` without leading zeros.
pub fn hex_minimal_string(n: u32) -> (text: String)
    ensures
        text@ == hex_minimal_text(n as nat),
{
    let mut digits: Vec<u8> = Vec::new();
    write_hex_minimal(&mut digits, n);
    proof {
        lemma_hex_minimal(n as nat);
        assert(digits@ =~= hex_minimal(n as nat));
    }
    let mut text = String::from_str("0x");
    text.append(ascii_string(digits.as_slice()).as_str());
    text
}

/// The header of a uTP packet.
#[derive(Eq, PartialEq, Clone, Debug)]
pub struct Header {
    packet_type: u8,
    version: u8,
    extension: u8,
    connection_id: u16,
    timestamp_microseconds: u32,
    timestamp_difference_microseconds: u32,
    wnd_size: u32,
    seq_nr: u16,
    ack_nr: u16,
}

/// What a `Header` holds.
pub struct HeaderView {
    pub packet_type: u8,
    pub version: u8,
    pub extension: u8,
    pub connection_id: u16,
    pub timestamp_microseconds: u32,
    pub timestamp_difference_microseconds: u32,
    pub wnd_size: u32,
    pub seq_nr: u16,
    pub ack_nr: u16,
}

impl View for Header {
    type V = HeaderView;

    closed spec fn view(&self) -> HeaderView {
        HeaderView {
            packet_type: self.packet_type,
            version: self.version,
            extension: self.extension,
            connection_id: self.connection_id,
            timestamp_microseconds: self.timestamp_microseconds,
            timestamp_difference_microseconds: self.timestamp_difference_microseconds,
            wnd_size: self.wnd_size,
            seq_nr: self.seq_nr,
            ack_nr: self.ack_nr,
        }
    }
}

/// The line that separates the first row from the second.
pub open spec fn narrow_border() -> Seq<char> {
    "+-------+-------+---------------+---------------+---------------+\n"@
}

/// The line that separates the other rows.
pub open spec fn wide_border() -> Seq<char> {
    "+---------------+---------------+---------------+---------------+\n"@
}

/// A row that holds one 32-bit field.
pub open spec fn wide_row(n: u32) -> Seq<char> {
    "| "@ + hex_text(n as nat, 8)
        + "                                                    |\n"@
}

/// The header drawn as a table: a ruler of bit positions, then one row for
/// every 32 bits, each field in hexadecimal at its full width, but for the
/// type and the version, which are written without leading zeros.
pub open spec fn header_text(h: HeaderView) -> Seq<char> {
    "0       4       8               16              24              32\n"@ + narrow_border()
        + ("| "@ + hex_minimal_text(h.packet_type as nat) + "   | "@ + hex_minimal_text(
        h.version as nat,
    ) + "   | "@ + hex_text(h.extension as nat, 2) + "          | "@ + hex_text(
        h.connection_id as nat,
        4,
    ) + "                        |\n"@) + narrow_border() + wide_row(h.timestamp_microseconds)
        + wide_border() + wide_row(h.timestamp_difference_microseconds) + wide_border() + wide_row(
        h.wnd_size,
    ) + wide_border() + ("| "@ + hex_text(h.seq_nr as nat, 4) + "                        | "@
        + hex_text(h.ack_nr as nat, 4) + "                        |\n"@) + wide_border()
}

/// Appends a row that holds one 32-bit field.
fn append_wide_row(shown: &mut String, n: u32)
    ensures
        final(shown)@ == old(shown)@ + wide_row(n),
{
    shown.append("| ");
    shown.append(hex_string(n, 8).as_str());
    shown.append("                                                    |\n");
    assert(shown@ =~= old(shown)@ + wide_row(n));
}

impl Header {
    /// A header with the given fields.
    pub fn new(
        packet_type: u8,
        version: u8,
        extension: u8,
        connection_id: u16,
        timestamp_microseconds: u32,
        timestamp_difference_microseconds: u32,
        wnd_size: u32,
        seq_nr: u16,
        ack_nr: u16,
    ) -> (h: Self)
        ensures
            h@ == (HeaderView {
                packet_type,
                version,
                extension,
                connection_id,
                timestamp_microseconds,
                timestamp_difference_microseconds,
                wnd_size,
                seq_nr,
                ack_nr,
            }),
    {
        Self {
            packet_type,
            version,
            extension,
            connection_id,
            timestamp_microseconds,
            timestamp_difference_microseconds,
            wnd_size,
            seq_nr,
            ack_nr,
        }
    }

    /// Draws the header as a table.
    pub fn to_string(&self) -> (shown: String)
        ensures
            shown@ == header_text(self@),
    {
        let mut shown = String::from_str(
            "0       4       8               16              24              32\n",
        );
        shown.append("+-------+-------+---------------+---------------+---------------+\n");
        shown.append("| ");
        shown.append(hex_minimal_string(self.packet_type as u32).as_str());
        shown.append("   | ");
        shown.append(hex_minimal_string(self.version as u32).as_str());
        shown.append("   | ");
        shown.append(hex_string(self.extension as u32, 2).as_str());
        shown.append("          | ");
        shown.append(hex_string(self.connection_id as u32, 4).as_str());
        shown.append("                        |\n");
        shown.append("+-------+-------+---------------+---------------+---------------+\n");
        append_wide_row(&mut shown, self.timestamp_microseconds);
        shown.append("+---------------+---------------+---------------+---------------+\n");
        append_wide_row(&mut shown, self.timestamp_difference_microseconds);
        shown.append("+---------------+---------------+---------------+---------------+\n");
        append_wide_row(&mut shown, self.wnd_size);
        shown.append("+---------------+---------------+---------------+---------------+\n");
        shown.append("| ");
        shown.append(hex_string(self.seq_nr as u32, 4).as_str());
        shown.append("                        | ");
        shown.append(hex_string(self.ack_nr as u32, 4).as_str());
        shown.append("                        |\n");
        shown.append("+---------------+---------------+---------------+---------------+\n");
        assert(shown@ =~= header_text(self@));
        shown
    }
}

} // verus!
