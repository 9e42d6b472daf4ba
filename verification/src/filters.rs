//! Stream filters (ISO 32000-1, 7.4): filter names, ASCIIHexDecode,
//! ASCII85Decode, and FlateDecode with its recovery strategies.

use vstd::prelude::*;
use crate::encoding::push_char;
use crate::error::{ParseError, ParseResult};
use crate::parse_options::ParseOptions;
use crate::text::{decimal_seq, push_decimal, str_eq};

verus! {

/// Supported PDF filters.
#[derive(Debug, Clone, Copy, PartialEq, Eq, Structural)]
pub enum Filter {
    /// ASCII hex decode
    ASCIIHexDecode,
    /// ASCII 85 decode
    ASCII85Decode,
    /// LZW decode
    LZWDecode,
    /// Flate decode (zlib/deflate compression)
    FlateDecode,
    /// Run length decode
    RunLengthDecode,
    /// CCITT fax decode
    CCITTFaxDecode,
    /// JBIG2 decode
    JBIG2Decode,
    /// DCT decode (JPEG)
    DCTDecode,
    /// JPX decode (JPEG 2000)
    JPXDecode,
    /// Crypt filter
    Crypt,
}

/// The name of a filter as it appears in a stream dictionary.
pub open spec fn filter_name(f: Filter) -> Seq<char> {
    match f {
        Filter::ASCIIHexDecode => "ASCIIHexDecode"@,
        Filter::ASCII85Decode => "ASCII85Decode"@,
        Filter::LZWDecode => "LZWDecode"@,
        Filter::FlateDecode => "FlateDecode"@,
        Filter::RunLengthDecode => "RunLengthDecode"@,
        Filter::CCITTFaxDecode => "CCITTFaxDecode"@,
        Filter::JBIG2Decode => "JBIG2Decode"@,
        Filter::DCTDecode => "DCTDecode"@,
        Filter::JPXDecode => "JPXDecode"@,
        Filter::Crypt => "Crypt"@,
    }
}

/// The filter a name stands for, if any.
pub open spec fn filter_of_name(name: Seq<char>) -> Option<Filter> {
    if name == "ASCIIHexDecode"@ {
        Some(Filter::ASCIIHexDecode)
    } else if name == "ASCII85Decode"@ {
        Some(Filter::ASCII85Decode)
    } else if name == "LZWDecode"@ {
        Some(Filter::LZWDecode)
    } else if name == "FlateDecode"@ {
        Some(Filter::FlateDecode)
    } else if name == "RunLengthDecode"@ {
        Some(Filter::RunLengthDecode)
    } else if name == "CCITTFaxDecode"@ {
        Some(Filter::CCITTFaxDecode)
    } else if name == "JBIG2Decode"@ {
        Some(Filter::JBIG2Decode)
    } else if name == "DCTDecode"@ {
        Some(Filter::DCTDecode)
    } else if name == "JPXDecode"@ {
        Some(Filter::JPXDecode)
    } else if name == "Crypt"@ {
        Some(Filter::Crypt)
    } else {
        None
    }
}

impl Filter {
    /// The filter named `name`, or `None` for an unknown name.
    pub fn from_name(name: &str) -> (r: Option<Self>)
        ensures
            r == filter_of_name(name@),
    {
        if str_eq(name, "ASCIIHexDecode") {
            Some(Filter::ASCIIHexDecode)
        } else if str_eq(name, "ASCII85Decode") {
            Some(Filter::ASCII85Decode)
        } else if str_eq(name, "LZWDecode") {
            Some(Filter::LZWDecode)
        } else if str_eq(name, "FlateDecode") {
            Some(Filter::FlateDecode)
        } else if str_eq(name, "RunLengthDecode") {
            Some(Filter::RunLengthDecode)
        } else if str_eq(name, "CCITTFaxDecode") {
            Some(Filter::CCITTFaxDecode)
        } else if str_eq(name, "JBIG2Decode") {
            Some(Filter::JBIG2Decode)
        } else if str_eq(name, "DCTDecode") {
            Some(Filter::DCTDecode)
        } else if str_eq(name, "JPXDecode") {
            Some(Filter::JPXDecode)
        } else if str_eq(name, "Crypt") {
            Some(Filter::Crypt)
        } else {
            None
        }
    }

    /// The filter's name.
    pub fn name(&self) -> (s: String)
        ensures
            s@ == filter_name(*self),
    {
        match self {
            Filter::ASCIIHexDecode => String::from_str("ASCIIHexDecode"),
            Filter::ASCII85Decode => String::from_str("ASCII85Decode"),
            Filter::LZWDecode => String::from_str("LZWDecode"),
            Filter::FlateDecode => String::from_str("FlateDecode"),
            Filter::RunLengthDecode => String::from_str("RunLengthDecode"),
            Filter::CCITTFaxDecode => String::from_str("CCITTFaxDecode"),
            Filter::JBIG2Decode => String::from_str("JBIG2Decode"),
            Filter::DCTDecode => String::from_str("DCTDecode"),
            Filter::JPXDecode => String::from_str("JPXDecode"),
            Filter::Crypt => String::from_str("Crypt"),
        }
    }
}

/// The standard filter names (ISO 32000-1, table 6) stand for their
/// filters.
pub proof fn lemma_standard_filter_names()
    ensures
        filter_of_name("ASCIIHexDecode"@) == Some(Filter::ASCIIHexDecode),
        filter_of_name("ASCII85Decode"@) == Some(Filter::ASCII85Decode),
        filter_of_name("LZWDecode"@) == Some(Filter::LZWDecode),
        filter_of_name("FlateDecode"@) == Some(Filter::FlateDecode),
        filter_of_name("RunLengthDecode"@) == Some(Filter::RunLengthDecode),
        filter_of_name("CCITTFaxDecode"@) == Some(Filter::CCITTFaxDecode),
        filter_of_name("JBIG2Decode"@) == Some(Filter::JBIG2Decode),
        filter_of_name("DCTDecode"@) == Some(Filter::DCTDecode),
        filter_of_name("JPXDecode"@) == Some(Filter::JPXDecode),
        filter_of_name("Crypt"@) == Some(Filter::Crypt),
{
    lemma_filter_name_roundtrip(Filter::ASCIIHexDecode);
    lemma_filter_name_roundtrip(Filter::ASCII85Decode);
    lemma_filter_name_roundtrip(Filter::LZWDecode);
    lemma_filter_name_roundtrip(Filter::FlateDecode);
    lemma_filter_name_roundtrip(Filter::RunLengthDecode);
    lemma_filter_name_roundtrip(Filter::CCITTFaxDecode);
    lemma_filter_name_roundtrip(Filter::JBIG2Decode);
    lemma_filter_name_roundtrip(Filter::DCTDecode);
    lemma_filter_name_roundtrip(Filter::JPXDecode);
    lemma_filter_name_roundtrip(Filter::Crypt);
}

/// A name stands for a filter exactly when it is that filter's name.
pub proof fn lemma_filter_of_name_exact(n: Seq<char>, f: Filter)
    ensures
        filter_of_name(n) == Some(f) <==> n == filter_name(f),
{
    lemma_filter_name_roundtrip(f);
}

/// Every filter is found again by its name.
#[verifier::spinoff_prover]
pub proof fn lemma_filter_name_roundtrip(f: Filter)
    ensures
        filter_of_name(filter_name(f)) == Some(f),
{
    match f {
        Filter::ASCIIHexDecode => {
            reveal_strlit("ASCIIHexDecode");
        },
        Filter::ASCII85Decode => {
            reveal_strlit("ASCII85Decode");
            reveal_strlit("ASCIIHexDecode");
            assert("ASCII85Decode"@[5] != "ASCIIHexDecode"@[5]);
        },
        Filter::LZWDecode => {
            reveal_strlit("LZWDecode");
            reveal_strlit("ASCIIHexDecode");
            assert("LZWDecode"@[0] != "ASCIIHexDecode"@[0]);
            reveal_strlit("ASCII85Decode");
            assert("LZWDecode"@[0] != "ASCII85Decode"@[0]);
        },
        Filter::FlateDecode => {
            reveal_strlit("FlateDecode");
            reveal_strlit("ASCIIHexDecode");
            assert("FlateDecode"@[0] != "ASCIIHexDecode"@[0]);
            reveal_strlit("ASCII85Decode");
            assert("FlateDecode"@[0] != "ASCII85Decode"@[0]);
            reveal_strlit("LZWDecode");
            assert("FlateDecode"@[0] != "LZWDecode"@[0]);
        },
        Filter::RunLengthDecode => {
            reveal_strlit("RunLengthDecode");
            reveal_strlit("ASCIIHexDecode");
            assert("RunLengthDecode"@[0] != "ASCIIHexDecode"@[0]);
            reveal_strlit("ASCII85Decode");
            assert("RunLengthDecode"@[0] != "ASCII85Decode"@[0]);
            reveal_strlit("LZWDecode");
            assert("RunLengthDecode"@[0] != "LZWDecode"@[0]);
            reveal_strlit("FlateDecode");
            assert("RunLengthDecode"@[0] != "FlateDecode"@[0]);
        },
        Filter::CCITTFaxDecode => {
            reveal_strlit("CCITTFaxDecode");
            reveal_strlit("ASCIIHexDecode");
            assert("CCITTFaxDecode"@[0] != "ASCIIHexDecode"@[0]);
            reveal_strlit("ASCII85Decode");
            assert("CCITTFaxDecode"@[0] != "ASCII85Decode"@[0]);
            reveal_strlit("LZWDecode");
            assert("CCITTFaxDecode"@[0] != "LZWDecode"@[0]);
            reveal_strlit("FlateDecode");
            assert("CCITTFaxDecode"@[0] != "FlateDecode"@[0]);
            reveal_strlit("RunLengthDecode");
            assert("CCITTFaxDecode"@[0] != "RunLengthDecode"@[0]);
        },
        Filter::JBIG2Decode => {
            reveal_strlit("JBIG2Decode");
            reveal_strlit("ASCIIHexDecode");
            assert("JBIG2Decode"@[0] != "ASCIIHexDecode"@[0]);
            reveal_strlit("ASCII85Decode");
            assert("JBIG2Decode"@[0] != "ASCII85Decode"@[0]);
            reveal_strlit("LZWDecode");
            assert("JBIG2Decode"@[0] != "LZWDecode"@[0]);
            reveal_strlit("FlateDecode");
            assert("JBIG2Decode"@[0] != "FlateDecode"@[0]);
            reveal_strlit("RunLengthDecode");
            assert("JBIG2Decode"@[0] != "RunLengthDecode"@[0]);
            reveal_strlit("CCITTFaxDecode");
            assert("JBIG2Decode"@[0] != "CCITTFaxDecode"@[0]);
        },
        Filter::DCTDecode => {
            reveal_strlit("DCTDecode");
            reveal_strlit("ASCIIHexDecode");
            assert("DCTDecode"@[0] != "ASCIIHexDecode"@[0]);
            reveal_strlit("ASCII85Decode");
            assert("DCTDecode"@[0] != "ASCII85Decode"@[0]);
            reveal_strlit("LZWDecode");
            assert("DCTDecode"@[0] != "LZWDecode"@[0]);
            reveal_strlit("FlateDecode");
            assert("DCTDecode"@[0] != "FlateDecode"@[0]);
            reveal_strlit("RunLengthDecode");
            assert("DCTDecode"@[0] != "RunLengthDecode"@[0]);
            reveal_strlit("CCITTFaxDecode");
            assert("DCTDecode"@[0] != "CCITTFaxDecode"@[0]);
            reveal_strlit("JBIG2Decode");
            assert("DCTDecode"@[0] != "JBIG2Decode"@[0]);
        },
        Filter::JPXDecode => {
            reveal_strlit("JPXDecode");
            reveal_strlit("ASCIIHexDecode");
            assert("JPXDecode"@[0] != "ASCIIHexDecode"@[0]);
            reveal_strlit("ASCII85Decode");
            assert("JPXDecode"@[0] != "ASCII85Decode"@[0]);
            reveal_strlit("LZWDecode");
            assert("JPXDecode"@[0] != "LZWDecode"@[0]);
            reveal_strlit("FlateDecode");
            assert("JPXDecode"@[0] != "FlateDecode"@[0]);
            reveal_strlit("RunLengthDecode");
            assert("JPXDecode"@[0] != "RunLengthDecode"@[0]);
            reveal_strlit("CCITTFaxDecode");
            assert("JPXDecode"@[0] != "CCITTFaxDecode"@[0]);
            reveal_strlit("JBIG2Decode");
            assert("JPXDecode"@[1] != "JBIG2Decode"@[1]);
            reveal_strlit("DCTDecode");
            assert("JPXDecode"@[0] != "DCTDecode"@[0]);
        },
        Filter::Crypt => {
            reveal_strlit("Crypt");
            reveal_strlit("ASCIIHexDecode");
            assert("Crypt"@[0] != "ASCIIHexDecode"@[0]);
            reveal_strlit("ASCII85Decode");
            assert("Crypt"@[0] != "ASCII85Decode"@[0]);
            reveal_strlit("LZWDecode");
            assert("Crypt"@[0] != "LZWDecode"@[0]);
            reveal_strlit("FlateDecode");
            assert("Crypt"@[0] != "FlateDecode"@[0]);
            reveal_strlit("RunLengthDecode");
            assert("Crypt"@[0] != "RunLengthDecode"@[0]);
            reveal_strlit("CCITTFaxDecode");
            assert("Crypt"@[1] != "CCITTFaxDecode"@[1]);
            reveal_strlit("JBIG2Decode");
            assert("Crypt"@[0] != "JBIG2Decode"@[0]);
            reveal_strlit("DCTDecode");
            assert("Crypt"@[0] != "DCTDecode"@[0]);
            reveal_strlit("JPXDecode");
            assert("Crypt"@[0] != "JPXDecode"@[0]);
        },
    }
}

/// ASCII whitespace: space, tab, line feed, form feed, carriage return.
pub open spec fn is_ascii_ws(b: u8) -> bool {
    b == 0x20 || b == 0x09 || b == 0x0A || b == 0x0C || b == 0x0D
}

/// The bytes that are not ASCII whitespace, in order.
pub open spec fn nonws(data: Seq<u8>) -> Seq<u8> {
    data.filter(|b: u8| !is_ascii_ws(b))
}

/// The bytes of `data` that are not ASCII whitespace.
pub fn collect_nonws(data: &[u8]) -> (v: Vec<u8>)
    ensures
        v@ == nonws(data@),
{
    let mut v: Vec<u8> = Vec::new();
    let mut i: usize = 0;
    assert(nonws(data@.take(0)) =~= Seq::<u8>::empty());
    while i < data.len()
        invariant
            i <= data.len(),
            v@ == nonws(data@.take(i as int)),
        decreases data.len() - i,
    {
        let b = data[i];
        let ghost t = data@.take(i + 1);
        proof {
            reveal(Seq::filter);
        }
        assert(t.drop_last() =~= data@.take(i as int));
        assert(t.last() == b);
        assert(nonws(t) == (if !is_ascii_ws(b) {
            nonws(data@.take(i as int)).push(b)
        } else {
            nonws(data@.take(i as int))
        }));
        if !(b == 0x20 || b == 0x09 || b == 0x0A || b == 0x0C || b == 0x0D) {
            v.push(b);
        }
        i = i + 1;
    }
    assert(data@.take(data.len() as int) =~= data@);
    v
}

/// The value of a hexadecimal digit.
pub open spec fn hex_digit_spec(c: u8) -> Option<u8> {
    if 0x30 <= c <= 0x39 {
        Some((c - 0x30) as u8)
    } else if 0x41 <= c <= 0x46 {
        Some((c - 0x41 + 10) as u8)
    } else if 0x61 <= c <= 0x66 {
        Some((c - 0x61 + 10) as u8)
    } else {
        None
    }
}

/// Value of a hexadecimal digit, `None` for any other byte.
pub fn hex_digit_value(ch: u8) -> (r: Option<u8>)
    ensures
        r == hex_digit_spec(ch),
{
    if 0x30 <= ch && ch <= 0x39 {
        Some(ch - 0x30)
    } else if 0x41 <= ch && ch <= 0x46 {
        Some(ch - 0x41 + 10)
    } else if 0x61 <= ch && ch <= 0x66 {
        Some(ch - 0x61 + 10)
    } else {
        None
    }
}

/// The low digit paired with the digit at `i`: the next byte, or `0`
/// when the data ends or the next byte is `>`.
pub open spec fn hex_low_digit(f: Seq<u8>, i: int) -> u8 {
    if i + 1 >= f.len() || f[i + 1] == 0x3E {
        0x30
    } else {
        f[i + 1]
    }
}

/// The message for an invalid hexadecimal digit.
pub open spec fn invalid_hex_message(c: u8) -> Seq<char> {
    "Invalid hex digit: "@.push(c as char)
}

/// Hex pairs decoded from index `i` of the non-whitespace bytes `f` and
/// appended to `acc`, until `>` or the end of the data (a `>` in place of
/// a low digit stands for `0` and ends the data).
pub open spec fn hex_decode_from(f: Seq<u8>, i: int, acc: Seq<u8>) -> Result<Seq<u8>, Seq<char>>
    decreases f.len() + 1 - i,
{
    if i < 0 || i >= f.len() || f[i] == 0x3E {
        Ok(acc)
    } else {
        let low = hex_low_digit(f, i);
        match hex_digit_spec(f[i]) {
            None => Err(invalid_hex_message(f[i])),
            Some(h) => match hex_digit_spec(low) {
                None => Err(invalid_hex_message(low)),
                Some(l) => if i + 1 < f.len() && f[i + 1] == 0x3E {
                    Ok(acc.push((h * 16 + l) as u8))
                } else {
                    hex_decode_from(f, i + 2, acc.push((h * 16 + l) as u8))
                },
            },
        }
    }
}

/// ASCIIHexDecode of `data`: the decoded bytes or the error message.
pub open spec fn ascii_hex_decoded(data: Seq<u8>) -> Result<Seq<u8>, Seq<char>> {
    hex_decode_from(nonws(data), 0, Seq::empty())
}

/// A byte's character (Latin-1).
pub fn byte_char(b: u8) -> (c: char)
    ensures
        c == b as char,
{
    b as char
}

/// `prefix` followed by the character of byte `b`.
fn message_with_byte(prefix: &str, b: u8) -> (s: String)
    ensures
        s@ == prefix@.push(b as char),
{
    let mut s = String::from_str(prefix);
    push_char(&mut s, byte_char(b));
    s
}

proof fn lemma_hex_pack(h: u8, l: u8)
    requires
        h < 16,
        l < 16,
    ensures
        (h << 4u8) | l == (h * 16 + l) as u8,
{
    assert(h < 16 && l < 16 ==> (h << 4u8) | l == (h * 16 + l) as u8) by (bit_vector);
}

/// Decode ASCIIHexDecode data: whitespace is skipped, pairs of hex digits
/// give bytes, `>` ends the data, and an odd final digit is padded with 0.
pub fn decode_ascii_hex(data: &[u8]) -> (r: ParseResult<Vec<u8>>)
    ensures
        match ascii_hex_decoded(data@) {
            Ok(v) => r matches Ok(w) && w@ == v,
            Err(m) => r matches Err(ParseError::StreamDecodeError(msg)) && msg@ == m,
        },
{
    let f = collect_nonws(data);
    let mut result: Vec<u8> = Vec::new();
    let mut i: usize = 0;
    while i < f.len() && f[i] != 0x3E
        invariant
            f@ == nonws(data@),
            i <= f.len() + 1,
            ascii_hex_decoded(data@) == hex_decode_from(f@, i as int, result@),
        decreases f.len() + 1 - i,
    {
        let high = f[i];
        let low = if i + 1 >= f.len() || f[i + 1] == 0x3E {
            0x30u8
        } else {
            f[i + 1]
        };
        let high_val = match hex_digit_value(high) {
            Some(v) => v,
            None => {
                return Err(ParseError::StreamDecodeError(message_with_byte("Invalid hex digit: ", high)));
            },
        };
        let low_val = match hex_digit_value(low) {
            Some(v) => v,
            None => {
                return Err(ParseError::StreamDecodeError(message_with_byte("Invalid hex digit: ", low)));
            },
        };
        proof {
            lemma_hex_pack(high_val, low_val);
        }
        result.push((high_val << 4) | low_val);
        if i + 1 < f.len() && f[i + 1] == 0x3E {
            return Ok(result);
        }
        if i + 1 < f.len() {
            i = i + 2;
        } else {
            assert(hex_decode_from(f@, i + 2, result@) == hex_decode_from(f@, f.len() as int, result@));
            i = f.len();
        }
    }
    Ok(result)
}

/// The number a complete ASCII85 group of five digits stands for.
pub open spec fn a85_group_value(g: Seq<u8>) -> int {
    (((((g[0] - 33) * 85 + (g[1] - 33)) * 85 + (g[2] - 33)) * 85 + (g[3] - 33)) * 85 + (g[4] - 33))
}

/// The four bytes of a number, most significant first, after keeping its
/// low 32 bits.
pub open spec fn be4(v: int) -> Seq<u8> {
    let w = v % 0x1_0000_0000;
    seq![(w / 0x100_0000) as u8, ((w / 0x1_0000) % 256) as u8, ((w / 256) % 256) as u8, (w % 256) as u8]
}

/// The message for a group worth 2^32 or more, which four bytes cannot hold.
pub open spec fn a85_range_message() -> Seq<char> {
    "Invalid ASCII85 group: value out of range"@
}

/// Output for the group left at the end: it is padded with `u` to five
/// digits and gives one byte fewer than it has digits; an error when the
/// padded group is worth 2^32 or more.
pub open spec fn a85_finish(g: Seq<u8>, acc: Seq<u8>) -> Result<Seq<u8>, Seq<char>> {
    if g.len() == 0 {
        Ok(acc)
    } else {
        let padded = g + Seq::new((5 - g.len()) as nat, |_i: int| 0x75u8);
        if a85_group_value(padded) >= 0x1_0000_0000 {
            Err(a85_range_message())
        } else {
            Ok(acc + be4(a85_group_value(padded)).take(g.len() - 1))
        }
    }
}

/// Whether the digit `c` completes the group `g` to one worth 2^32 or more.
pub open spec fn a85_overflows(c: u8, g: Seq<u8>) -> bool {
    !(c == 0x7A && g.len() == 0) && g.len() + 1 == 5 && a85_group_value(g.push(c)) >= 0x1_0000_0000
}

/// The group and output after the digit (or `z`) `c`.
pub open spec fn a85_digit_step(c: u8, g: Seq<u8>, acc: Seq<u8>) -> (Seq<u8>, Seq<u8>) {
    if c == 0x7A && g.len() == 0 {
        (g, acc + seq![0u8, 0u8, 0u8, 0u8])
    } else if g.len() + 1 == 5 {
        (Seq::<u8>::empty(), acc + be4(a85_group_value(g.push(c))))
    } else {
        (g.push(c), acc)
    }
}

/// Whether `c` is a digit, or a `z` that may stand here.
pub open spec fn a85_accepts(c: u8, g: Seq<u8>) -> bool {
    c == 0x7A && g.len() == 0 || 0x21 <= c <= 0x75
}

/// ASCII85 decoding from character `c`, which is followed by index `n` of
/// the non-whitespace bytes `f`, with the digits `g` of the current group
/// and the output `acc` so far.
#[verifier::opaque]
pub open spec fn a85_from(f: Seq<u8>, c: u8, n: int, g: Seq<u8>, acc: Seq<u8>) -> Result<Seq<u8>, Seq<char>>
    decreases f.len() + 1 - n,
{
    if c == 0x7E {
        if 0 <= n < f.len() && f[n] == 0x3E {
            a85_finish(g, acc)
        } else {
            Err("Invalid ASCII85 end marker"@)
        }
    } else if a85_accepts(c, g) && a85_overflows(c, g) {
        Err(a85_range_message())
    } else if a85_accepts(c, g) {
        let (g2, acc2) = a85_digit_step(c, g, acc);
        if n < 0 || n >= f.len() {
            a85_finish(g2, acc2)
        } else {
            a85_from(f, f[n], n + 1, g2, acc2)
        }
    } else {
        Err("Invalid ASCII85 character: "@.push(c as char))
    }
}

proof fn lemma_a85_from_unfold(f: Seq<u8>, c: u8, n: int, g: Seq<u8>, acc: Seq<u8>)
    ensures
        a85_from(f, c, n, g, acc) == (if c == 0x7E {
            if 0 <= n < f.len() && f[n] == 0x3E {
                a85_finish(g, acc)
            } else {
                Err("Invalid ASCII85 end marker"@)
            }
        } else if a85_accepts(c, g) && a85_overflows(c, g) {
            Err(a85_range_message())
        } else if a85_accepts(c, g) {
            if n < 0 || n >= f.len() {
                a85_finish(a85_digit_step(c, g, acc).0, a85_digit_step(c, g, acc).1)
            } else {
                a85_from(f, f[n], n + 1, a85_digit_step(c, g, acc).0, a85_digit_step(c, g, acc).1)
            }
        } else {
            Err("Invalid ASCII85 character: "@.push(c as char))
        }),
{
    reveal(a85_from);
}

/// ASCII85Decode of `data`: the decoded bytes or the error message.
/// Whitespace is skipped; an optional `<~` prefix is dropped (a `<` not
/// followed by `~` is a digit).
pub open spec fn ascii85_decoded(data: Seq<u8>) -> Result<Seq<u8>, Seq<char>> {
    let f = nonws(data);
    if f.len() == 0 {
        Ok(Seq::empty())
    } else if f[0] == 0x3C {
        if f.len() >= 2 && f[1] == 0x7E {
            if f.len() >= 3 {
                a85_from(f, f[2], 3, Seq::empty(), Seq::empty())
            } else {
                Ok(Seq::empty())
            }
        } else {
            a85_from(f, 0x3C, 1, Seq::empty(), Seq::empty())
        }
    } else {
        a85_from(f, f[0], 1, Seq::empty(), Seq::empty())
    }
}

/// The value of a group of five ASCII85 digits.
fn a85_value(g: &Vec<u8>) -> (v: u64)
    requires
        g.len() == 5,
        forall|i: int| 0 <= i < 5 ==> 0x21 <= #[trigger] g[i] <= 0x75,
    ensures
        v == a85_group_value(g@),
{
    let mut acc: u64 = 0;
    let mut i: usize = 0;
    while i < 5
        invariant
            i <= 5,
            g.len() == 5,
            forall|k: int| 0 <= k < 5 ==> 0x21 <= #[trigger] g[k] <= 0x75,
            acc < 4437053125,
            i == 0 ==> acc == 0,
            i == 1 ==> acc == g[0] - 33,
            i == 2 ==> acc == (g[0] - 33) * 85 + (g[1] - 33),
            i == 3 ==> acc == ((g[0] - 33) * 85 + (g[1] - 33)) * 85 + (g[2] - 33),
            i == 4 ==> acc == (((g[0] - 33) * 85 + (g[1] - 33)) * 85 + (g[2] - 33)) * 85 + (g[3] - 33),
            i == 5 ==> acc == a85_group_value(g@),
            acc < pow85(i as nat),
        decreases 5 - i,
    {
        let d = (g[i] - 33) as u64;
        proof {
            lemma_pow85_bound(i as nat);
        }
        assert(acc * 85 + d < pow85((i + 1) as nat)) by (nonlinear_arith)
            requires
                acc < pow85(i as nat),
                d <= 84,
                pow85((i + 1) as nat) == 85 * pow85(i as nat),
        ;
        acc = acc * 85 + d;
        i = i + 1;
    }
    acc
}

/// Whether the digit `c` completes the group to one worth 2^32 or more.
fn a85_check_overflow(c: u8, group: &Vec<u8>) -> (b: bool)
    requires
        a85_accepts(c, group@),
        group.len() < 5,
        forall|i: int| 0 <= i < group.len() ==> 0x21 <= #[trigger] group[i] <= 0x75,
    ensures
        b == a85_overflows(c, group@),
{
    if (c == 0x7A && group.len() == 0) || group.len() != 4 {
        return false;
    }
    let mut full = crate::text::bytes_to_vec(group.as_slice());
    full.push(c);
    assert(full@ == group@.push(c));
    a85_value(&full) >= 0x1_0000_0000
}

/// 85 to the power `n`.
pub open spec fn pow85(n: nat) -> int
    decreases n,
{
    if n == 0 {
        1
    } else {
        85 * pow85((n - 1) as nat)
    }
}

proof fn lemma_pow85_bound(n: nat)
    requires
        n < 5,
    ensures
        pow85(n + 1) == 85 * pow85(n),
        pow85(n + 1) <= 4437053125,
{
    reveal_with_fuel(pow85, 6);
}

/// Append the four bytes of `v`, most significant first.
fn push_be4(out: &mut Vec<u8>, v: u32)
    ensures
        final(out)@ == old(out)@ + be4(v as int),
{
    out.push((v / 0x100_0000) as u8);
    out.push(((v / 0x1_0000) % 256) as u8);
    out.push(((v / 256) % 256) as u8);
    out.push((v % 256) as u8);
    assert(final(out)@ =~= old(out)@ + be4(v as int));
}

/// Take the digit (or `z`) `c` into the group, emitting four bytes when
/// the group is complete.
fn a85_push_digit(c: u8, group: &mut Vec<u8>, result: &mut Vec<u8>)
    requires
        a85_accepts(c, old(group)@),
        !a85_overflows(c, old(group)@),
        old(group).len() < 5,
        forall|i: int| 0 <= i < old(group).len() ==> 0x21 <= #[trigger] old(group)[i] <= 0x75,
    ensures
        (final(group)@, final(result)@) == a85_digit_step(c, old(group)@, old(result)@),
        final(group).len() < 5,
        forall|i: int| 0 <= i < final(group).len() ==> 0x21 <= #[trigger] final(group)[i] <= 0x75,
{
    if c == 0x7A && group.len() == 0 {
        let ghost r0 = result@;
        result.push(0);
        result.push(0);
        result.push(0);
        result.push(0);
        assert(result@ =~= r0 + seq![0u8, 0u8, 0u8, 0u8]);
    } else {
        group.push(c);
        if group.len() == 5 {
            let value = a85_value(group);
            push_be4(result, value as u32);
            assert(be4(value as int) =~= be4(a85_group_value(group@)));
            *group = Vec::new();
            assert(group@ =~= Seq::<u8>::empty());
        }
    }
}

/// Decode ASCII85Decode data: whitespace is skipped, an optional `<~`
/// prefix is dropped, `~>` ends the data, `z` stands for four zero bytes,
/// groups of five digits give four bytes, and a final partial group of k
/// digits gives k - 1 bytes. A group worth 2^32 or more, which four bytes
/// cannot hold, is an error.
pub fn decode_ascii85(data: &[u8]) -> (r: ParseResult<Vec<u8>>)
    ensures
        match ascii85_decoded(data@) {
            Ok(v) => r matches Ok(w) && w@ == v,
            Err(m) => r matches Err(ParseError::StreamDecodeError(msg)) && msg@ == m,
        },
{
    let f = collect_nonws(data);
    let len = f.len();
    let mut result: Vec<u8> = Vec::new();
    let mut group: Vec<u8> = Vec::new();
    if len == 0 {
        return Ok(result);
    }
    let mut c: u8;
    let mut n: usize;
    if f[0] == 0x3C {
        if len >= 2 && f[1] == 0x7E {
            if len >= 3 {
                c = f[2];
                n = 3;
            } else {
                return Ok(result);
            }
        } else {
            c = 0x3C;
            n = 1;
        }
    } else {
        c = f[0];
        n = 1;
    }
    let ghost target = ascii85_decoded(data@);
    assert(result@ =~= Seq::<u8>::empty());
    assert(group@ =~= Seq::<u8>::empty());
    loop
        invariant_except_break
            target == a85_from(f@, c, n as int, group@, result@),
            1 <= n <= len + 1,
        invariant
            f@ == nonws(data@),
            len == f.len(),
            target == ascii85_decoded(data@),
            group.len() < 5,
            forall|i: int| 0 <= i < group.len() ==> 0x21 <= #[trigger] group[i] <= 0x75,
        ensures
            target == a85_finish(group@, result@),
        decreases len + 1 - n,
    {
        proof {
            lemma_a85_from_unfold(f@, c, n as int, group@, result@);
        }
        if c == 0x7E {
            if n < len && f[n] == 0x3E {
                break;
            } else {
                return Err(ParseError::StreamDecodeError(String::from_str("Invalid ASCII85 end marker")));
            }
        }
        if !(c == 0x7A && group.len() == 0 || 0x21 <= c && c <= 0x75) {
            return Err(ParseError::StreamDecodeError(message_with_byte("Invalid ASCII85 character: ", c)));
        }
        if a85_check_overflow(c, &group) {
            return Err(ParseError::StreamDecodeError(String::from_str("Invalid ASCII85 group: value out of range")));
        }
        let ghost step = a85_digit_step(c, group@, result@);
        a85_push_digit(c, &mut group, &mut result);
        assert(group@ == step.0 && result@ == step.1);
        if n >= len {
            break;
        }
        c = f[n];
        n = n + 1;
    }
    if group.len() > 0 {
        let original_len = group.len();
        let ghost g0 = group@;
        while group.len() < 5
            invariant
                original_len <= group.len() <= 5,
                group@.take(original_len as int) == g0,
                forall|i: int| 0 <= i < group.len() ==> 0x21 <= #[trigger] group[i] <= 0x75,
                forall|i: int| original_len <= i < group.len() ==> #[trigger] group[i] == 0x75,
            decreases 5 - group.len(),
        {
            group.push(0x75);
        }
        assert(group@ =~= g0 + Seq::new((5 - g0.len()) as nat, |_i: int| 0x75u8));
        let value = a85_value(&group);
        if value >= 0x1_0000_0000 {
            return Err(ParseError::StreamDecodeError(String::from_str("Invalid ASCII85 group: value out of range")));
        }
        let value = value as u32;
        let ghost before = result@;
        let output_bytes = original_len - 1;
        let mut i: usize = 0;
        while i < output_bytes
            invariant
                i <= output_bytes <= 3,
                result@ == before + be4(value as int).take(i as int),
            decreases output_bytes - i,
        {
            let b = if i == 0 {
                (value / 0x100_0000) as u8
            } else if i == 1 {
                ((value / 0x1_0000) % 256) as u8
            } else {
                ((value / 256) % 256) as u8
            };
            result.push(b);
            assert(be4(value as int).take(i + 1) =~= be4(value as int).take(i as int).push(b));
            i = i + 1;
        }
    }
    Ok(result)
}

/// What flate2's `ZlibDecoder`, read to the end, gives for `data`: the
/// decoded bytes, or the text of the error.
pub uninterp spec fn zlib_decoded(data: Seq<u8>) -> Result<Seq<u8>, Seq<char>>;

/// What flate2's `DeflateDecoder` (raw deflate, no zlib wrapper), read to
/// the end, gives for `data`; `None` on an error.
pub uninterp spec fn deflate_decoded(data: Seq<u8>) -> Option<Seq<u8>>;

/// What one call of flate2's `Decompress::decompress` (raw deflate,
/// finishing) gives for `data` into an output buffer of `limit` bytes:
/// whether the stream ended and the bytes written; `None` on an error.
pub uninterp spec fn raw_inflate_bounded(data: Seq<u8>, limit: nat) -> Option<(bool, Seq<u8>)>;

/// `flate2::read::ZlibDecoder` over `data`, read to the end with
/// `std::io::Read::read_to_end`. Claimed: the result is `zlib_decoded` of
/// the data, the error converted to its display text.
#[verifier::external_body]
fn zlib_decode(data: &[u8]) -> (r: Result<Vec<u8>, String>)
    ensures
        match zlib_decoded(data@) {
            Ok(v) => r matches Ok(w) && w@ == v,
            Err(m) => r matches Err(e) && e@ == m,
        },
{
    let mut decoder = flate2::read::ZlibDecoder::new(data);
    let mut out = Vec::new();
    match std::io::Read::read_to_end(&mut decoder, &mut out) {
        Ok(_) => Ok(out),
        Err(e) => Err(e.to_string()),
    }
}

/// `flate2::read::DeflateDecoder` over `data`, read to the end with
/// `std::io::Read::read_to_end`. Claimed: the result is `deflate_decoded`
/// of the data.
#[verifier::external_body]
fn deflate_decode(data: &[u8]) -> (r: Option<Vec<u8>>)
    ensures
        match deflate_decoded(data@) {
            Some(v) => r matches Some(w) && w@ == v,
            None => r is None,
        },
{
    let mut decoder = flate2::read::DeflateDecoder::new(data);
    let mut out = Vec::new();
    match std::io::Read::read_to_end(&mut decoder, &mut out) {
        Ok(_) => Some(out),
        Err(_) => None,
    }
}

/// `flate2::Decompress::new(false)` and one `decompress` call with
/// `FlushDecompress::Finish` into a zeroed buffer of exactly `limit`
/// bytes, cut to the `total_out` bytes written. Claimed: the result is
/// `raw_inflate_bounded` of the data and limit, `Status::StreamEnd` giving
/// `true`, `Status::Ok` and `Status::BufError` giving `false`, an error
/// giving `None`. `limit` stays within `isize::MAX`, above which the
/// buffer cannot be allocated.
#[verifier::external_body]
fn raw_inflate(data: &[u8], limit: usize) -> (r: Option<(bool, Vec<u8>)>)
    requires
        limit <= isize::MAX,
    ensures
        match raw_inflate_bounded(data@, limit as nat) {
            Some((end, v)) => r matches Some((e, w)) && e == end && w@ == v,
            None => r is None,
        },
{
    let mut decompress = flate2::Decompress::new(false);
    let mut output = vec![0u8; limit];
    let status = decompress.decompress(data, &mut output, flate2::FlushDecompress::Finish);
    output.truncate(decompress.total_out() as usize);
    match status {
        Ok(flate2::Status::StreamEnd) => Some((true, output)),
        Ok(flate2::Status::Ok) => Some((false, output)),
        Ok(flate2::Status::BufError) => Some((false, output)),
        Err(_) => None,
    }
}

/// The first `skip` in `from..end` for which the zlib data after `skip`
/// header bytes decodes to something non-empty, with what it decodes to.
pub open spec fn skip_header_search(data: Seq<u8>, from: int, end: int) -> Option<Seq<u8>>
    decreases end - from,
{
    if from >= end || from < 0 || from > data.len() {
        None
    } else {
        match zlib_decoded(data.skip(from)) {
            Ok(v) if v.len() > 0 => Some(v),
            _ => skip_header_search(data, from + 1, end),
        }
    }
}

/// What the second strategy gives: the whole output when the raw stream
/// ended, the partial output when it did not but some bytes came out and
/// partial content is allowed.
pub open spec fn partial_inflate_result(outcome: Option<(bool, Seq<u8>)>, partial_allowed: bool) -> Option<Seq<u8>> {
    match outcome {
        Some((true, v)) => Some(v),
        Some((false, v)) => if v.len() > 0 && partial_allowed {
            Some(v)
        } else {
            None
        },
        None => None,
    }
}

/// The message when every recovery strategy failed.
pub open spec fn recovery_failed_message(original_error: Seq<char>, attempts: nat) -> Seq<char> {
    "Flate decode error: "@ + original_error + " (all "@ + decimal_seq(attempts) + " recovery strategies failed)"@
}

/// FlateDecode recovery after the zlib decoding failed with
/// `original_error`: raw deflate (first attempt), a bounded raw
/// decompression that may be partial (second attempt, only for data of at
/// most `isize::MAX / 3` bytes, whose bound is three times its length),
/// then zlib decoding after skipping 1 to 9 header bytes (third attempt,
/// for data longer than two bytes); attempts beyond the maximum are
/// skipped. If all fail: empty data when corrupt streams are ignored,
/// else the error.
pub open spec fn flate_recovery_spec(data: Seq<u8>, original_error: Seq<char>, options: ParseOptions) -> Result<Seq<u8>, Seq<char>> {
    let max = options.max_recovery_attempts;
    let second = if 2 <= max && data.len() <= isize::MAX / 3 {
        partial_inflate_result(raw_inflate_bounded(data, (data.len() * 3) as nat), options.partial_content_allowed)
    } else {
        None
    };
    let third = if data.len() > 2 && 3 <= max {
        skip_header_search(data, 1, if data.len() < 10 { data.len() as int } else { 10 })
    } else {
        None
    };
    if 1 <= max && deflate_decoded(data) is Some {
        Ok(deflate_decoded(data).unwrap())
    } else if second is Some {
        Ok(second.unwrap())
    } else if third is Some {
        Ok(third.unwrap())
    } else if options.ignore_corrupt_streams {
        Ok(Seq::empty())
    } else {
        Err(recovery_failed_message(original_error, if data.len() > 2 { 3 } else { 2 }))
    }
}

/// FlateDecode of `data` under `options`: zlib decoding, and the recovery
/// strategies when it fails and recovery is enabled.
pub open spec fn flate_decoded(data: Seq<u8>, options: ParseOptions) -> Result<Seq<u8>, Seq<char>> {
    match zlib_decoded(data) {
        Ok(v) => Ok(v),
        Err(e) => if !options.recover_from_stream_errors {
            Err("Flate decode error: "@ + e)
        } else {
            flate_recovery_spec(data, e, options)
        },
    }
}

/// FlateDecode recovery after the zlib decoding failed with
/// `original_error` (see `flate_recovery_spec`).
pub fn decode_flate_with_recovery(data: &[u8], original_error: &str, options: &ParseOptions) -> (r: ParseResult<Vec<u8>>)
    ensures
        match flate_recovery_spec(data@, original_error@, *options) {
            Ok(v) => r matches Ok(w) && w@ == v,
            Err(m) => r matches Err(ParseError::StreamDecodeError(msg)) && msg@ == m,
        },
{
    let max_attempts = options.max_recovery_attempts;
    let mut attempts: usize = 1;
    if attempts <= max_attempts {
        if let Some(result) = deflate_decode(data) {
            return Ok(result);
        }
    }
    attempts = 2;
    if attempts <= max_attempts && data.len() <= (isize::MAX as usize) / 3 {
        match raw_inflate(data, data.len() * 3) {
            Some((true, output)) => {
                return Ok(output);
            },
            Some((false, output)) => {
                if output.len() > 0 && options.partial_content_allowed {
                    return Ok(output);
                }
            },
            None => {},
        }
    }
    if data.len() > 2 {
        attempts = 3;
        if attempts <= max_attempts {
            let end: usize = if data.len() < 10 {
                data.len()
            } else {
                10
            };
            let mut skip: usize = 1;
            let ghost target = flate_recovery_spec(data@, original_error@, *options);
            let ghost fallback: Result<Seq<u8>, Seq<char>> = if options.ignore_corrupt_streams {
                Ok(Seq::empty())
            } else {
                Err(recovery_failed_message(original_error@, 3))
            };
            assert(target == match skip_header_search(data@, 1, end as int) {
                Some(v) => Ok(v),
                None => fallback,
            });
            while skip < end
                invariant
                    1 <= skip <= end <= data.len(),
                    target == flate_recovery_spec(data@, original_error@, *options),
                    target == match skip_header_search(data@, skip as int, end as int) {
                        Some(v) => Ok(v),
                        None => fallback,
                    },
                decreases end - skip,
            {
                let rest = slice_from(data, skip);
                match zlib_decode(rest) {
                    Ok(result) => {
                        if result.len() > 0 {
                            return Ok(result);
                        }
                    },
                    Err(_) => {},
                }
                skip = skip + 1;
            }
        }
    }
    if options.ignore_corrupt_streams {
        return Ok(Vec::new());
    }
    let mut msg = String::from_str("Flate decode error: ");
    msg.append(original_error);
    msg.append(" (all ");
    push_decimal(&mut msg, attempts as u64);
    msg.append(" recovery strategies failed)");
    Err(ParseError::StreamDecodeError(msg))
}

/// The bytes of `data` from index `from` on.
fn slice_from(data: &[u8], from: usize) -> (s: &[u8])
    requires
        from <= data.len(),
    ensures
        s@ == data@.skip(from as int),
{
    let (_, tail) = data.split_at(from);
    tail
}

/// Decode FlateDecode data: zlib decoding; when it fails, an error unless
/// recovery is enabled, in which case the recovery strategies are tried.
pub fn decode_flate(data: &[u8], options: &ParseOptions) -> (r: ParseResult<Vec<u8>>)
    ensures
        match flate_decoded(data@, *options) {
            Ok(v) => r matches Ok(w) && w@ == v,
            Err(m) => r matches Err(ParseError::StreamDecodeError(msg)) && msg@ == m,
        },
{
    match zlib_decode(data) {
        Ok(result) => Ok(result),
        Err(e) => {
            if !options.recover_from_stream_errors {
                let mut msg = String::from_str("Flate decode error: ");
                msg.append(e.as_str());
                return Err(ParseError::StreamDecodeError(msg));
            }
            decode_flate_with_recovery(data, e.as_str(), options)
        },
    }
}

/// Why a filter failed: a decoding error or a syntax error (at position 0),
/// with its message.
pub enum FilterFailure {
    /// `ParseError::StreamDecodeError` with this message
    Decode(Seq<char>),
    /// `ParseError::SyntaxError` at position 0 with this message
    Syntax(Seq<char>),
}

/// Whether `e` is the error that `f` describes.
pub open spec fn is_failure(e: ParseError, f: FilterFailure) -> bool {
    match f {
        FilterFailure::Decode(m) => e matches ParseError::StreamDecodeError(msg) && msg@ == m,
        FilterFailure::Syntax(m) => e matches ParseError::SyntaxError { position, message } && position
            == 0 && message@ == m,
    }
}

/// Whether a result is the outcome `o`.
pub open spec fn is_outcome(r: ParseResult<Vec<u8>>, o: Result<Seq<u8>, FilterFailure>) -> bool {
    match o {
        Ok(v) => r matches Ok(w) && w@ == v,
        Err(f) => r matches Err(e) && is_failure(e, f),
    }
}

/// A decoding result with its error as a decoding failure.
pub open spec fn as_decode_outcome(d: Result<Seq<u8>, Seq<char>>) -> Result<Seq<u8>, FilterFailure> {
    match d {
        Ok(v) => Ok(v),
        Err(m) => Err(FilterFailure::Decode(m)),
    }
}

/// The outcome of one filter: FlateDecode, ASCIIHexDecode and ASCII85Decode
/// decode; every other filter is not implemented.
pub open spec fn apply_filter_spec(data: Seq<u8>, filter: Filter, options: ParseOptions) -> Result<Seq<u8>, FilterFailure> {
    match filter {
        Filter::FlateDecode => as_decode_outcome(flate_decoded(data, options)),
        Filter::ASCIIHexDecode => as_decode_outcome(ascii_hex_decoded(data)),
        Filter::ASCII85Decode => as_decode_outcome(ascii85_decoded(data)),
        _ => Err(FilterFailure::Syntax("Filter "@ + filter_name(filter) + " not yet implemented"@)),
    }
}

/// Apply a single filter to data.
pub fn apply_filter(data: &[u8], filter: Filter, options: &ParseOptions) -> (r: ParseResult<Vec<u8>>)
    ensures
        is_outcome(r, apply_filter_spec(data@, filter, *options)),
{
    match filter {
        Filter::FlateDecode => decode_flate(data, options),
        Filter::ASCIIHexDecode => decode_ascii_hex(data),
        Filter::ASCII85Decode => decode_ascii85(data),
        _ => {
            let mut msg = String::from_str("Filter ");
            let name = filter.name();
            msg.append(name.as_str());
            msg.append(" not yet implemented");
            Err(ParseError::SyntaxError { position: 0, message: msg })
        },
    }
}

/// The value of a stream dictionary's `Filter` entry: a name, an array
/// (each element a name, or `None` for an element of another type), or a
/// value of another type.
pub enum FilterEntry {
    /// A single filter name
    Name(String),
    /// An array of filter names
    Array(Vec<Option<String>>),
    /// A value of another type
    Other,
}

/// Whether every element of the array is a name.
pub open spec fn all_names(a: Seq<Option<String>>) -> bool {
    forall|i: int| 0 <= i < a.len() ==> #[trigger] a[i] is Some
}

/// The names of the filters to apply, in order, or the message of the
/// syntax error for a malformed entry.
pub open spec fn filter_names(entry: FilterEntry) -> Result<Seq<Seq<char>>, Seq<char>> {
    match entry {
        FilterEntry::Name(n) => Ok(seq![n@]),
        FilterEntry::Array(a) => if all_names(a@) {
            Ok(Seq::new(a@.len(), |i: int| a@[i].unwrap()@))
        } else {
            Err("Invalid filter in array"@)
        },
        FilterEntry::Other => Err("Invalid Filter type"@),
    }
}

/// The filters named in `names` from index `i` on, applied in order to `data`.
pub open spec fn apply_names(data: Seq<u8>, names: Seq<Seq<char>>, i: int, options: ParseOptions) -> Result<Seq<u8>, FilterFailure>
    decreases names.len() - i,
{
    if i < 0 || i >= names.len() {
        Ok(data)
    } else {
        match filter_of_name(names[i]) {
            None => Err(FilterFailure::Syntax("Unknown filter: "@ + names[i])),
            Some(f) => match apply_filter_spec(data, f, options) {
                Err(e) => Err(e),
                Ok(next) => apply_names(next, names, i + 1, options),
            },
        }
    }
}

/// Decoding a stream whose dictionary has the `Filter` entry `filter`.
pub open spec fn decode_stream_spec(data: Seq<u8>, filter: Option<FilterEntry>, options: ParseOptions) -> Result<Seq<u8>, FilterFailure> {
    match filter {
        None => Ok(data),
        Some(entry) => match filter_names(entry) {
            Err(m) => Err(FilterFailure::Syntax(m)),
            Ok(names) => apply_names(data, names, 0, options),
        },
    }
}

/// Decode stream data by the filters of its dictionary's `Filter` entry,
/// applied in order; with no entry the data comes back as it is.
pub fn decode_stream(data: &[u8], filter: Option<&FilterEntry>, options: &ParseOptions) -> (r: ParseResult<Vec<u8>>)
    ensures
        is_outcome(r, decode_stream_spec(data@, match filter {
            Some(e) => Some(*e),
            None => None,
        }, *options)),
{
    let entry = match filter {
        None => {
            return Ok(crate::text::bytes_to_vec(data));
        },
        Some(e) => e,
    };
    let mut names: Vec<&str> = Vec::new();
    match entry {
        FilterEntry::Name(n) => {
            names.push(n.as_str());
        },
        FilterEntry::Array(a) => {
            let mut i: usize = 0;
            while i < a.len()
                invariant
                    i <= a.len(),
                    names.len() == i,
                    filter == Some(entry),
                    *entry == FilterEntry::Array(*a),
                    forall|k: int| 0 <= k < i ==> #[trigger] a@[k] is Some && names@[k]@ == a@[k].unwrap()@,
                decreases a.len() - i,
            {
                match &a[i] {
                    Some(n) => {
                        names.push(n.as_str());
                    },
                    None => {
                        assert(!(a@[i as int] is Some));
                        return Err(ParseError::SyntaxError {
                            position: 0,
                            message: String::from_str("Invalid filter in array"),
                        });
                    },
                }
                i = i + 1;
            }
        },
        FilterEntry::Other => {
            return Err(ParseError::SyntaxError {
                position: 0,
                message: String::from_str("Invalid Filter type"),
            });
        },
    }
    let ghost spec_names = match filter_names(*entry) {
        Ok(ns) => ns,
        Err(_) => Seq::empty(),
    };
    assert(filter_names(*entry) is Ok);
    assert(spec_names.len() == names.len());
    assert(forall|k: int| 0 <= k < names.len() ==> names@[k]@ == #[trigger] spec_names[k]);
    let mut result = crate::text::bytes_to_vec(data);
    let mut j: usize = 0;
    while j < names.len()
        invariant
            j <= names.len(),
            spec_names.len() == names.len(),
            forall|k: int| 0 <= k < names.len() ==> names@[k]@ == #[trigger] spec_names[k],
            filter == Some(entry),
            decode_stream_spec(data@, Some(*entry), *options) == apply_names(data@, spec_names, 0, *options),
            apply_names(data@, spec_names, 0, *options) == apply_names(result@, spec_names, j as int, *options),
        decreases names.len() - j,
    {
        let name = names[j];
        let filter = match Filter::from_name(name) {
            Some(f) => f,
            None => {
                let mut msg = String::from_str("Unknown filter: ");
                msg.append(name);
                return Err(ParseError::SyntaxError { position: 0, message: msg });
            },
        };
        result = match apply_filter(result.as_slice(), filter, options) {
            Ok(next) => next,
            Err(e) => {
                return Err(e);
            },
        };
        j = j + 1;
    }
    Ok(result)
}

} // verus!

verus! {

/// The five ASCII85 digits of a number below 85^5, most significant first.
pub open spec fn a85_digits(v: int) -> Seq<u8> {
    let q1 = v / 85;
    let q2 = q1 / 85;
    let q3 = q2 / 85;
    let q4 = q3 / 85;
    seq![
        (33 + q4 % 85) as u8,
        (33 + q3 % 85) as u8,
        (33 + q2 % 85) as u8,
        (33 + q1 % 85) as u8,
        (33 + v % 85) as u8,
    ]
}

/// The big-endian number of four bytes.
pub open spec fn word_of(b: Seq<u8>) -> int {
    b[0] * 0x100_0000 + b[1] * 0x1_0000 + b[2] * 0x100 + b[3]
}

proof fn lemma_a85_digits_value(v: int)
    requires
        0 <= v < 0x1_0000_0000,
    ensures
        a85_group_value(a85_digits(v)) == v,
        forall|k: int| 0 <= k < 5 ==> 0x21 <= #[trigger] a85_digits(v)[k] <= 0x75,
{
    let q1 = v / 85;
    let q2 = q1 / 85;
    let q3 = q2 / 85;
    let q4 = q3 / 85;
    vstd::arithmetic::div_mod::lemma_fundamental_div_mod(v, 85);
    vstd::arithmetic::div_mod::lemma_fundamental_div_mod(q1, 85);
    vstd::arithmetic::div_mod::lemma_fundamental_div_mod(q2, 85);
    vstd::arithmetic::div_mod::lemma_fundamental_div_mod(q3, 85);
    assert(q4 < 85) by {
        vstd::arithmetic::div_mod::lemma_div_is_ordered(v, 0x1_0000_0000 - 1, 85);
        vstd::arithmetic::div_mod::lemma_div_is_ordered(q1, (0x1_0000_0000 - 1) / 85, 85);
        vstd::arithmetic::div_mod::lemma_div_is_ordered(q2, (0x1_0000_0000 - 1) / 85 / 85, 85);
        vstd::arithmetic::div_mod::lemma_div_is_ordered(q3, (0x1_0000_0000 - 1) / 85 / 85 / 85, 85);
    }
    assert(q4 >= 0) by {
        vstd::arithmetic::div_mod::lemma_div_pos_is_pos(v, 85);
        vstd::arithmetic::div_mod::lemma_div_pos_is_pos(q1, 85);
        vstd::arithmetic::div_mod::lemma_div_pos_is_pos(q2, 85);
        vstd::arithmetic::div_mod::lemma_div_pos_is_pos(q3, 85);
    }
    vstd::arithmetic::div_mod::lemma_small_mod(q4 as nat, 85);
    let d = a85_digits(v);
    assert(d[0] - 33 == q4 % 85);
    assert(d[1] - 33 == q3 % 85);
    assert(d[2] - 33 == q2 % 85);
    assert(d[3] - 33 == q1 % 85);
    assert(d[4] - 33 == v % 85);
}

proof fn lemma_be4_word(b: Seq<u8>)
    requires
        b.len() == 4,
    ensures
        be4(word_of(b)) == b,
        0 <= word_of(b) < 0x1_0000_0000,
{
    let b0 = b[0];
    let b1 = b[1];
    let b2 = b[2];
    let b3 = b[3];
    let w = word_of(b);
    assert(0 <= w < 0x1_0000_0000);
    vstd::arithmetic::div_mod::lemma_small_mod(w as nat, 0x1_0000_0000);
    assert(w / 0x100_0000 == b0) by {
        vstd::arithmetic::div_mod::lemma_fundamental_div_mod_converse(
            w,
            0x100_0000,
            b0 as int,
            b1 * 0x1_0000 + b2 * 0x100 + b3,
        );
    }
    assert(w / 0x1_0000 == b0 * 256 + b1) by {
        vstd::arithmetic::div_mod::lemma_fundamental_div_mod_converse(w, 0x1_0000, b0 * 256 + b1, b2 * 0x100 + b3);
    }
    assert((b0 * 256 + b1) % 256 == b1) by {
        vstd::arithmetic::div_mod::lemma_fundamental_div_mod_converse(b0 * 256 + b1, 256, b0 as int, b1 as int);
    }
    assert(w / 0x100 == (b0 * 256 + b1) * 256 + b2) by {
        vstd::arithmetic::div_mod::lemma_fundamental_div_mod_converse(w, 0x100, (b0 * 256 + b1) * 256 + b2, b3 as int);
    }
    assert(((b0 * 256 + b1) * 256 + b2) % 256 == b2) by {
        vstd::arithmetic::div_mod::lemma_fundamental_div_mod_converse(
            (b0 * 256 + b1) * 256 + b2,
            256,
            b0 * 256 + b1,
            b2 as int,
        );
    }
    assert(w % 256 == b3) by {
        vstd::arithmetic::div_mod::lemma_fundamental_div_mod_converse(w, 256, (b0 * 256 + b1) * 256 + b2, b3 as int);
    }
    assert(be4(w) =~= b);
}


/// The hexadecimal digits `0`..`9`, `A`..`F` in order of value.
pub open spec fn upper_hex_digits() -> Seq<u8> {
    seq![0x30u8, 0x31u8, 0x32u8, 0x33u8, 0x34u8, 0x35u8, 0x36u8, 0x37u8, 0x38u8, 0x39u8, 0x41u8, 0x42u8, 0x43u8, 0x44u8, 0x45u8, 0x46u8]
}

/// The hexadecimal digits `0`..`9`, `a`..`f` in order of value.
pub open spec fn lower_hex_digits() -> Seq<u8> {
    seq![0x30u8, 0x31u8, 0x32u8, 0x33u8, 0x34u8, 0x35u8, 0x36u8, 0x37u8, 0x38u8, 0x39u8, 0x61u8, 0x62u8, 0x63u8, 0x64u8, 0x65u8, 0x66u8]
}

/// Each hexadecimal digit, in either case, has the value of its place in
/// `0123456789ABCDEF` (or `0123456789abcdef`); no other byte is a digit.
pub proof fn lemma_hex_digit_values(c: u8)
    ensures
        forall|v: int| 0 <= v < 16 ==> hex_digit_spec(#[trigger] upper_hex_digits()[v]) == Some(v as u8),
        forall|v: int| 0 <= v < 16 ==> hex_digit_spec(#[trigger] lower_hex_digits()[v]) == Some(v as u8),
        !upper_hex_digits().contains(c) && !lower_hex_digits().contains(c) ==> hex_digit_spec(c) is None,
{
    assert forall|v: int| 0 <= v < 16 implies hex_digit_spec(#[trigger] upper_hex_digits()[v]) == Some(v as u8) by {
        assert(upper_hex_digits()[v] == if v < 10 { 0x30 + v } else { 0x41 + v - 10 });
    }
    assert forall|v: int| 0 <= v < 16 implies hex_digit_spec(#[trigger] lower_hex_digits()[v]) == Some(v as u8) by {
        assert(lower_hex_digits()[v] == if v < 10 { 0x30 + v } else { 0x61 + v - 10 });
    }
    if hex_digit_spec(c) is Some {
        if 0x30 <= c <= 0x39 {
            assert(upper_hex_digits()[c - 0x30] == c);
        } else if 0x41 <= c <= 0x46 {
            assert(upper_hex_digits()[c - 0x41 + 10] == c);
        } else {
            assert(lower_hex_digits()[c - 0x61 + 10] == c);
        }
    }
}

/// Whether every byte is a hexadecimal digit (either case).
pub open spec fn all_hex_digits(d: Seq<u8>) -> bool {
    forall|i: int| 0 <= i < d.len() ==> (#[trigger] hex_digit_spec(d[i])) is Some
}

/// The byte of the digit pair at `i`; a final digit without a partner is
/// paired with `0`.
pub open spec fn hex_byte_at(d: Seq<u8>, i: int) -> u8 {
    let h = hex_digit_spec(d[i]).unwrap();
    let l = if i + 1 < d.len() {
        hex_digit_spec(d[i + 1]).unwrap()
    } else {
        0u8
    };
    (h * 16 + l) as u8
}

/// The bytes of the digit pairs of `d` from index `i` on.
pub open spec fn hex_pairs_from(d: Seq<u8>, i: int) -> Seq<u8>
    decreases d.len() + 1 - i,
{
    if i < 0 || i >= d.len() {
        Seq::empty()
    } else {
        seq![hex_byte_at(d, i)] + hex_pairs_from(d, i + 2)
    }
}

proof fn lemma_hex_digit_facts(c: u8)
    requires
        hex_digit_spec(c) is Some,
    ensures
        c != 0x3E,
        !is_ascii_ws(c),
        hex_digit_spec(c).unwrap() < 16,
{
}

proof fn lemma_hex_digits_decode(d: Seq<u8>, tail: Seq<u8>, i: int, acc: Seq<u8>)
    requires
        all_hex_digits(d),
        tail.len() == 0 || tail[0] == 0x3E,
        0 <= i <= d.len(),
    ensures
        hex_decode_from(d + tail, i, acc) == Ok::<Seq<u8>, Seq<char>>(acc + hex_pairs_from(d, i)),
    decreases d.len() - i,
{
    let f = d + tail;
    if i == d.len() {
        assert(acc + hex_pairs_from(d, i) =~= acc);
    } else {
        lemma_hex_digit_facts(d[i]);
        assert(f[i] == d[i]);
        let v = hex_byte_at(d, i);
        if i + 1 < d.len() {
            lemma_hex_digit_facts(d[i + 1]);
            assert(f[i + 1] == d[i + 1]);
            assert(hex_low_digit(f, i) == d[i + 1]);
            lemma_hex_pack(hex_digit_spec(d[i]).unwrap(), hex_digit_spec(d[i + 1]).unwrap());
            lemma_hex_digits_decode(d, tail, i + 2, acc.push(v));
            assert(acc.push(v) + hex_pairs_from(d, i + 2) =~= acc + hex_pairs_from(d, i));
        } else {
            assert(hex_low_digit(f, i) == 0x30);
            assert(hex_digit_spec(0x30) == Some(0u8));
            assert(hex_pairs_from(d, i + 2) =~= Seq::<u8>::empty());
            assert(acc + hex_pairs_from(d, i) =~= acc.push(v));
        }
    }
}

/// ASCIIHexDecode reads pairs of hexadecimal digits (either case), with
/// whitespace anywhere, up to a `>` (after which anything may follow) or
/// the end of the data; a final unpaired digit is padded with `0`.
pub proof fn lemma_ascii_hex_law(data: Seq<u8>, d: Seq<u8>, tail: Seq<u8>)
    requires
        all_hex_digits(d),
        nonws(data) == d + tail,
        tail.len() == 0 || tail[0] == 0x3E,
    ensures
        ascii_hex_decoded(data) == Ok::<Seq<u8>, Seq<char>>(hex_pairs_from(d, 0)),
{
    lemma_hex_digits_decode(d, tail, 0, Seq::empty());
    assert(Seq::<u8>::empty() + hex_pairs_from(d, 0) =~= hex_pairs_from(d, 0));
}

proof fn lemma_hex_pairs_of_bytes(d: Seq<u8>, bytes: Seq<u8>, j: int)
    requires
        d.len() == 2 * bytes.len(),
        0 <= j <= bytes.len(),
        forall|k: int|
            0 <= k < bytes.len() ==> hex_digit_spec(#[trigger] d[2 * k]) == Some((bytes[k] / 16) as u8)
                && hex_digit_spec(d[2 * k + 1]) == Some((bytes[k] % 16) as u8),
    ensures
        hex_pairs_from(d, 2 * j) == bytes.skip(j),
    decreases bytes.len() - j,
{
    if j < bytes.len() {
        lemma_hex_pairs_of_bytes(d, bytes, j + 1);
        assert(hex_digit_spec(d[2 * j]) == Some((bytes[j] / 16) as u8));
        assert(hex_byte_at(d, 2 * j) == bytes[j]);
        assert(2 * j + 2 == 2 * (j + 1));
        assert(seq![bytes[j]] + bytes.skip(j + 1) =~= bytes.skip(j));
    } else {
        assert(bytes.skip(j) =~= Seq::<u8>::empty());
    }
}

/// Bytes written as pairs of hexadecimal digits (high digit first, either
/// case for each digit) decode back to the bytes.
pub proof fn lemma_ascii_hex_pairs_roundtrip(d: Seq<u8>, bytes: Seq<u8>)
    requires
        d.len() == 2 * bytes.len(),
        forall|k: int|
            0 <= k < bytes.len() ==> hex_digit_spec(#[trigger] d[2 * k]) == Some((bytes[k] / 16) as u8)
                && hex_digit_spec(d[2 * k + 1]) == Some((bytes[k] % 16) as u8),
    ensures
        hex_pairs_from(d, 0) == bytes,
{
    lemma_hex_pairs_of_bytes(d, bytes, 0);
    assert(bytes.skip(0) =~= bytes);
}


/// The ASCII85 text of a four-byte group: `z` for four zero bytes, else
/// its five digits.
pub open spec fn a85_group_text(g: Seq<u8>) -> Seq<u8> {
    if word_of(g) == 0 {
        seq![0x7Au8]
    } else {
        a85_digits(word_of(g))
    }
}

/// Standard ASCII85 of bytes: each four-byte group as `a85_group_text`, a
/// final group of k < 4 bytes as the first k + 1 digits of the group
/// padded with zero bytes.
pub open spec fn a85_standard(bytes: Seq<u8>) -> Seq<u8>
    decreases bytes.len(),
{
    if bytes.len() == 0 {
        Seq::empty()
    } else if bytes.len() < 4 {
        let padded = bytes + Seq::new((4 - bytes.len()) as nat, |_i: int| 0u8);
        a85_digits(word_of(padded)).take(bytes.len() as int + 1)
    } else {
        a85_group_text(bytes.take(4)) + a85_standard(bytes.skip(4))
    }
}

/// A final group of k bytes: its k + 1 digits padded with `u` stand for a
/// number below 2^32 whose first k bytes are the group's.
proof fn lemma_a85_partial(bytes: Seq<u8>)
    requires
        1 <= bytes.len() < 4,
    ensures
        ({
            let k = bytes.len() as int;
            let padded = bytes + Seq::new((4 - k) as nat, |_i: int| 0u8);
            let d = a85_digits(word_of(padded)).take(k + 1);
            let full = d + Seq::new((5 - d.len()) as nat, |_i: int| 0x75u8);
            &&& a85_group_value(full) < 0x1_0000_0000
            &&& be4(a85_group_value(full)).take(k) == bytes
            &&& forall|i: int| 0 <= i < d.len() ==> 0x21 <= #[trigger] d[i] <= 0x75
        }),
{
    let k = bytes.len() as int;
    let padded = bytes + Seq::new((4 - k) as nat, |_i: int| 0u8);
    let w = word_of(padded);
    lemma_be4_word(padded);
    lemma_a85_digits_value(w);
    let d = a85_digits(w).take(k + 1);
    let full = d + Seq::new((5 - d.len()) as nat, |_i: int| 0x75u8);
    let q1 = w / 85;
    let q2 = q1 / 85;
    let q3 = q2 / 85;
    let q4 = q3 / 85;
    vstd::arithmetic::div_mod::lemma_fundamental_div_mod(w, 85);
    vstd::arithmetic::div_mod::lemma_fundamental_div_mod(q1, 85);
    vstd::arithmetic::div_mod::lemma_fundamental_div_mod(q2, 85);
    vstd::arithmetic::div_mod::lemma_fundamental_div_mod(q3, 85);
    let t1 = q3 % 85;
    let t2 = q2 % 85;
    let t3 = q1 % 85;
    let t4 = w % 85;
    assert(0 <= t1 < 85 && 0 <= t2 < 85 && 0 <= t3 < 85 && 0 <= t4 < 85);
    assert(a85_digits(w)[0] - 33 == q4 % 85);
    let b0 = bytes[0] as int;
    assert(padded[0] == bytes[0]);
    let v = a85_group_value(full);
    assert(forall|i: int| 0 <= i < d.len() ==> 0x21 <= #[trigger] d[i] <= 0x75);
    if k == 1 {
        assert(padded[1] == 0 && padded[2] == 0 && padded[3] == 0);
        assert(w == b0 * 0x100_0000);
        assert(full =~= seq![d[0], d[1], 0x75u8, 0x75u8, 0x75u8]);
        assert(v == q3 * 614125 + 614124) by (nonlinear_arith)
            requires
                v == (((((d[0] - 33) * 85 + (d[1] - 33)) * 85 + 84) * 85 + 84) * 85 + 84),
                d[0] - 33 == q4 % 85,
                d[1] - 33 == t1,
                q3 == 85 * (q3 / 85) + t1,
                q4 == q3 / 85,
                q4 % 85 == q4,
        {
        }
        assert(q4 < 85 && q4 >= 0);
        assert(w == q3 * 614125 + t2 * 7225 + t3 * 85 + t4) by (nonlinear_arith)
            requires
                w == 85 * q1 + t4,
                q1 == 85 * q2 + t3,
                q2 == 85 * q3 + t2,
        {
        }
        assert(b0 * 0x100_0000 <= v < b0 * 0x100_0000 + 0x100_0000);
        vstd::arithmetic::div_mod::lemma_fundamental_div_mod_converse(v, 0x100_0000, b0, v - b0 * 0x100_0000);
        vstd::arithmetic::div_mod::lemma_small_mod(v as nat, 0x1_0000_0000);
        assert(be4(v).take(1) =~= bytes);
    } else if k == 2 {
        let b1 = bytes[1] as int;
        assert(padded[1] == bytes[1] && padded[2] == 0 && padded[3] == 0);
        assert(full =~= seq![d[0], d[1], d[2], 0x75u8, 0x75u8]);
        assert(v == q2 * 7225 + 7224) by (nonlinear_arith)
            requires
                v == (((((d[0] - 33) * 85 + (d[1] - 33)) * 85 + (d[2] - 33)) * 85 + 84) * 85 + 84),
                d[0] - 33 == q4 % 85,
                d[1] - 33 == t1,
                d[2] - 33 == t2,
                q3 == 85 * q4 + t1,
                q2 == 85 * q3 + t2,
                q4 % 85 == q4,
        {
        }
        assert(w == q2 * 7225 + t3 * 85 + t4) by (nonlinear_arith)
            requires
                w == 85 * q1 + t4,
                q1 == 85 * q2 + t3,
        {
        }
        let bb = b0 * 256 + b1;
        assert(w == bb * 0x1_0000);
        assert(bb * 0x1_0000 <= v < bb * 0x1_0000 + 0x1_0000);
        vstd::arithmetic::div_mod::lemma_fundamental_div_mod_converse(v, 0x1_0000, bb, v - bb * 0x1_0000);
        vstd::arithmetic::div_mod::lemma_fundamental_div_mod_converse(v, 0x100_0000, b0, v - b0 * 0x100_0000);
        vstd::arithmetic::div_mod::lemma_fundamental_div_mod_converse(bb, 256, b0, b1);
        vstd::arithmetic::div_mod::lemma_small_mod(v as nat, 0x1_0000_0000);
        assert(be4(v).take(2) =~= bytes);
    } else {
        let b1 = bytes[1] as int;
        let b2 = bytes[2] as int;
        assert(padded[1] == bytes[1] && padded[2] == bytes[2] && padded[3] == 0);
        assert(full =~= seq![d[0], d[1], d[2], d[3], 0x75u8]);
        assert(v == q1 * 85 + 84) by (nonlinear_arith)
            requires
                v == (((((d[0] - 33) * 85 + (d[1] - 33)) * 85 + (d[2] - 33)) * 85 + (d[3] - 33)) * 85 + 84),
                d[0] - 33 == q4 % 85,
                d[1] - 33 == t1,
                d[2] - 33 == t2,
                d[3] - 33 == t3,
                q3 == 85 * q4 + t1,
                q2 == 85 * q3 + t2,
                q1 == 85 * q2 + t3,
                q4 % 85 == q4,
        {
        }
        let bb = b0 * 0x1_0000 + b1 * 256 + b2;
        assert(w == bb * 256);
        assert(bb * 256 <= v < bb * 256 + 256);
        vstd::arithmetic::div_mod::lemma_fundamental_div_mod_converse(v, 256, bb, v - bb * 256);
        vstd::arithmetic::div_mod::lemma_fundamental_div_mod_converse(v, 0x1_0000, b0 * 256 + b1, v - (b0 * 256 + b1) * 0x1_0000);
        vstd::arithmetic::div_mod::lemma_fundamental_div_mod_converse(v, 0x100_0000, b0, v - b0 * 0x100_0000);
        vstd::arithmetic::div_mod::lemma_fundamental_div_mod_converse(b0 * 256 + b1, 256, b0, b1);
        vstd::arithmetic::div_mod::lemma_fundamental_div_mod_converse(bb, 256, b0 * 256 + b1, b2);
        vstd::arithmetic::div_mod::lemma_small_mod(v as nat, 0x1_0000_0000);
        assert(be4(v).take(3) =~= bytes);
    }
}


proof fn lemma_word_zero(g: Seq<u8>)
    requires
        g.len() == 4,
        word_of(g) == 0,
    ensures
        g =~= seq![0u8, 0u8, 0u8, 0u8],
{
}

#[verifier::spinoff_prover]
#[verifier::rlimit(80)]
proof fn lemma_a85_standard_run(pre: Seq<u8>, bytes: Seq<u8>, acc: Seq<u8>)
    ensures
        ({
            let f = pre + a85_standard(bytes) + seq![0x7Eu8, 0x3Eu8];
            let p = pre.len() as int;
            a85_from(f, f[p], p + 1, Seq::empty(), acc) == Ok::<Seq<u8>, Seq<char>>(acc + bytes)
        }),
    decreases bytes.len(),
{
    let e = a85_standard(bytes);
    let f = pre + e + seq![0x7Eu8, 0x3Eu8];
    let p = pre.len() as int;
    if bytes.len() == 0 {
        assert(e.len() == 0);
        assert(f[p] == 0x7E && f[p + 1] == 0x3E);
        lemma_a85_from_unfold(f, f[p], p + 1, Seq::empty(), acc);
        assert(acc + bytes =~= acc);
    } else if bytes.len() < 4 {
        let k = bytes.len() as int;
        lemma_a85_partial(bytes);
        let d = e;
        assert(d.len() == k + 1);
        assert forall|i: int| 0 <= i < d.len() implies f[p + i] == #[trigger] d[i] by {}
        assert(f[p + k + 1] == 0x7E && f[p + k + 2] == 0x3E);
        lemma_a85_from_unfold(f, d[0], p + 1, Seq::empty(), acc);
        assert(Seq::<u8>::empty().push(d[0]) =~= d.take(1));
        lemma_a85_from_unfold(f, d[1], p + 2, d.take(1), acc);
        assert(d.take(1).push(d[1]) =~= d.take(2));
        if k >= 2 {
            lemma_a85_from_unfold(f, d[2], p + 3, d.take(2), acc);
            assert(d.take(2).push(d[2]) =~= d.take(3));
        }
        if k >= 3 {
            lemma_a85_from_unfold(f, d[3], p + 4, d.take(3), acc);
            assert(d.take(3).push(d[3]) =~= d.take(4));
        }
        assert(d.take(k + 1) =~= d);
        lemma_a85_from_unfold(f, 0x7E, p + k + 2, d, acc);
        assert(acc + be4(a85_group_value(d + Seq::new((5 - d.len()) as nat, |_i: int| 0x75u8))).take(k) =~= acc
            + bytes);
    } else {
        let g = bytes.take(4);
        let rest = bytes.skip(4);
        let t = a85_group_text(g);
        let pre2 = pre + t;
        assert(f =~= pre2 + a85_standard(rest) + seq![0x7Eu8, 0x3Eu8]);
        lemma_be4_word(g);
        let acc2 = acc + g;
        assert(acc2 + rest =~= acc + bytes);
        if word_of(g) == 0 {
            lemma_word_zero(g);
            assert(f[p] == 0x7A);
            lemma_a85_from_unfold(f, 0x7A, p + 1, Seq::empty(), acc);
            assert(acc + seq![0u8, 0u8, 0u8, 0u8] =~= acc2);
            lemma_a85_standard_run(pre2, rest, acc2);
        } else {
            let w = word_of(g);
            let d = a85_digits(w);
            lemma_a85_digits_value(w);
            assert forall|i: int| 0 <= i < 5 implies f[p + i] == #[trigger] d[i] by {}
            lemma_a85_from_unfold(f, d[0], p + 1, Seq::empty(), acc);
            assert(Seq::<u8>::empty().push(d[0]) =~= d.take(1));
            lemma_a85_from_unfold(f, d[1], p + 2, d.take(1), acc);
            assert(d.take(1).push(d[1]) =~= d.take(2));
            lemma_a85_from_unfold(f, d[2], p + 3, d.take(2), acc);
            assert(d.take(2).push(d[2]) =~= d.take(3));
            lemma_a85_from_unfold(f, d[3], p + 4, d.take(3), acc);
            assert(d.take(3).push(d[3]) =~= d.take(4));
            lemma_a85_from_unfold(f, d[4], p + 5, d.take(4), acc);
            assert(d.take(4).push(d[4]) =~= d);
            assert(acc + be4(a85_group_value(d)) =~= acc2);
            lemma_a85_standard_run(pre2, rest, acc2);
            assert(pre2.len() == p + 5);
        }
    }
}

proof fn lemma_a85_standard_chars(bytes: Seq<u8>)
    ensures
        forall|i: int|
            0 <= i < a85_standard(bytes).len() ==> (0x21 <= #[trigger] a85_standard(bytes)[i] <= 0x75
                || a85_standard(bytes)[i] == 0x7A),
    decreases bytes.len(),
{
    if bytes.len() > 0 && bytes.len() < 4 {
        lemma_a85_partial(bytes);
    } else if bytes.len() >= 4 {
        let g = bytes.take(4);
        lemma_be4_word(g);
        lemma_a85_digits_value(word_of(g));
        lemma_a85_standard_chars(bytes.skip(4));
        let t = a85_group_text(g);
        assert(a85_standard(bytes) == t + a85_standard(bytes.skip(4)));
        assert forall|i: int| 0 <= i < a85_standard(bytes).len() implies (0x21 <= #[trigger] a85_standard(
            bytes,
        )[i] <= 0x75 || a85_standard(bytes)[i] == 0x7A) by {
            if i >= t.len() {
                assert(a85_standard(bytes)[i] == a85_standard(bytes.skip(4))[i - t.len()]);
            }
        }
    }
}

/// ASCII85Decode of standard ASCII85 (four-byte groups as five digits or
/// `z`, a final group of k bytes as k + 1 digits), with whitespace
/// anywhere, ended by `~>` and optionally begun by `<~`, gives the bytes.
pub proof fn lemma_ascii85_law(data: Seq<u8>, bytes: Seq<u8>, prefixed: bool)
    requires
        nonws(data) == (if prefixed {
            seq![0x3Cu8, 0x7Eu8]
        } else {
            Seq::<u8>::empty()
        }) + a85_standard(bytes) + seq![0x7Eu8, 0x3Eu8],
    ensures
        ascii85_decoded(data) == Ok::<Seq<u8>, Seq<char>>(bytes),
{
    let pre = if prefixed {
        seq![0x3Cu8, 0x7Eu8]
    } else {
        Seq::<u8>::empty()
    };
    let e = a85_standard(bytes);
    let f = nonws(data);
    lemma_a85_standard_chars(bytes);
    lemma_a85_standard_run(pre, bytes, Seq::empty());
    assert(Seq::<u8>::empty() + bytes =~= bytes);
    if prefixed {
        assert(f[0] == 0x3C && f[1] == 0x7E && f.len() >= 4);
    } else if e.len() > 0 && e[0] == 0x3C {
        assert(f[0] == e[0]);
        assert(f[1] != 0x7E) by {
            if e.len() > 1 {
                assert(f[1] == e[1]);
            } else {
                assert(f[1] == 0x7E);
                assert(false) by {
                    lemma_a85_lone_char(bytes);
                }
            }
        }
    }
}

proof fn lemma_a85_lone_char(bytes: Seq<u8>)
    requires
        a85_standard(bytes).len() == 1,
    ensures
        a85_standard(bytes)[0] == 0x7A,
{
    if bytes.len() > 0 && bytes.len() < 4 {
        lemma_a85_partial(bytes);
    } else if bytes.len() >= 4 {
        let g = bytes.take(4);
        let t = a85_group_text(g);
        assert(a85_standard(bytes) == t + a85_standard(bytes.skip(4)));
        if word_of(g) != 0 {
            assert(t.len() == 5);
        }
    }
}

} // verus!
