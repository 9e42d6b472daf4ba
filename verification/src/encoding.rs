//! Character encoding detection and conversion for PDF text.

use std::collections::HashMap;
use vstd::prelude::*;
use vstd::utf8::{decode_utf8, valid_utf8};
use crate::error::PdfError;
use crate::text::{concat_str, hex2_seq};

verus! {

broadcast use vstd::std_specs::hash::group_hash_axioms;

/// Supported encoding types for PDF text.
#[derive(Debug, Clone, Copy, PartialEq, Eq, Structural)]
pub enum EncodingType {
    /// UTF-8
    Utf8,
    /// Latin-1 / ISO 8859-1
    Latin1,
    /// Windows-1252
    Windows1252,
    /// MacRoman
    MacRoman,
    /// PDF built-in encoding
    PdfDocEncoding,
    /// Unknown or mixed encoding
    Mixed,
}

/// Human-readable name of an encoding.
pub open spec fn encoding_name(e: EncodingType) -> Seq<char> {
    match e {
        EncodingType::Utf8 => "UTF-8"@,
        EncodingType::Latin1 => "ISO 8859-1 (Latin-1)"@,
        EncodingType::Windows1252 => "Windows-1252"@,
        EncodingType::MacRoman => "MacRoman"@,
        EncodingType::PdfDocEncoding => "PDFDocEncoding"@,
        EncodingType::Mixed => "Mixed/Unknown"@,
    }
}

impl EncodingType {
    /// Human-readable name.
    pub fn name(&self) -> (s: &'static str)
        ensures
            s@ == encoding_name(*self),
    {
        match self {
            EncodingType::Utf8 => "UTF-8",
            EncodingType::Latin1 => "ISO 8859-1 (Latin-1)",
            EncodingType::Windows1252 => "Windows-1252",
            EncodingType::MacRoman => "MacRoman",
            EncodingType::PdfDocEncoding => "PDFDocEncoding",
            EncodingType::Mixed => "Mixed/Unknown",
        }
    }
}

/// Configuration for character encoding processing.
#[derive(Debug, Clone)]
pub struct EncodingOptions {
    /// Use replacement characters instead of failing
    pub lenient_mode: bool,
    /// Encoding to try first
    pub preferred_encoding: Option<EncodingType>,
    /// Maximum replacement characters accepted from a detected encoding
    pub max_replacements: usize,
    /// Log problematic characters for analysis
    pub log_issues: bool,
}

impl Default for EncodingOptions {
    fn default() -> (r: Self)
        ensures
            r.lenient_mode,
            r.preferred_encoding is None,
            r.max_replacements == 100,
            !r.log_issues,
    {
        EncodingOptions {
            lenient_mode: true,
            preferred_encoding: None,
            max_replacements: 100,
            log_issues: false,
        }
    }
}

/// Result of decoding with detection.
#[derive(Debug, Clone)]
pub struct EncodingResult {
    /// The decoded text
    pub text: String,
    /// Detected encoding (if any)
    pub detected_encoding: Option<EncodingType>,
    /// Number of replacement characters (U+FFFD) in the text
    pub replacement_count: usize,
    /// Confidence in tenths (10 stands for certainty)
    pub confidence_tenths: u128,
}

/// Information about an encoding issue.
#[derive(Debug, Clone)]
pub struct EncodingIssue {
    pub byte_value: u8,
    pub context: String,
    pub attempted_encodings: Vec<EncodingType>,
    pub resolution: IssueResolution,
}

/// How an encoding issue was resolved.
#[derive(Debug, Clone)]
pub enum IssueResolution {
    ReplacementCharacter,
    SuccessfulConversion(char),
    Skipped,
}

/// Latin-1: bytes 0x80..=0xFF map to the code point of the same value.
pub open spec fn latin1_table() -> Map<u8, char> {
    Map::new(|b: u8| 0x80 <= b, |b: u8| b as char)
}

/// Windows-1252: Latin-1 with the 0x80..0x9F extensions.
pub open spec fn windows1252_table() -> Map<u8, char> {
    latin1_table()
        .insert(0x80u8, '\u{20AC}')
        .insert(0x82u8, '\u{201A}')
        .insert(0x83u8, '\u{192}')
        .insert(0x84u8, '\u{201E}')
        .insert(0x85u8, '\u{2026}')
        .insert(0x86u8, '\u{2020}')
        .insert(0x87u8, '\u{2021}')
        .insert(0x88u8, '\u{2C6}')
        .insert(0x89u8, '\u{2030}')
        .insert(0x8Au8, '\u{160}')
        .insert(0x8Bu8, '\u{2039}')
        .insert(0x8Cu8, '\u{152}')
        .insert(0x8Eu8, '\u{17D}')
        .insert(0x91u8, '\u{2018}')
        .insert(0x92u8, '\u{2019}')
        .insert(0x93u8, '\u{201C}')
        .insert(0x94u8, '\u{201D}')
        .insert(0x95u8, '\u{2022}')
        .insert(0x96u8, '\u{2013}')
        .insert(0x97u8, '\u{2014}')
        .insert(0x98u8, '\u{2DC}')
        .insert(0x99u8, '\u{2122}')
        .insert(0x9Au8, '\u{161}')
        .insert(0x9Bu8, '\u{203A}')
        .insert(0x9Cu8, '\u{153}')
        .insert(0x9Eu8, '\u{17E}')
        .insert(0x9Fu8, '\u{178}')
}

/// MacRoman (the most common characters of 0x80..0xAF).
pub open spec fn macroman_table() -> Map<u8, char> {
    Map::<u8, char>::empty()
        .insert(0x80u8, '\u{C4}')
        .insert(0x81u8, '\u{C5}')
        .insert(0x82u8, '\u{C7}')
        .insert(0x83u8, '\u{C9}')
        .insert(0x84u8, '\u{D1}')
        .insert(0x85u8, '\u{D6}')
        .insert(0x86u8, '\u{DC}')
        .insert(0x87u8, '\u{E1}')
        .insert(0x88u8, '\u{E0}')
        .insert(0x89u8, '\u{E2}')
        .insert(0x8Au8, '\u{E4}')
        .insert(0x8Bu8, '\u{E3}')
        .insert(0x8Cu8, '\u{E5}')
        .insert(0x8Du8, '\u{E7}')
        .insert(0x8Eu8, '\u{E9}')
        .insert(0x8Fu8, '\u{E8}')
        .insert(0x90u8, '\u{EA}')
        .insert(0x91u8, '\u{EB}')
        .insert(0x92u8, '\u{ED}')
        .insert(0x93u8, '\u{EC}')
        .insert(0x94u8, '\u{EE}')
        .insert(0x95u8, '\u{EF}')
        .insert(0x96u8, '\u{F1}')
        .insert(0x97u8, '\u{F3}')
        .insert(0x98u8, '\u{F2}')
        .insert(0x99u8, '\u{F4}')
        .insert(0x9Au8, '\u{F6}')
        .insert(0x9Bu8, '\u{F5}')
        .insert(0x9Cu8, '\u{FA}')
        .insert(0x9Du8, '\u{F9}')
        .insert(0x9Eu8, '\u{FB}')
        .insert(0x9Fu8, '\u{FC}')
        .insert(0xA0u8, '\u{2020}')
        .insert(0xA1u8, '\u{B0}')
        .insert(0xA2u8, '\u{A2}')
        .insert(0xA3u8, '\u{A3}')
        .insert(0xA4u8, '\u{A7}')
        .insert(0xA5u8, '\u{2022}')
        .insert(0xA6u8, '\u{B6}')
        .insert(0xA7u8, '\u{DF}')
        .insert(0xA8u8, '\u{AE}')
        .insert(0xA9u8, '\u{A9}')
        .insert(0xAAu8, '\u{2122}')
        .insert(0xABu8, '\u{B4}')
        .insert(0xACu8, '\u{A8}')
        .insert(0xADu8, '\u{2260}')
        .insert(0xAEu8, '\u{C6}')
        .insert(0xAFu8, '\u{D8}')
}

/// The replacement character.
pub open spec fn replacement_char() -> char {
    '\u{FFFD}'
}

/// Number of occurrences of `c` in `s`.
pub open spec fn count_char(s: Seq<char>, c: char) -> nat
    decreases s.len(),
{
    if s.len() == 0 {
        0
    } else {
        count_char(s.drop_last(), c) + if s.last() == c {
            1nat
        } else {
            0nat
        }
    }
}

/// The character a single byte decodes to under a table: ASCII maps to
/// itself, a table entry to its character, anything else to U+FFFD in
/// lenient mode and to failure otherwise.
pub open spec fn byte_to_char(table: Map<u8, char>, b: u8, lenient: bool) -> Option<char> {
    if b < 0x80 {
        Some(b as char)
    } else if table.contains_key(b) {
        Some(table[b])
    } else if lenient {
        Some(replacement_char())
    } else {
        None
    }
}

/// Decoding of a byte string with a single-byte table.
pub open spec fn decode_single_byte(table: Map<u8, char>, bytes: Seq<u8>, lenient: bool) -> Option<
    Seq<char>,
>
    decreases bytes.len(),
{
    if bytes.len() == 0 {
        Some(Seq::empty())
    } else {
        match (
            decode_single_byte(table, bytes.drop_last(), lenient),
            byte_to_char(table, bytes.last(), lenient),
        ) {
            (Some(p), Some(c)) => Some(p.push(c)),
            _ => None,
        }
    }
}

/// What `String::from_utf8_lossy` gives for a byte string.
pub uninterp spec fn utf8_lossy(bytes: Seq<u8>) -> Seq<char>;

/// The text `String::from_utf8_lossy` gives: the decoding of valid UTF-8,
/// otherwise the text with each invalid sequence replaced.
pub open spec fn lossy_text(bytes: Seq<u8>) -> Seq<char> {
    if valid_utf8(bytes) {
        decode_utf8(bytes)
    } else {
        utf8_lossy(bytes)
    }
}

/// `String::from_utf8_lossy`: the text of the bytes with each invalid
/// sequence replaced by U+FFFD; valid UTF-8 decodes unchanged.
#[verifier::external_body]
pub(crate) fn utf8_lossy_string(bytes: &[u8]) -> (s: String)
    ensures
        s@ == utf8_lossy(bytes@),
        valid_utf8(bytes@) ==> s@ == decode_utf8(bytes@),
{
    String::from_utf8_lossy(bytes).to_string()
}

/// The text `String::from_utf8` gives as its error's display for bytes
/// that are not valid UTF-8 (where the first invalid sequence is).
pub uninterp spec fn utf8_error_text(bytes: Seq<u8>) -> Seq<char>;

/// `String::from_utf8`: succeeds exactly on valid UTF-8, with its decoding;
/// the error is converted to its display text, `utf8_error_text` of the
/// bytes.
#[verifier::external_body]
pub(crate) fn utf8_strict_string(bytes: &[u8]) -> (r: Result<String, String>)
    ensures
        r is Ok <==> valid_utf8(bytes@),
        r matches Ok(s) ==> s@ == decode_utf8(bytes@),
        r matches Err(m) ==> m@ == utf8_error_text(bytes@),
{
    match String::from_utf8(bytes.to_vec()) {
        Ok(s) => Ok(s),
        Err(e) => Err(e.to_string()),
    }
}

/// `std::str::from_utf8(..).is_ok()`: whether the bytes are valid UTF-8.
#[verifier::external_body]
fn is_valid_utf8(bytes: &[u8]) -> (r: bool)
    ensures
        r == valid_utf8(bytes@),
{
    std::str::from_utf8(bytes).is_ok()
}

/// `String::push`: appends one character.
#[verifier::external_body]
pub(crate) fn push_char(s: &mut String, c: char)
    ensures
        final(s)@ == old(s)@.push(c),
{
    s.push(c);
}

/// The first byte that a table cannot decode in strict mode (a byte of
/// 0x80 or more that the table lacks), from index `i` on.
pub open spec fn first_undecodable(table: Map<u8, char>, bytes: Seq<u8>, i: int) -> u8
    decreases bytes.len() - i,
{
    if i < 0 || i >= bytes.len() {
        0
    } else if bytes[i] >= 0x80 && !table.contains_key(bytes[i]) {
        bytes[i]
    } else {
        first_undecodable(table, bytes, i + 1)
    }
}

/// The message for a byte that a single-byte table cannot decode.
pub open spec fn invalid_char_message(label: Seq<char>, b: u8) -> Seq<char> {
    "Invalid "@ + label + " character: 0x"@ + hex2_seq(b)
}

/// The message of the error `decode_with_encoding` gives when decoding
/// fails (strict mode only).
pub open spec fn decode_error_message(bytes: Seq<u8>, encoding: EncodingType) -> Seq<char> {
    match encoding {
        EncodingType::Utf8 => "UTF-8 decoding failed: "@ + utf8_error_text(bytes),
        EncodingType::Windows1252 => invalid_char_message("Windows-1252"@, first_undecodable(windows1252_table(), bytes, 0)),
        EncodingType::MacRoman => invalid_char_message("MacRoman"@, first_undecodable(macroman_table(), bytes, 0)),
        _ => invalid_char_message("Latin-1"@, first_undecodable(latin1_table(), bytes, 0)),
    }
}

/// Text of `bytes` under `encoding`, as `decode_with_encoding` computes it.
pub open spec fn decode_with_encoding_spec(bytes: Seq<u8>, encoding: EncodingType, lenient: bool) -> Option<
    Seq<char>,
> {
    match encoding {
        EncodingType::Utf8 => if lenient {
            Some(lossy_text(bytes))
        } else if valid_utf8(bytes) {
            Some(decode_utf8(bytes))
        } else {
            None
        },
        EncodingType::Latin1 => decode_single_byte(latin1_table(), bytes, lenient),
        EncodingType::Windows1252 => decode_single_byte(windows1252_table(), bytes, lenient),
        EncodingType::MacRoman => decode_single_byte(macroman_table(), bytes, lenient),
        EncodingType::PdfDocEncoding => decode_single_byte(latin1_table(), bytes, lenient),
        EncodingType::Mixed => Some(mixed_text(bytes)),
    }
}

/// Whether a lenient decoding has fewer than a quarter replacement characters.
pub open spec fn acceptable_mixed(text: Seq<char>, bytes: Seq<u8>) -> bool {
    count_char(text, replacement_char()) < bytes.len() / 4
}

/// Mixed decoding: the first of UTF-8, Windows-1252, Latin-1 and MacRoman
/// (all lenient) with fewer than a quarter replacement characters, else
/// lossy UTF-8.
pub open spec fn mixed_text(bytes: Seq<u8>) -> Seq<char> {
    let u = lossy_text(bytes);
    let w = decode_single_byte(windows1252_table(), bytes, true).unwrap();
    let l = decode_single_byte(latin1_table(), bytes, true).unwrap();
    let m = decode_single_byte(macroman_table(), bytes, true).unwrap();
    if acceptable_mixed(u, bytes) {
        u
    } else if acceptable_mixed(w, bytes) {
        w
    } else if acceptable_mixed(l, bytes) {
        l
    } else if acceptable_mixed(m, bytes) {
        m
    } else {
        u
    }
}

/// Whether a byte is one that Windows-1252 gives a meaning distinct from Latin-1.
pub open spec fn is_windows1252_specific(b: u8) -> bool {
    b == 0x80 || (0x82 <= b <= 0x8C) || b == 0x8E || (0x91 <= b <= 0x9C) || b == 0x9E || b == 0x9F
}

/// Number of Windows-1252 specific bytes.
pub open spec fn count_windows1252_specific(bytes: Seq<u8>) -> nat
    decreases bytes.len(),
{
    if bytes.len() == 0 {
        0
    } else {
        count_windows1252_specific(bytes.drop_last()) + if is_windows1252_specific(bytes.last()) {
            1nat
        } else {
            0nat
        }
    }
}

/// Whether some byte has its high bit set.
pub open spec fn has_high_byte(bytes: Seq<u8>) -> bool {
    exists|i: int| 0 <= i < bytes.len() && bytes[i] >= 0x80
}

/// Whether some byte is in the MacRoman table.
pub open spec fn has_macroman_byte(bytes: Seq<u8>) -> bool {
    exists|i: int| 0 <= i < bytes.len() && #[trigger] macroman_table().contains_key(bytes[i])
}

/// Detection scores, in tenths, in the order UTF-8, Latin-1, Windows-1252, MacRoman.
pub open spec fn encoding_scores(bytes: Seq<u8>) -> Seq<(EncodingType, u128)> {
    seq![
        (EncodingType::Utf8, if valid_utf8(bytes) { 9u128 } else { 0u128 }),
        (EncodingType::Latin1, if has_high_byte(bytes) { 2u128 } else { 0u128 }),
        (EncodingType::Windows1252, (count_windows1252_specific(bytes) + if has_high_byte(bytes) {
            3nat
        } else {
            0nat
        }) as u128),
        (EncodingType::MacRoman, if has_macroman_byte(bytes) { 1u128 } else { 0u128 }),
    ]
}

/// Position of candidate `k` after a stable sort by descending score.
pub open spec fn score_rank(s: Seq<(EncodingType, u128)>, k: int) -> int {
    (if 0 != k && (s[0].1 > s[k].1 || (s[0].1 == s[k].1 && 0 < k)) { 1int } else { 0int })
    + (if 1 != k && (s[1].1 > s[k].1 || (s[1].1 == s[k].1 && 1 < k)) { 1int } else { 0int })
    + (if 2 != k && (s[2].1 > s[k].1 || (s[2].1 == s[k].1 && 2 < k)) { 1int } else { 0int })
    + (if 3 != k && (s[3].1 > s[k].1 || (s[3].1 == s[k].1 && 3 < k)) { 1int } else { 0int })
}

/// Whether `r` is the stable descending sort of the four candidates `s`.
pub open spec fn is_sorted_candidates(s: Seq<(EncodingType, u128)>, r: Seq<(EncodingType, u128)>) -> bool {
    &&& r.len() == 4
    &&& forall|k: int| 0 <= k < 4 ==> #[trigger] r[score_rank(s, k)] == s[k]
}

/// The first candidate from position `i` on with a score above one tenth
/// whose decoding succeeds with at most `max` replacement characters.
pub open spec fn first_acceptable(
    cands: Seq<(EncodingType, u128)>,
    i: int,
    bytes: Seq<u8>,
    lenient: bool,
    max: usize,
) -> Option<(EncodingType, Seq<char>, u128)>
    decreases cands.len() - i,
{
    if i >= cands.len() || i < 0 {
        None
    } else {
        let (e, c) = cands[i];
        if c > 1 && (decode_with_encoding_spec(bytes, e, lenient) matches Some(t) && count_char(
            t,
            replacement_char(),
        ) <= max) {
            Some((e, decode_with_encoding_spec(bytes, e, lenient).unwrap(), c))
        } else {
            first_acceptable(cands, i + 1, bytes, lenient, max)
        }
    }
}

/// The three byte-to-character tables.
struct EncodingTables {
    latin1_map: HashMap<u8, char>,
    windows1252_map: HashMap<u8, char>,
    macroman_map: HashMap<u8, char>,
}

impl EncodingTables {
    #[verifier::type_invariant]
    spec fn tables_loaded(&self) -> bool {
        &&& self.latin1_map@ == latin1_table()
        &&& self.windows1252_map@ == windows1252_table()
        &&& self.macroman_map@ == macroman_table()
    }
}

/// Character decoder with encoding tables.
pub struct EnhancedDecoder {
    tables: EncodingTables,
    issue_log: Vec<EncodingIssue>,
}

impl EnhancedDecoder {
    /// The issues logged so far.
    pub closed spec fn issues(&self) -> Seq<EncodingIssue> {
        self.issue_log@
    }

    fn build_latin1() -> (m: HashMap<u8, char>)
        ensures
            m@ == latin1_table(),
    {
        let mut m: HashMap<u8, char> = HashMap::new();
        let mut i: u16 = 0x80;
        while i <= 0xFF
            invariant
                0x80 <= i <= 0x100,
                m@ == Map::new(|b: u8| 0x80 <= b < i, |b: u8| b as char),
            decreases 0x100 - i,
        {
            let b = i as u8;
            m.insert(b, b as char);
            assert(m@ =~= Map::new(|x: u8| 0x80 <= x < i + 1, |x: u8| x as char));
            i = i + 1;
        }
        assert(m@ =~= latin1_table());
        m
    }

    fn build_windows1252(latin1: &HashMap<u8, char>) -> (w: HashMap<u8, char>)
        requires
            latin1@ == latin1_table(),
        ensures
            w@ == windows1252_table(),
    {
        let mut w = latin1.clone();
        w.insert(0x80u8, '\u{20AC}');
        w.insert(0x82u8, '\u{201A}');
        w.insert(0x83u8, '\u{192}');
        w.insert(0x84u8, '\u{201E}');
        w.insert(0x85u8, '\u{2026}');
        w.insert(0x86u8, '\u{2020}');
        w.insert(0x87u8, '\u{2021}');
        w.insert(0x88u8, '\u{2C6}');
        w.insert(0x89u8, '\u{2030}');
        w.insert(0x8Au8, '\u{160}');
        w.insert(0x8Bu8, '\u{2039}');
        w.insert(0x8Cu8, '\u{152}');
        w.insert(0x8Eu8, '\u{17D}');
        w.insert(0x91u8, '\u{2018}');
        w.insert(0x92u8, '\u{2019}');
        w.insert(0x93u8, '\u{201C}');
        w.insert(0x94u8, '\u{201D}');
        w.insert(0x95u8, '\u{2022}');
        w.insert(0x96u8, '\u{2013}');
        w.insert(0x97u8, '\u{2014}');
        w.insert(0x98u8, '\u{2DC}');
        w.insert(0x99u8, '\u{2122}');
        w.insert(0x9Au8, '\u{161}');
        w.insert(0x9Bu8, '\u{203A}');
        w.insert(0x9Cu8, '\u{153}');
        w.insert(0x9Eu8, '\u{17E}');
        w.insert(0x9Fu8, '\u{178}');
        w
    }

    fn build_macroman() -> (m: HashMap<u8, char>)
        ensures
            m@ == macroman_table(),
    {
        let mut m: HashMap<u8, char> = HashMap::new();
        m.insert(0x80u8, '\u{C4}');
        m.insert(0x81u8, '\u{C5}');
        m.insert(0x82u8, '\u{C7}');
        m.insert(0x83u8, '\u{C9}');
        m.insert(0x84u8, '\u{D1}');
        m.insert(0x85u8, '\u{D6}');
        m.insert(0x86u8, '\u{DC}');
        m.insert(0x87u8, '\u{E1}');
        m.insert(0x88u8, '\u{E0}');
        m.insert(0x89u8, '\u{E2}');
        m.insert(0x8Au8, '\u{E4}');
        m.insert(0x8Bu8, '\u{E3}');
        m.insert(0x8Cu8, '\u{E5}');
        m.insert(0x8Du8, '\u{E7}');
        m.insert(0x8Eu8, '\u{E9}');
        m.insert(0x8Fu8, '\u{E8}');
        m.insert(0x90u8, '\u{EA}');
        m.insert(0x91u8, '\u{EB}');
        m.insert(0x92u8, '\u{ED}');
        m.insert(0x93u8, '\u{EC}');
        m.insert(0x94u8, '\u{EE}');
        m.insert(0x95u8, '\u{EF}');
        m.insert(0x96u8, '\u{F1}');
        m.insert(0x97u8, '\u{F3}');
        m.insert(0x98u8, '\u{F2}');
        m.insert(0x99u8, '\u{F4}');
        m.insert(0x9Au8, '\u{F6}');
        m.insert(0x9Bu8, '\u{F5}');
        m.insert(0x9Cu8, '\u{FA}');
        m.insert(0x9Du8, '\u{F9}');
        m.insert(0x9Eu8, '\u{FB}');
        m.insert(0x9Fu8, '\u{FC}');
        m.insert(0xA0u8, '\u{2020}');
        m.insert(0xA1u8, '\u{B0}');
        m.insert(0xA2u8, '\u{A2}');
        m.insert(0xA3u8, '\u{A3}');
        m.insert(0xA4u8, '\u{A7}');
        m.insert(0xA5u8, '\u{2022}');
        m.insert(0xA6u8, '\u{B6}');
        m.insert(0xA7u8, '\u{DF}');
        m.insert(0xA8u8, '\u{AE}');
        m.insert(0xA9u8, '\u{A9}');
        m.insert(0xAAu8, '\u{2122}');
        m.insert(0xABu8, '\u{B4}');
        m.insert(0xACu8, '\u{A8}');
        m.insert(0xADu8, '\u{2260}');
        m.insert(0xAEu8, '\u{C6}');
        m.insert(0xAFu8, '\u{D8}');
        m
    }

    /// Load the Latin-1, Windows-1252 and MacRoman tables.
    fn initialize_encoding_tables() -> (t: EncodingTables)
        ensures
            t.latin1_map@ == latin1_table(),
            t.windows1252_map@ == windows1252_table(),
            t.macroman_map@ == macroman_table(),
    {
        let latin1_map = Self::build_latin1();
        let windows1252_map = Self::build_windows1252(&latin1_map);
        let macroman_map = Self::build_macroman();
        EncodingTables { latin1_map, windows1252_map, macroman_map }
    }

    /// Create a decoder with all encoding tables loaded and an empty issue log.
    pub fn new() -> (d: Self)
        ensures
            d.issues().len() == 0,
    {
        EnhancedDecoder { tables: Self::initialize_encoding_tables(), issue_log: Vec::new() }
    }

    /// Clear the issue log.
    pub fn clear_log(&mut self)
        ensures
            final(self).issues().len() == 0,
    {
        self.issue_log.clear();
    }

    /// The issue log.
    pub fn get_issues(&self) -> (r: &[EncodingIssue])
        ensures
            r@ == self.issues(),
    {
        self.issue_log.as_slice()
    }

    /// Append an issue to the log.
    pub fn log_issue(&mut self, issue: EncodingIssue)
        ensures
            final(self).issues() == old(self).issues().push(issue),
    {
        self.issue_log.push(issue);
    }
}

} // verus!

verus! {

/// A prefix that fails to decode makes the whole byte string fail.
proof fn lemma_single_byte_prefix_fails(table: Map<u8, char>, bytes: Seq<u8>, i: int, lenient: bool)
    requires
        0 <= i <= bytes.len(),
        decode_single_byte(table, bytes.take(i), lenient) is None,
    ensures
        decode_single_byte(table, bytes, lenient) is None,
    decreases bytes.len() - i,
{
    if i < bytes.len() {
        assert(bytes.take(i + 1).drop_last() =~= bytes.take(i));
        lemma_single_byte_prefix_fails(table, bytes, i + 1, lenient);
    } else {
        assert(bytes.take(i) =~= bytes);
    }
}

/// Lenient single-byte decoding always succeeds, with one character per byte.
pub proof fn lemma_single_byte_lenient_total(table: Map<u8, char>, bytes: Seq<u8>)
    ensures
        decode_single_byte(table, bytes, true) matches Some(t) && t.len() == bytes.len(),
    decreases bytes.len(),
{
    if bytes.len() > 0 {
        lemma_single_byte_lenient_total(table, bytes.drop_last());
    }
}

/// Single-byte decoding, byte by byte: it succeeds exactly when every
/// byte decodes, and then gives one character per byte, the byte's own.
pub proof fn lemma_single_byte_each(table: Map<u8, char>, bytes: Seq<u8>, lenient: bool)
    ensures
        decode_single_byte(table, bytes, lenient) is Some <==> forall|i: int|
            0 <= i < bytes.len() ==> #[trigger] byte_to_char(table, bytes[i], lenient) is Some,
        decode_single_byte(table, bytes, lenient) matches Some(t) ==> t.len() == bytes.len() && forall|i: int|
            0 <= i < bytes.len() ==> Some(#[trigger] t[i]) == byte_to_char(table, bytes[i], lenient),
    decreases bytes.len(),
{
    if bytes.len() > 0 {
        let p = bytes.drop_last();
        lemma_single_byte_each(table, p, lenient);
        assert forall|i: int| 0 <= i < p.len() implies p[i] == bytes[i] by {}
        if !(forall|i: int| 0 <= i < bytes.len() ==> #[trigger] byte_to_char(table, bytes[i], lenient) is Some) {
            let j = choose|j: int| 0 <= j < bytes.len() && !(byte_to_char(table, bytes[j], lenient) is Some);
            if j < p.len() {
                assert(p[j] == bytes[j]);
            }
        }
        if forall|i: int| 0 <= i < bytes.len() ==> #[trigger] byte_to_char(table, bytes[i], lenient) is Some {
            assert forall|i: int| 0 <= i < p.len() implies #[trigger] byte_to_char(table, p[i], lenient) is Some by {
                assert(p[i] == bytes[i]);
            }
            assert(byte_to_char(table, bytes[bytes.len() - 1], lenient) is Some);
        }
    }
}

/// Latin-1 and PDFDocEncoding decoding never fail and map each byte to
/// the character of the same code point, as does `char::from(u8)`.
pub proof fn lemma_latin1_decodes_each_byte(bytes: Seq<u8>, lenient: bool)
    ensures
        decode_with_encoding_spec(bytes, EncodingType::Latin1, lenient) == Some(
            bytes.map_values(|b: u8| b as char),
        ),
        decode_with_encoding_spec(bytes, EncodingType::PdfDocEncoding, lenient) == Some(
            bytes.map_values(|b: u8| b as char),
        ),
{
    lemma_single_byte_each(latin1_table(), bytes, lenient);
    assert forall|i: int| 0 <= i < bytes.len() implies #[trigger] byte_to_char(latin1_table(), bytes[i], lenient)
        == Some(bytes[i] as char) by {}
    let t = decode_single_byte(latin1_table(), bytes, lenient).unwrap();
    assert(t =~= bytes.map_values(|b: u8| b as char)) by {
        assert forall|i: int| 0 <= i < bytes.len() implies t[i] == bytes[i] as char by {
            assert(Some(t[i]) == byte_to_char(latin1_table(), bytes[i], lenient));
        }
    }
}

/// Windows-1252 decoding never fails and gives each byte the character
/// of the Windows-1252 code page (0x93 is U+201C, 0x94 U+201D, 0x80 the
/// euro sign, and so on).
pub proof fn lemma_windows1252_decoding(bytes: Seq<u8>, lenient: bool)
    ensures
        decode_with_encoding_spec(bytes, EncodingType::Windows1252, lenient) == Some(
            bytes.map_values(|b: u8| cp1252_char(b)),
        ),
{
    lemma_single_byte_each(windows1252_table(), bytes, lenient);
    assert forall|i: int| 0 <= i < bytes.len() implies #[trigger] byte_to_char(windows1252_table(), bytes[i], lenient)
        == Some(cp1252_char(bytes[i])) by {
        let b = bytes[i];
        if b >= 0x80 {
            assert(latin1_table().contains_key(b));
            assert(windows1252_table().contains_key(b));
            lemma_windows1252_entry(b);
            if !(b == 0x80u8 || b == 0x82u8 || b == 0x83u8 || b == 0x84u8 || b == 0x85u8 || b == 0x86u8 || b == 0x87u8
                || b == 0x88u8 || b == 0x89u8 || b == 0x8Au8 || b == 0x8Bu8 || b == 0x8Cu8 || b == 0x8Eu8 || b == 0x91u8
                || b == 0x92u8 || b == 0x93u8 || b == 0x94u8 || b == 0x95u8 || b == 0x96u8 || b == 0x97u8 || b == 0x98u8
                || b == 0x99u8 || b == 0x9Au8 || b == 0x9Bu8 || b == 0x9Cu8 || b == 0x9Eu8 || b == 0x9Fu8) {
                assert(windows1252_table()[b] == latin1_table()[b]);
            }
        }
    }
    let t = decode_single_byte(windows1252_table(), bytes, lenient).unwrap();
    assert(t =~= bytes.map_values(|b: u8| cp1252_char(b))) by {
        assert forall|i: int| 0 <= i < bytes.len() implies t[i] == cp1252_char(bytes[i]) by {
            assert(Some(t[i]) == byte_to_char(windows1252_table(), bytes[i], lenient));
        }
    }
}

/// The character MacRoman decoding gives a byte in lenient mode: ASCII
/// itself, 0x80..0xAF the Mac OS Roman character, anything above U+FFFD.
pub open spec fn macroman_char(b: u8) -> char {
    if b < 0x80 {
        b as char
    } else if b == 0x80u8 {
        '\u{C4}'
    } else if b == 0x81u8 {
        '\u{C5}'
    } else if b == 0x82u8 {
        '\u{C7}'
    } else if b == 0x83u8 {
        '\u{C9}'
    } else if b == 0x84u8 {
        '\u{D1}'
    } else if b == 0x85u8 {
        '\u{D6}'
    } else if b == 0x86u8 {
        '\u{DC}'
    } else if b == 0x87u8 {
        '\u{E1}'
    } else if b == 0x88u8 {
        '\u{E0}'
    } else if b == 0x89u8 {
        '\u{E2}'
    } else if b == 0x8Au8 {
        '\u{E4}'
    } else if b == 0x8Bu8 {
        '\u{E3}'
    } else if b == 0x8Cu8 {
        '\u{E5}'
    } else if b == 0x8Du8 {
        '\u{E7}'
    } else if b == 0x8Eu8 {
        '\u{E9}'
    } else if b == 0x8Fu8 {
        '\u{E8}'
    } else if b == 0x90u8 {
        '\u{EA}'
    } else if b == 0x91u8 {
        '\u{EB}'
    } else if b == 0x92u8 {
        '\u{ED}'
    } else if b == 0x93u8 {
        '\u{EC}'
    } else if b == 0x94u8 {
        '\u{EE}'
    } else if b == 0x95u8 {
        '\u{EF}'
    } else if b == 0x96u8 {
        '\u{F1}'
    } else if b == 0x97u8 {
        '\u{F3}'
    } else if b == 0x98u8 {
        '\u{F2}'
    } else if b == 0x99u8 {
        '\u{F4}'
    } else if b == 0x9Au8 {
        '\u{F6}'
    } else if b == 0x9Bu8 {
        '\u{F5}'
    } else if b == 0x9Cu8 {
        '\u{FA}'
    } else if b == 0x9Du8 {
        '\u{F9}'
    } else if b == 0x9Eu8 {
        '\u{FB}'
    } else if b == 0x9Fu8 {
        '\u{FC}'
    } else if b == 0xA0u8 {
        '\u{2020}'
    } else if b == 0xA1u8 {
        '\u{B0}'
    } else if b == 0xA2u8 {
        '\u{A2}'
    } else if b == 0xA3u8 {
        '\u{A3}'
    } else if b == 0xA4u8 {
        '\u{A7}'
    } else if b == 0xA5u8 {
        '\u{2022}'
    } else if b == 0xA6u8 {
        '\u{B6}'
    } else if b == 0xA7u8 {
        '\u{DF}'
    } else if b == 0xA8u8 {
        '\u{AE}'
    } else if b == 0xA9u8 {
        '\u{A9}'
    } else if b == 0xAAu8 {
        '\u{2122}'
    } else if b == 0xABu8 {
        '\u{B4}'
    } else if b == 0xACu8 {
        '\u{A8}'
    } else if b == 0xADu8 {
        '\u{2260}'
    } else if b == 0xAEu8 {
        '\u{C6}'
    } else if b == 0xAFu8 {
        '\u{D8}'
    } else {
        replacement_char()
    }
}

/// The character Windows-1252 gives a byte: the code page's character
/// for 0x80..0x9F where it defines one, else the character of the same
/// code point.
pub open spec fn cp1252_char(b: u8) -> char {
    if b == 0x80u8 {
        '\u{20AC}'
    } else if b == 0x82u8 {
        '\u{201A}'
    } else if b == 0x83u8 {
        '\u{192}'
    } else if b == 0x84u8 {
        '\u{201E}'
    } else if b == 0x85u8 {
        '\u{2026}'
    } else if b == 0x86u8 {
        '\u{2020}'
    } else if b == 0x87u8 {
        '\u{2021}'
    } else if b == 0x88u8 {
        '\u{2C6}'
    } else if b == 0x89u8 {
        '\u{2030}'
    } else if b == 0x8Au8 {
        '\u{160}'
    } else if b == 0x8Bu8 {
        '\u{2039}'
    } else if b == 0x8Cu8 {
        '\u{152}'
    } else if b == 0x8Eu8 {
        '\u{17D}'
    } else if b == 0x91u8 {
        '\u{2018}'
    } else if b == 0x92u8 {
        '\u{2019}'
    } else if b == 0x93u8 {
        '\u{201C}'
    } else if b == 0x94u8 {
        '\u{201D}'
    } else if b == 0x95u8 {
        '\u{2022}'
    } else if b == 0x96u8 {
        '\u{2013}'
    } else if b == 0x97u8 {
        '\u{2014}'
    } else if b == 0x98u8 {
        '\u{2DC}'
    } else if b == 0x99u8 {
        '\u{2122}'
    } else if b == 0x9Au8 {
        '\u{161}'
    } else if b == 0x9Bu8 {
        '\u{203A}'
    } else if b == 0x9Cu8 {
        '\u{153}'
    } else if b == 0x9Eu8 {
        '\u{17E}'
    } else if b == 0x9Fu8 {
        '\u{178}'
    } else {
        b as char
    }
}

proof fn lemma_macroman_entry(b: u8)
    requires
        0x80 <= b < 0xB0,
    ensures
        macroman_table().contains_key(b) ==> macroman_table()[b] == macroman_char(b),
{
    if b == 0x80u8 {
        assert(macroman_table()[0x80u8] == '\u{C4}');
    } else if b == 0x81u8 {
        assert(macroman_table()[0x81u8] == '\u{C5}');
    } else if b == 0x82u8 {
        assert(macroman_table()[0x82u8] == '\u{C7}');
    } else if b == 0x83u8 {
        assert(macroman_table()[0x83u8] == '\u{C9}');
    } else if b == 0x84u8 {
        assert(macroman_table()[0x84u8] == '\u{D1}');
    } else if b == 0x85u8 {
        assert(macroman_table()[0x85u8] == '\u{D6}');
    } else if b == 0x86u8 {
        assert(macroman_table()[0x86u8] == '\u{DC}');
    } else if b == 0x87u8 {
        assert(macroman_table()[0x87u8] == '\u{E1}');
    } else if b == 0x88u8 {
        assert(macroman_table()[0x88u8] == '\u{E0}');
    } else if b == 0x89u8 {
        assert(macroman_table()[0x89u8] == '\u{E2}');
    } else if b == 0x8Au8 {
        assert(macroman_table()[0x8Au8] == '\u{E4}');
    } else if b == 0x8Bu8 {
        assert(macroman_table()[0x8Bu8] == '\u{E3}');
    } else if b == 0x8Cu8 {
        assert(macroman_table()[0x8Cu8] == '\u{E5}');
    } else if b == 0x8Du8 {
        assert(macroman_table()[0x8Du8] == '\u{E7}');
    } else if b == 0x8Eu8 {
        assert(macroman_table()[0x8Eu8] == '\u{E9}');
    } else if b == 0x8Fu8 {
        assert(macroman_table()[0x8Fu8] == '\u{E8}');
    } else if b == 0x90u8 {
        assert(macroman_table()[0x90u8] == '\u{EA}');
    } else if b == 0x91u8 {
        assert(macroman_table()[0x91u8] == '\u{EB}');
    } else if b == 0x92u8 {
        assert(macroman_table()[0x92u8] == '\u{ED}');
    } else if b == 0x93u8 {
        assert(macroman_table()[0x93u8] == '\u{EC}');
    } else if b == 0x94u8 {
        assert(macroman_table()[0x94u8] == '\u{EE}');
    } else if b == 0x95u8 {
        assert(macroman_table()[0x95u8] == '\u{EF}');
    } else if b == 0x96u8 {
        assert(macroman_table()[0x96u8] == '\u{F1}');
    } else if b == 0x97u8 {
        assert(macroman_table()[0x97u8] == '\u{F3}');
    } else if b == 0x98u8 {
        assert(macroman_table()[0x98u8] == '\u{F2}');
    } else if b == 0x99u8 {
        assert(macroman_table()[0x99u8] == '\u{F4}');
    } else if b == 0x9Au8 {
        assert(macroman_table()[0x9Au8] == '\u{F6}');
    } else if b == 0x9Bu8 {
        assert(macroman_table()[0x9Bu8] == '\u{F5}');
    } else if b == 0x9Cu8 {
        assert(macroman_table()[0x9Cu8] == '\u{FA}');
    } else if b == 0x9Du8 {
        assert(macroman_table()[0x9Du8] == '\u{F9}');
    } else if b == 0x9Eu8 {
        assert(macroman_table()[0x9Eu8] == '\u{FB}');
    } else if b == 0x9Fu8 {
        assert(macroman_table()[0x9Fu8] == '\u{FC}');
    } else if b == 0xA0u8 {
        assert(macroman_table()[0xA0u8] == '\u{2020}');
    } else if b == 0xA1u8 {
        assert(macroman_table()[0xA1u8] == '\u{B0}');
    } else if b == 0xA2u8 {
        assert(macroman_table()[0xA2u8] == '\u{A2}');
    } else if b == 0xA3u8 {
        assert(macroman_table()[0xA3u8] == '\u{A3}');
    } else if b == 0xA4u8 {
        assert(macroman_table()[0xA4u8] == '\u{A7}');
    } else if b == 0xA5u8 {
        assert(macroman_table()[0xA5u8] == '\u{2022}');
    } else if b == 0xA6u8 {
        assert(macroman_table()[0xA6u8] == '\u{B6}');
    } else if b == 0xA7u8 {
        assert(macroman_table()[0xA7u8] == '\u{DF}');
    } else if b == 0xA8u8 {
        assert(macroman_table()[0xA8u8] == '\u{AE}');
    } else if b == 0xA9u8 {
        assert(macroman_table()[0xA9u8] == '\u{A9}');
    } else if b == 0xAAu8 {
        assert(macroman_table()[0xAAu8] == '\u{2122}');
    } else if b == 0xABu8 {
        assert(macroman_table()[0xABu8] == '\u{B4}');
    } else if b == 0xACu8 {
        assert(macroman_table()[0xACu8] == '\u{A8}');
    } else if b == 0xADu8 {
        assert(macroman_table()[0xADu8] == '\u{2260}');
    } else if b == 0xAEu8 {
        assert(macroman_table()[0xAEu8] == '\u{C6}');
    } else if b == 0xAFu8 {
        assert(macroman_table()[0xAFu8] == '\u{D8}');
    }
}

proof fn lemma_windows1252_entry(b: u8)
    requires
        0x80 <= b,
    ensures
        windows1252_table().contains_key(b) ==> windows1252_table()[b] == cp1252_char(b),
{
    if b == 0x80u8 {
        assert(windows1252_table()[0x80u8] == '\u{20AC}');
    } else if b == 0x82u8 {
        assert(windows1252_table()[0x82u8] == '\u{201A}');
    } else if b == 0x83u8 {
        assert(windows1252_table()[0x83u8] == '\u{192}');
    } else if b == 0x84u8 {
        assert(windows1252_table()[0x84u8] == '\u{201E}');
    } else if b == 0x85u8 {
        assert(windows1252_table()[0x85u8] == '\u{2026}');
    } else if b == 0x86u8 {
        assert(windows1252_table()[0x86u8] == '\u{2020}');
    } else if b == 0x87u8 {
        assert(windows1252_table()[0x87u8] == '\u{2021}');
    } else if b == 0x88u8 {
        assert(windows1252_table()[0x88u8] == '\u{2C6}');
    } else if b == 0x89u8 {
        assert(windows1252_table()[0x89u8] == '\u{2030}');
    } else if b == 0x8Au8 {
        assert(windows1252_table()[0x8Au8] == '\u{160}');
    } else if b == 0x8Bu8 {
        assert(windows1252_table()[0x8Bu8] == '\u{2039}');
    } else if b == 0x8Cu8 {
        assert(windows1252_table()[0x8Cu8] == '\u{152}');
    } else if b == 0x8Eu8 {
        assert(windows1252_table()[0x8Eu8] == '\u{17D}');
    } else if b == 0x91u8 {
        assert(windows1252_table()[0x91u8] == '\u{2018}');
    } else if b == 0x92u8 {
        assert(windows1252_table()[0x92u8] == '\u{2019}');
    } else if b == 0x93u8 {
        assert(windows1252_table()[0x93u8] == '\u{201C}');
    } else if b == 0x94u8 {
        assert(windows1252_table()[0x94u8] == '\u{201D}');
    } else if b == 0x95u8 {
        assert(windows1252_table()[0x95u8] == '\u{2022}');
    } else if b == 0x96u8 {
        assert(windows1252_table()[0x96u8] == '\u{2013}');
    } else if b == 0x97u8 {
        assert(windows1252_table()[0x97u8] == '\u{2014}');
    } else if b == 0x98u8 {
        assert(windows1252_table()[0x98u8] == '\u{2DC}');
    } else if b == 0x99u8 {
        assert(windows1252_table()[0x99u8] == '\u{2122}');
    } else if b == 0x9Au8 {
        assert(windows1252_table()[0x9Au8] == '\u{161}');
    } else if b == 0x9Bu8 {
        assert(windows1252_table()[0x9Bu8] == '\u{203A}');
    } else if b == 0x9Cu8 {
        assert(windows1252_table()[0x9Cu8] == '\u{153}');
    } else if b == 0x9Eu8 {
        assert(windows1252_table()[0x9Eu8] == '\u{17E}');
    } else if b == 0x9Fu8 {
        assert(windows1252_table()[0x9Fu8] == '\u{178}');
    }
}

proof fn lemma_macroman_keys(b: u8)
    ensures
        macroman_table().contains_key(b) <==> 0x80 <= b < 0xB0,
{
}

/// MacRoman decoding: strict decoding fails exactly when a byte is 0xB0 or
/// more; lenient decoding gives one character per byte, `macroman_char`
/// of it.
pub proof fn lemma_macroman_decoding(bytes: Seq<u8>)
    ensures
        decode_with_encoding_spec(bytes, EncodingType::MacRoman, false) is None <==> exists|i: int|
            0 <= i < bytes.len() && #[trigger] bytes[i] >= 0xB0,
        decode_with_encoding_spec(bytes, EncodingType::MacRoman, true) == Some(bytes.map_values(|b: u8| macroman_char(b))),
{
    lemma_single_byte_each(macroman_table(), bytes, false);
    lemma_single_byte_each(macroman_table(), bytes, true);
    lemma_single_byte_lenient_total(macroman_table(), bytes);
    assert forall|i: int| 0 <= i < bytes.len() implies (#[trigger] byte_to_char(macroman_table(), bytes[i], false)
        is Some <==> bytes[i] < 0xB0) && byte_to_char(macroman_table(), bytes[i], true) == Some(
        macroman_char(bytes[i]),
    ) by {
        lemma_macroman_keys(bytes[i]);
        if 0x80 <= bytes[i] < 0xB0 {
            lemma_macroman_entry(bytes[i]);
        }
    }
    let t = decode_single_byte(macroman_table(), bytes, true).unwrap();
    assert(t =~= bytes.map_values(|b: u8| macroman_char(b))) by {
        assert forall|i: int| 0 <= i < bytes.len() implies t[i] == macroman_char(bytes[i]) by {
            assert(Some(t[i]) == byte_to_char(macroman_table(), bytes[i], true));
        }
    }
    if exists|i: int| 0 <= i < bytes.len() && #[trigger] bytes[i] >= 0xB0 {
        let j = choose|j: int| 0 <= j < bytes.len() && #[trigger] bytes[j] >= 0xB0;
        assert(!(byte_to_char(macroman_table(), bytes[j], false) is Some));
    }
}

/// ASCII bytes are valid UTF-8 and their text, lossy or not, has one
/// character per byte, the byte's own.
pub proof fn lemma_ascii_lossy_text(b: Seq<u8>)
    requires
        forall|i: int| 0 <= i < b.len() ==> #[trigger] b[i] < 0x80,
    ensures
        valid_utf8(b),
        decode_utf8(b) == b.map_values(|x: u8| x as char),
        lossy_text(b) == b.map_values(|x: u8| x as char),
    decreases b.len(),
{
    if b.len() > 0 {
        let x = b[0];
        assert(x < 0x80);
        assert((x & 0x7Fu8) as u32 == x as u32) by (bit_vector)
            requires
                x < 0x80,
        ;
        let rest = b.subrange(1, b.len() as int);
        assert(vstd::utf8::pop_first_scalar(b) == rest);
        assert forall|i: int| 0 <= i < rest.len() implies #[trigger] rest[i] < 0x80 by {
            assert(rest[i] == b[i + 1]);
        }
        lemma_ascii_lossy_text(rest);
        assert(b.map_values(|x: u8| x as char) =~= seq![x as char] + rest.map_values(|x: u8| x as char));
    } else {
        assert(b.map_values(|x: u8| x as char) =~= Seq::<char>::empty());
    }
}

/// Number of replacement characters in a string.
pub fn count_replacements(s: &String) -> (n: usize)
    ensures
        n == count_char(s@, replacement_char()),
{
    let mut n: usize = 0;
    let ghost full = s@;
    let blen = s.as_str().as_bytes().len();
    proof {
        lemma_encode_len(full);
    }
    for c in it: s.as_str().chars()
        invariant
            it.seq() == full,
            full.len() <= blen,
            n == count_char(full.take(it.index() as int), replacement_char()),
            n <= it.index(),
    {
        assert(full.take(it.index() + 1).drop_last() =~= full.take(it.index() as int));
        if c == '\u{FFFD}' {
            n = n + 1;
        }
    }
    assert(full.take(full.len() as int) =~= full);
    n
}

proof fn lemma_encode_len(s: Seq<char>)
    ensures
        vstd::utf8::encode_utf8(s).len() >= s.len(),
    decreases s.len(),
{
    if s.len() > 0 {
        lemma_encode_len(s.drop_first());
    }
}

/// The candidate index holding rank `p`.
pub open spec fn index_with_rank(s: Seq<(EncodingType, u128)>, p: int) -> int {
    if score_rank(s, 0) == p {
        0
    } else if score_rank(s, 1) == p {
        1
    } else if score_rank(s, 2) == p {
        2
    } else {
        3
    }
}

/// The four candidates, stably sorted by descending score.
pub open spec fn sorted_scores(s: Seq<(EncodingType, u128)>) -> Seq<(EncodingType, u128)> {
    Seq::new(4, |p: int| s[index_with_rank(s, p)])
}

/// The ranks of four candidates are a permutation of 0..4.
proof fn lemma_ranks_permutation(s: Seq<(EncodingType, u128)>)
    requires
        s.len() == 4,
    ensures
        forall|k: int| 0 <= k < 4 ==> 0 <= #[trigger] score_rank(s, k) < 4,
        forall|k: int, m: int|
            0 <= k < 4 && 0 <= m < 4 && k != m ==> #[trigger] score_rank(s, k) != #[trigger] score_rank(s, m),
{
}

impl EnhancedDecoder {
    fn decode_table(table: &HashMap<u8, char>, bytes: &[u8], lenient: bool, label: &str) -> (r: Result<
        String,
        PdfError,
    >)
        ensures
            match decode_single_byte(table@, bytes@, lenient) {
                Some(t) => r matches Ok(s) && s@ == t,
                None => r matches Err(PdfError::EncodingError(m)) && m@ == invalid_char_message(
                    label@,
                    first_undecodable(table@, bytes@, 0),
                ),
            },
    {
        let mut result = String::new();
        let mut i: usize = 0;
        while i < bytes.len()
            invariant
                i <= bytes.len(),
                decode_single_byte(table@, bytes@.take(i as int), lenient) == Some(result@),
                !lenient ==> first_undecodable(table@, bytes@, 0) == first_undecodable(table@, bytes@, i as int),
            decreases bytes.len() - i,
        {
            let byte = bytes[i];
            assert(bytes@.take(i + 1).drop_last() =~= bytes@.take(i as int));
            if byte < 0x80 {
                push_char(&mut result, byte as char);
            } else {
                match table.get(&byte) {
                    Some(ch) => {
                        push_char(&mut result, *ch);
                    },
                    None => {
                        if lenient {
                            push_char(&mut result, '\u{FFFD}');
                        } else {
                            proof {
                                lemma_single_byte_prefix_fails(table@, bytes@, i + 1, lenient);
                            }
                            let mut m = concat_str("Invalid ", label);
                            m.append(" character: 0x");
                            crate::text::push_hex2(&mut m, byte);
                            return Err(PdfError::EncodingError(m));
                        }
                    },
                }
            }
            i = i + 1;
        }
        assert(bytes@.take(i as int) =~= bytes@);
        Ok(result)
    }

    /// Convert bytes using a specific encoding; in lenient mode undecodable
    /// bytes become U+FFFD, otherwise they make the call fail.
    pub fn decode_with_encoding(&self, bytes: &[u8], encoding: EncodingType, lenient: bool) -> (r:
        Result<String, PdfError>)
        ensures
            match decode_with_encoding_spec(bytes@, encoding, lenient) {
                Some(t) => r matches Ok(s) && s@ == t,
                None => r matches Err(PdfError::EncodingError(m)) && m@ == decode_error_message(bytes@, encoding),
            },
    {
        proof {
            use_type_invariant(&self.tables);
        }
        match encoding {
            EncodingType::Utf8 => {
                if lenient {
                    Ok(utf8_lossy_string(bytes))
                } else {
                    match utf8_strict_string(bytes) {
                        Ok(s) => Ok(s),
                        Err(e) => Err(PdfError::EncodingError(concat_str("UTF-8 decoding failed: ", e.as_str()))),
                    }
                }
            },
            EncodingType::Latin1 => Self::decode_table(&self.tables.latin1_map, bytes, lenient, "Latin-1"),
            EncodingType::Windows1252 => Self::decode_table(
                &self.tables.windows1252_map,
                bytes,
                lenient,
                "Windows-1252",
            ),
            EncodingType::MacRoman => Self::decode_table(&self.tables.macroman_map, bytes, lenient, "MacRoman"),
            EncodingType::PdfDocEncoding => Self::decode_table(&self.tables.latin1_map, bytes, lenient, "Latin-1"),
            EncodingType::Mixed => {
                let quarter = bytes.len() / 4;
                let u = utf8_lossy_string(bytes);
                if count_replacements(&u) < quarter {
                    return Ok(u);
                }
                proof {
                    lemma_single_byte_lenient_total(windows1252_table(), bytes@);
                    lemma_single_byte_lenient_total(latin1_table(), bytes@);
                    lemma_single_byte_lenient_total(macroman_table(), bytes@);
                }
                if let Ok(w) = Self::decode_table(&self.tables.windows1252_map, bytes, true, "Windows-1252") {
                    if count_replacements(&w) < quarter {
                        return Ok(w);
                    }
                }
                if let Ok(l) = Self::decode_table(&self.tables.latin1_map, bytes, true, "Latin-1") {
                    if count_replacements(&l) < quarter {
                        return Ok(l);
                    }
                }
                if let Ok(m) = Self::decode_table(&self.tables.macroman_map, bytes, true, "MacRoman") {
                    if count_replacements(&m) < quarter {
                        return Ok(m);
                    }
                }
                Ok(u)
            },
        }
    }
}

} // verus!

verus! {

/// The outcome of detection-based decoding: text, encoding and confidence.
pub open spec fn decode_outcome(bytes: Seq<u8>, options: EncodingOptions) -> Option<
    (Seq<char>, EncodingType, u128),
> {
    if options.preferred_encoding matches Some(p) && decode_with_encoding_spec(
        bytes,
        p,
        options.lenient_mode,
    ) is Some {
        Some(
            (
                decode_with_encoding_spec(bytes, options.preferred_encoding.unwrap(), options.lenient_mode).unwrap(),
                options.preferred_encoding.unwrap(),
                8u128,
            ),
        )
    } else {
        match first_acceptable(
            sorted_scores(encoding_scores(bytes)),
            0,
            bytes,
            options.lenient_mode,
            options.max_replacements,
        ) {
            Some((e, t, c)) => Some((t, e, c)),
            None => if options.lenient_mode {
                Some((lossy_text(bytes), EncodingType::Mixed, 1u128))
            } else {
                None
            },
        }
    }
}

impl EnhancedDecoder {
    /// Detection scores of the bytes, stably sorted by descending score.
    fn analyze_encoding_indicators(&self, bytes: &[u8]) -> (r: Vec<(EncodingType, u128)>)
        ensures
            r@ == sorted_scores(encoding_scores(bytes@)),
    {
        proof {
            use_type_invariant(&self.tables);
        }
        let utf8_score: u128 = if is_valid_utf8(bytes) {
            9
        } else {
            0
        };
        let mut specific: u128 = 0;
        let mut any_high = false;
        let mut any_mac = false;
        let mut i: usize = 0;
        while i < bytes.len()
            invariant
                i <= bytes.len(),
                self.tables.windows1252_map@ == windows1252_table(),
                self.tables.latin1_map@ == latin1_table(),
                self.tables.macroman_map@ == macroman_table(),
                specific == count_windows1252_specific(bytes@.take(i as int)),
                specific <= i,
                any_high == has_high_byte(bytes@.take(i as int)),
                any_mac == has_macroman_byte(bytes@.take(i as int)),
            decreases bytes.len() - i,
        {
            let byte = bytes[i];
            let ghost pre = bytes@.take(i as int);
            let ghost next = bytes@.take(i + 1);
            assert(next.drop_last() =~= pre);
            assert(next.last() == byte);
            if byte >= 0x80 {
                if self.tables.windows1252_map.contains_key(&byte) {
                    if byte == 0x80 || (0x82 <= byte && byte <= 0x8C) || byte == 0x8E || (0x91 <= byte
                        && byte <= 0x9C) || byte == 0x9E || byte == 0x9F {
                        specific = specific + 1;
                    }
                }
                if self.tables.latin1_map.contains_key(&byte) {
                    any_high = true;
                }
                if self.tables.macroman_map.contains_key(&byte) {
                    any_mac = true;
                }
            }
            proof {
                assert(next[i as int] == byte);
                if has_high_byte(pre) {
                    let w = choose|j: int| 0 <= j < pre.len() && pre[j] >= 0x80;
                    assert(next[w] == pre[w]);
                }
                if has_high_byte(next) {
                    let w = choose|j: int| 0 <= j < next.len() && next[j] >= 0x80;
                    if w < i {
                        assert(pre[w] == next[w]);
                    }
                }
                if has_macroman_byte(pre) {
                    let w = choose|j: int| 0 <= j < pre.len() && #[trigger] macroman_table().contains_key(pre[j]);
                    assert(next[w] == pre[w]);
                }
                if has_macroman_byte(next) {
                    let w = choose|j: int| 0 <= j < next.len() && #[trigger] macroman_table().contains_key(next[j]);
                    if w < i {
                        assert(pre[w] == next[w]);
                    }
                }
            }
            i = i + 1;
        }
        assert(bytes@.take(i as int) =~= bytes@);
        let win_score: u128 = if any_high {
            specific + 3
        } else {
            specific
        };
        let latin_score: u128 = if any_high {
            2
        } else {
            0
        };
        let mac_score: u128 = if any_mac {
            1
        } else {
            0
        };
        let cands: Vec<(EncodingType, u128)> = vec![
            (EncodingType::Utf8, utf8_score),
            (EncodingType::Latin1, latin_score),
            (EncodingType::Windows1252, win_score),
            (EncodingType::MacRoman, mac_score),
        ];
        let ghost s = encoding_scores(bytes@);
        assert(cands@ =~= s);
        proof {
            lemma_ranks_permutation(s);
        }
        let mut sorted: Vec<(EncodingType, u128)> = Vec::new();
        let mut p: usize = 0;
        while p < 4
            invariant
                p <= 4,
                cands@ == s,
                s.len() == 4,
                forall|k: int| 0 <= k < 4 ==> 0 <= #[trigger] score_rank(s, k) < 4,
                forall|k: int, m: int|
                    0 <= k < 4 && 0 <= m < 4 && k != m ==> #[trigger] score_rank(s, k) != #[trigger] score_rank(s, m),
                sorted@ =~= sorted_scores(s).take(p as int),
            decreases 4 - p,
        {
            let mut k: usize = 0;
            let mut found: usize = 3;
            while k < 3
                invariant
                    k <= 3,
                    cands@ == s,
                    s.len() == 4,
                    found == 3 || (found < k && score_rank(s, found as int) == p),
                    forall|j: int| 0 <= j < k && j != found ==> score_rank(s, j) != p,
                    found < k ==> forall|j: int| 0 <= j < found ==> score_rank(s, j) != p,
                decreases 3 - k,
            {
                if found == 3 && self.rank_of(&cands, k) == p {
                    found = k;
                }
                k = k + 1;
            }
            proof {
                assert(index_with_rank(s, p as int) == found);
            }
            sorted.push(cands[found]);
            p = p + 1;
        }
        sorted
    }

    /// The rank of candidate `k` in a stable descending sort by score.
    fn rank_of(&self, cands: &Vec<(EncodingType, u128)>, k: usize) -> (r: usize)
        requires
            cands.len() == 4,
            k < 4,
        ensures
            r == score_rank(cands@, k as int),
    {
        let mut r: usize = 0;
        let mut j: usize = 0;
        while j < 4
            invariant
                j <= 4,
                cands.len() == 4,
                k < 4,
                r == (if 0 < j && 0 != k && (cands@[0].1 > cands@[k as int].1 || (cands@[0].1 == cands@[k as int].1 && 0 < k)) { 1int } else { 0int })
                    + (if 1 < j && 1 != k && (cands@[1].1 > cands@[k as int].1 || (cands@[1].1 == cands@[k as int].1 && 1 < k)) { 1int } else { 0int })
                    + (if 2 < j && 2 != k && (cands@[2].1 > cands@[k as int].1 || (cands@[2].1 == cands@[k as int].1 && 2 < k)) { 1int } else { 0int })
                    + (if 3 < j && 3 != k && (cands@[3].1 > cands@[k as int].1 || (cands@[3].1 == cands@[k as int].1 && 3 < k)) { 1int } else { 0int }),
            decreases 4 - j,
        {
            if j != k && (cands[j].1 > cands[k].1 || (cands[j].1 == cands[k].1 && j < k)) {
                r = r + 1;
            }
            j = j + 1;
        }
        r
    }
}

} // verus!

verus! {

impl EnhancedDecoder {
    /// The most likely encoding of the bytes: the best-scored candidate.
    pub fn detect_encoding(&self, bytes: &[u8]) -> (r: Option<EncodingType>)
        ensures
            r == Some(sorted_scores(encoding_scores(bytes@))[0].0),
    {
        let candidates = self.analyze_encoding_indicators(bytes);
        Some(candidates[0].0)
    }

    /// Decode bytes, trying the preferred encoding first, then the detected
    /// candidates in order of confidence, then (in lenient mode) lossy UTF-8.
    pub fn decode(&self, bytes: &[u8], options: &EncodingOptions) -> (r: Result<EncodingResult, PdfError>)
        ensures
            match decode_outcome(bytes@, *options) {
                Some((t, e, c)) => r matches Ok(res) && res.text@ == t && res.detected_encoding
                    == Some(e) && res.confidence_tenths == c && res.replacement_count == count_char(
                    t,
                    replacement_char(),
                ),
                None => r matches Err(PdfError::EncodingError(m)) && m@
                    == "Failed to decode text with any supported encoding"@,
            },
    {
        if let Some(preferred) = options.preferred_encoding {
            if let Ok(text) = self.decode_with_encoding(bytes, preferred, options.lenient_mode) {
                let replacement_count = count_replacements(&text);
                return Ok(
                    EncodingResult {
                        text,
                        detected_encoding: Some(preferred),
                        replacement_count,
                        confidence_tenths: 8,
                    },
                );
            }
        }
        let candidates = self.analyze_encoding_indicators(bytes);
        let ghost cands = candidates@;
        let mut i: usize = 0;
        while i < candidates.len()
            invariant
                candidates@ == cands,
                cands == sorted_scores(encoding_scores(bytes@)),
                !(options.preferred_encoding matches Some(p) && decode_with_encoding_spec(
                    bytes@,
                    p,
                    options.lenient_mode,
                ) is Some),
                i <= cands.len(),
                first_acceptable(cands, 0, bytes@, options.lenient_mode, options.max_replacements)
                    == first_acceptable(cands, i as int, bytes@, options.lenient_mode, options.max_replacements),
            decreases cands.len() - i,
        {
            let (encoding, confidence) = candidates[i];
            if confidence > 1 {
                match self.decode_with_encoding(bytes, encoding, options.lenient_mode) {
                    Ok(text) => {
                        let replacement_count = count_replacements(&text);
                        if replacement_count <= options.max_replacements {
                            return Ok(
                                EncodingResult {
                                    text,
                                    detected_encoding: Some(encoding),
                                    replacement_count,
                                    confidence_tenths: confidence,
                                },
                            );
                        }
                    },
                    Err(_) => {},
                }
            }
            i = i + 1;
        }
        if options.lenient_mode {
            let text = utf8_lossy_string(bytes);
            let replacement_count = count_replacements(&text);
            Ok(
                EncodingResult {
                    text,
                    detected_encoding: Some(EncodingType::Mixed),
                    replacement_count,
                    confidence_tenths: 1,
                },
            )
        } else {
            Err(
                PdfError::EncodingError(
                    String::from_str("Failed to decode text with any supported encoding"),
                ),
            )
        }
    }
}

/// Decode bytes with the default options and return the text.
pub fn decode_text(bytes: &[u8]) -> (r: Result<String, PdfError>)
    ensures
        match decode_outcome(bytes@, EncodingOptions {
            lenient_mode: true,
            preferred_encoding: None,
            max_replacements: 100,
            log_issues: false,
        }) {
            Some((t, _, _)) => r matches Ok(s) && s@ == t,
            None => r matches Err(PdfError::EncodingError(m)) && m@
                == "Failed to decode text with any supported encoding"@,
        },
{
    let decoder = EnhancedDecoder::new();
    let options = EncodingOptions::default();
    match decoder.decode(bytes, &options) {
        Ok(result) => Ok(result.text),
        Err(e) => Err(e),
    }
}

/// Decode bytes with a specific encoding, leniently.
pub fn decode_text_with_encoding(bytes: &[u8], encoding: EncodingType) -> (r: Result<String, PdfError>)
    ensures
        match decode_with_encoding_spec(bytes@, encoding, true) {
            Some(t) => r matches Ok(s) && s@ == t,
            None => r matches Err(PdfError::EncodingError(m)) && m@ == decode_error_message(bytes@, encoding),
        },
{
    let decoder = EnhancedDecoder::new();
    decoder.decode_with_encoding(bytes, encoding, true)
}

} // verus!

verus! {

/// A decoder of text in the encodings PDF files use.
pub trait CharacterDecoder {
    /// Decode bytes to text, detecting the encoding.
    fn decode(&self, bytes: &[u8], options: &EncodingOptions) -> Result<EncodingResult, PdfError>;

    /// The most likely encoding of the bytes.
    fn detect_encoding(&self, bytes: &[u8]) -> Option<EncodingType>;

    /// Convert bytes using a specific encoding.
    fn decode_with_encoding(&self, bytes: &[u8], encoding: EncodingType, lenient: bool) -> Result<String, PdfError>;
}

impl CharacterDecoder for EnhancedDecoder {
    fn decode(&self, bytes: &[u8], options: &EncodingOptions) -> (r: Result<EncodingResult, PdfError>)
        ensures
            match decode_outcome(bytes@, *options) {
                Some((t, e, c)) => r matches Ok(res) && res.text@ == t && res.detected_encoding
                    == Some(e) && res.confidence_tenths == c && res.replacement_count == count_char(
                    t,
                    replacement_char(),
                ),
                None => r matches Err(PdfError::EncodingError(m)) && m@
                    == "Failed to decode text with any supported encoding"@,
            },
    {
        EnhancedDecoder::decode(self, bytes, options)
    }

    fn detect_encoding(&self, bytes: &[u8]) -> (r: Option<EncodingType>)
        ensures
            r == Some(sorted_scores(encoding_scores(bytes@))[0].0),
    {
        EnhancedDecoder::detect_encoding(self, bytes)
    }

    fn decode_with_encoding(&self, bytes: &[u8], encoding: EncodingType, lenient: bool) -> (r: Result<
        String,
        PdfError,
    >)
        ensures
            match decode_with_encoding_spec(bytes@, encoding, lenient) {
                Some(t) => r matches Ok(s) && s@ == t,
                None => r matches Err(PdfError::EncodingError(m)) && m@ == decode_error_message(bytes@, encoding),
            },
    {
        EnhancedDecoder::decode_with_encoding(self, bytes, encoding, lenient)
    }
}

} // verus!
