//! PDF header (ISO 32000-1, 7.5.2): the `%PDF-M.m` version line and the
//! binary-marker comment that may follow it.

use vstd::prelude::*;
use crate::encoding::{lemma_ascii_lossy_text, lossy_text, utf8_lossy_string};
use crate::lexical::{parse_uint_chars, parse_uint_spec, string_chars, trim_range, trim_spec};
use crate::error::{ParseError, ParseResult};
use crate::text::{decimal_seq, push_decimal};

verus! {

/// PDF version information.
#[derive(Debug, Clone, Copy, PartialEq, Eq, Structural)]
pub struct PdfVersion {
    pub major: u8,
    pub minor: u8,
}

/// Whether a version is supported: 1.0 through 1.7, and 2.0.
pub open spec fn version_supported(major: u8, minor: u8) -> bool {
    (major == 1 && minor <= 7) || (major == 2 && minor == 0)
}

/// The text of a version: major, a dot, minor.
pub open spec fn version_text(major: u8, minor: u8) -> Seq<char> {
    decimal_seq(major as nat) + "."@ + decimal_seq(minor as nat)
}

impl PdfVersion {
    /// Create a new PDF version.
    pub fn new(major: u8, minor: u8) -> (v: Self)
        ensures
            v.major == major,
            v.minor == minor,
    {
        PdfVersion { major, minor }
    }

    /// Whether this version is supported (PDF 1.0 through 2.0).
    pub fn is_supported(&self) -> (r: bool)
        ensures
            r == version_supported(self.major, self.minor),
    {
        (self.major == 1 && self.minor <= 7) || (self.major == 2 && self.minor == 0)
    }

    /// The version as text, such as `1.7`.
    pub fn to_string(&self) -> (s: String)
        ensures
            s@ == version_text(self.major, self.minor),
    {
        let mut s = String::new();
        push_decimal(&mut s, self.major as u64);
        s.append(".");
        push_decimal(&mut s, self.minor as u64);
        proof {
            assert(s@ =~= version_text(self.major, self.minor));
        }
        s
    }
}

/// PDF header information.
#[derive(Debug, Clone)]
pub struct PdfHeader {
    pub version: PdfVersion,
    pub has_binary_marker: bool,
}

/// Index of the first line end (`\n` or `\r`) at or after `i`, or the
/// length of the data when there is none.
pub open spec fn find_line_end(data: Seq<u8>, i: int) -> int
    decreases data.len() - i,
{
    if i < 0 || i >= data.len() {
        data.len() as int
    } else if data[i] == 0x0A || data[i] == 0x0D {
        i
    } else {
        find_line_end(data, i + 1)
    }
}

/// The bytes of the version line and the position after it, or `None`
/// when there is no line or it is longer than 100 bytes. The line ends at
/// `\n`, `\r\n` or a lone `\r`, which is consumed with it.
pub open spec fn version_line(data: Seq<u8>) -> Option<(Seq<u8>, int)> {
    let k = find_line_end(data, 0);
    if k > 100 || data.len() == 0 {
        None
    } else if k == data.len() {
        Some((data, k))
    } else if data[k] == 0x0D && k + 1 < data.len() && data[k + 1] == 0x0A {
        Some((data.take(k), k + 2))
    } else {
        Some((data.take(k), k + 1))
    }
}

/// Index of the first `c` at or after `i`, or the length when there is none.
pub open spec fn find_char(t: Seq<char>, c: char, i: int) -> int
    decreases t.len() - i,
{
    if i < 0 || i >= t.len() {
        t.len() as int
    } else if t[i] == c {
        i
    } else {
        find_char(t, c, i + 1)
    }
}

/// The two parts of `t` around its only dot; `None` unless it has exactly one.
pub open spec fn dot_parts(t: Seq<char>) -> Option<(Seq<char>, Seq<char>)> {
    let k = find_char(t, '.', 0);
    if k < t.len() && find_char(t, '.', k + 1) == t.len() {
        Some((t.take(k), t.skip(k + 1)))
    } else {
        None
    }
}

/// The version read from the text of the version line: `Err(None)` for
/// an invalid header, `Err(Some(text))` for an unsupported version with
/// its text; with `next`, the position after the line.
pub open spec fn version_of_text(text: Seq<char>, next: int) -> Result<(PdfVersion, int), Option<Seq<char>>> {
    if !("%PDF-"@.is_prefix_of(text)) {
        Err(None)
    } else {
        match dot_parts(trim_spec(text.skip(5))) {
            None => Err(None),
            Some((a, b)) => match (parse_uint_spec(a, 255), parse_uint_spec(b, 255)) {
                (Some(major), Some(minor)) => if version_supported(major as u8, minor as u8) {
                    Ok((PdfVersion { major: major as u8, minor: minor as u8 }, next))
                } else {
                    Err(Some(version_text(major as u8, minor as u8)))
                },
                _ => Err(None),
            },
        }
    }
}

/// The version read from the version line (its bytes read as UTF-8, each
/// invalid sequence replaced), with the position after the line.
pub open spec fn version_line_spec(data: Seq<u8>) -> Result<(PdfVersion, int), Option<Seq<char>>> {
    match version_line(data) {
        None => Err(None),
        Some((line, next)) => version_of_text(lossy_text(line), next),
    }
}

/// For a version line of ASCII bytes the version is read from the line's
/// own characters: `Ok` exactly when it starts with `%PDF-` and the rest,
/// trimmed, is a supported `major.minor`.
pub proof fn lemma_version_line_ascii(data: Seq<u8>)
    requires
        version_line(data) matches Some((line, _)) && forall|i: int| 0 <= i < line.len() ==> #[trigger] line[i]
            < 0x80,
    ensures
        version_line(data) matches Some((line, next)) && version_line_spec(data) == version_of_text(
            line.map_values(|x: u8| x as char),
            next,
        ),
{
    let (line, next) = version_line(data).unwrap();
    lemma_ascii_lossy_text(line);
}

/// The version line law: with `k` the number of bytes before the first
/// CR or LF (or the end), there is no version without data or with a line
/// longer than 100 bytes; otherwise, for ASCII bytes, the version is read
/// from those `k` bytes' own characters.
pub proof fn lemma_version_line_law(data: Seq<u8>)
    ensures
        (data.len() == 0 || find_line_end(data, 0) > 100) ==> version_line_spec(data) == Err::<
            (PdfVersion, int),
            Option<Seq<char>>,
        >(None),
        (data.len() > 0 && find_line_end(data, 0) <= 100 && forall|i: int|
            0 <= i < find_line_end(data, 0) ==> #[trigger] data[i] < 0x80) ==> (version_line(data) matches Some(
            (line, next),
        ) && line == data.take(find_line_end(data, 0)) && version_line_spec(data) == version_of_text(
            line.map_values(|x: u8| x as char),
            next,
        )),
{
    lemma_find_line_end_bounds(data, 0);
    let k = find_line_end(data, 0);
    if data.len() > 0 && k <= 100 {
        if k == data.len() {
            assert(data.take(k) =~= data);
        }
        let line = version_line(data).unwrap().0;
        assert(line == data.take(k));
        if forall|i: int| 0 <= i < k ==> #[trigger] data[i] < 0x80 {
            assert forall|i: int| 0 <= i < line.len() implies #[trigger] line[i] < 0x80 by {
                assert(line[i] == data[i]);
            }
            lemma_ascii_lossy_text(line);
        }
    }
}

/// The comment line after the version line, from `pos`: bytes up to and
/// including the first line end, at most 1025 of them.
pub open spec fn marker_line(data: Seq<u8>, pos: int) -> Seq<u8> {
    let k = find_line_end(data, pos);
    let end = if k < data.len() { k + 1 } else { k };
    let end = if end > pos + 1025 { pos + 1025 } else { end };
    data.subrange(pos, end)
}

/// Number of bytes of 128 or more.
pub open spec fn count_high(s: Seq<u8>) -> nat
    decreases s.len(),
{
    if s.len() == 0 {
        0
    } else {
        count_high(s.drop_last()) + if s.last() >= 128 {
            1nat
        } else {
            0nat
        }
    }
}

/// Whether the line is a comment with at least four bytes of 128 or more.
pub open spec fn is_binary_marker(line: Seq<u8>) -> bool {
    line.len() > 0 && line[0] == 0x25 && count_high(line.skip(1)) >= 4
}

/// The header of the data: the version line, then whether a binary
/// marker comment follows it.
pub open spec fn header_spec(data: Seq<u8>) -> Result<(PdfVersion, bool), Option<Seq<char>>> {
    match version_line_spec(data) {
        Err(e) => Err(e),
        Ok((v, next)) => Ok((v, is_binary_marker(marker_line(data, next)))),
    }
}

proof fn lemma_find_line_end_bounds(data: Seq<u8>, i: int)
    requires
        0 <= i <= data.len(),
    ensures
        i <= find_line_end(data, i) <= data.len(),
    decreases data.len() - i,
{
    if i < data.len() && !(data[i] == 0x0A || data[i] == 0x0D) {
        lemma_find_line_end_bounds(data, i + 1);
    }
}

/// The first line end at or after `pos`, or the data length.
fn find_line_end_exec(data: &[u8], pos: usize) -> (k: usize)
    requires
        pos <= data.len(),
    ensures
        k == find_line_end(data@, pos as int),
        pos <= k <= data.len(),
{
    let mut i = pos;
    while i < data.len() && data[i] != 0x0A && data[i] != 0x0D
        invariant
            pos <= i <= data.len(),
            find_line_end(data@, pos as int) == find_line_end(data@, i as int),
        decreases data.len() - i,
    {
        i = i + 1;
    }
    i
}

impl PdfHeader {
    /// Parse the PDF header at the start of `data`: the version line, and
    /// whether a binary marker comment follows it.
    pub fn parse(data: &[u8]) -> (r: ParseResult<PdfHeader>)
        ensures
            match header_spec(data@) {
                Ok((v, m)) => r matches Ok(h) && h.version == v && h.has_binary_marker == m,
                Err(None) => r matches Err(ParseError::InvalidHeader),
                Err(Some(t)) => r matches Err(ParseError::UnsupportedVersion(s)) && s@ == t,
            },
    {
        let mut pos: usize = 0;
        let mut header = match Self::parse_version_line(data, &mut pos) {
            Ok(h) => h,
            Err(e) => {
                return Err(e);
            },
        };
        header.has_binary_marker = Self::check_binary_marker(data, pos);
        Ok(header)
    }

    /// Parse the version line at the start of `data`, leaving `pos` after it.
    pub fn parse_version_line(data: &[u8], pos: &mut usize) -> (r: ParseResult<PdfHeader>)
        ensures
            match version_line_spec(data@) {
                Ok((v, next)) => r matches Ok(h) && h.version == v && !h.has_binary_marker
                    && *final(pos) == next && next <= data.len(),
                Err(None) => r matches Err(ParseError::InvalidHeader),
                Err(Some(t)) => r matches Err(ParseError::UnsupportedVersion(s)) && s@ == t,
            },
    {
        if data.len() == 0 {
            return Err(ParseError::InvalidHeader);
        }
        let k = find_line_end_exec(data, 0);
        if k > 100 {
            return Err(ParseError::InvalidHeader);
        }
        let mut line: Vec<u8> = Vec::new();
        crate::text::extend_from_range(&mut line, data, 0, k);
        let next: usize;
        if k == data.len() {
            next = k;
        } else if data[k] == 0x0D && k + 1 < data.len() && data[k + 1] == 0x0A {
            next = k + 2;
        } else {
            next = k + 1;
        }
        proof {
            assert(data@.subrange(0, k as int) =~= data@.take(k as int));
            if k == data.len() {
                assert(data@.take(k as int) =~= data@);
            }
        }
        let text = utf8_lossy_string(line.as_slice());
        let chars = string_chars(text.as_str());
        proof {
            reveal_strlit("%PDF-");
        }
        if chars.len() < 5 || chars[0] != '%' || chars[1] != 'P' || chars[2] != 'D' || chars[3] != 'F'
            || chars[4] != '-' {
            proof {
                if "%PDF-"@.is_prefix_of(chars@) {
                    assert(chars@.subrange(0, 5)[0] == chars@[0]);
                    assert(chars@.subrange(0, 5)[1] == chars@[1]);
                    assert(chars@.subrange(0, 5)[2] == chars@[2]);
                    assert(chars@.subrange(0, 5)[3] == chars@[3]);
                    assert(chars@.subrange(0, 5)[4] == chars@[4]);
                }
            }
            return Err(ParseError::InvalidHeader);
        }
        assert("%PDF-"@.is_prefix_of(chars@)) by {
            assert(chars@.subrange(0, 5) =~= "%PDF-"@);
        }
        let (a, b) = trim_range(&chars, 5, chars.len());
        let ghost trimmed = chars@.subrange(a as int, b as int);
        assert(chars@.subrange(5, chars@.len() as int) =~= chars@.skip(5));
        assert(trimmed == trim_spec(chars@.skip(5)));
        let mut dot = a;
        while dot < b && chars[dot] != '.'
            invariant
                a <= dot <= b,
                b <= chars.len(),
                trimmed == chars@.subrange(a as int, b as int),
                find_char(trimmed, '.', 0) == find_char(trimmed, '.', dot - a),
            decreases b - dot,
        {
            dot = dot + 1;
        }
        if dot == b {
            return Err(ParseError::InvalidHeader);
        }
        let mut j = dot + 1;
        while j < b && chars[j] != '.'
            invariant
                a <= dot < j <= b,
                b <= chars.len(),
                trimmed == chars@.subrange(a as int, b as int),
                find_char(trimmed, '.', dot - a + 1) == find_char(trimmed, '.', j - a),
            decreases b - j,
        {
            assert(trimmed[j - a] == chars@[j as int]);
            j = j + 1;
        }
        if j < b {
            return Err(ParseError::InvalidHeader);
        }
        assert(trimmed.take(dot - a) =~= chars@.subrange(a as int, dot as int));
        assert(trimmed.skip(dot - a + 1) =~= chars@.subrange(dot + 1, b as int));
        let major = match parse_uint_chars(&chars, a, dot, 255) {
            Some(v) => {
                assert(v <= 255);
                assert(parse_uint_spec(chars@.subrange(a as int, dot as int), 255) == Some(v as nat));
                v as u8
            },
            None => {
                return Err(ParseError::InvalidHeader);
            },
        };
        let minor = match parse_uint_chars(&chars, dot + 1, b, 255) {
            Some(v) => {
                assert(v <= 255);
                assert(parse_uint_spec(chars@.subrange(dot + 1, b as int), 255) == Some(v as nat));
                v as u8
            },
            None => {
                return Err(ParseError::InvalidHeader);
            },
        };
        let version = PdfVersion::new(major, minor);
        if !version.is_supported() {
            return Err(ParseError::UnsupportedVersion(version.to_string()));
        }
        *pos = next;
        Ok(PdfHeader { version, has_binary_marker: false })
    }

    /// Whether the line at `pos` is a binary marker comment: `%` followed
    /// by at least four bytes of 128 or more, within the first 1025 bytes
    /// up to and including the line end.
    pub fn check_binary_marker(data: &[u8], pos: usize) -> (r: bool)
        requires
            pos <= data.len(),
        ensures
            r == is_binary_marker(marker_line(data@, pos as int)),
    {
        let k = find_line_end_exec(data, pos);
        let end0 = if k < data.len() {
            k + 1
        } else {
            k
        };
        let end = if end0 - pos > 1025 {
            pos + 1025
        } else {
            end0
        };
        if end == pos || data[pos] != 0x25 {
            return false;
        }
        let ghost line = data@.subrange(pos as int, end as int);
        let mut count: usize = 0;
        let mut i = pos + 1;
        while i < end
            invariant
                pos + 1 <= i <= end <= data.len(),
                line == data@.subrange(pos as int, end as int),
                count == count_high(line.skip(1).take(i - pos - 1)),
                count <= i - pos - 1,
            decreases end - i,
        {
            assert(line.skip(1).take(i - pos).drop_last() =~= line.skip(1).take(i - pos - 1));
            if data[i] >= 128 {
                count = count + 1;
            }
            i = i + 1;
        }
        assert(line.skip(1).take(end - pos - 1) =~= line.skip(1));
        count >= 4
    }
}

} // verus!
