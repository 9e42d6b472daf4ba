//! PDF lexer (ISO 32000-1, 7.2): the tokens of the PDF object syntax,
//! read from the bytes of a file starting at a given offset.
//!
//! A real number is kept as the text it was written with, checked to be
//! one that `str::parse::<f64>` accepts; its value is left to the caller.

use vstd::prelude::*;
use vstd::string::StringSliceAdditionalSpecFns;
use crate::content::{
    escaped_byte, is_octal_digit, lemma_octal_escape_value, literal_escape_pair, name_escape_value, octal_digits_value,
    octal_escape, lemma_octal_escape, plain_literal_bytes,
};
use crate::error::{ParseError, ParseResult};
use crate::filters::hex_digit_spec;
use crate::lexical::{all_digits, digits_value};
use crate::text::{decimal_seq, push_decimal, signed_decimal_seq, push_signed_decimal};

verus! {

/// PDF token types.
#[derive(Debug, Clone, PartialEq)]
pub enum Token {
    /// Boolean: true or false
    Boolean(bool),
    /// Integer number
    Integer(i64),
    /// Real number, as written (a text `str::parse::<f64>` accepts)
    Real(String),
    /// String (literal or hexadecimal)
    String(Vec<u8>),
    /// Name object (e.g., /Type)
    Name(String),
    /// Left square bracket [
    ArrayStart,
    /// Right square bracket ]
    ArrayEnd,
    /// Dictionary start <<
    DictStart,
    /// Dictionary end >>
    DictEnd,
    /// Stream keyword
    Stream,
    /// Endstream keyword
    EndStream,
    /// Obj keyword
    Obj,
    /// Endobj keyword
    EndObj,
    /// StartXRef keyword
    StartXRef,
    /// Reference (e.g., 1 0 R)
    Reference(u32, u16),
    /// Null object
    Null,
    /// Comment (usually ignored)
    Comment(String),
    /// End of file
    Eof,
}

/// A token with its text and bytes as sequences.
pub enum TokenView {
    Boolean(bool),
    Integer(i64),
    Real(Seq<char>),
    String(Seq<u8>),
    Name(Seq<char>),
    ArrayStart,
    ArrayEnd,
    DictStart,
    DictEnd,
    Stream,
    EndStream,
    Obj,
    EndObj,
    StartXRef,
    Reference(u32, u16),
    Null,
    Comment(Seq<char>),
    Eof,
}

/// The view of a token.
pub open spec fn token_view(t: Token) -> TokenView {
    match t {
        Token::Boolean(b) => TokenView::Boolean(b),
        Token::Integer(i) => TokenView::Integer(i),
        Token::Real(s) => TokenView::Real(s@),
        Token::String(v) => TokenView::String(v@),
        Token::Name(s) => TokenView::Name(s@),
        Token::ArrayStart => TokenView::ArrayStart,
        Token::ArrayEnd => TokenView::ArrayEnd,
        Token::DictStart => TokenView::DictStart,
        Token::DictEnd => TokenView::DictEnd,
        Token::Stream => TokenView::Stream,
        Token::EndStream => TokenView::EndStream,
        Token::Obj => TokenView::Obj,
        Token::EndObj => TokenView::EndObj,
        Token::StartXRef => TokenView::StartXRef,
        Token::Reference(n, g) => TokenView::Reference(n, g),
        Token::Null => TokenView::Null,
        Token::Comment(s) => TokenView::Comment(s@),
        Token::Eof => TokenView::Eof,
    }
}

/// ASCII whitespace, as `u8::is_ascii_whitespace` defines it.
pub open spec fn is_ws(b: u8) -> bool {
    b == 0x20 || b == 0x09 || b == 0x0A || b == 0x0C || b == 0x0D
}

/// Bytes that end a name or a word: whitespace and `/<>[]()%`.
pub open spec fn is_delim(b: u8) -> bool {
    is_ws(b) || b == 0x2F || b == 0x3C || b == 0x3E || b == 0x5B || b == 0x5D || b == 0x28 || b
        == 0x29 || b == 0x25
}

/// ASCII decimal digit.
pub open spec fn is_digit(b: u8) -> bool {
    0x30 <= b <= 0x39
}

/// ASCII letter.
pub open spec fn is_alpha(b: u8) -> bool {
    (0x41 <= b <= 0x5A) || (0x61 <= b <= 0x7A)
}

/// Bytes read as characters one for one (`b as char`).
pub open spec fn latin1(s: Seq<u8>) -> Seq<char> {
    Seq::new(s.len(), |i: int| s[i] as char)
}

/// The first index at or after `i` that holds no whitespace.
pub open spec fn ws_end(s: Seq<u8>, i: int) -> int
    decreases s.len() - i,
{
    if 0 <= i < s.len() && is_ws(s[i]) {
        ws_end(s, i + 1)
    } else {
        i
    }
}

/// The first index at or after `i` that holds CR or LF, or the length.
pub open spec fn line_end(s: Seq<u8>, i: int) -> int
    decreases s.len() - i,
{
    if 0 <= i < s.len() && s[i] != 0x0A && s[i] != 0x0D {
        line_end(s, i + 1)
    } else {
        i
    }
}

/// The first index at or after `i` that holds a delimiter, or the length.
pub open spec fn word_end(s: Seq<u8>, i: int) -> int
    decreases s.len() - i,
{
    if 0 <= i < s.len() && !is_delim(s[i]) {
        word_end(s, i + 1)
    } else {
        i
    }
}

/// The first index at or after `i` that holds no digit, or the length.
pub open spec fn digits_end(s: Seq<u8>, i: int) -> int
    decreases s.len() - i,
{
    if 0 <= i < s.len() && is_digit(s[i]) {
        digits_end(s, i + 1)
    } else {
        i
    }
}

/// Scanning forward from `i` stops between `i` and the length.
pub proof fn lemma_scan_bounds(s: Seq<u8>, i: int)
    requires
        0 <= i <= s.len(),
    ensures
        i <= ws_end(s, i) <= s.len(),
        i <= line_end(s, i) <= s.len(),
        i <= word_end(s, i) <= s.len(),
        i <= digits_end(s, i) <= s.len(),
    decreases s.len() - i,
{
    if i < s.len() {
        lemma_scan_bounds(s, i + 1);
    }
}

/// A name read from `i` (after its `/`): its characters appended to
/// `acc` and the index after it; or the index and message of an error.
/// A `#` takes the two bytes after it as a hexadecimal character code.
pub open spec fn name_from(s: Seq<u8>, i: int, acc: Seq<char>) -> Result<(Seq<char>, int), (int, Seq<char>)>
    decreases s.len() - i,
{
    if i < 0 || i >= s.len() || is_delim(s[i]) {
        Ok((acc, i))
    } else if s[i] == 0x23 {
        if i + 1 >= s.len() {
            Err((i + 1, "Incomplete hex code in name"@))
        } else if i + 2 >= s.len() {
            Err((i + 2, "Incomplete hex code in name"@))
        } else {
            match name_escape_value(s[i + 1], s[i + 2]) {
                Some(v) => name_from(s, i + 3, acc.push(v as char)),
                None => Err((i + 3, "Invalid hex code in name"@)),
            }
        }
    } else {
        name_from(s, i + 1, acc.push(s[i] as char))
    }
}

/// A literal string read from `i` (after its `(`) with `depth`
/// parentheses open: its bytes appended to `acc` and the index after the
/// balancing `)`; or, when the bytes end first, the index of the end.
/// Octal escapes keep the low eight bits of their value.
pub open spec fn lex_literal(s: Seq<u8>, i: int, depth: nat, escape: bool, acc: Seq<u8>) -> Result<(Seq<u8>, int), int>
    decreases s.len() - i,
{
    if i < 0 || i >= s.len() {
        Err(if i < 0 { 0 } else { i })
    } else {
        let ch = s[i];
        if escape {
            if 0x30 <= ch <= 0x37 {
                let (v, p) = octal_escape(s, i + 1, 1, (ch - 0x30) as u8);
                proof {
                    lemma_octal_escape(s, i + 1, 1, (ch - 0x30) as u8);
                }
                lex_literal(s, p, depth, false, acc.push(v))
            } else {
                lex_literal(s, i + 1, depth, false, acc.push(escaped_byte(ch)))
            }
        } else if ch == 0x5C {
            lex_literal(s, i + 1, depth, true, acc)
        } else if ch == 0x28 {
            lex_literal(s, i + 1, depth + 1, false, acc.push(ch))
        } else if ch == 0x29 {
            if depth <= 1 {
                Ok((acc, i + 1))
            } else {
                lex_literal(s, i + 1, (depth - 1) as nat, false, acc.push(ch))
            }
        } else {
            lex_literal(s, i + 1, depth, false, acc.push(ch))
        }
    }
}

/// The hexadecimal digits of a hex string read from `i` (after its `<`),
/// whitespace skipped, with the index after its `>`; or the index and
/// message of an error.
pub open spec fn hex_from(s: Seq<u8>, i: int, digits: Seq<u8>) -> Result<(Seq<u8>, int), (int, Seq<char>)>
    decreases s.len() - i,
{
    if i < 0 || i >= s.len() {
        Err((if i < 0 { 0 } else { i }, "Unterminated hex string"@))
    } else if s[i] == 0x3E {
        Ok((digits, i + 1))
    } else if hex_digit_spec(s[i]) is Some {
        hex_from(s, i + 1, digits.push(s[i]))
    } else if is_ws(s[i]) {
        hex_from(s, i + 1, digits)
    } else {
        Err((i + 1, "Invalid character in hex string"@))
    }
}

/// The bytes of hexadecimal digits taken in pairs, a last lone digit
/// padded with `0`.
pub open spec fn hex_pairs(d: Seq<u8>) -> Seq<u8> {
    Seq::new(
        ((d.len() + 1) / 2) as nat,
        |j: int|
            (hex_digit_spec(d[2 * j]).unwrap() * 16 + if 2 * j + 1 < d.len() {
                hex_digit_spec(d[2 * j + 1]).unwrap()
            } else {
                0u8
            }) as u8,
    )
}

/// The end of a number's mantissa from `i`: digits and at most one dot;
/// `dot` tells whether the dot was seen.
pub open spec fn mantissa_end(s: Seq<u8>, i: int, dot: bool) -> (int, bool)
    decreases s.len() - i,
{
    if 0 <= i < s.len() && is_digit(s[i]) {
        mantissa_end(s, i + 1, dot)
    } else if 0 <= i < s.len() && s[i] == 0x2E && !dot {
        mantissa_end(s, i + 1, true)
    } else {
        (i, dot)
    }
}

/// The length of a sign at `i` (0 or 1).
pub open spec fn sign_len(s: Seq<u8>, i: int) -> int {
    if 0 <= i < s.len() && (s[i] == 0x2B || s[i] == 0x2D) {
        1
    } else {
        0
    }
}

/// What a number at the start of `s` is made of: the end of its text,
/// whether it is real (a dot or an exponent), and whether the text is one
/// that `str::parse::<f64>` accepts (a digit in the mantissa, and a digit
/// in the exponent when there is one); or `None` when a sign is followed
/// by a byte that is neither a digit nor a dot.
pub open spec fn number_scan(s: Seq<u8>) -> Option<(int, bool, bool)> {
    let j = sign_len(s, 0);
    if j == 1 && 1 < s.len() && !(is_digit(s[1]) || s[1] == 0x2E) {
        None
    } else {
        let (m, dot) = mantissa_end(s, j, false);
        let mantissa_digits = m - j - if dot { 1int } else { 0int };
        if m < s.len() && (s[m] == 0x65 || s[m] == 0x45) {
            let e2 = m + 1 + sign_len(s, m + 1);
            let e = digits_end(s, e2);
            Some((e, true, mantissa_digits >= 1 && e > e2))
        } else {
            Some((m, dot, mantissa_digits >= 1))
        }
    }
}

/// A decimal integer text as `str::parse::<i64>` reads it: an optional
/// sign, then one or more digits whose value is in range.
pub open spec fn i64_parse(t: Seq<u8>) -> Option<i64> {
    let j = sign_len(t, 0);
    let d = latin1(t.skip(j));
    if d.len() > 0 && all_digits(d) {
        let v = digits_value(d);
        if j == 1 && t[0] == 0x2D {
            if v <= 0x8000_0000_0000_0000 {
                Some((-v) as i64)
            } else {
                None
            }
        } else if v <= 0x7FFF_FFFF_FFFF_FFFF {
            Some(v as i64)
        } else {
            None
        }
    } else {
        None
    }
}

/// What reading a token gives: the token, the bytes consumed and whether
/// the byte after them was taken from the reader; or a syntax error with
/// the bytes consumed before it, its message and the same flag.
pub enum LexStep {
    Tok(TokenView, int, bool),
    Fail(int, Seq<char>, bool),
}

/// The bytes a step consumes.
pub open spec fn step_len(step: LexStep) -> int {
    match step {
        LexStep::Tok(_, k, _) => k,
        LexStep::Fail(k, _, _) => k,
    }
}

/// Whether a step ends with the next byte taken from the reader.
pub open spec fn step_peeked(step: LexStep) -> bool {
    match step {
        LexStep::Tok(_, _, p) => p,
        LexStep::Fail(_, _, p) => p,
    }
}

/// Whether `r` is what `step` gives, for a lexer whose count of consumed
/// bytes was `start_pos` before it.
pub open spec fn lex_outcome(r: ParseResult<Token>, step: LexStep, start_pos: int) -> bool {
    match step {
        LexStep::Tok(t, _, _) => r matches Ok(tok) && token_view(tok) == t,
        LexStep::Fail(k, m, _) => r matches Err(ParseError::SyntaxError { position, message })
            && position == start_pos + k && message@ == m,
    }
}

/// A number at the start of `t`.
pub open spec fn number_token(t: Seq<u8>) -> LexStep {
    match number_scan(t) {
        None => LexStep::Fail(1, "Expected digit after sign"@, true),
        Some(scan) => {
            let e = scan.0;
            let text = latin1(t.subrange(0, e));
            if scan.1 {
                if scan.2 {
                    LexStep::Tok(TokenView::Real(text), e, e < t.len())
                } else {
                    LexStep::Fail(e, "Invalid real number: '"@ + text + "'"@, e < t.len())
                }
            } else {
                match i64_parse(t.subrange(0, e)) {
                    Some(v) => LexStep::Tok(TokenView::Integer(v), e, e < t.len()),
                    None => LexStep::Fail(e, "Invalid integer: '"@ + text + "'"@, e < t.len()),
                }
            }
        },
    }
}

/// The token of one of the keywords `stream`, `endstream`, `obj`,
/// `endobj` and `startxref`.
pub open spec fn process_keyword_spec(w: Seq<char>) -> Option<TokenView> {
    if w == "stream"@ {
        Some(TokenView::Stream)
    } else if w == "endstream"@ {
        Some(TokenView::EndStream)
    } else if w == "obj"@ {
        Some(TokenView::Obj)
    } else if w == "endobj"@ {
        Some(TokenView::EndObj)
    } else if w == "startxref"@ {
        Some(TokenView::StartXRef)
    } else {
        None
    }
}

/// The token a word stands for: a boolean, `null` or a keyword.
pub open spec fn keyword_token(w: Seq<char>) -> Option<TokenView> {
    if w == "true"@ {
        Some(TokenView::Boolean(true))
    } else if w == "false"@ {
        Some(TokenView::Boolean(false))
    } else if w == "null"@ {
        Some(TokenView::Null)
    } else {
        process_keyword_spec(w)
    }
}

/// The words the lexer knows: `true` and `false` are the booleans, `null`
/// the null object, and `stream`, `endstream`, `obj`, `endobj` and
/// `startxref` their keyword tokens.
pub proof fn lemma_keyword_tokens()
    ensures
        keyword_token("true"@) == Some(TokenView::Boolean(true)),
        keyword_token("false"@) == Some(TokenView::Boolean(false)),
        keyword_token("null"@) == Some(TokenView::Null),
        keyword_token("stream"@) == Some(TokenView::Stream),
        keyword_token("endstream"@) == Some(TokenView::EndStream),
        keyword_token("obj"@) == Some(TokenView::Obj),
        keyword_token("endobj"@) == Some(TokenView::EndObj),
        keyword_token("startxref"@) == Some(TokenView::StartXRef),
{
    reveal_strlit("true");
    reveal_strlit("false");
    reveal_strlit("null");
    reveal_strlit("stream");
    reveal_strlit("endstream");
    reveal_strlit("obj");
    reveal_strlit("endobj");
    reveal_strlit("startxref");
    assert("true"@.len() == 4 && "true"@[0] == 't');
    assert("false"@.len() == 5 && "false"@[0] == 'f');
    assert("null"@.len() == 4 && "null"@[0] == 'n');
    assert("stream"@.len() == 6 && "stream"@[0] == 's');
    assert("endstream"@.len() == 9 && "endstream"@[0] == 'e');
    assert("obj"@.len() == 3 && "obj"@[0] == 'o');
    assert("endobj"@.len() == 6 && "endobj"@[0] == 'e');
    assert("startxref"@.len() == 9 && "startxref"@[0] == 's');
}

/// A word at the start of `t`: a boolean, `null` or a keyword.
pub open spec fn word_token(t: Seq<u8>) -> LexStep {
    let e = word_end(t, 0);
    let w = latin1(t.subrange(0, e));
    match keyword_token(w) {
        Some(k) => LexStep::Tok(k, e, e < t.len()),
        None => LexStep::Fail(e, "Unknown keyword: "@ + w, e < t.len()),
    }
}

/// The token at the start of `t` (which holds no leading whitespace).
pub open spec fn token_spec(t: Seq<u8>) -> LexStep {
    if t.len() == 0 {
        LexStep::Tok(TokenView::Eof, 0, false)
    } else {
        let c = t[0];
        if c == 0x25 {
            let e = line_end(t, 1);
            LexStep::Tok(TokenView::Comment(latin1(t.subrange(1, e))), e, e < t.len())
        } else if c == 0x2F {
            match name_from(t, 1, Seq::empty()) {
                Ok((n, e)) => LexStep::Tok(TokenView::Name(n), e, e < t.len()),
                Err((p, m)) => LexStep::Fail(p, m, false),
            }
        } else if c == 0x28 {
            match lex_literal(t, 1, 1, false, Seq::empty()) {
                Ok((v, e)) => LexStep::Tok(TokenView::String(v), e, false),
                Err(p) => LexStep::Fail(p, "Unterminated string"@, false),
            }
        } else if c == 0x3C {
            if t.len() > 1 && t[1] == 0x3C {
                LexStep::Tok(TokenView::DictStart, 2, false)
            } else {
                match hex_from(t, 1, Seq::empty()) {
                    Ok((d, e)) => LexStep::Tok(TokenView::String(hex_pairs(d)), e, false),
                    Err((p, m)) => LexStep::Fail(p, m, false),
                }
            }
        } else if c == 0x3E {
            if t.len() > 1 && t[1] == 0x3E {
                LexStep::Tok(TokenView::DictEnd, 2, false)
            } else {
                LexStep::Fail(1, "Expected '>' after '>'"@, t.len() > 1)
            }
        } else if c == 0x5B {
            LexStep::Tok(TokenView::ArrayStart, 1, false)
        } else if c == 0x5D {
            LexStep::Tok(TokenView::ArrayEnd, 1, false)
        } else if c == 0x2B || c == 0x2D || is_digit(c) || c == 0x2E {
            number_token(t)
        } else if c == 0x52 {
            LexStep::Tok(TokenView::Name(seq!['R']), 1, false)
        } else if is_alpha(c) {
            word_token(t)
        } else {
            LexStep::Fail(0, "Unexpected character: "@ + seq![c as char], true)
        }
    }
}

/// The token after the leading whitespace of `s`, its counts taken from
/// the start of `s`.
pub open spec fn lex_spec(s: Seq<u8>) -> LexStep {
    let i = ws_end(s, 0);
    match token_spec(s.skip(i)) {
        LexStep::Tok(t, k, p) => LexStep::Tok(t, i + k, p),
        LexStep::Fail(k, m, p) => LexStep::Fail(i + k, m, p),
    }
}

/// Whether a byte is ASCII whitespace.
fn is_ws_byte(b: u8) -> (r: bool)
    ensures
        r == is_ws(b),
{
    b == 0x20 || b == 0x09 || b == 0x0A || b == 0x0C || b == 0x0D
}

/// Whether a byte ends a name or a word.
fn is_delim_byte(b: u8) -> (r: bool)
    ensures
        r == is_delim(b),
{
    is_ws_byte(b) || b == 0x2F || b == 0x3C || b == 0x3E || b == 0x5B || b == 0x5D || b == 0x28 || b
        == 0x29 || b == 0x25
}

/// The text of a sequence of characters.
fn chars_to_string(v: &Vec<char>) -> (s: String)
    ensures
        s@ == v@,
{
    let mut s = String::new();
    let mut i: usize = 0;
    while i < v.len()
        invariant
            i <= v.len(),
            s@ == v@.take(i as int),
        decreases v.len() - i,
    {
        crate::encoding::push_char(&mut s, v[i]);
        assert(v@.take(i + 1) =~= v@.take(i as int).push(v@[i as int]));
        i = i + 1;
    }
    assert(v@.take(v.len() as int) =~= v@);
    s
}

/// Adding one byte's character to a Latin-1 view.
proof fn lemma_latin1_push(s: Seq<u8>, a: int, b: int)
    requires
        0 <= a <= b < s.len(),
    ensures
        latin1(s.subrange(a, b + 1)) == latin1(s.subrange(a, b)).push(s[b] as char),
{
    assert(latin1(s.subrange(a, b + 1)) =~= latin1(s.subrange(a, b)).push(s[b] as char));
}

/// The value of the two bytes after a `#` in a name.
fn name_escape(a: u8, b: u8) -> (r: Option<u8>)
    ensures
        r == name_escape_value(a, b),
{
    match (crate::filters::hex_digit_value(a), crate::filters::hex_digit_value(b)) {
        (Some(h), Some(l)) => {
            assert(h * 16 + l < 256);
            Some(h * 16 + l)
        },
        (None, Some(l)) => if a == 0x2B {
            Some(l)
        } else {
            None
        },
        _ => None,
    }
}

/// The byte an escape character stands for.
fn escaped(ch: u8) -> (r: u8)
    ensures
        r == escaped_byte(ch),
{
    if ch == 0x6E {
        0x0A
    } else if ch == 0x72 {
        0x0D
    } else if ch == 0x74 {
        0x09
    } else if ch == 0x62 {
        0x08
    } else if ch == 0x66 {
        0x0C
    } else {
        ch
    }
}

/// The bytes of hexadecimal digits taken in pairs.
fn hex_digits_to_bytes(d: &Vec<u8>) -> (v: Vec<u8>)
    requires
        forall|k: int| 0 <= k < d@.len() ==> #[trigger] hex_digit_spec(d@[k]) is Some,
    ensures
        v@ == hex_pairs(d@),
{
    let mut v: Vec<u8> = Vec::new();
    let n = d.len();
    let pairs = n / 2 + n % 2;
    let mut q: usize = 0;
    while q < pairs
        invariant
            n == d.len(),
            pairs == (n + 1) / 2,
            q <= pairs,
            v@.len() == q,
            forall|k: int| 0 <= k < d@.len() ==> #[trigger] hex_digit_spec(d@[k]) is Some,
            forall|k: int| 0 <= k < v@.len() ==> #[trigger] v@[k] == hex_pairs(d@)[k],
        decreases pairs - q,
    {
        let j = 2 * q;
        let hi = crate::filters::hex_digit_value(d[j]).unwrap();
        let lo = if j + 1 < n {
            crate::filters::hex_digit_value(d[j + 1]).unwrap()
        } else {
            0u8
        };
        assert(hi < 16 && lo < 16);
        v.push(hi * 16 + lo);
        q = q + 1;
    }
    assert(v@ =~= hex_pairs(d@));
    v
}

/// Mantissa scanning without a dot passes digits only.
pub proof fn lemma_mantissa_digits(s: Seq<u8>, i: int, dot: bool)
    requires
        0 <= i <= s.len(),
    ensures
        i <= mantissa_end(s, i, dot).0 <= s.len(),
        dot ==> mantissa_end(s, i, dot).1,
        !mantissa_end(s, i, dot).1 ==> forall|k: int|
            i <= k < mantissa_end(s, i, dot).0 ==> #[trigger] is_digit(s[k]),
    decreases s.len() - i,
{
    if i < s.len() && is_digit(s[i]) {
        lemma_mantissa_digits(s, i + 1, dot);
    } else if i < s.len() && s[i] == 0x2E && !dot {
        lemma_mantissa_digits(s, i + 1, true);
    }
}

/// The bytes as `Debug` lists them, without the brackets: decimals
/// separated by `, `.
pub open spec fn bytes_list_text(v: Seq<u8>) -> Seq<char>
    decreases v.len(),
{
    if v.len() == 0 {
        Seq::empty()
    } else if v.len() == 1 {
        decimal_seq(v[0] as nat)
    } else {
        bytes_list_text(v.drop_last()) + ", "@ + decimal_seq(v.last() as nat)
    }
}

/// Append the bytes as `Debug` lists them, in brackets.
fn push_bytes_list(out: &mut String, v: &[u8])
    ensures
        final(out)@ == old(out)@ + "["@ + bytes_list_text(v@) + "]"@,
{
    out.append("[");
    let ghost start = out@;
    let mut i: usize = 0;
    while i < v.len()
        invariant
            i <= v.len(),
            out@ == start + bytes_list_text(v@.take(i as int)),
        decreases v.len() - i,
    {
        let ghost before = v@.take(i as int);
        if i > 0 {
            out.append(", ");
        }
        push_decimal(out, v[i] as u64);
        proof {
            let now = v@.take(i + 1);
            assert(now.drop_last() =~= before);
            assert(now.last() == v@[i as int]);
            if i == 0 {
                assert(before =~= Seq::<u8>::empty());
            }
        }
        i = i + 1;
    }
    assert(v@.take(v.len() as int) =~= v@);
    out.append("]");
}

/// What `format!("{:?}", s)` gives for a text (quoted, escaped).
pub uninterp spec fn str_debug_text(s: Seq<char>) -> Seq<char>;

/// `format!("{:?}", s)`: the text quoted and escaped as `Debug` writes
/// it. Claimed: the result is `str_debug_text` of the text.
#[verifier::external_body]
pub(crate) fn str_debug(s: &str) -> (t: String)
    ensures
        t@ == str_debug_text(s@),
{
    format!("{:?}", s)
}

/// A token as `Debug` writes it; a real number shows the text it was
/// written with.
pub open spec fn token_debug_spec(t: TokenView) -> Seq<char> {
    match t {
        TokenView::Boolean(b) => "Boolean("@ + (if b { "true"@ } else { "false"@ }) + ")"@,
        TokenView::Integer(i) => "Integer("@ + signed_decimal_seq(i as int) + ")"@,
        TokenView::Real(x) => "Real("@ + x + ")"@,
        TokenView::String(v) => "String("@ + "["@ + bytes_list_text(v) + "]"@ + ")"@,
        TokenView::Name(n) => "Name("@ + str_debug_text(n) + ")"@,
        TokenView::ArrayStart => "ArrayStart"@,
        TokenView::ArrayEnd => "ArrayEnd"@,
        TokenView::DictStart => "DictStart"@,
        TokenView::DictEnd => "DictEnd"@,
        TokenView::Stream => "Stream"@,
        TokenView::EndStream => "EndStream"@,
        TokenView::Obj => "Obj"@,
        TokenView::EndObj => "EndObj"@,
        TokenView::StartXRef => "StartXRef"@,
        TokenView::Reference(n, g) => "Reference("@ + decimal_seq(n as nat) + ", "@ + decimal_seq(
            g as nat,
        ) + ")"@,
        TokenView::Null => "Null"@,
        TokenView::Comment(c) => "Comment("@ + str_debug_text(c) + ")"@,
        TokenView::Eof => "Eof"@,
    }
}

/// A token as `Debug` writes it (a real number with its text).
pub fn token_debug(t: &Token) -> (s: String)
    ensures
        s@ == token_debug_spec(token_view(*t)),
{
    match t {
        Token::Boolean(b) => {
            let mut s = String::from_str("Boolean(");
            s.append(if *b { "true" } else { "false" });
            s.append(")");
            s
        },
        Token::Integer(i) => {
            let mut s = String::from_str("Integer(");
            push_signed_decimal(&mut s, *i);
            s.append(")");
            s
        },
        Token::Real(x) => {
            let mut s = String::from_str("Real(");
            s.append(x.as_str());
            s.append(")");
            s
        },
        Token::String(v) => {
            let mut s = String::from_str("String(");
            push_bytes_list(&mut s, v.as_slice());
            s.append(")");
            s
        },
        Token::Name(n) => {
            let mut s = String::from_str("Name(");
            let d = str_debug(n.as_str());
            s.append(d.as_str());
            s.append(")");
            s
        },
        Token::ArrayStart => String::from_str("ArrayStart"),
        Token::ArrayEnd => String::from_str("ArrayEnd"),
        Token::DictStart => String::from_str("DictStart"),
        Token::DictEnd => String::from_str("DictEnd"),
        Token::Stream => String::from_str("Stream"),
        Token::EndStream => String::from_str("EndStream"),
        Token::Obj => String::from_str("Obj"),
        Token::EndObj => String::from_str("EndObj"),
        Token::StartXRef => String::from_str("StartXRef"),
        Token::Reference(n, g) => {
            let mut s = String::from_str("Reference(");
            push_decimal(&mut s, *n as u64);
            s.append(", ");
            push_decimal(&mut s, *g as u64);
            s.append(")");
            s
        },
        Token::Null => String::from_str("Null"),
        Token::Comment(c) => {
            let mut s = String::from_str("Comment(");
            let d = str_debug(c.as_str());
            s.append(d.as_str());
            s.append(")");
            s
        },
        Token::Eof => String::from_str("Eof"),
    }
}

/// Whether a token is the one `expect_keyword` expects for `kw`.
pub open spec fn keyword_matches(kw: Seq<char>, t: TokenView) -> bool {
    ||| kw == "endstream"@ && t is EndStream
    ||| kw == "stream"@ && t is Stream
    ||| kw == "endobj"@ && t is EndObj
    ||| kw == "obj"@ && t is Obj
    ||| kw == "startxref"@ && t is StartXRef
}

/// What `expect_keyword(kw)` gives for the token `t`.
pub open spec fn expect_outcome(r: ParseResult<()>, kw: Seq<char>, t: TokenView) -> bool {
    if keyword_matches(kw, t) {
        r is Ok
    } else {
        r matches Err(ParseError::UnexpectedToken { expected, found }) && expected@ == "keyword '"@
            + kw + "'"@ && found@ == token_debug_spec(t)
    }
}

/// The first `j`, from `j` on and no more than the length of `s`, at
/// which `s[..j]` ends with `pat`: the index just after the first
/// occurrence of `pat` that ends there or later.
pub open spec fn first_end_from(s: Seq<u8>, pat: Seq<u8>, j: int) -> Option<int>
    decreases s.len() + 1 - j,
{
    if j < 1 || j > s.len() {
        None
    } else if j >= pat.len() && s.subrange(j - pat.len(), j) == pat {
        Some(j)
    } else {
        first_end_from(s, pat, j + 1)
    }
}

/// Whether `v` ends with `pat`.
fn ends_with_bytes(v: &Vec<u8>, pat: &[u8]) -> (b: bool)
    ensures
        b == (v@.len() >= pat@.len() && v@.subrange(v@.len() - pat@.len(), v@.len() as int) == pat@),
{
    if v.len() < pat.len() {
        return false;
    }
    let start = v.len() - pat.len();
    let mut k: usize = 0;
    while k < pat.len()
        invariant
            start + pat@.len() == v@.len(),
            v@.len() == v.len(),
            k <= pat@.len(),
            forall|j: int| 0 <= j < k ==> v@[start + j] == pat@[j],
        decreases pat.len() - k,
    {
        if v[start + k] != pat[k] {
            assert(v@.subrange(start as int, v@.len() as int)[k as int] != pat@[k as int]);
            return false;
        }
        k = k + 1;
    }
    assert(v@.subrange(start as int, v@.len() as int) =~= pat@);
    true
}

/// The first `j` from `j0` on, no more than `max` nor the length of `u`,
/// at which `u[..j]` ends with `kw`: the count of bytes before it.
pub open spec fn keyword_ahead(u: Seq<u8>, kw: Seq<u8>, max: int, j: int) -> Option<int>
    decreases u.len() + 1 - j,
{
    if j < 1 || j > max || j > u.len() {
        None
    } else if j >= kw.len() && u.subrange(j - kw.len(), j) == kw {
        Some(j - kw.len())
    } else {
        keyword_ahead(u, kw, max, j + 1)
    }
}

/// An `UnexpectedEof` I/O error with the text `read_exact` gives it.
#[verifier::external_body]
fn unexpected_eof() -> std::io::Error {
    std::io::Error::new(std::io::ErrorKind::UnexpectedEof, "failed to fill whole buffer")
}

/// A lexer over the bytes of a file: the reader's offset,
/// a byte already taken from the reader but not yet consumed, the count of
/// consumed bytes, and tokens pushed back.
pub struct Lexer<'a> {
    data: &'a [u8],
    offset: u64,
    peek_buffer: Option<u8>,
    position: usize,
    token_buffer: Vec<Token>,
}

impl<'a> Lexer<'a> {
    /// The bytes of the file.
    pub closed spec fn data(&self) -> Seq<u8> {
        self.data@
    }

    /// The reader's offset in the file.
    pub closed spec fn reader_offset(&self) -> int {
        self.offset as int
    }

    /// The byte taken from the reader but not yet consumed.
    pub closed spec fn peeked(&self) -> Option<u8> {
        self.peek_buffer
    }

    /// The count of consumed bytes (`position`).
    pub closed spec fn pos(&self) -> int {
        self.position as int
    }

    /// The tokens pushed back, the last one first to come.
    pub closed spec fn pushed(&self) -> Seq<Token> {
        self.token_buffer@
    }

    /// The file's bytes from the reader's offset on.
    pub open spec fn unread(&self) -> Seq<u8> {
        if self.reader_offset() < self.data().len() {
            self.data().skip(self.reader_offset())
        } else {
            Seq::empty()
        }
    }

    /// The bytes still to consume: the taken byte, then the unread ones.
    pub open spec fn avail(&self) -> Seq<u8> {
        match self.peeked() {
            Some(b) => seq![b] + self.unread(),
            None => self.unread(),
        }
    }

    /// The reader's offset less the taken byte: it grows by one with each
    /// consumed byte.
    pub open spec fn stream_index(&self) -> int {
        self.reader_offset() - if self.peeked() is Some { 1int } else { 0int }
    }

    /// Well-formed: counts that cannot overflow.
    pub closed spec fn wf(&self) -> bool {
        &&& self.data@.len() < usize::MAX
        &&& self.offset <= usize::MAX
        &&& self.position as int <= self.offset as int + 1
        &&& self.peek_buffer is Some ==> (self.position as int <= self.offset as int && self.offset
            < usize::MAX)
    }

    /// The state after consuming `k` bytes of `old`.
    pub open spec fn moved(&self, old: Self, k: int) -> bool {
        &&& 0 <= k <= old.avail().len()
        &&& self.wf()
        &&& self.data() == old.data()
        &&& self.avail() == old.avail().skip(k)
        &&& self.pos() == old.pos() + k
        &&& self.stream_index() == old.stream_index() + k
        &&& self.pushed() == old.pushed()
    }

    /// The state after consuming `k` bytes of `old`, holding the next byte
    /// taken from the reader exactly when `peeked`.
    pub open spec fn advanced(&self, old: Self, k: int, peeked: bool) -> bool {
        &&& self.moved(old, k)
        &&& (self.peeked() is Some) == peeked
    }

    /// Moving `k1` then `k2` bytes is moving `k1 + k2` bytes.
    pub proof fn lemma_moved_trans(a: Self, b: Self, c: Self, k1: int, k2: int)
        requires
            b.moved(a, k1),
            c.moved(b, k2),
        ensures
            c.moved(a, k1 + k2),
    {
        assert(a.avail().skip(k1).skip(k2) =~= a.avail().skip(k1 + k2));
    }

    /// A token pushed back is the next one read, and once it is read the
    /// pushed-back tokens are as before.
    pub proof fn lemma_push_then_next(pushed: Seq<Token>, t: Token)
        ensures
            pushed.push(t).len() > 0,
            pushed.push(t).last() == t,
            pushed.push(t).drop_last() == pushed,
    {
        assert(pushed.push(t).drop_last() =~= pushed);
    }

    /// Lexers over the same bytes, at the same reader offset with the same
    /// taken byte, read the same token: so after `peek_token` succeeds,
    /// or after `restore_position` of a saved position, the next token is
    /// the one read before.
    pub proof fn lemma_same_place_same_token(a: Self, b: Self)
        requires
            a.data() == b.data(),
            a.reader_offset() == b.reader_offset(),
            a.peeked() == b.peeked(),
        ensures
            a.avail() == b.avail(),
            lex_spec(a.avail()) == lex_spec(b.avail()),
    {
    }

    /// A lexer over `data`, reading from `start` on.
    pub fn new(data: &'a [u8], start: usize) -> (l: Self)
        requires
            data@.len() < usize::MAX,
        ensures
            l.wf(),
            l.data() == data@,
            l.reader_offset() == start,
            l.peeked() is None,
            l.pos() == 0,
            l.pushed().len() == 0,
    {
        Lexer { data, offset: start as u64, peek_buffer: None, position: 0, token_buffer: Vec::new() }
    }

    /// The next byte, without consuming it.
    fn peek_char(&mut self) -> (r: Option<u8>)
        requires
            old(self).wf(),
        ensures
            final(self).advanced(*old(self), 0, old(self).avail().len() > 0),
            old(self).avail().len() > 0 ==> r == Some(old(self).avail()[0]),
            old(self).avail().len() == 0 ==> r is None,
    {
        if let Some(ch) = self.peek_buffer {
            assert(self.avail()[0] == ch);
            assert(self.avail().skip(0) =~= self.avail());
            return Some(ch);
        }
        if self.offset < self.data.len() as u64 {
            let ch = self.data[self.offset as usize];
            proof {
                assert(self.unread() =~= seq![ch] + self.data@.skip(self.offset + 1));
            }
            self.peek_buffer = Some(ch);
            self.offset = self.offset + 1;
            proof {
                assert(self.avail() =~= old(self).avail().skip(0));
            }
            Some(ch)
        } else {
            assert(old(self).avail().skip(0) =~= old(self).avail());
            None
        }
    }

    /// Consume the next byte.
    fn consume_char(&mut self) -> (r: Option<u8>)
        requires
            old(self).wf(),
        ensures
            old(self).avail().len() > 0 ==> r == Some(old(self).avail()[0]) && final(self).advanced(
                *old(self),
                1,
                false,
            ),
            old(self).avail().len() == 0 ==> r is None && final(self).advanced(*old(self), 0, false),
    {
        let ch = self.peek_char();
        if ch.is_some() {
            self.peek_buffer = None;
            self.position = self.position + 1;
            proof {
                assert(self.avail() =~= old(self).avail().skip(1));
            }
        }
        ch
    }

    /// Skip whitespace and return the number of bytes skipped.
    pub fn skip_whitespace(&mut self) -> (r: ParseResult<usize>)
        requires
            old(self).wf(),
        ensures
            ({
                let k = ws_end(old(self).avail(), 0);
                &&& r matches Ok(n) && n == k
                &&& final(self).advanced(*old(self), k, k < old(self).avail().len())
            }),
    {
        let ghost s = self.avail();
        proof {
            lemma_scan_bounds(s, 0);
        }
        let mut count: usize = 0;
        assert(s.skip(0) =~= s);
        loop
            invariant
                0 <= count <= ws_end(s, 0),
                ws_end(s, 0) == ws_end(s, count as int),
                s == old(self).avail(),
                ws_end(s, 0) <= s.len(),
                self.moved(*old(self), count as int),
            ensures
                count == ws_end(s, 0),
                self.advanced(*old(self), count as int, count < s.len()),
            decreases s.len() - count,
        {
            let ghost before = *self;
            let ch = self.peek_char();
            proof {
                Self::lemma_moved_trans(*old(self), before, *self, count as int, 0);
            }
            match ch {
                Some(c) => {
                    assert(c == s[count as int]);
                    if c == 0x20 || c == 0x09 || c == 0x0A || c == 0x0C || c == 0x0D {
                        let ghost mid = *self;
                        self.consume_char();
                        proof {
                            lemma_scan_bounds(s, count + 1);
                            Self::lemma_moved_trans(*old(self), mid, *self, count as int, 1);
                        }
                        count = count + 1;
                    } else {
                        break;
                    }
                },
                None => {
                    break;
                },
            }
        }
        Ok(count)
    }

    /// Current position (count of consumed bytes).
    pub fn position(&self) -> (p: usize)
        ensures
            p == self.pos(),
    {
        self.position
    }

    /// Push back a token to be returned by the next call to next_token.
    pub fn push_token(&mut self, token: Token)
        requires
            old(self).wf(),
        ensures
            final(self).wf(),
            final(self).pushed() == old(self).pushed().push(token),
            final(self).data() == old(self).data(),
            final(self).reader_offset() == old(self).reader_offset(),
            final(self).peeked() == old(self).peeked(),
            final(self).pos() == old(self).pos(),
    {
        self.token_buffer.push(token);
    }

    /// Save the current position (the reader's offset and the taken byte)
    /// for later restoration.
    pub fn save_position(&mut self) -> (r: ParseResult<(u64, Option<u8>)>)
        ensures
            r matches Ok((o, p)) && o == old(self).reader_offset() && p == old(self).peeked(),
            *final(self) == *old(self),
    {
        Ok((self.offset, self.peek_buffer))
    }

    /// Restore a previously saved position; the count of consumed bytes
    /// becomes the saved offset.
    pub fn restore_position(&mut self, saved: (u64, Option<u8>)) -> (r: ParseResult<()>)
        requires
            old(self).wf(),
            saved.0 <= usize::MAX,
            saved.1 is Some ==> saved.0 < usize::MAX,
        ensures
            r is Ok,
            final(self).wf(),
            final(self).data() == old(self).data(),
            final(self).reader_offset() == saved.0,
            final(self).peeked() == saved.1,
            final(self).pos() == saved.0,
            final(self).pushed() == old(self).pushed(),
    {
        self.offset = saved.0;
        self.peek_buffer = saved.1;
        self.position = saved.0 as usize;
        Ok(())
    }

    /// Peek at the byte `i` bytes past `base`.
    fn peek_from(&mut self, Ghost(base): Ghost<Self>, Ghost(i): Ghost<int>) -> (r: Option<u8>)
        requires
            old(self).moved(base, i),
            0 <= i <= base.avail().len(),
        ensures
            final(self).moved(base, i),
            i < base.avail().len() ==> r == Some(base.avail()[i]) && final(self).peeked() is Some,
            i == base.avail().len() ==> r is None && final(self).peeked() is None,
    {
        let ghost before = *self;
        let r = self.peek_char();
        proof {
            Self::lemma_moved_trans(base, before, *self, i, 0);
        }
        r
    }

    /// Consume the byte `i` bytes past `base`, if there is one.
    fn consume_from(&mut self, Ghost(base): Ghost<Self>, Ghost(i): Ghost<int>) -> (r: Option<u8>)
        requires
            old(self).moved(base, i),
            0 <= i <= base.avail().len(),
        ensures
            final(self).peeked() is None,
            i < base.avail().len() ==> r == Some(base.avail()[i]) && final(self).moved(base, i + 1),
            i == base.avail().len() ==> r is None && final(self).moved(base, i),
    {
        let ghost before = *self;
        let r = self.consume_char();
        proof {
            if i < base.avail().len() {
                Self::lemma_moved_trans(base, before, *self, i, 1);
            } else {
                Self::lemma_moved_trans(base, before, *self, i, 0);
            }
        }
        r
    }

    /// Read a comment (from % to end of line).
    fn read_comment(&mut self) -> (r: ParseResult<Token>)
        requires
            old(self).wf(),
            old(self).avail().len() > 0,
            old(self).avail()[0] == 0x25,
        ensures
            ({
                let s = old(self).avail();
                let e = line_end(s, 1);
                &&& r matches Ok(Token::Comment(c)) && c@ == latin1(s.subrange(1, e))
                &&& final(self).advanced(*old(self), e, e < s.len())
            }),
    {
        let ghost base = *self;
        let ghost s = self.avail();
        assert(s.skip(0) =~= s);
        self.consume_from(Ghost(base), Ghost(0));
        proof {
            lemma_scan_bounds(s, 1);
        }
        let mut comment = String::new();
        let ghost mut i: int = 1;
        assert(latin1(s.subrange(1, 1)) =~= Seq::<char>::empty());
        loop
            invariant
                s == base.avail(),
                1 <= i <= line_end(s, 1) <= s.len(),
                line_end(s, 1) == line_end(s, i),
                self.moved(base, i),
                comment@ == latin1(s.subrange(1, i)),
            ensures
                i == line_end(s, 1),
                self.advanced(base, i, i < s.len()),
                comment@ == latin1(s.subrange(1, i)),
            decreases s.len() - i,
        {
            let ch = self.peek_from(Ghost(base), Ghost(i));
            match ch {
                Some(c) => {
                    if c == 0x0A || c == 0x0D {
                        break;
                    }
                    self.consume_from(Ghost(base), Ghost(i));
                    crate::encoding::push_char(&mut comment, crate::filters::byte_char(c));
                    proof {
                        lemma_latin1_push(s, 1, i);
                        lemma_scan_bounds(s, i + 1);
                        i = i + 1;
                    }
                },
                None => {
                    break;
                },
            }
        }
        Ok(Token::Comment(comment))
    }

    /// Read a word (sequence of non-delimiter characters).
    fn read_word(&mut self) -> (r: ParseResult<String>)
        requires
            old(self).wf(),
        ensures
            ({
                let s = old(self).avail();
                let e = word_end(s, 0);
                &&& r matches Ok(w) && w@ == latin1(s.subrange(0, e))
                &&& final(self).advanced(*old(self), e, e < s.len())
            }),
    {
        let ghost base = *self;
        let ghost s = self.avail();
        assert(s.skip(0) =~= s);
        proof {
            lemma_scan_bounds(s, 0);
        }
        let mut word = String::new();
        let ghost mut i: int = 0;
        assert(latin1(s.subrange(0, 0)) =~= Seq::<char>::empty());
        loop
            invariant
                s == base.avail(),
                0 <= i <= word_end(s, 0) <= s.len(),
                word_end(s, 0) == word_end(s, i),
                self.moved(base, i),
                word@ == latin1(s.subrange(0, i)),
            ensures
                i == word_end(s, 0),
                self.advanced(base, i, i < s.len()),
                word@ == latin1(s.subrange(0, i)),
            decreases s.len() - i,
        {
            let ch = self.peek_from(Ghost(base), Ghost(i));
            match ch {
                Some(c) => {
                    if is_delim_byte(c) {
                        break;
                    }
                    self.consume_from(Ghost(base), Ghost(i));
                    crate::encoding::push_char(&mut word, crate::filters::byte_char(c));
                    proof {
                        lemma_latin1_push(s, 0, i);
                        lemma_scan_bounds(s, i + 1);
                        i = i + 1;
                    }
                },
                None => {
                    break;
                },
            }
        }
        Ok(word)
    }

    /// Read a sequence of digits.
    pub fn read_digits(&mut self) -> (r: ParseResult<String>)
        requires
            old(self).wf(),
        ensures
            ({
                let s = old(self).avail();
                let e = digits_end(s, 0);
                &&& r matches Ok(w) && w@ == latin1(s.subrange(0, e))
                &&& final(self).advanced(*old(self), e, e < s.len())
            }),
    {
        let ghost base = *self;
        let ghost s = self.avail();
        assert(s.skip(0) =~= s);
        proof {
            lemma_scan_bounds(s, 0);
        }
        let mut digits = String::new();
        let ghost mut i: int = 0;
        assert(latin1(s.subrange(0, 0)) =~= Seq::<char>::empty());
        loop
            invariant
                s == base.avail(),
                0 <= i <= digits_end(s, 0) <= s.len(),
                digits_end(s, 0) == digits_end(s, i),
                self.moved(base, i),
                digits@ == latin1(s.subrange(0, i)),
            ensures
                i == digits_end(s, 0),
                self.advanced(base, i, i < s.len()),
                digits@ == latin1(s.subrange(0, i)),
            decreases s.len() - i,
        {
            let ch = self.peek_from(Ghost(base), Ghost(i));
            match ch {
                Some(c) => {
                    if !(0x30 <= c && c <= 0x39) {
                        break;
                    }
                    self.consume_from(Ghost(base), Ghost(i));
                    crate::encoding::push_char(&mut digits, crate::filters::byte_char(c));
                    proof {
                        lemma_latin1_push(s, 0, i);
                        lemma_scan_bounds(s, i + 1);
                        i = i + 1;
                    }
                },
                None => {
                    break;
                },
            }
        }
        Ok(digits)
    }

    /// Read a newline sequence (CR, LF, or CRLF).
    pub fn read_newline(&mut self) -> (r: ParseResult<()>)
        requires
            old(self).wf(),
        ensures
            ({
                let s = old(self).avail();
                if s.len() > 0 && s[0] == 0x0D {
                    if s.len() > 1 && s[1] == 0x0A {
                        r is Ok && final(self).advanced(*old(self), 2, false)
                    } else {
                        r is Ok && final(self).advanced(*old(self), 1, s.len() > 1)
                    }
                } else if s.len() > 0 && s[0] == 0x0A {
                    r is Ok && final(self).advanced(*old(self), 1, false)
                } else {
                    r matches Err(ParseError::SyntaxError { position, message }) && position == old(self).pos() && message@ == "Expected newline"@ && final(self).advanced(
                        *old(self),
                        0,
                        s.len() > 0,
                    )
                }
            }),
    {
        let ghost base = *self;
        let ghost s = self.avail();
        assert(s.skip(0) =~= s);
        match self.peek_from(Ghost(base), Ghost(0)) {
            Some(0x0D) => {
                self.consume_from(Ghost(base), Ghost(0));
                proof {
                    if s.len() > 1 {
                        assert(s[1] == self.avail()[0]);
                    }
                }
                if self.peek_from(Ghost(base), Ghost(1)) == Some(0x0Au8) {
                    self.consume_from(Ghost(base), Ghost(1));
                }
                Ok(())
            },
            Some(0x0A) => {
                self.consume_from(Ghost(base), Ghost(0));
                Ok(())
            },
            _ => Err(ParseError::SyntaxError {
                position: self.position,
                message: String::from_str("Expected newline"),
            }),
        }
    }


    /// Read a name object (e.g., /Type).
    fn read_name(&mut self) -> (r: ParseResult<Token>)
        requires
            old(self).wf(),
            old(self).avail().len() > 0,
            old(self).avail()[0] == 0x2F,
        ensures
            ({
                let s = old(self).avail();
                match name_from(s, 1, Seq::empty()) {
                    Ok((n, e)) => r matches Ok(Token::Name(x)) && x@ == n && final(self).advanced(
                        *old(self),
                        e,
                        e < s.len(),
                    ),
                    Err((p, m)) => r matches Err(ParseError::SyntaxError { position, message })
                        && position == old(self).pos() + p && message@ == m && final(self).advanced(
                        *old(self),
                        p,
                        false,
                    ),
                }
            }),
    {
        let ghost base = *self;
        let ghost s = self.avail();
        assert(s.skip(0) =~= s);
        self.consume_from(Ghost(base), Ghost(0));
        let mut name = String::new();
        let ghost mut i: int = 1;
        let ghost target = name_from(s, 1, Seq::empty());
        loop
            invariant
                s == base.avail(),
                base == *old(self),
                1 <= i <= s.len(),
                self.moved(base, i),
                target == name_from(s, 1, Seq::empty()),
                target == name_from(s, i, name@),
            ensures
                target == Ok::<(Seq<char>, int), (int, Seq<char>)>((name@, i)),
                self.advanced(base, i, i < s.len()),
            decreases s.len() - i,
        {
            let ch = self.peek_from(Ghost(base), Ghost(i));
            match ch {
                Some(c) => {
                    if is_delim_byte(c) {
                        break;
                    }
                    self.consume_from(Ghost(base), Ghost(i));
                    if c == 0x23 {
                        let h1 = self.consume_from(Ghost(base), Ghost(i + 1));
                        let a = match h1 {
                            Some(a) => a,
                            None => {
                                return Err(ParseError::SyntaxError {
                                    position: self.position,
                                    message: String::from_str("Incomplete hex code in name"),
                                });
                            },
                        };
                        let h2 = self.consume_from(Ghost(base), Ghost(i + 2));
                        let b = match h2 {
                            Some(b) => b,
                            None => {
                                return Err(ParseError::SyntaxError {
                                    position: self.position,
                                    message: String::from_str("Incomplete hex code in name"),
                                });
                            },
                        };
                        match name_escape(a, b) {
                            Some(v) => {
                                crate::encoding::push_char(&mut name, crate::filters::byte_char(v));
                                proof {
                                    i = i + 3;
                                }
                            },
                            None => {
                                return Err(ParseError::SyntaxError {
                                    position: self.position,
                                    message: String::from_str("Invalid hex code in name"),
                                });
                            },
                        }
                    } else {
                        crate::encoding::push_char(&mut name, crate::filters::byte_char(c));
                        proof {
                            i = i + 1;
                        }
                    }
                },
                None => {
                    break;
                },
            }
        }
        Ok(Token::Name(name))
    }

    /// Read a literal string (parentheses).
    fn read_literal_string(&mut self) -> (r: ParseResult<Token>)
        requires
            old(self).wf(),
            old(self).avail().len() > 0,
            old(self).avail()[0] == 0x28,
        ensures
            ({
                let s = old(self).avail();
                match lex_literal(s, 1, 1, false, Seq::empty()) {
                    Ok((v, e)) => r matches Ok(Token::String(x)) && x@ == v && final(self).advanced(
                        *old(self),
                        e,
                        false,
                    ),
                    Err(p) => r matches Err(ParseError::SyntaxError { position, message }) && position
                        == old(self).pos() + p && message@ == "Unterminated string"@ && final(self).advanced(*old(self), p, false),
                }
            }),
    {
        let ghost base = *self;
        let ghost s = self.avail();
        assert(s.skip(0) =~= s);
        self.consume_from(Ghost(base), Ghost(0));
        let mut string: Vec<u8> = Vec::new();
        let mut paren_depth: usize = 1;
        let mut escape = false;
        let ghost mut i: int = 1;
        let ghost target = lex_literal(s, 1, 1, false, Seq::empty());
        loop
            invariant_except_break
                target == lex_literal(s, i, paren_depth as nat, escape, string@),
            invariant
                s == base.avail(),
                base == *old(self),
                1 <= i <= s.len(),
                1 <= paren_depth <= i,
                self.moved(base, i),
                target == lex_literal(s, 1, 1, false, Seq::empty()),
            ensures
                target == Ok::<(Seq<u8>, int), int>((string@, i)),
                self.advanced(base, i, false),
            decreases s.len() - i,
        {
            let next = self.consume_from(Ghost(base), Ghost(i));
            let ch = match next {
                Some(ch) => ch,
                None => {
                    return Err(ParseError::SyntaxError {
                        position: self.position,
                        message: String::from_str("Unterminated string"),
                    });
                },
            };
            if escape {
                if 0x30 <= ch && ch <= 0x37 {
                    let mut value: u8 = ch - 0x30;
                    let mut count: usize = 1;
                    let ghost start = i + 1;
                    proof {
                        i = i + 1;
                        lemma_octal_escape(s, start, 1, value);
                    }
                    while count < 3
                        invariant
                            s == base.avail(),
                            1 <= count <= 3,
                            1 <= start <= i <= s.len(),
                            i == start + count - 1,
                            self.moved(base, i),
                            octal_escape(s, start, 1, (ch - 0x30) as u8) == octal_escape(s, i, count as int, value),
                        ensures
                            octal_escape(s, start, 1, (ch - 0x30) as u8) == (value, i),
                            self.moved(base, i),
                            start <= i <= s.len(),
                        decreases 3 - count,
                    {
                        match self.peek_from(Ghost(base), Ghost(i)) {
                            Some(nx) => {
                                if 0x30 <= nx && nx <= 0x37 {
                                    self.consume_from(Ghost(base), Ghost(i));
                                    let wide: u16 = (value as u16) * 8 + ((nx - 0x30) as u16);
                                    value = (wide % 256) as u8;
                                    count = count + 1;
                                    proof {
                                        i = i + 1;
                                    }
                                } else {
                                    break;
                                }
                            },
                            None => {
                                break;
                            },
                        }
                    }
                    string.push(value);
                } else {
                    string.push(escaped(ch));
                    proof {
                        i = i + 1;
                    }
                }
                escape = false;
            } else if ch == 0x5C {
                escape = true;
                proof {
                    i = i + 1;
                }
            } else if ch == 0x28 {
                string.push(ch);
                paren_depth = paren_depth + 1;
                proof {
                    i = i + 1;
                }
            } else if ch == 0x29 {
                proof {
                    i = i + 1;
                }
                if paren_depth == 1 {
                    break;
                }
                paren_depth = paren_depth - 1;
                string.push(ch);
            } else {
                string.push(ch);
                proof {
                    i = i + 1;
                }
            }
        }
        Ok(Token::String(string))
    }

    /// Read angle bracket tokens (hex strings or dict markers).
    fn read_angle_bracket(&mut self) -> (r: ParseResult<Token>)
        requires
            old(self).wf(),
            old(self).avail().len() > 0,
            old(self).avail()[0] == 0x3C,
        ensures
            ({
                let s = old(self).avail();
                if s.len() > 1 && s[1] == 0x3C {
                    r matches Ok(Token::DictStart) && final(self).advanced(*old(self), 2, false)
                } else {
                    match hex_from(s, 1, Seq::empty()) {
                        Ok((d, e)) => r matches Ok(Token::String(x)) && x@ == hex_pairs(d) && final(self).advanced(*old(self), e, false),
                        Err((p, m)) => r matches Err(ParseError::SyntaxError { position, message })
                            && position == old(self).pos() + p && message@ == m && final(self).advanced(
                            *old(self),
                            p,
                            false,
                        ),
                    }
                }
            }),
    {
        let ghost base = *self;
        let ghost s = self.avail();
        assert(s.skip(0) =~= s);
        self.consume_from(Ghost(base), Ghost(0));
        if self.peek_from(Ghost(base), Ghost(1)) == Some(0x3Cu8) {
            self.consume_from(Ghost(base), Ghost(1));
            return Ok(Token::DictStart);
        }
        let mut hex_chars: Vec<u8> = Vec::new();
        let ghost mut i: int = 1;
        let ghost target = hex_from(s, 1, Seq::empty());
        loop
            invariant_except_break
                target == hex_from(s, i, hex_chars@),
            invariant
                s == base.avail(),
                base == *old(self),
                1 <= i <= s.len(),
                self.moved(base, i),
                target == hex_from(s, 1, Seq::empty()),
                !(s.len() > 1 && s[1] == 0x3C),
                forall|k: int| 0 <= k < hex_chars@.len() ==> #[trigger] hex_digit_spec(hex_chars@[k]) is Some,
            ensures
                target == Ok::<(Seq<u8>, int), (int, Seq<char>)>((hex_chars@, i)),
                self.advanced(base, i, false),
                forall|k: int| 0 <= k < hex_chars@.len() ==> #[trigger] hex_digit_spec(hex_chars@[k]) is Some,
            decreases s.len() - i,
        {
            match self.peek_from(Ghost(base), Ghost(i)) {
                Some(ch) => {
                    self.consume_from(Ghost(base), Ghost(i));
                    proof {
                        i = i + 1;
                    }
                    if ch == 0x3E {
                        break;
                    }
                    if crate::filters::hex_digit_value(ch).is_some() {
                        hex_chars.push(ch);
                    } else if !is_ws_byte(ch) {
                        return Err(ParseError::SyntaxError {
                            position: self.position,
                            message: String::from_str("Invalid character in hex string"),
                        });
                    }
                },
                None => {
                    return Err(ParseError::SyntaxError {
                        position: self.position,
                        message: String::from_str("Unterminated hex string"),
                    });
                },
            }
        }
        let bytes = hex_digits_to_bytes(&hex_chars);
        Ok(Token::String(bytes))
    }


    /// Process a word as a keyword.
    fn process_keyword(&self, word: String) -> (r: ParseResult<Token>)
        ensures
            match process_keyword_spec(word@) {
                Some(t) => r matches Ok(tok) && token_view(tok) == t,
                None => r matches Err(ParseError::SyntaxError { position, message }) && position
                    == self.pos() && message@ == "Unknown keyword: "@ + word@,
            },
    {
        if crate::text::str_eq(word.as_str(), "stream") {
            Ok(Token::Stream)
        } else if crate::text::str_eq(word.as_str(), "endstream") {
            Ok(Token::EndStream)
        } else if crate::text::str_eq(word.as_str(), "obj") {
            Ok(Token::Obj)
        } else if crate::text::str_eq(word.as_str(), "endobj") {
            Ok(Token::EndObj)
        } else if crate::text::str_eq(word.as_str(), "startxref") {
            Ok(Token::StartXRef)
        } else {
            Err(ParseError::SyntaxError {
                position: self.position,
                message: crate::text::concat_str("Unknown keyword: ", word.as_str()),
            })
        }
    }

    /// Read boolean (true/false); another word is read as a keyword.
    fn read_boolean(&mut self) -> (r: ParseResult<Token>)
        requires
            old(self).wf(),
            old(self).avail().len() > 0,
            old(self).avail()[0] == 0x74 || old(self).avail()[0] == 0x66,
        ensures
            lex_outcome(r, word_token(old(self).avail()), old(self).pos()),
            final(self).advanced(
                *old(self),
                step_len(word_token(old(self).avail())),
                step_peeked(word_token(old(self).avail())),
            ),
    {
        let ghost s = self.avail();
        let word = match self.read_word() {
            Ok(w) => w,
            Err(e) => {
                return Err(e);
            },
        };
        proof {
            lemma_scan_bounds(s, 1);
            assert(word_end(s, 0) == word_end(s, 1));
            let w = latin1(s.subrange(0, word_end(s, 0)));
            assert(w.len() > 0 && w[0] == s[0] as char);
            reveal_strlit("null");
            if w == "null"@ {
                assert(w[0] == 'n');
            }
        }
        if crate::text::str_eq(word.as_str(), "true") {
            Ok(Token::Boolean(true))
        } else if crate::text::str_eq(word.as_str(), "false") {
            Ok(Token::Boolean(false))
        } else {
            self.process_keyword(word)
        }
    }

    /// Read null; another word is read as a keyword.
    fn read_null(&mut self) -> (r: ParseResult<Token>)
        requires
            old(self).wf(),
            old(self).avail().len() > 0,
            old(self).avail()[0] == 0x6E,
        ensures
            lex_outcome(r, word_token(old(self).avail()), old(self).pos()),
            final(self).advanced(
                *old(self),
                step_len(word_token(old(self).avail())),
                step_peeked(word_token(old(self).avail())),
            ),
    {
        let ghost s = self.avail();
        let word = match self.read_word() {
            Ok(w) => w,
            Err(e) => {
                return Err(e);
            },
        };
        proof {
            lemma_scan_bounds(s, 1);
            assert(word_end(s, 0) == word_end(s, 1));
            let w = latin1(s.subrange(0, word_end(s, 0)));
            assert(w.len() > 0 && w[0] == s[0] as char);
            reveal_strlit("true");
            reveal_strlit("false");
            if w == "true"@ {
                assert(w[0] == 't');
            }
            if w == "false"@ {
                assert(w[0] == 'f');
            }
        }
        if crate::text::str_eq(word.as_str(), "null") {
            Ok(Token::Null)
        } else {
            self.process_keyword(word)
        }
    }

    /// Read a keyword.
    fn read_keyword(&mut self) -> (r: ParseResult<Token>)
        requires
            old(self).wf(),
            old(self).avail().len() > 0,
            is_alpha(old(self).avail()[0]),
            old(self).avail()[0] != 0x74 && old(self).avail()[0] != 0x66 && old(self).avail()[0] != 0x6E,
        ensures
            lex_outcome(r, word_token(old(self).avail()), old(self).pos()),
            final(self).advanced(
                *old(self),
                step_len(word_token(old(self).avail())),
                step_peeked(word_token(old(self).avail())),
            ),
    {
        let ghost s = self.avail();
        let word = match self.read_word() {
            Ok(w) => w,
            Err(e) => {
                return Err(e);
            },
        };
        proof {
            lemma_scan_bounds(s, 1);
            assert(word_end(s, 0) == word_end(s, 1));
            let w = latin1(s.subrange(0, word_end(s, 0)));
            assert(w.len() > 0 && w[0] == s[0] as char);
            reveal_strlit("true");
            reveal_strlit("false");
            reveal_strlit("null");
            if w == "true"@ {
                assert(w[0] == 't');
            }
            if w == "false"@ {
                assert(w[0] == 'f');
            }
            if w == "null"@ {
                assert(w[0] == 'n');
            }
        }
        self.process_keyword(word)
    }


    /// Read a number (integer or real).
    #[verifier::rlimit(30)]
    fn read_number(&mut self) -> (r: ParseResult<Token>)
        requires
            old(self).wf(),
            old(self).avail().len() > 0,
            ({
                let c = old(self).avail()[0];
                c == 0x2B || c == 0x2D || is_digit(c) || c == 0x2E
            }),
        ensures
            lex_outcome(r, number_token(old(self).avail()), old(self).pos()),
            final(self).advanced(
                *old(self),
                step_len(number_token(old(self).avail())),
                step_peeked(number_token(old(self).avail())),
            ),
    {
        let ghost base = *self;
        let ghost s = self.avail();
        assert(s.skip(0) =~= s);
        let mut text: Vec<char> = Vec::new();
        let mut has_dot = false;
        let ghost mut i: int = 0;
        assert(latin1(s.subrange(0, 0)) =~= Seq::<char>::empty());
        let c0 = self.peek_from(Ghost(base), Ghost(0));
        let mut signed = false;
        if c0 == Some(0x2Bu8) || c0 == Some(0x2Du8) {
            let c = self.consume_from(Ghost(base), Ghost(0)).unwrap();
            text.push(crate::filters::byte_char(c));
            signed = true;
            proof {
                lemma_latin1_push(s, 0, 0);
                i = 1;
            }
            match self.peek_from(Ghost(base), Ghost(1)) {
                Some(n) => {
                    if !((0x30 <= n && n <= 0x39) || n == 0x2E) {
                        return Err(ParseError::SyntaxError {
                            position: self.position,
                            message: String::from_str("Expected digit after sign"),
                        });
                    }
                },
                None => {},
            }
        }
        let ghost j = i;
        assert(j == sign_len(s, 0));
        assert(!(j == 1 && 1 < s.len() && !(is_digit(s[1]) || s[1] == 0x2E)));
        proof {
            lemma_mantissa_digits(s, j, false);
        }
        let mut mant_digits: usize = 0;
        loop
            invariant
                s == base.avail(),
                base == *old(self),
                j == sign_len(s, 0),
                j <= i <= s.len(),
                self.moved(base, i),
                mantissa_end(s, i, has_dot) == mantissa_end(s, j, false),
                text@ == latin1(s.subrange(0, i)),
                mant_digits == i - j - if has_dot { 1int } else { 0int },
                signed == (j == 1),
                signed ==> c0 == Some(s[0]),
                !(j == 1 && 1 < s.len() && !(is_digit(s[1]) || s[1] == 0x2E)),
            ensures
                (i, has_dot) == mantissa_end(s, j, false),
                self.advanced(base, i, i < s.len()),
                text@ == latin1(s.subrange(0, i)),
                mant_digits == i - j - if has_dot { 1int } else { 0int },
            decreases s.len() - i,
        {
            match self.peek_from(Ghost(base), Ghost(i)) {
                Some(c) => {
                    if 0x30 <= c && c <= 0x39 {
                        self.consume_from(Ghost(base), Ghost(i));
                        text.push(crate::filters::byte_char(c));
                        mant_digits = mant_digits + 1;
                        proof {
                            lemma_latin1_push(s, 0, i);
                            i = i + 1;
                        }
                    } else if c == 0x2E && !has_dot {
                        self.consume_from(Ghost(base), Ghost(i));
                        text.push(crate::filters::byte_char(c));
                        has_dot = true;
                        proof {
                            lemma_latin1_push(s, 0, i);
                            i = i + 1;
                        }
                    } else {
                        break;
                    }
                },
                None => {
                    break;
                },
            }
        }
        let ghost m = i;
        let mut has_exp = false;
        let mut exp_digits: usize = 0;
        let next = self.peek_from(Ghost(base), Ghost(i));
        if next == Some(0x65u8) || next == Some(0x45u8) {
            let c = self.consume_from(Ghost(base), Ghost(i)).unwrap();
            text.push(crate::filters::byte_char(c));
            has_exp = true;
            proof {
                lemma_latin1_push(s, 0, i);
                i = i + 1;
            }
            let sg = self.peek_from(Ghost(base), Ghost(i));
            if sg == Some(0x2Bu8) || sg == Some(0x2Du8) {
                let c2 = self.consume_from(Ghost(base), Ghost(i)).unwrap();
                text.push(crate::filters::byte_char(c2));
                proof {
                    lemma_latin1_push(s, 0, i);
                    i = i + 1;
                }
            }
            let ghost e2 = i;
            assert(e2 == m + 1 + sign_len(s, m + 1));
            proof {
                lemma_scan_bounds(s, e2);
            }
            loop
                invariant
                    s == base.avail(),
                    base == *old(self),
                    e2 <= i <= digits_end(s, e2) <= s.len(),
                    digits_end(s, i) == digits_end(s, e2),
                    self.moved(base, i),
                    text@ == latin1(s.subrange(0, i)),
                    exp_digits == i - e2,
                    (m, has_dot) == mantissa_end(s, j, false),
                    m < s.len() && (s[m] == 0x65 || s[m] == 0x45),
                    e2 == m + 1 + sign_len(s, m + 1),
                    mant_digits == m - j - if has_dot { 1int } else { 0int },
                    j == sign_len(s, 0),
                    !(j == 1 && 1 < s.len() && !(is_digit(s[1]) || s[1] == 0x2E)),
                ensures
                    i == digits_end(s, e2),
                    self.advanced(base, i, i < s.len()),
                    text@ == latin1(s.subrange(0, i)),
                    exp_digits == i - e2,
                decreases s.len() - i,
            {
                match self.peek_from(Ghost(base), Ghost(i)) {
                    Some(c) => {
                        if 0x30 <= c && c <= 0x39 {
                            self.consume_from(Ghost(base), Ghost(i));
                            text.push(crate::filters::byte_char(c));
                            exp_digits = exp_digits + 1;
                            proof {
                                lemma_latin1_push(s, 0, i);
                                lemma_scan_bounds(s, i + 1);
                                i = i + 1;
                            }
                        } else {
                            break;
                        }
                    },
                    None => {
                        break;
                    },
                }
            }
            has_dot = true;
        }
        let ghost step = number_token(s);
        assert(number_scan(s) == Some((i, has_dot, mant_digits >= 1 && (!has_exp || exp_digits >= 1))));
        assert(step_len(step) == i);
        if has_dot {
            let accepted = mant_digits >= 1 && (!has_exp || exp_digits >= 1);
            let number_str = chars_to_string(&text);
            if accepted {
                assert(number_str@ == latin1(s.subrange(0, i)));
                assert(step == LexStep::Tok(TokenView::Real(latin1(s.subrange(0, i))), i, i < s.len()));
                Ok(Token::Real(number_str))
            } else {
                let mut message = String::from_str("Invalid real number: '");
                message.append(number_str.as_str());
                message.append("'");
                Err(ParseError::SyntaxError { position: self.position, message })
            }
        } else {
            let start: usize = if signed { 1 } else { 0 };
            let negative = signed && c0 == Some(0x2Du8);
            let max: u64 = if negative { 0x8000_0000_0000_0000 } else { 0x7FFF_FFFF_FFFF_FFFF };
            proof {
                lemma_mantissa_digits(s, j, false);
                assert(text@.subrange(start as int, text@.len() as int) =~= latin1(s.subrange(0, i).skip(j)));
            }
            let ghost t = s.subrange(0, i);
            let ghost d = latin1(t.skip(sign_len(t, 0)));
            assert(sign_len(t, 0) == j);
            assert(d =~= text@.subrange(start as int, text@.len() as int));
            assert(d.len() > 0 ==> d[0] != '+');
            proof {
                if d.len() > 0 && all_digits(d) {
                    crate::lexical::lemma_digits_prefix(d, 0);
                    assert(d.take(0) =~= Seq::<char>::empty());
                }
            }
            assert(crate::lexical::parse_uint_spec(d, max as nat) == (if d.len() > 0 && all_digits(d) && digits_value(d) <= max { Some(digits_value(d) as nat) } else { None }));
            match crate::lexical::parse_uint_chars(&text, start, text.len(), max) {
                Some(v) => {
                    assert(negative == (j == 1 && t[0] == 0x2D));
                    assert(v as int == digits_value(d));
                    assert(d.len() > 0 && all_digits(d));
                    let value: i64 = if negative {
                        if v == 0x8000_0000_0000_0000 {
                            i64::MIN
                        } else {
                            -(v as i64)
                        }
                    } else {
                        v as i64
                    };
                    assert(i64_parse(t) == Some(value));
                    Ok(Token::Integer(value))
                },
                None => {
                    let number_str = chars_to_string(&text);
                    let mut message = String::from_str("Invalid integer: '");
                    message.append(number_str.as_str());
                    message.append("'");
                    Err(ParseError::SyntaxError { position: self.position, message })
                },
            }
        }
    }


    /// Get the next token: a pushed-back token first, else the token after
    /// the whitespace.
    pub fn next_token(&mut self) -> (r: ParseResult<Token>)
        requires
            old(self).wf(),
        ensures
            old(self).pushed().len() > 0 ==> r == Ok::<Token, ParseError>(old(self).pushed().last())
                && final(self).wf() && final(self).pushed() == old(self).pushed().drop_last()
                && final(self).data() == old(self).data() && final(self).reader_offset() == old(
                self).reader_offset() && final(self).peeked() == old(self).peeked() && final(
                self).pos() == old(self).pos(),
            old(self).pushed().len() == 0 ==> lex_outcome(r, lex_spec(old(self).avail()), old(
                self).pos()) && final(self).advanced(
                *old(self),
                step_len(lex_spec(old(self).avail())),
                step_peeked(lex_spec(old(self).avail())),
            ),
    {
        if self.token_buffer.len() > 0 {
            let token = self.token_buffer.pop().unwrap();
            return Ok(token);
        }
        let ghost base = *self;
        let ghost s = self.avail();
        let _ = self.skip_whitespace();
        let ghost i = ws_end(s, 0);
        let ghost mid = *self;
        let ch = match self.peek_char() {
            Some(ch) => ch,
            None => {
                proof {
                    Self::lemma_moved_trans(base, mid, *self, i, 0);
                    assert(s.skip(i).len() == 0);
                }
                return Ok(Token::Eof);
            },
        };
        let ghost mid2 = *self;
        proof {
            Self::lemma_moved_trans(base, mid, mid2, i, 0);
            assert(mid2.avail() == s.skip(i));
        }
        let r = if ch == 0x25 {
            let r = self.read_comment();
            assert(lex_outcome(r, token_spec(mid2.avail()), mid2.pos()));
            r
        } else if ch == 0x2F {
            let r = self.read_name();
            assert(lex_outcome(r, token_spec(mid2.avail()), mid2.pos()));
            r
        } else if ch == 0x28 {
            let r = self.read_literal_string();
            assert(lex_outcome(r, token_spec(mid2.avail()), mid2.pos()));
            r
        } else if ch == 0x3C {
            let r = self.read_angle_bracket();
            assert(lex_outcome(r, token_spec(mid2.avail()), mid2.pos()));
            r
        } else if ch == 0x3E {
            self.consume_from(Ghost(mid2), Ghost(0));
            if self.peek_from(Ghost(mid2), Ghost(1)) == Some(0x3Eu8) {
                self.consume_from(Ghost(mid2), Ghost(1));
                Ok(Token::DictEnd)
            } else {
                Err(ParseError::SyntaxError {
                    position: self.position,
                    message: String::from_str("Expected '>' after '>'"),
                })
            }
        } else if ch == 0x5B {
            self.consume_from(Ghost(mid2), Ghost(0));
            Ok(Token::ArrayStart)
        } else if ch == 0x5D {
            self.consume_from(Ghost(mid2), Ghost(0));
            Ok(Token::ArrayEnd)
        } else if ch == 0x74 || ch == 0x66 {
            let r = self.read_boolean();
            assert(lex_outcome(r, token_spec(mid2.avail()), mid2.pos()));
            r
        } else if ch == 0x6E {
            let r = self.read_null();
            assert(lex_outcome(r, token_spec(mid2.avail()), mid2.pos()));
            r
        } else if ch == 0x2B || ch == 0x2D || (0x30 <= ch && ch <= 0x39) || ch == 0x2E {
            let r = self.read_number();
            assert(lex_outcome(r, token_spec(mid2.avail()), mid2.pos()));
            r
        } else if ch == 0x52 {
            self.consume_from(Ghost(mid2), Ghost(0));
            let name = String::from_str("R");
            proof {
                reveal_strlit("R");
                assert(name@ =~= seq!['R']);
            }
            Ok(Token::Name(name))
        } else if (0x41 <= ch && ch <= 0x5A) || (0x61 <= ch && ch <= 0x7A) {
            let r = self.read_keyword();
            assert(lex_outcome(r, token_spec(mid2.avail()), mid2.pos()));
            r
        } else {
            let mut message = String::from_str("Unexpected character: ");
            crate::encoding::push_char(&mut message, crate::filters::byte_char(ch));
            assert(message@ =~= "Unexpected character: "@ + seq![ch as char]);
            Err(ParseError::SyntaxError { position: self.position, message })
        };
        proof {
            reveal_strlit("R");
            let t = s.skip(i);
            let step = token_spec(t);
            assert(lex_outcome(r, step, mid2.pos()));
            assert(self.advanced(mid2, step_len(step), step_peeked(step)));
            Self::lemma_moved_trans(base, mid2, *self, i, step_len(step));
        }
        r
    }


    /// Expect a specific keyword token.
    pub fn expect_keyword(&mut self, keyword: &str) -> (r: ParseResult<()>)
        requires
            old(self).wf(),
        ensures
            old(self).pushed().len() > 0 ==> expect_outcome(r, keyword@, token_view(old(self).pushed().last()))
                && final(self).wf() && final(self).pushed() == old(self).pushed().drop_last()
                && final(self).data() == old(self).data() && final(self).reader_offset() == old(
                self).reader_offset() && final(self).peeked() == old(self).peeked() && final(
                self).pos() == old(self).pos(),
            old(self).pushed().len() == 0 ==> final(self).advanced(
                *old(self),
                step_len(lex_spec(old(self).avail())),
                step_peeked(lex_spec(old(self).avail())),
            ) && match lex_spec(old(self).avail()) {
                LexStep::Tok(t, _, _) => expect_outcome(r, keyword@, t),
                LexStep::Fail(k, m, _) => r matches Err(ParseError::SyntaxError { position, message })
                    && position == old(self).pos() + k && message@ == m,
            },
    {
        let token = match self.next_token() {
            Ok(t) => t,
            Err(e) => {
                return Err(e);
            },
        };
        let matched = match &token {
            Token::EndStream => crate::text::str_eq(keyword, "endstream"),
            Token::Stream => crate::text::str_eq(keyword, "stream"),
            Token::EndObj => crate::text::str_eq(keyword, "endobj"),
            Token::Obj => crate::text::str_eq(keyword, "obj"),
            Token::StartXRef => crate::text::str_eq(keyword, "startxref"),
            _ => false,
        };
        if matched {
            Ok(())
        } else {
            let mut expected = String::from_str("keyword '");
            expected.append(keyword);
            expected.append("'");
            Err(ParseError::UnexpectedToken { expected, found: token_debug(&token) })
        }
    }

    /// Peek the next token without consuming it: the reader's offset and
    /// taken byte come back, and the count of consumed bytes becomes the
    /// reader's offset. On an error the lexer stays where reading stopped.
    pub fn peek_token(&mut self) -> (r: ParseResult<Token>)
        requires
            old(self).wf(),
        ensures
            final(self).wf(),
            final(self).data() == old(self).data(),
            old(self).pushed().len() > 0 ==> r == Ok::<Token, ParseError>(old(self).pushed().last())
                && final(self).pushed() == old(self).pushed().drop_last(),
            old(self).pushed().len() == 0 ==> lex_outcome(r, lex_spec(old(self).avail()), old(
                self).pos()) && final(self).pushed() == old(self).pushed(),
            r is Ok ==> final(self).reader_offset() == old(self).reader_offset() && final(self).peeked()
                == old(self).peeked() && final(self).pos() == old(self).reader_offset(),
            (r is Err && old(self).pushed().len() == 0) ==> final(self).advanced(
                *old(self),
                step_len(lex_spec(old(self).avail())),
                step_peeked(lex_spec(old(self).avail())),
            ),
    {
        let saved_pos = match self.save_position() {
            Ok(p) => p,
            Err(e) => {
                return Err(e);
            },
        };
        let token = match self.next_token() {
            Ok(t) => t,
            Err(e) => {
                return Err(e);
            },
        };
        match self.restore_position(saved_pos) {
            Ok(()) => {},
            Err(e) => {
                return Err(e);
            },
        }
        Ok(token)
    }

    /// Read exactly `n` bytes from the reader (a taken byte is not among
    /// them and stays taken).
    pub fn read_bytes(&mut self, n: usize) -> (r: ParseResult<Vec<u8>>)
        requires
            old(self).wf(),
        ensures
            (n == 0 || old(self).reader_offset() + n <= old(self).data().len()) ==> (r matches Ok(v)
                && v@ == (if n == 0 {
                Seq::<u8>::empty()
            } else {
                old(self).data().subrange(old(self).reader_offset(), old(self).reader_offset() + n)
            })) && final(self).wf() && final(self).data() == old(self).data() && final(self).reader_offset()
                == old(self).reader_offset() + n && final(self).peeked() == old(self).peeked() && final(self).pos()
                == old(self).pos() + n && final(self).pushed() == old(self).pushed(),
            !(n == 0 || old(self).reader_offset() + n <= old(self).data().len()) ==> (r matches Err(
                ParseError::Io(_),
            )) && *final(self) == *old(self),
    {
        if n == 0 {
            return Ok(Vec::new());
        }
        let len = self.data.len() as u64;
        if self.offset > len || len - self.offset < n as u64 {
            return Err(ParseError::Io(unexpected_eof()));
        }
        let start = self.offset as usize;
        let mut bytes: Vec<u8> = Vec::new();
        crate::text::extend_from_range(&mut bytes, self.data, start, start + n);
        self.offset = self.offset + n as u64;
        self.position = self.position + n;
        Ok(bytes)
    }

    /// Read until a specific byte sequence is found: the bytes before its
    /// first occurrence (the sequence itself is consumed). An error, after
    /// consuming everything, when it is not found.
    pub fn read_until_sequence(&mut self, sequence: &[u8]) -> (r: ParseResult<Vec<u8>>)
        requires
            old(self).wf(),
            sequence@.len() > 0 || old(self).avail().len() == 0,
        ensures
            ({
                let s = old(self).avail();
                match first_end_from(s, sequence@, 1) {
                    Some(e) => r matches Ok(v) && v@ == s.take(e - sequence@.len()) && final(
                        self).advanced(*old(self), e, false),
                    None => if sequence@.len() == 0 {
                        r matches Ok(v) && v@.len() == 0 && final(self).advanced(*old(self), 0, false)
                    } else {
                        r matches Err(ParseError::SyntaxError { position, message }) && position
                            == old(self).pos() + s.len() && message@ == "Sequence "@ + "["@
                            + bytes_list_text(sequence@) + "]"@ + " not found"@ && final(
                            self).advanced(*old(self), s.len() as int, false)
                    },
                }
            }),
    {
        let ghost base = *self;
        let ghost s = self.avail();
        assert(s.skip(0) =~= s);
        let mut result: Vec<u8> = Vec::new();
        let mut found = false;
        let ghost mut i: int = 0;
        let ghost target = first_end_from(s, sequence@, 1);
        loop
            invariant_except_break
                target == first_end_from(s, sequence@, i + 1),
                !found,
            invariant
                s == base.avail(),
                base == *old(self),
                0 <= i <= s.len(),
                sequence@.len() > 0 || s.len() == 0,
                self.moved(base, i),
                result@ == s.take(i),
                target == first_end_from(s, sequence@, 1),
            ensures
                self.advanced(base, i, false),
                result@ == s.take(i),
                found ==> target == Some(i) && i >= sequence@.len(),
                !found ==> target is None && i == s.len(),
            decreases s.len() - i,
        {
            let next = self.consume_from(Ghost(base), Ghost(i));
            let ch = match next {
                Some(c) => c,
                None => {
                    break;
                },
            };
            result.push(ch);
            proof {
                assert(s.take(i + 1) =~= s.take(i).push(ch));
                i = i + 1;
            }
            if ends_with_bytes(&result, sequence) {
                proof {
                    assert(s.take(i).subrange(i - sequence@.len(), i) =~= s.subrange(
                        i - sequence@.len(),
                        i,
                    ));
                }
                found = true;
                break;
            }
            proof {
                if i >= sequence@.len() {
                    assert(s.take(i).subrange(i - sequence@.len(), i) =~= s.subrange(
                        i - sequence@.len(),
                        i,
                    ));
                }
            }
        }
        if !found {
            if sequence.len() == 0 {
                return Ok(result);
            }
            let mut message = String::from_str("Sequence ");
            push_bytes_list(&mut message, sequence);
            message.append(" not found");
            return Err(ParseError::SyntaxError { position: self.position, message });
        }
        let keep = result.len() - sequence.len();
        result.truncate(keep);
        proof {
            assert(result@ =~= s.take(i - sequence@.len()));
        }
        Ok(result)
    }

    /// Find a keyword ahead in the reader without consuming bytes (a taken
    /// byte is not searched): the number of bytes before the first place
    /// where the keyword ends within `max_bytes` bytes.
    pub fn find_keyword_ahead(&mut self, keyword: &str, max_bytes: usize) -> (r: ParseResult<Option<usize>>)
        ensures
            *final(self) == *old(self),
            r matches Ok(o) && match keyword_ahead(old(self).unread(), keyword.spec_bytes(), max_bytes as int, 1) {
                Some(k) => o == Some(k as usize),
                None => o is None,
            },
    {
        let kw = keyword.as_bytes();
        let len = self.data.len();
        let start: usize = if self.offset <= len as u64 { self.offset as usize } else { len };
        let ghost u = self.unread();
        assert(u =~= self.data@.subrange(start as int, len as int));
        let mut bytes_read: usize = 0;
        while bytes_read < max_bytes && bytes_read < len - start
            invariant
                start <= len == self.data@.len(),
                u == self.data@.subrange(start as int, len as int),
                u == old(self).unread(),
                kw@ == keyword.spec_bytes(),
                bytes_read <= max_bytes,
                bytes_read <= len - start,
                keyword_ahead(u, kw@, max_bytes as int, 1) == keyword_ahead(u, kw@, max_bytes as int, bytes_read + 1),
                *self == *old(self),
            decreases len - start - bytes_read,
        {
            bytes_read = bytes_read + 1;
            if bytes_read >= kw.len() {
                let from = start + bytes_read - kw.len();
                let mut k: usize = 0;
                let mut same = true;
                while k < kw.len()
                    invariant
                        start <= len == self.data@.len(),
                        from + kw@.len() <= len,
                        k <= kw@.len(),
                        same == (forall|q: int| 0 <= q < k ==> self.data@[from + q] == kw@[q]),
                    decreases kw.len() - k,
                {
                    if self.data[from + k] != kw[k] {
                        same = false;
                    }
                    k = k + 1;
                }
                let ghost window = u.subrange(bytes_read - kw@.len(), bytes_read as int);
                proof {
                    assert(window =~= self.data@.subrange(from as int, from + kw@.len()));
                    if same {
                        assert(window =~= kw@);
                    } else {
                        let q = choose|q: int| 0 <= q < kw@.len() && self.data@[from + q] != kw@[q];
                        assert(window[q] != kw@[q]);
                    }
                }
                if same {
                    return Ok(Some(bytes_read - kw.len()));
                }
            }
        }
        Ok(None)
    }

    /// Peek ahead up to `n` bytes of the reader without consuming them (a
    /// taken byte is not among them).
    pub fn peek_ahead(&mut self, n: usize) -> (r: ParseResult<Vec<u8>>)
        ensures
            *final(self) == *old(self),
            r matches Ok(v) && v@ == old(self).unread().take(
                if n <= old(self).unread().len() { n as int } else { old(self).unread().len() as int },
            ),
    {
        let len = self.data.len();
        let start: usize = if self.offset <= len as u64 { self.offset as usize } else { len };
        let end: usize = if n <= len - start { start + n } else { len };
        let mut bytes: Vec<u8> = Vec::new();
        crate::text::extend_from_range(&mut bytes, self.data, start, end);
        proof {
            assert(bytes@ =~= self.unread().take(end - start));
        }
        Ok(bytes)
    }


    /// The next byte without consuming it; an `UnexpectedEof` I/O error at
    /// the end.
    pub fn peek_byte(&mut self) -> (r: ParseResult<u8>)
        requires
            old(self).wf(),
        ensures
            final(self).advanced(*old(self), 0, old(self).avail().len() > 0),
            old(self).avail().len() > 0 ==> r == Ok::<u8, ParseError>(old(self).avail()[0]),
            old(self).avail().len() == 0 ==> r matches Err(ParseError::Io(_)),
    {
        match self.peek_char() {
            Some(b) => Ok(b),
            None => Err(ParseError::Io(unexpected_eof())),
        }
    }

    /// Consume the next byte; an `UnexpectedEof` I/O error at the end.
    pub fn read_byte(&mut self) -> (r: ParseResult<u8>)
        requires
            old(self).wf(),
        ensures
            old(self).avail().len() > 0 ==> r == Ok::<u8, ParseError>(old(self).avail()[0])
                && final(self).advanced(*old(self), 1, false),
            old(self).avail().len() == 0 ==> (r matches Err(ParseError::Io(_))) && final(self).advanced(
                *old(self),
                0,
                false,
            ),
    {
        match self.consume_char() {
            Some(b) => Ok(b),
            None => Err(ParseError::Io(unexpected_eof())),
        }
    }

}


proof fn lemma_lex_literal_plain(s: Seq<u8>, i: int, depth: nat, acc: Seq<u8>, k: int)
    requires
        0 <= i,
        0 <= k,
        i + k <= s.len(),
        plain_literal_bytes(s.subrange(i, i + k)),
    ensures
        lex_literal(s, i, depth, false, acc) == lex_literal(s, i + k, depth, false, acc + s.subrange(i, i + k)),
    decreases k,
{
    if k > 0 {
        let ch = s[i];
        assert(s.subrange(i, i + k)[0] == ch);
        assert(plain_literal_bytes(s.subrange(i + 1, i + k))) by {
            assert forall|j: int| 0 <= j < k - 1 implies #[trigger] s.subrange(i + 1, i + k)[j] == s.subrange(
                i,
                i + k,
            )[j + 1] by {}
        }
        lemma_lex_literal_plain(s, i + 1, depth, acc.push(ch), k - 1);
        assert(acc.push(ch) + s.subrange(i + 1, i + k) =~= acc + s.subrange(i, i + k));
    } else {
        assert(acc + s.subrange(i, i) =~= acc);
    }
}

/// In a literal string token, an escape stands for its byte: `( a \c b )`
/// with ordinary `a` and `b` is the string `a`, the byte of the escape,
/// `b`, and the token ends after the `)`.
pub proof fn lemma_lex_literal_escape(a: Seq<u8>, c: u8, e: u8, b: Seq<u8>, rest: Seq<u8>)
    requires
        plain_literal_bytes(a),
        plain_literal_bytes(b),
        literal_escape_pair(c, e),
    ensures
        ({
            let s = seq![0x28u8] + a + seq![0x5Cu8, c] + b + seq![0x29u8] + rest;
            lex_literal(s, 1, 1, false, Seq::empty()) == Ok::<(Seq<u8>, int), int>(
                (a.push(e) + b, a.len() + 4 + b.len() as int),
            )
        }),
{
    let s = seq![0x28u8] + a + seq![0x5Cu8, c] + b + seq![0x29u8] + rest;
    let n = a.len() as int;
    let m = b.len() as int;
    assert(s.subrange(1, 1 + n) =~= a);
    lemma_lex_literal_plain(s, 1, 1, Seq::empty(), n);
    assert(Seq::<u8>::empty() + a =~= a);
    assert(s[n + 1] == 0x5C);
    assert(s[n + 2] == c);
    assert(escaped_byte(c) == e);
    assert(!(0x30 <= c <= 0x37));
    assert(s.subrange(n + 3, n + 3 + m) =~= b);
    lemma_lex_literal_plain(s, n + 3, 1, a.push(e), m);
    assert(s[n + 3 + m] == 0x29);
    assert(lex_literal(s, n + 1, 1, false, a) == lex_literal(s, n + 2, 1, true, a));
    assert(lex_literal(s, n + 2, 1, true, a) == lex_literal(s, n + 3, 1, false, a.push(e)));
}


/// In a literal string, an octal escape stands for the byte of its value:
/// the string `( a \ddd b )` with ordinary `a` and `b` reads as `a`, the
/// byte, then `b`, and ends after the `)`.
pub proof fn lemma_lex_literal_octal(a: Seq<u8>, d: Seq<u8>, b: Seq<u8>, rest: Seq<u8>)
    requires
        plain_literal_bytes(a),
        plain_literal_bytes(b),
        1 <= d.len() <= 3,
        forall|i: int| 0 <= i < d.len() ==> is_octal_digit(#[trigger] d[i]),
        d.len() < 3 && b.len() > 0 ==> !is_octal_digit(b[0]),
    ensures
        ({
            let s = seq![0x28u8] + a + seq![0x5Cu8] + d + b + seq![0x29u8] + rest;
            lex_literal(s, 1, 1, false, Seq::empty()) == Ok::<(Seq<u8>, int), int>(
                (a.push((octal_digits_value(d) % 256) as u8) + b, a.len() + 3 + d.len() + b.len() as int),
            )
        }),
{
    let s = seq![0x28u8] + a + seq![0x5Cu8] + d + b + seq![0x29u8] + rest;
    let n = a.len() as int;
    let k = d.len() as int;
    let m = b.len() as int;
    let v = (octal_digits_value(d) % 256) as u8;
    assert(s.subrange(1, 1 + n) =~= a);
    lemma_lex_literal_plain(s, 1, 1, Seq::empty(), n);
    assert(Seq::<u8>::empty() + a =~= a);
    assert(s[n + 1] == 0x5C);
    assert(s.subrange(n + 2, n + 2 + k) =~= d);
    if m > 0 {
        assert(s[n + 2 + k] == b[0]);
    } else {
        assert(s[n + 2 + k] == 0x29);
    }
    lemma_octal_escape_value(s, n + 2, d);
    assert(s[n + 2] == d[0]);
    assert(is_octal_digit(d[0]));
    assert(s.subrange(n + 2 + k, n + 2 + k + m) =~= b);
    lemma_lex_literal_plain(s, n + 2 + k, 1, a.push(v), m);
    assert(s[n + 2 + k + m] == 0x29);
    assert(lex_literal(s, n + 1, 1, false, a) == lex_literal(s, n + 2, 1, true, a));
    assert(lex_literal(s, n + 2, 1, true, a) == lex_literal(s, n + 2 + k, 1, false, a.push(v)));
}

} // verus!

verus! {

/// What went wrong, as a value: a syntax error's position and message,
/// an unexpected token's expectation and text, a missing key, an I/O
/// error, or a reader that stopped advancing (which no lexer does).
pub enum ErrView {
    Syntax(int, Seq<char>),
    Unexpected(Seq<char>, Seq<char>),
    MissingKey(Seq<char>),
    Io,
    Stall,
}

/// Whether `e` is the error `v` describes.
pub open spec fn error_is(e: ParseError, v: ErrView) -> bool {
    match v {
        ErrView::Syntax(p, m) => e matches ParseError::SyntaxError { position, message } && position == p
            && message@ == m,
        ErrView::Unexpected(x, f) => e matches ParseError::UnexpectedToken { expected, found } && expected@
            == x && found@ == f,
        ErrView::MissingKey(k) => e matches ParseError::MissingKey(key) && key@ == k,
        ErrView::Io => e is Io,
        ErrView::Stall => false,
    }
}

/// Whether `r` is the token result `v` describes.
pub open spec fn token_result(r: ParseResult<Token>, v: Result<TokenView, ErrView>) -> bool {
    match v {
        Ok(t) => r matches Ok(x) && token_view(x) == t,
        Err(e) => r matches Err(x) && error_is(x, e),
    }
}

/// The views of tokens.
pub open spec fn lexer_tokens_view(s: Seq<Token>) -> Seq<TokenView> {
    s.map_values(|t: Token| token_view(t))
}

/// The count of tokens other than the end of the input.
pub open spec fn token_weight(p: Seq<TokenView>) -> nat
    decreases p.len(),
{
    if p.len() == 0 {
        0
    } else {
        token_weight(p.drop_last()) + if p.last() is Eof {
            0nat
        } else {
            1nat
        }
    }
}

/// Pushing a token adds its weight.
pub proof fn lemma_token_weight_push(p: Seq<TokenView>, t: TokenView)
    ensures
        token_weight(p.push(t)) == token_weight(p) + if t is Eof {
            0nat
        } else {
            1nat
        },
        token_weight(p) >= 0,
{
    assert(p.push(t).drop_last() =~= p);
    lemma_token_weight_nonneg(p);
}

/// A weight is never negative.
pub proof fn lemma_token_weight_nonneg(p: Seq<TokenView>)
    ensures
        token_weight(p) >= 0,
    decreases p.len(),
{
    if p.len() > 0 {
        lemma_token_weight_nonneg(p.drop_last());
    }
}

/// A lexer's state as a value: its bytes, the reader's offset, the byte
/// taken from the reader, the count of consumed bytes, and the tokens
/// pushed back (the last one first to come).
pub struct LexState {
    pub data: Seq<u8>,
    pub offset: int,
    pub peeked: Option<u8>,
    pub pos: int,
    pub pushed: Seq<TokenView>,
}

impl LexState {
    /// The bytes from the reader's offset on.
    pub open spec fn unread(self) -> Seq<u8> {
        if self.offset < self.data.len() {
            self.data.skip(self.offset)
        } else {
            Seq::empty()
        }
    }

    /// The bytes still to consume: the taken byte, then the unread ones.
    pub open spec fn avail(self) -> Seq<u8> {
        match self.peeked {
            Some(b) => seq![b] + self.unread(),
            None => self.unread(),
        }
    }

    /// How much is left to read: the bytes, and the pushed-back tokens
    /// other than the end of the input.
    pub open spec fn size(self) -> int {
        (self.avail().len() + token_weight(self.pushed)) as int
    }

    /// The reader's offset less the taken byte.
    pub open spec fn stream_index(self) -> int {
        self.offset - if self.peeked is Some { 1int } else { 0int }
    }

    /// The state after consuming `k` bytes, holding the next byte taken
    /// from the reader exactly when `p`.
    pub open spec fn advance(self, k: int, p: bool) -> LexState {
        LexState {
            data: self.data,
            offset: self.stream_index() + k + if p { 1int } else { 0int },
            peeked: if p { Some(self.avail()[k]) } else { None },
            pos: self.pos + k,
            pushed: self.pushed,
        }
    }

    /// The state with a token pushed back.
    pub open spec fn push(self, t: TokenView) -> LexState {
        LexState { data: self.data, offset: self.offset, peeked: self.peeked, pos: self.pos, pushed: self.pushed.push(t) }
    }

    /// Reading the next token: a pushed-back one, else one lexed from the
    /// bytes.
    pub open spec fn next(self) -> (Result<TokenView, ErrView>, LexState) {
        if self.pushed.len() > 0 {
            (
                Ok(self.pushed.last()),
                LexState {
                    data: self.data,
                    offset: self.offset,
                    peeked: self.peeked,
                    pos: self.pos,
                    pushed: self.pushed.drop_last(),
                },
            )
        } else {
            match lex_spec(self.avail()) {
                LexStep::Tok(t, k, p) => (Ok(t), self.advance(k, p)),
                LexStep::Fail(k, m, p) => (Err(ErrView::Syntax(self.pos + k, m)), self.advance(k, p)),
            }
        }
    }

    /// Reading the next token where the reader has to advance: a token
    /// other than the end of the input leaves less to read. (A lexer
    /// always does; a state that would not is a `Stall`.)
    pub open spec fn step(self) -> (Result<TokenView, ErrView>, LexState) {
        let (r, s1) = self.next();
        match r {
            Ok(t) => if s1.size() < self.size() || (t is Eof && s1.size() <= self.size()) {
                (r, s1)
            } else {
                (Err(ErrView::Stall), s1)
            },
            Err(_) => (r, s1),
        }
    }

    /// Peeking the next token: a pushed-back one is taken; either way the
    /// reader stays where it was and the count of consumed bytes becomes
    /// the reader's offset. A lexing error leaves the reader where it
    /// stopped.
    pub open spec fn peek(self) -> (Result<TokenView, ErrView>, LexState) {
        if self.pushed.len() > 0 {
            (
                Ok(self.pushed.last()),
                LexState {
                    data: self.data,
                    offset: self.offset,
                    peeked: self.peeked,
                    pos: self.offset,
                    pushed: self.pushed.drop_last(),
                },
            )
        } else {
            match lex_spec(self.avail()) {
                LexStep::Tok(t, k, p) => (
                    Ok(t),
                    LexState {
                        data: self.data,
                        offset: self.offset,
                        peeked: self.peeked,
                        pos: self.offset,
                        pushed: self.pushed,
                    },
                ),
                LexStep::Fail(k, m, p) => (Err(ErrView::Syntax(self.pos + k, m)), self.advance(k, p)),
            }
        }
    }

    /// Skipping whitespace.
    pub open spec fn skip_ws(self) -> LexState {
        let k = ws_end(self.avail(), 0);
        self.advance(k, k < self.avail().len())
    }

    /// Reading a newline: CR LF, CR or LF.
    pub open spec fn newline(self) -> (Result<(), ErrView>, LexState) {
        let s = self.avail();
        if s.len() > 0 && s[0] == 0x0D {
            if s.len() > 1 && s[1] == 0x0A {
                (Ok(()), self.advance(2, false))
            } else {
                (Ok(()), self.advance(1, s.len() > 1))
            }
        } else if s.len() > 0 && s[0] == 0x0A {
            (Ok(()), self.advance(1, false))
        } else {
            (Err(ErrView::Syntax(self.pos, "Expected newline"@)), self.advance(0, s.len() > 0))
        }
    }

    /// Reading `n` bytes from the reader (a taken byte stays taken).
    pub open spec fn bytes(self, n: int) -> (Result<Seq<u8>, ErrView>, LexState) {
        if n == 0 {
            (Ok(Seq::empty()), self)
        } else if self.offset + n <= self.data.len() {
            (
                Ok(self.data.subrange(self.offset, self.offset + n)),
                LexState {
                    data: self.data,
                    offset: self.offset + n,
                    peeked: self.peeked,
                    pos: self.pos + n,
                    pushed: self.pushed,
                },
            )
        } else {
            (Err(ErrView::Io), self)
        }
    }

    /// Looking at the next byte.
    pub open spec fn peek_byte(self) -> (Result<u8, ErrView>, LexState) {
        if self.avail().len() > 0 {
            (Ok(self.avail()[0]), self.advance(0, true))
        } else {
            (Err(ErrView::Io), self.advance(0, false))
        }
    }

    /// Consuming the next byte.
    pub open spec fn read_byte(self) -> (Result<u8, ErrView>, LexState) {
        if self.avail().len() > 0 {
            (Ok(self.avail()[0]), self.advance(1, false))
        } else {
            (Err(ErrView::Io), self.advance(0, false))
        }
    }

    /// Going back to a saved reader offset and taken byte; the count of
    /// consumed bytes becomes the offset.
    pub open spec fn restore(self, offset: int, peeked: Option<u8>) -> LexState {
        LexState { data: self.data, offset, peeked, pos: offset, pushed: self.pushed }
    }

    /// Expecting keyword `kw` as the next token.
    pub open spec fn expect(self, kw: Seq<char>) -> (Result<(), ErrView>, LexState) {
        let (r, s1) = self.next();
        match r {
            Ok(t) => if keyword_matches(kw, t) {
                (Ok(()), s1)
            } else {
                (Err(ErrView::Unexpected("keyword '"@ + kw + "'"@, token_debug_spec(t))), s1)
            },
            Err(e) => (Err(e), s1),
        }
    }
}

impl<'a> Lexer<'a> {
    /// The lexer's state as a value.
    pub open spec fn state(&self) -> LexState {
        LexState {
            data: self.data(),
            offset: self.reader_offset(),
            peeked: self.peeked(),
            pos: self.pos(),
            pushed: lexer_tokens_view(self.pushed()),
        }
    }

    /// A well-formed lexer's offset fits the position it can be restored to.
    pub proof fn lemma_wf_offset(&self)
        requires
            self.wf(),
        ensures
            0 <= self.reader_offset() <= usize::MAX,
            0 <= self.pos(),
            self.peeked() is Some ==> self.reader_offset() < usize::MAX,
    {
    }

    /// A lexer that consumed `k` bytes, holding the next byte exactly when
    /// `p`, is in the state `advance` describes.
    pub proof fn lemma_advanced_state(old: Self, new: Self, k: int, p: bool)
        requires
            new.advanced(old, k, p),
        ensures
            new.state() == old.state().advance(k, p),
            new.state().avail() == old.state().avail().skip(k),
            0 <= k <= old.state().avail().len(),
    {
        if p {
            assert(new.avail()[0] == old.avail().skip(k)[0]);
        }
        assert(new.state().pushed =~= old.state().pushed);
    }
}

} // verus!

verus! {

proof fn lemma_name_from_end(s: Seq<u8>, i: int, acc: Seq<char>)
    requires
        0 <= i,
    ensures
        name_from(s, i, acc) matches Ok((_, e)) ==> e >= i,
    decreases s.len() - i,
{
    if i < s.len() && !is_delim(s[i]) {
        if s[i] == 0x23 {
            if i + 2 < s.len() {
                if let Some(v) = name_escape_value(s[i + 1], s[i + 2]) {
                    lemma_name_from_end(s, i + 3, acc.push(v as char));
                }
            }
        } else {
            lemma_name_from_end(s, i + 1, acc.push(s[i] as char));
        }
    }
}

proof fn lemma_lex_literal_end(s: Seq<u8>, i: int, depth: nat, escape: bool, acc: Seq<u8>)
    requires
        0 <= i,
    ensures
        lex_literal(s, i, depth, escape, acc) matches Ok((_, e)) ==> e >= i,
    decreases s.len() - i,
{
    if 0 <= i < s.len() {
        let ch = s[i];
        if escape {
            if 0x30 <= ch <= 0x37 {
                let (v, p) = octal_escape(s, i + 1, 1, (ch - 0x30) as u8);
                lemma_octal_escape(s, i + 1, 1, (ch - 0x30) as u8);
                lemma_lex_literal_end(s, p, depth, false, acc.push(v));
            } else {
                lemma_lex_literal_end(s, i + 1, depth, false, acc.push(escaped_byte(ch)));
            }
        } else if ch == 0x5C {
            lemma_lex_literal_end(s, i + 1, depth, true, acc);
        } else if ch == 0x28 {
            lemma_lex_literal_end(s, i + 1, depth + 1, false, acc.push(ch));
        } else if ch == 0x29 {
            if depth > 1 {
                lemma_lex_literal_end(s, i + 1, (depth - 1) as nat, false, acc.push(ch));
            }
        } else {
            lemma_lex_literal_end(s, i + 1, depth, false, acc.push(ch));
        }
    }
}

proof fn lemma_hex_from_end(s: Seq<u8>, i: int, digits: Seq<u8>)
    requires
        0 <= i,
    ensures
        hex_from(s, i, digits) matches Ok((_, e)) ==> e >= i,
    decreases s.len() - i,
{
    if 0 <= i < s.len() && s[i] != 0x3E {
        if hex_digit_spec(s[i]) is Some {
            lemma_hex_from_end(s, i + 1, digits.push(s[i]));
        } else if is_ws(s[i]) {
            lemma_hex_from_end(s, i + 1, digits);
        }
    }
}

proof fn lemma_mantissa_end_bounds(s: Seq<u8>, i: int, dot: bool)
    requires
        0 <= i,
    ensures
        mantissa_end(s, i, dot).0 >= i,
        i < s.len() && (is_digit(s[i]) || (s[i] == 0x2E && !dot)) ==> mantissa_end(s, i, dot).0 > i,
    decreases s.len() - i,
{
    if 0 <= i < s.len() && is_digit(s[i]) {
        lemma_mantissa_end_bounds(s, i + 1, dot);
    } else if 0 <= i < s.len() && s[i] == 0x2E && !dot {
        lemma_mantissa_end_bounds(s, i + 1, true);
    }
}

proof fn lemma_digits_end_from(s: Seq<u8>, i: int)
    requires
        0 <= i,
    ensures
        digits_end(s, i) >= i,
    decreases s.len() - i,
{
    if 0 <= i < s.len() && is_digit(s[i]) {
        lemma_digits_end_from(s, i + 1);
    }
}

/// Every token but the end of the input consumes at least one byte.
pub proof fn lemma_lex_progress(s: Seq<u8>)
    ensures
        lex_spec(s) matches LexStep::Tok(t, k, _) ==> (t is Eof || k >= 1),
{
    let i = ws_end(s, 0);
    lemma_scan_bounds(s, 0);
    let t = s.skip(i);
    if t.len() > 0 {
        let c = t[0];
        lemma_scan_bounds(t, 1);
        lemma_name_from_end(t, 1, Seq::empty());
        lemma_lex_literal_end(t, 1, 1, false, Seq::empty());
        lemma_hex_from_end(t, 1, Seq::empty());
        let j = sign_len(t, 0);
        lemma_mantissa_end_bounds(t, j, false);
        let m = mantissa_end(t, j, false).0;
        lemma_digits_end_from(t, m + 1 + sign_len(t, m + 1));
    }
}

} // verus!
