//! Content stream tokenizer (ISO 32000-1, 7.8.2): whitespace and comments,
//! literal and hexadecimal strings, names and operators.

use vstd::prelude::*;
use vstd::utf8::{decode_utf8, valid_utf8};
use crate::encoding::utf8_strict_string;
use crate::error::{ParseError, ParseResult};
use crate::filters::hex_digit_spec;
use crate::lexer::{is_digit, latin1, lemma_mantissa_digits, mantissa_end, sign_len};
use crate::lexical::{all_digits, digits_value};
use crate::text::{bytes_to_vec, concat_str, str_eq};

verus! {

/// Whitespace in a content stream: space, tab, CR, LF, form feed.
pub open spec fn is_content_ws(b: u8) -> bool {
    b == 0x20 || b == 0x09 || b == 0x0D || b == 0x0A || b == 0x0C
}

/// Delimiters that end a name or an operator: whitespace and `()<>[]{}/%`.
pub open spec fn is_delimiter(b: u8) -> bool {
    is_content_ws(b) || b == 0x28 || b == 0x29 || b == 0x3C || b == 0x3E || b == 0x5B || b == 0x5D
        || b == 0x7B || b == 0x7D || b == 0x2F || b == 0x25
}

/// Position of the first `\n` at or after `pos`, or the length.
pub open spec fn comment_end(input: Seq<u8>, pos: int) -> int
    decreases input.len() - pos,
{
    if pos < 0 || pos >= input.len() || input[pos] == 0x0A {
        if pos < 0 { 0 } else if pos > input.len() { input.len() as int } else { pos }
    } else {
        comment_end(input, pos + 1)
    }
}

proof fn lemma_comment_end(input: Seq<u8>, pos: int)
    requires
        0 <= pos <= input.len(),
    ensures
        pos <= comment_end(input, pos) <= input.len(),
    decreases input.len() - pos,
{
    if pos < input.len() && input[pos] != 0x0A {
        lemma_comment_end(input, pos + 1);
    }
}

/// Position after whitespace and comments from `pos`.
pub open spec fn skip_ws_spec(input: Seq<u8>, pos: int) -> int
    decreases input.len() - pos,
{
    if pos < 0 || pos >= input.len() {
        pos
    } else if is_content_ws(input[pos]) {
        skip_ws_spec(input, pos + 1)
    } else if input[pos] == 0x25 {
        let e = comment_end(input, pos + 1);
        if pos < e <= input.len() {
            skip_ws_spec(input, e)
        } else {
            pos
        }
    } else {
        pos
    }
}

/// Skipping whitespace and comments stays within the input.
pub proof fn lemma_skip_ws(input: Seq<u8>, pos: int)
    requires
        0 <= pos <= input.len(),
    ensures
        pos <= skip_ws_spec(input, pos) <= input.len(),
    decreases input.len() - pos,
{
    if pos < input.len() {
        if is_content_ws(input[pos]) {
            lemma_skip_ws(input, pos + 1);
        } else if input[pos] == 0x25 {
            lemma_comment_end(input, pos + 1);
            let e = comment_end(input, pos + 1);
            if pos < e <= input.len() {
                lemma_skip_ws(input, e);
            }
        }
    }
}

/// Up to three octal digits from `pos`: their value, low 8 bits kept, and
/// the position after them.
pub open spec fn octal_escape(input: Seq<u8>, pos: int, count: int, value: u8) -> (u8, int)
    decreases 3 - count,
{
    if count >= 3 || pos < 0 || pos >= input.len() || !(0x30 <= input[pos] <= 0x37) {
        (value, pos)
    } else {
        octal_escape(input, pos + 1, count + 1, ((value * 8 + (input[pos] - 0x30)) % 256) as u8)
    }
}

/// The byte an escape character stands for in a literal string.
pub open spec fn escaped_byte(ch: u8) -> u8 {
    if ch == 0x6E {
        0x0A
    } else if ch == 0x72 {
        0x0D
    } else if ch == 0x74 {
        0x09
    } else if ch == 0x62 {
        0x08
    } else if ch == 0x66 {
        0x0C
    } else {
        ch
    }
}

/// A literal string read from `pos` (after its opening parenthesis) with
/// `depth` parentheses open: its bytes appended to `acc` and the position
/// after it; the string ends at the balancing `)` or the end of the input.
pub open spec fn literal_from(input: Seq<u8>, pos: int, depth: nat, escape: bool, acc: Seq<u8>) -> (Seq<u8>, int)
    decreases input.len() - pos,
{
    if pos < 0 || pos >= input.len() || depth == 0 {
        (acc, pos)
    } else {
        let ch = input[pos];
        if escape {
            if 0x30 <= ch <= 0x37 {
                let (v, p) = octal_escape(input, pos, 0, 0);
                proof {
                    lemma_octal_escape(input, pos, 0, 0);
                }
                if pos < p <= input.len() {
                    literal_from(input, p, depth, false, acc.push(v))
                } else {
                    (acc, pos)
                }
            } else {
                literal_from(input, pos + 1, depth, false, acc.push(escaped_byte(ch)))
            }
        } else if ch == 0x5C {
            literal_from(input, pos + 1, depth, true, acc)
        } else if ch == 0x28 {
            literal_from(input, pos + 1, depth + 1, false, acc.push(ch))
        } else if ch == 0x29 {
            literal_from(
                input,
                pos + 1,
                (depth - 1) as nat,
                false,
                if depth > 1 { acc.push(ch) } else { acc },
            )
        } else {
            literal_from(input, pos + 1, depth, false, acc.push(ch))
        }
    }
}

pub proof fn lemma_octal_escape(input: Seq<u8>, pos: int, count: int, value: u8)
    requires
        0 <= pos <= input.len(),
        0 <= count <= 3,
    ensures
        pos <= octal_escape(input, pos, count, value).1 <= input.len(),
        pos < input.len() && count < 3 && 0x30 <= input[pos] <= 0x37 ==> octal_escape(
            input,
            pos,
            count,
            value,
        ).1 > pos,
    decreases 3 - count,
{
    if count < 3 && pos < input.len() && 0x30 <= input[pos] <= 0x37 {
        lemma_octal_escape(input, pos + 1, count + 1, ((value * 8 + (input[pos] - 0x30)) % 256) as u8);
    }
}

/// Whether a byte is an octal digit `0`..`7`.
pub open spec fn is_octal_digit(c: u8) -> bool {
    0x30 <= c <= 0x37
}

/// The number written by one to three octal digits.
pub open spec fn octal_digits_value(d: Seq<u8>) -> int {
    if d.len() == 1 {
        d[0] - 0x30
    } else if d.len() == 2 {
        8 * (d[0] - 0x30) + (d[1] - 0x30)
    } else {
        64 * (d[0] - 0x30) + 8 * (d[1] - 0x30) + (d[2] - 0x30)
    }
}

/// Whether `d` is a whole octal escape at `pos` of `input`: one to three
/// octal digits, not followed by another octal digit unless there are
/// three already.
pub open spec fn octal_escape_at(input: Seq<u8>, pos: int, d: Seq<u8>) -> bool {
    &&& 1 <= d.len() <= 3
    &&& 0 <= pos
    &&& pos + d.len() <= input.len()
    &&& input.subrange(pos, pos + d.len()) == d
    &&& forall|i: int| 0 <= i < d.len() ==> is_octal_digit(#[trigger] d[i])
    &&& d.len() < 3 && pos + d.len() < input.len() ==> !is_octal_digit(input[pos + d.len()])
}

/// An octal escape of one to three digits stands for the byte of their
/// value, low eight bits kept, and ends after its digits; read from its
/// first digit, or from the second with the first digit's value in hand.
pub proof fn lemma_octal_escape_value(input: Seq<u8>, pos: int, d: Seq<u8>)
    requires
        octal_escape_at(input, pos, d),
    ensures
        octal_escape(input, pos, 0, 0) == ((octal_digits_value(d) % 256) as u8, pos + d.len()),
        octal_escape(input, pos + 1, 1, (d[0] - 0x30) as u8) == ((octal_digits_value(d) % 256) as u8, pos + d.len()),
{
    let n = d.len() as int;
    assert(input[pos] == d[0]);
    assert(is_octal_digit(d[0]));
    let v0 = (d[0] - 0x30) as u8;
    assert(((0u8 * 8 + (input[pos] - 0x30)) % 256) as u8 == v0);
    assert(octal_escape(input, pos, 0, 0) == octal_escape(input, pos + 1, 1, v0));
    if n == 1 {
        assert(octal_escape(input, pos + 1, 1, v0) == (v0, pos + 1));
    } else {
        assert(input[pos + 1] == d[1]);
        assert(is_octal_digit(d[1]));
        let v1 = ((v0 * 8 + (input[pos + 1] - 0x30)) % 256) as u8;
        assert(v1 == 8 * (d[0] - 0x30) + (d[1] - 0x30));
        assert(octal_escape(input, pos + 1, 1, v0) == octal_escape(input, pos + 2, 2, v1));
        if n == 2 {
            assert(octal_escape(input, pos + 2, 2, v1) == (v1, pos + 2));
        } else {
            assert(input[pos + 2] == d[2]);
            assert(is_octal_digit(d[2]));
            let v2 = ((v1 * 8 + (input[pos + 2] - 0x30)) % 256) as u8;
            assert(v2 == (octal_digits_value(d) % 256) as u8);
            assert(octal_escape(input, pos + 2, 2, v1) == octal_escape(input, pos + 3, 3, v2));
            assert(octal_escape(input, pos + 3, 3, v2) == (v2, pos + 3));
        }
    }
}

/// In a literal string, an octal escape stands for the byte of its value:
/// the string `a \ddd b )` with ordinary `a` and `b` reads as `a`, the
/// byte, then `b`, and ends after the `)`.
pub proof fn lemma_literal_octal(a: Seq<u8>, d: Seq<u8>, b: Seq<u8>, rest: Seq<u8>)
    requires
        plain_literal_bytes(a),
        plain_literal_bytes(b),
        1 <= d.len() <= 3,
        forall|i: int| 0 <= i < d.len() ==> is_octal_digit(#[trigger] d[i]),
        d.len() < 3 && b.len() > 0 ==> !is_octal_digit(b[0]),
    ensures
        ({
            let input = a + seq![0x5Cu8] + d + b + seq![0x29u8] + rest;
            literal_from(input, 0, 1, false, Seq::empty()) == (
                a.push((octal_digits_value(d) % 256) as u8) + b,
                a.len() + 2 + d.len() + b.len() as int,
            )
        }),
{
    let input = a + seq![0x5Cu8] + d + b + seq![0x29u8] + rest;
    let n = a.len() as int;
    let k = d.len() as int;
    let m = b.len() as int;
    let v = (octal_digits_value(d) % 256) as u8;
    assert(input.subrange(0, n) =~= a);
    lemma_literal_plain(input, 0, 1, Seq::empty(), n);
    assert(Seq::<u8>::empty() + a =~= a);
    assert(input[n] == 0x5C);
    assert(input.subrange(n + 1, n + 1 + k) =~= d);
    if m > 0 {
        assert(input[n + 1 + k] == b[0]);
    } else {
        assert(input[n + 1 + k] == 0x29);
    }
    lemma_octal_escape_value(input, n + 1, d);
    assert(input[n + 1] == d[0]);
    assert(input.subrange(n + 1 + k, n + 1 + k + m) =~= b);
    lemma_literal_plain(input, n + 1 + k, 1, a.push(v), m);
    assert(input[n + 1 + k + m] == 0x29);
    assert(literal_from(input, n, 1, false, a) == literal_from(input, n + 1, 1, true, a));
    assert(literal_from(input, n + 1, 1, true, a) == literal_from(input, n + 1 + k, 1, false, a.push(v)));
    assert(literal_from(input, n + 1 + k + m, 1, false, a.push(v) + b) == literal_from(
        input,
        n + 2 + k + m,
        0,
        false,
        a.push(v) + b,
    ));
}

/// Where a name or operator ends: the first delimiter at or after `pos`;
/// in a name (`in_name`), `#` also takes the two bytes after it when the
/// input has them.
pub open spec fn token_end(input: Seq<u8>, pos: int, in_name: bool) -> int
    decreases input.len() - pos,
{
    if pos < 0 || pos >= input.len() || is_delimiter(input[pos]) {
        pos
    } else if in_name && input[pos] == 0x23 {
        if pos + 2 < input.len() {
            token_end(input, pos + 3, in_name)
        } else {
            token_end(input, pos + 1, in_name)
        }
    } else {
        token_end(input, pos + 1, in_name)
    }
}

proof fn lemma_token_end(input: Seq<u8>, pos: int, in_name: bool)
    requires
        0 <= pos <= input.len(),
    ensures
        pos <= token_end(input, pos, in_name) <= input.len(),
    decreases input.len() - pos,
{
    if pos < input.len() && !is_delimiter(input[pos]) {
        if in_name && input[pos] == 0x23 && pos + 2 < input.len() {
            lemma_token_end(input, pos + 3, in_name);
        } else {
            lemma_token_end(input, pos + 1, in_name);
        }
    }
}

/// The value of the two bytes after a `#` in a name, as `u8::from_str_radix`
/// with radix 16 reads them: two hex digits, or `+` and one hex digit.
pub open spec fn name_escape_value(a: u8, b: u8) -> Option<u8> {
    match (hex_digit_spec(a), hex_digit_spec(b)) {
        (Some(h), Some(l)) => Some((h * 16 + l) as u8),
        (None, Some(l)) => if a == 0x2B { Some(l) } else { None },
        _ => None,
    }
}

/// The bytes of a name with its `#xx` escapes decoded, from index `i`;
/// `None` for an invalid escape.
pub open spec fn decode_name_from(bytes: Seq<u8>, i: int, acc: Seq<u8>) -> Option<Seq<u8>>
    decreases bytes.len() - i,
{
    if i < 0 || i >= bytes.len() {
        Some(acc)
    } else if bytes[i] == 0x23 && i + 2 < bytes.len() {
        match name_escape_value(bytes[i + 1], bytes[i + 2]) {
            None => None,
            Some(v) => decode_name_from(bytes, i + 3, acc.push(v)),
        }
    } else {
        decode_name_from(bytes, i + 1, acc.push(bytes[i]))
    }
}

/// Hex string digits from `pos` (after the opening `<`) appended to `acc`,
/// with a pending high nibble: `Ok` with the bytes and the position after
/// `>`, or `Err` with the position of an invalid byte or of the end.
pub open spec fn hex_string_from(input: Seq<u8>, pos: int, nibble: Option<u8>, acc: Seq<u8>) -> Result<
    (Seq<u8>, int),
    (int, Option<u8>),
>
    decreases input.len() - pos,
{
    if pos < 0 || pos >= input.len() {
        Err((pos, None))
    } else {
        let ch = input[pos];
        if ch == 0x3E {
            Ok((
                match nibble {
                    Some(n) => acc.push((n * 16) as u8),
                    None => acc,
                },
                pos + 1,
            ))
        } else if hex_digit_spec(ch) is Some {
            let d = hex_digit_spec(ch).unwrap();
            match nibble {
                Some(n) => hex_string_from(input, pos + 1, None, acc.push((n * 16 + d) as u8)),
                None => hex_string_from(input, pos + 1, Some(d), acc),
            }
        } else if is_content_ws(ch) {
            hex_string_from(input, pos + 1, nibble, acc)
        } else {
            Err((pos, Some(ch)))
        }
    }
}

/// Token types in content streams; a real number is kept as the text it
/// was written with (one `str::parse::<f32>` accepts).
#[derive(Debug, Clone, PartialEq)]
pub enum Token {
    Number(String),
    Integer(i32),
    String(Vec<u8>),
    HexString(Vec<u8>),
    Name(String),
    Operator(String),
    ArrayStart,
    ArrayEnd,
    DictStart,
    DictEnd,
}

/// A content token with its text and bytes as sequences.
pub enum TokenView {
    Number(Seq<char>),
    Integer(i32),
    String(Seq<u8>),
    HexString(Seq<u8>),
    Name(Seq<char>),
    Operator(Seq<char>),
    ArrayStart,
    ArrayEnd,
    DictStart,
    DictEnd,
}

/// The view of a content token.
pub open spec fn token_view(t: Token) -> TokenView {
    match t {
        Token::Number(s) => TokenView::Number(s@),
        Token::Integer(i) => TokenView::Integer(i),
        Token::String(v) => TokenView::String(v@),
        Token::HexString(v) => TokenView::HexString(v@),
        Token::Name(s) => TokenView::Name(s@),
        Token::Operator(s) => TokenView::Operator(s@),
        Token::ArrayStart => TokenView::ArrayStart,
        Token::ArrayEnd => TokenView::ArrayEnd,
        Token::DictStart => TokenView::DictStart,
        Token::DictEnd => TokenView::DictEnd,
    }
}

/// A decimal integer text as `str::parse::<i32>` reads it: an optional
/// sign, then one or more digits whose value is in range.
pub open spec fn i32_parse(t: Seq<u8>) -> Option<i32> {
    let j = sign_len(t, 0);
    let d = latin1(t.skip(j));
    if d.len() > 0 && all_digits(d) {
        let v = digits_value(d);
        if j == 1 && t[0] == 0x2D {
            if v <= 0x8000_0000 {
                Some((-v) as i32)
            } else {
                None
            }
        } else if v <= 0x7FFF_FFFF {
            Some(v as i32)
        } else {
            None
        }
    } else {
        None
    }
}

/// A number at `p`: the token or the error message, and the position
/// after its text (an optional sign, digits and at most one dot). With a
/// dot it is real, accepted when it has a digit; else an `i32`.
pub open spec fn content_number(input: Seq<u8>, p: int) -> (Result<TokenView, Seq<char>>, int) {
    let j = p + sign_len(input, p);
    let (m, dot) = mantissa_end(input, j, false);
    let text = input.subrange(p, m);
    if dot {
        if m - j - 1 >= 1 {
            (Ok(TokenView::Number(latin1(text))), m)
        } else {
            (Err("Invalid float number"@), m)
        }
    } else {
        match i32_parse(text) {
            Some(v) => (Ok(TokenView::Integer(v)), m),
            None => (Err("Invalid integer number"@), m),
        }
    }
}

/// What reading the next content token gives: the end of the input, a
/// token and the position after it, or an error's position and message.
pub enum ContentStep {
    End,
    Tok(TokenView, int),
    Fail(int, Seq<char>),
}

/// The next token from `pos`, after whitespace and comments.
pub open spec fn content_step(input: Seq<u8>, pos: int) -> ContentStep {
    let p = skip_ws_spec(input, pos);
    if p < 0 || p >= input.len() {
        ContentStep::End
    } else {
        let c = input[p];
        if c == 0x2B || c == 0x2D || c == 0x2E || is_digit(c) {
            match content_number(input, p) {
                (Ok(t), e) => ContentStep::Tok(t, e),
                (Err(m), _) => ContentStep::Fail(p, m),
            }
        } else if c == 0x28 {
            let (v, e) = literal_from(input, p + 1, 1, false, Seq::empty());
            ContentStep::Tok(TokenView::String(v), e)
        } else if c == 0x3C {
            if p + 1 < input.len() && input[p + 1] == 0x3C {
                ContentStep::Tok(TokenView::DictStart, p + 2)
            } else {
                match hex_string_from(input, p + 1, None, Seq::empty()) {
                    Ok((v, e)) => ContentStep::Tok(TokenView::HexString(v), e),
                    Err((q, Some(ch))) => ContentStep::Fail(
                        q,
                        "Invalid character in hex string: "@ + char_debug_text(ch as char),
                    ),
                    Err((q, None)) => ContentStep::Fail(q, "Unterminated hex string"@),
                }
            }
        } else if c == 0x3E {
            if p + 1 < input.len() && input[p + 1] == 0x3E {
                ContentStep::Tok(TokenView::DictEnd, p + 2)
            } else {
                ContentStep::Fail(p, "Unexpected '>'"@)
            }
        } else if c == 0x5B {
            ContentStep::Tok(TokenView::ArrayStart, p + 1)
        } else if c == 0x5D {
            ContentStep::Tok(TokenView::ArrayEnd, p + 1)
        } else if c == 0x2F {
            let e = token_end(input, p + 1, true);
            match decode_name_from(input.subrange(p + 1, e), 0, Seq::empty()) {
                None => ContentStep::Fail(e, "Invalid hex escape in name"@),
                Some(v) => if valid_utf8(v) {
                    ContentStep::Tok(TokenView::Name(decode_utf8(v)), e)
                } else {
                    ContentStep::Fail(e, "Invalid UTF-8 in name"@)
                },
            }
        } else {
            let e = token_end(input, p, false);
            let bytes = input.subrange(p, e);
            if valid_utf8(bytes) {
                ContentStep::Tok(TokenView::Operator(decode_utf8(bytes)), e)
            } else {
                ContentStep::Fail(p, "Invalid operator"@)
            }
        }
    }
}

/// Content stream tokenizer.
pub struct ContentTokenizer<'a> {
    input: &'a [u8],
    position: usize,
}

impl<'a> ContentTokenizer<'a> {
    /// The input being read.
    pub closed spec fn input(&self) -> Seq<u8> {
        self.input@
    }

    /// The position of the next byte.
    pub closed spec fn pos(&self) -> int {
        self.position as int
    }

    /// Create a new tokenizer for the given input.
    pub fn new(input: &'a [u8]) -> (t: Self)
        ensures
            t.input() == input@,
            t.pos() == 0,
    {
        ContentTokenizer { input, position: 0 }
    }

    /// The position of the next byte.
    pub fn position(&self) -> (p: usize)
        ensures
            p == self.pos(),
    {
        self.position
    }

    /// Skip whitespace and comments (a comment runs from `%` to the line end).
    pub fn skip_whitespace(&mut self)
        requires
            old(self).pos() <= old(self).input().len(),
        ensures
            final(self).input() == old(self).input(),
            final(self).pos() == skip_ws_spec(old(self).input(), old(self).pos()),
    {
        while self.position < self.input.len()
            invariant
                self.input@ == old(self).input@,
                self.position <= self.input.len(),
                skip_ws_spec(old(self).input(), old(self).pos()) == skip_ws_spec(self.input@, self.position as int),
            ensures
                skip_ws_spec(old(self).input(), old(self).pos()) == self.position,
            decreases self.input.len() - self.position,
        {
            let b = self.input[self.position];
            if b == 0x20 || b == 0x09 || b == 0x0D || b == 0x0A || b == 0x0C {
                self.position = self.position + 1;
            } else if b == 0x25 {
                let ghost p0 = self.position as int;
                self.position = self.position + 1;
                self.skip_comment();
                proof {
                    lemma_comment_end(self.input@, p0 + 1);
                }
            } else {
                break;
            }
        }
    }

    /// Skip to the end of the line (not past the `\n`).
    pub fn skip_comment(&mut self)
        requires
            old(self).pos() <= old(self).input().len(),
        ensures
            final(self).input() == old(self).input(),
            final(self).pos() == comment_end(old(self).input(), old(self).pos()),
    {
        while self.position < self.input.len() && self.input[self.position] != 0x0A
            invariant
                self.input@ == old(self).input@,
                old(self).position <= self.position <= self.input.len(),
                comment_end(old(self).input(), old(self).pos()) == comment_end(self.input@, self.position as int),
            decreases self.input.len() - self.position,
        {
            self.position = self.position + 1;
        }
    }

    /// The byte after the current one, if any.
    pub fn peek_next(&self) -> (r: Option<u8>)
        ensures
            self.pos() + 1 < self.input().len() ==> r == Some(self.input()[self.pos() + 1]),
            !(self.pos() + 1 < self.input().len()) ==> r is None,
    {
        if self.position < self.input.len() && self.position + 1 < self.input.len() {
            Some(self.input[self.position + 1])
        } else {
            None
        }
    }

    /// Read up to three octal digits; the value keeps its low 8 bits
    /// (overflow is ignored).
    pub fn read_octal_escape(&mut self) -> (r: ParseResult<u8>)
        requires
            old(self).pos() <= old(self).input().len(),
        ensures
            final(self).input() == old(self).input(),
            r matches Ok(v) && (v, final(self).pos()) == octal_escape(old(self).input(), old(self).pos(), 0, 0),
    {
        let mut value: u8 = 0;
        let mut count: usize = 0;
        while count < 3 && self.position < self.input.len()
            invariant
                self.input@ == old(self).input@,
                self.position <= self.input.len(),
                count <= 3,
                octal_escape(old(self).input(), old(self).pos(), 0, 0) == octal_escape(self.input@, self.position as int, count as int, value),
            ensures
                octal_escape(old(self).input(), old(self).pos(), 0, 0) == (value, self.position as int),
            decreases 3 - count,
        {
            let b = self.input[self.position];
            if 0x30 <= b && b <= 0x37 {
                value = ((value as u32 * 8 + (b - 0x30) as u32) % 256) as u8;
                self.position = self.position + 1;
                count = count + 1;
            } else {
                break;
            }
        }
        Ok(value)
    }
}

/// What `format!("{:?}", c)` gives for a character (quoted, escaped).
pub uninterp spec fn char_debug_text(c: char) -> Seq<char>;

/// `format!("{:?}", c)`: the character quoted and escaped as `Debug`
/// writes it. Claimed: the text is `char_debug_text` of the character.
#[verifier::external_body]
fn char_debug(c: char) -> (s: String)
    ensures
        s@ == char_debug_text(c),
{
    format!("{:?}", c)
}

/// The bytes `data[from..to]`.
fn sub_bytes(data: &[u8], from: usize, to: usize) -> (s: &[u8])
    requires
        from <= to <= data.len(),
    ensures
        s@ == data@.subrange(from as int, to as int),
{
    let (head, _) = data.split_at(to);
    let (_, tail) = head.split_at(from);
    assert(tail@ =~= data@.subrange(from as int, to as int));
    tail
}

impl<'a> ContentTokenizer<'a> {
    /// Read a literal string whose `(` is at the current position: escapes
    /// (`\n`, `\r`, `\t`, `\b`, `\f`, `\(`, `\)`, `\\`, octal) are
    /// decoded, balanced parentheses kept; it ends at the balancing `)` or
    /// the end of the input.
    pub fn read_literal_string(&mut self) -> (r: ParseResult<Vec<u8>>)
        requires
            old(self).pos() < old(self).input().len(),
        ensures
            final(self).input() == old(self).input(),
            r matches Ok(v) && (v@, final(self).pos()) == literal_from(
                old(self).input(),
                old(self).pos() + 1,
                1,
                false,
                Seq::empty(),
            ),
    {
        assert(self.input@.len() == self.input.len());
        self.position = self.position + 1;
        let mut result: Vec<u8> = Vec::new();
        let mut paren_depth: usize = 1;
        let mut escape = false;
        let ghost target = literal_from(old(self).input(), old(self).pos() + 1, 1, false, Seq::empty());
        while self.position < self.input.len() && paren_depth > 0
            invariant
                self.input@ == old(self).input@,
                self.position <= self.input.len(),
                paren_depth <= self.position,
                target == literal_from(self.input@, self.position as int, paren_depth as nat, escape, result@),
            ensures
                target == (result@, self.position as int),
            decreases self.input.len() - self.position,
        {
            let ch = self.input[self.position];
            self.position = self.position + 1;
            if escape {
                if 0x30 <= ch && ch <= 0x37 {
                    self.position = self.position - 1;
                    proof {
                        lemma_octal_escape(self.input@, self.position as int, 0, 0);
                    }
                    let octal_value = match self.read_octal_escape() {
                        Ok(v) => v,
                        Err(e) => {
                            return Err(e);
                        },
                    };
                    result.push(octal_value);
                } else {
                    let b = if ch == 0x6E {
                        0x0A
                    } else if ch == 0x72 {
                        0x0D
                    } else if ch == 0x74 {
                        0x09
                    } else if ch == 0x62 {
                        0x08
                    } else if ch == 0x66 {
                        0x0C
                    } else {
                        ch
                    };
                    result.push(b);
                }
                escape = false;
            } else if ch == 0x5C {
                escape = true;
            } else if ch == 0x28 {
                paren_depth = paren_depth + 1;
                result.push(ch);
            } else if ch == 0x29 {
                paren_depth = paren_depth - 1;
                if paren_depth > 0 {
                    result.push(ch);
                }
            } else {
                result.push(ch);
            }
        }
        Ok(result)
    }

    /// Read a hexadecimal string whose `<` is at the current position:
    /// pairs of hex digits give bytes, whitespace is skipped, an odd final
    /// digit is padded with 0, and `>` ends it.
    pub fn read_hex_string(&mut self) -> (r: ParseResult<Vec<u8>>)
        requires
            old(self).pos() < old(self).input().len(),
        ensures
            final(self).input() == old(self).input(),
            match hex_string_from(old(self).input(), old(self).pos() + 1, None, Seq::empty()) {
                Ok((v, p)) => r matches Ok(w) && w@ == v && final(self).pos() == p,
                Err((p, Some(ch))) => r matches Err(ParseError::SyntaxError { position, message })
                    && position == p && message@ == "Invalid character in hex string: "@ + char_debug_text(
                    ch as char,
                ),
                Err((p, None)) => r matches Err(ParseError::SyntaxError { position, message }) && position
                    == p && message@ == "Unterminated hex string"@,
            },
    {
        assert(self.input@.len() == self.input.len());
        self.position = self.position + 1;
        let mut result: Vec<u8> = Vec::new();
        let mut nibble: Option<u8> = None;
        let ghost target = hex_string_from(old(self).input(), old(self).pos() + 1, None, Seq::empty());
        while self.position < self.input.len()
            invariant
                self.input@ == old(self).input@,
                self.position <= self.input.len(),
                nibble matches Some(n) ==> n < 16,
                target == hex_string_from(self.input@, self.position as int, nibble, result@),
                target == hex_string_from(old(self).input(), old(self).pos() + 1, None, Seq::empty()),
            decreases self.input.len() - self.position,
        {
            let ch = self.input[self.position];
            if ch == 0x3E {
                self.position = self.position + 1;
                if let Some(n) = nibble {
                    result.push(n << 4);
                    assert((n << 4u8) == (n * 16) as u8) by (bit_vector)
                        requires
                            n < 16,
                    ;
                }
                return Ok(result);
            }
            match crate::filters::hex_digit_value(ch) {
                Some(digit) => {
                    match nibble {
                        Some(n) => {
                            assert(((n << 4u8) | digit) == (n * 16 + digit) as u8) by (bit_vector)
                                requires
                                    n < 16,
                                    digit < 16,
                            ;
                            result.push((n << 4) | digit);
                            nibble = None;
                        },
                        None => {
                            nibble = Some(digit);
                        },
                    }
                    self.position = self.position + 1;
                },
                None => {
                    if ch == 0x20 || ch == 0x09 || ch == 0x0D || ch == 0x0A || ch == 0x0C {
                        self.position = self.position + 1;
                    } else {
                        let mut msg = String::from_str("Invalid character in hex string: ");
                        let d = char_debug(crate::filters::byte_char(ch));
                        msg.append(d.as_str());
                        return Err(ParseError::SyntaxError { position: self.position, message: msg });
                    }
                },
            }
        }
        Err(ParseError::SyntaxError {
            position: self.position,
            message: String::from_str("Unterminated hex string"),
        })
    }

    /// Decode the `#xx` escapes of a name's bytes; the text must be UTF-8.
    /// Errors carry the current position.
    pub fn decode_name(&self, bytes: &[u8]) -> (r: ParseResult<String>)
        ensures
            match decode_name_from(bytes@, 0, Seq::empty()) {
                None => r matches Err(ParseError::SyntaxError { position, message }) && position
                    == self.pos() && message@ == "Invalid hex escape in name"@,
                Some(v) => if valid_utf8(v) {
                    r matches Ok(s) && s@ == decode_utf8(v)
                } else {
                    r matches Err(ParseError::SyntaxError { position, message }) && position == self.pos()
                        && message@ == "Invalid UTF-8 in name"@
                },
            },
    {
        let mut result: Vec<u8> = Vec::new();
        let mut i: usize = 0;
        let ghost target = decode_name_from(bytes@, 0, Seq::empty());
        while i < bytes.len()
            invariant
                i <= bytes.len(),
                target == decode_name_from(bytes@, i as int, result@),
                target == decode_name_from(bytes@, 0, Seq::empty()),
            decreases bytes.len() - i,
        {
            if bytes[i] == 0x23 && bytes.len() - i > 2 {
                let a = bytes[i + 1];
                let b = bytes[i + 2];
                let value = match (crate::filters::hex_digit_value(a), crate::filters::hex_digit_value(b)) {
                    (Some(h), Some(l)) => {
                        assert((h * 16 + l) < 256);
                        Some(h * 16 + l)
                    },
                    (None, Some(l)) => if a == 0x2B {
                        Some(l)
                    } else {
                        None
                    },
                    _ => None,
                };
                match value {
                    Some(v) => {
                        result.push(v);
                    },
                    None => {
                        return Err(ParseError::SyntaxError {
                            position: self.position,
                            message: String::from_str("Invalid hex escape in name"),
                        });
                    },
                }
                i = i + 3;
            } else {
                result.push(bytes[i]);
                i = i + 1;
            }
        }
        match utf8_strict_string(result.as_slice()) {
            Ok(s) => Ok(s),
            Err(_) => Err(ParseError::SyntaxError {
                position: self.position,
                message: String::from_str("Invalid UTF-8 in name"),
            }),
        }
    }

    /// Read a name whose `/` is at the current position, up to the next
    /// delimiter (a `#` takes the two bytes after it along), and decode it.
    pub fn read_name(&mut self) -> (r: ParseResult<String>)
        requires
            old(self).pos() < old(self).input().len(),
        ensures
            final(self).input() == old(self).input(),
            final(self).pos() == token_end(old(self).input(), old(self).pos() + 1, true),
            ({
                let bytes = old(self).input().subrange(old(self).pos() + 1, final(self).pos());
                match decode_name_from(bytes, 0, Seq::empty()) {
                    None => r matches Err(ParseError::SyntaxError { position, message }) && position
                        == final(self).pos() && message@ == "Invalid hex escape in name"@,
                    Some(v) => if valid_utf8(v) {
                        r matches Ok(s) && s@ == decode_utf8(v)
                    } else {
                        r matches Err(ParseError::SyntaxError { position, message }) && position
                            == final(self).pos() && message@ == "Invalid UTF-8 in name"@
                    },
                }
            }),
    {
        assert(self.input@.len() == self.input.len());
        self.position = self.position + 1;
        let start = self.position;
        let ghost target = token_end(self.input@, start as int, true);
        while self.position < self.input.len()
            invariant
                self.input@ == old(self).input@,
                start <= self.position <= self.input.len(),
                target == token_end(self.input@, self.position as int, true),
            ensures
                start <= self.position <= self.input.len(),
                target == self.position,
            decreases self.input.len() - self.position,
        {
            let ch = self.input[self.position];
            if ch == 0x20 || ch == 0x09 || ch == 0x0D || ch == 0x0A || ch == 0x0C || ch == 0x28 || ch
                == 0x29 || ch == 0x3C || ch == 0x3E || ch == 0x5B || ch == 0x5D || ch == 0x7B || ch
                == 0x7D || ch == 0x2F || ch == 0x25 {
                break;
            } else if ch == 0x23 {
                self.position = self.position + 1;
                if self.input.len() - self.position > 1 {
                    self.position = self.position + 2;
                }
            } else {
                self.position = self.position + 1;
            }
        }
        let name_bytes = sub_bytes(self.input, start, self.position);
        self.decode_name(name_bytes)
    }

    /// Read an operator: the bytes up to the next delimiter, as UTF-8 text.
    pub fn read_operator(&mut self) -> (r: ParseResult<String>)
        requires
            old(self).pos() <= old(self).input().len(),
        ensures
            final(self).input() == old(self).input(),
            final(self).pos() == token_end(old(self).input(), old(self).pos(), false),
            ({
                let bytes = old(self).input().subrange(old(self).pos(), final(self).pos());
                if valid_utf8(bytes) {
                    r matches Ok(s) && s@ == decode_utf8(bytes)
                } else {
                    r matches Err(ParseError::SyntaxError { position, message }) && position == old(
                        self,
                    ).pos() && message@ == "Invalid operator"@
                }
            }),
    {
        let start = self.position;
        let ghost target = token_end(self.input@, start as int, false);
        while self.position < self.input.len()
            invariant
                self.input@ == old(self).input@,
                start <= self.position <= self.input.len(),
                target == token_end(self.input@, self.position as int, false),
            ensures
                start <= self.position <= self.input.len(),
                target == self.position,
            decreases self.input.len() - self.position,
        {
            let ch = self.input[self.position];
            if ch == 0x20 || ch == 0x09 || ch == 0x0D || ch == 0x0A || ch == 0x0C || ch == 0x28 || ch
                == 0x29 || ch == 0x3C || ch == 0x3E || ch == 0x5B || ch == 0x5D || ch == 0x7B || ch
                == 0x7D || ch == 0x2F || ch == 0x25 {
                break;
            }
            self.position = self.position + 1;
        }
        let op_bytes = sub_bytes(self.input, start, self.position);
        match utf8_strict_string(op_bytes) {
            Ok(s) => Ok(s),
            Err(_) => Err(ParseError::SyntaxError { position: start, message: String::from_str("Invalid operator") }),
        }
    }

    /// Read a number (integer or real) at the current position.
    pub fn read_number(&mut self) -> (r: ParseResult<Token>)
        requires
            old(self).pos() < old(self).input().len(),
        ensures
            final(self).input() == old(self).input(),
            final(self).pos() == content_number(old(self).input(), old(self).pos()).1,
            match content_number(old(self).input(), old(self).pos()).0 {
                Ok(t) => r matches Ok(tok) && token_view(tok) == t,
                Err(m) => r matches Err(ParseError::SyntaxError { position, message }) && position
                    == old(self).pos() && message@ == m,
            },
    {
        let ghost input = self.input@;
        let start = self.position;
        let mut has_dot = false;
        let mut text: Vec<char> = Vec::new();
        let mut signed = false;
        if self.input[self.position] == 0x2B || self.input[self.position] == 0x2D {
            text.push(crate::filters::byte_char(self.input[self.position]));
            self.position = self.position + 1;
            signed = true;
        }
        let j = self.position;
        proof {
            lemma_mantissa_digits(input, j as int, false);
            assert(text@ =~= latin1(input.subrange(start as int, j as int)));
        }
        let mut digits: usize = 0;
        while self.position < self.input.len()
            invariant
                self.input@ == input,
                input == old(self).input(),
                start <= j <= self.position <= self.input.len(),
                j == start + sign_len(input, start as int),
                signed == (j == start + 1),
                mantissa_end(input, self.position as int, has_dot) == mantissa_end(input, j as int, false),
                text@ == latin1(input.subrange(start as int, self.position as int)),
                digits == self.position - j - if has_dot { 1int } else { 0int },
            ensures
                (self.position as int, has_dot) == mantissa_end(input, j as int, false),
                text@ == latin1(input.subrange(start as int, self.position as int)),
                digits == self.position - j - if has_dot { 1int } else { 0int },
            decreases self.input.len() - self.position,
        {
            let c = self.input[self.position];
            if 0x30 <= c && c <= 0x39 {
                digits = digits + 1;
            } else if c == 0x2E && !has_dot {
                has_dot = true;
            } else {
                break;
            }
            text.push(crate::filters::byte_char(c));
            proof {
                assert(latin1(input.subrange(start as int, self.position + 1)) =~= latin1(
                    input.subrange(start as int, self.position as int),
                ).push(c as char));
            }
            self.position = self.position + 1;
        }
        if has_dot {
            if digits >= 1 {
                let mut number = String::new();
                let mut k: usize = 0;
                while k < text.len()
                    invariant
                        k <= text.len(),
                        number@ == text@.take(k as int),
                    decreases text.len() - k,
                {
                    crate::encoding::push_char(&mut number, text[k]);
                    assert(text@.take(k + 1) =~= text@.take(k as int).push(text@[k as int]));
                    k = k + 1;
                }
                assert(text@.take(text.len() as int) =~= text@);
                Ok(Token::Number(number))
            } else {
                Err(ParseError::SyntaxError { position: start, message: String::from_str("Invalid float number") })
            }
        } else {
            let from: usize = if signed { 1 } else { 0 };
            let negative = signed && self.input[start] == 0x2D;
            let max: u64 = if negative { 0x8000_0000 } else { 0x7FFF_FFFF };
            let ghost t = input.subrange(start as int, self.position as int);
            let ghost d = latin1(t.skip(sign_len(t, 0)));
            proof {
                lemma_mantissa_digits(input, j as int, false);
                assert(sign_len(t, 0) == from);
                assert(d =~= text@.subrange(from as int, text@.len() as int));
                if d.len() > 0 {
                    assert(is_digit(input[j as int]));
                }
                if d.len() > 0 && all_digits(d) {
                    crate::lexical::lemma_digits_prefix(d, 0);
                    assert(d.take(0) =~= Seq::<char>::empty());
                }
            }
            match crate::lexical::parse_uint_chars(&text, from, text.len(), max) {
                Some(v) => {
                    assert(v as int == digits_value(d));
                    let value: i32 = if negative {
                        if v == 0x8000_0000 {
                            i32::MIN
                        } else {
                            -(v as i32)
                        }
                    } else {
                        v as i32
                    };
                    assert(i32_parse(t) == Some(value));
                    Ok(Token::Integer(value))
                },
                None => Err(ParseError::SyntaxError {
                    position: start,
                    message: String::from_str("Invalid integer number"),
                }),
            }
        }
    }

    /// Get the next token from the stream (`None` at the end).
    pub fn next_token(&mut self) -> (r: ParseResult<Option<Token>>)
        requires
            old(self).pos() <= old(self).input().len(),
        ensures
            final(self).input() == old(self).input(),
            match content_step(old(self).input(), old(self).pos()) {
                ContentStep::End => r matches Ok(None) && final(self).pos() == skip_ws_spec(
                    old(self).input(),
                    old(self).pos(),
                ),
                ContentStep::Tok(t, e) => r matches Ok(Some(tok)) && token_view(tok) == t && final(
                    self).pos() == e,
                ContentStep::Fail(q, m) => r matches Err(ParseError::SyntaxError { position, message })
                    && position == q && message@ == m,
            },
    {
        self.skip_whitespace();
        proof {
            lemma_skip_ws(self.input@, old(self).pos());
        }
        if self.position >= self.input.len() {
            return Ok(None);
        }
        let ch = self.input[self.position];
        if ch == 0x2B || ch == 0x2D || ch == 0x2E || (0x30 <= ch && ch <= 0x39) {
            match self.read_number() {
                Ok(t) => Ok(Some(t)),
                Err(e) => Err(e),
            }
        } else if ch == 0x28 {
            match self.read_literal_string() {
                Ok(v) => Ok(Some(Token::String(v))),
                Err(e) => Err(e),
            }
        } else if ch == 0x3C {
            if self.peek_next() == Some(0x3Cu8) {
                self.position = self.position + 2;
                Ok(Some(Token::DictStart))
            } else {
                match self.read_hex_string() {
                    Ok(v) => Ok(Some(Token::HexString(v))),
                    Err(e) => Err(e),
                }
            }
        } else if ch == 0x3E {
            if self.peek_next() == Some(0x3Eu8) {
                self.position = self.position + 2;
                Ok(Some(Token::DictEnd))
            } else {
                Err(ParseError::SyntaxError { position: self.position, message: String::from_str("Unexpected '>'") })
            }
        } else if ch == 0x5B {
            self.position = self.position + 1;
            Ok(Some(Token::ArrayStart))
        } else if ch == 0x5D {
            self.position = self.position + 1;
            Ok(Some(Token::ArrayEnd))
        } else if ch == 0x2F {
            match self.read_name() {
                Ok(n) => Ok(Some(Token::Name(n))),
                Err(e) => Err(e),
            }
        } else {
            match self.read_operator() {
                Ok(o) => Ok(Some(Token::Operator(o))),
                Err(e) => Err(e),
            }
        }
    }

}


/// Whether bytes are ordinary in a literal string: no parenthesis and no
/// backslash.
pub open spec fn plain_literal_bytes(a: Seq<u8>) -> bool {
    forall|i: int| 0 <= i < a.len() ==> #[trigger] a[i] != 0x28 && a[i] != 0x29 && a[i] != 0x5C
}

/// The escapes of a literal string (ISO 32000-1, table 3): `\n` line feed,
/// `\r` carriage return, `\t` tab, `\b` backspace, `\f` form feed; any
/// other character that is not an octal digit stands for itself.
pub open spec fn literal_escape_pair(c: u8, e: u8) -> bool {
    ||| c == 0x6E && e == 0x0A
    ||| c == 0x72 && e == 0x0D
    ||| c == 0x74 && e == 0x09
    ||| c == 0x62 && e == 0x08
    ||| c == 0x66 && e == 0x0C
    ||| (c != 0x6E && c != 0x72 && c != 0x74 && c != 0x62 && c != 0x66 && !(0x30 <= c <= 0x37) && e == c)
}

proof fn lemma_literal_plain(input: Seq<u8>, pos: int, depth: nat, acc: Seq<u8>, k: int)
    requires
        0 <= pos,
        0 <= k,
        pos + k <= input.len(),
        depth > 0,
        plain_literal_bytes(input.subrange(pos, pos + k)),
    ensures
        literal_from(input, pos, depth, false, acc) == literal_from(
            input,
            pos + k,
            depth,
            false,
            acc + input.subrange(pos, pos + k),
        ),
    decreases k,
{
    if k > 0 {
        let ch = input[pos];
        assert(input.subrange(pos, pos + k)[0] == ch);
        assert(plain_literal_bytes(input.subrange(pos + 1, pos + k))) by {
            assert forall|i: int| 0 <= i < k - 1 implies #[trigger] input.subrange(pos + 1, pos + k)[i]
                == input.subrange(pos, pos + k)[i + 1] by {}
        }
        lemma_literal_plain(input, pos + 1, depth, acc.push(ch), k - 1);
        assert(acc.push(ch) + input.subrange(pos + 1, pos + k) =~= acc + input.subrange(pos, pos + k));
    } else {
        assert(acc + input.subrange(pos, pos) =~= acc);
    }
}

/// In a literal string, an escape stands for its byte: the string
/// `a \c b )` with ordinary `a` and `b` reads as `a`, the byte of the
/// escape, then `b`, and ends after the `)`.
pub proof fn lemma_literal_escape(a: Seq<u8>, c: u8, e: u8, b: Seq<u8>, rest: Seq<u8>)
    requires
        plain_literal_bytes(a),
        plain_literal_bytes(b),
        literal_escape_pair(c, e),
    ensures
        ({
            let input = a + seq![0x5Cu8, c] + b + seq![0x29u8] + rest;
            literal_from(input, 0, 1, false, Seq::empty()) == (a.push(e) + b, a.len() + 3 + b.len() as int)
        }),
{
    let input = a + seq![0x5Cu8, c] + b + seq![0x29u8] + rest;
    let n = a.len() as int;
    let m = b.len() as int;
    assert(input.subrange(0, n) =~= a);
    lemma_literal_plain(input, 0, 1, Seq::empty(), n);
    assert(Seq::<u8>::empty() + a =~= a);
    assert(input[n] == 0x5C);
    assert(input[n + 1] == c);
    assert(escaped_byte(c) == e);
    assert(input.subrange(n + 2, n + 2 + m) =~= b);
    lemma_literal_plain(input, n + 2, 1, a.push(e), m);
    assert(input[n + 2 + m] == 0x29);
    assert(!(0x30 <= c <= 0x37));
    assert(literal_from(input, n, 1, false, a) == literal_from(input, n + 1, 1, true, a));
    assert(literal_from(input, n + 1, 1, true, a) == literal_from(input, n + 2, 1, false, a.push(e)));
    assert(literal_from(input, n + 2 + m, 1, false, a.push(e) + b) == literal_from(
        input,
        n + 3 + m,
        0,
        false,
        a.push(e) + b,
    ));
    assert(literal_from(input, n + 3 + m, 0, false, a.push(e) + b) == (a.push(e) + b, n + 3 + m));
}

} // verus!

verus! {

/// A numeric operand: a real number by the text it was written with (one
/// `str::parse::<f32>` accepts), or an integer.
#[derive(Debug, Clone, PartialEq)]
pub enum ContentNumber {
    Real(String),
    Integer(i32),
}

/// A numeric operand as a mathematical value.
pub enum NumberView {
    Real(Seq<char>),
    Integer(i32),
}

/// The view of a numeric operand.
pub open spec fn number_view(n: ContentNumber) -> NumberView {
    match n {
        ContentNumber::Real(s) => NumberView::Real(s@),
        ContentNumber::Integer(i) => NumberView::Integer(i),
    }
}

/// The views of numeric operands.
pub open spec fn numbers_view(s: Seq<ContentNumber>) -> Seq<NumberView> {
    s.map_values(|n: ContentNumber| number_view(n))
}

/// An element of a `TJ` array: a string, or a spacing adjustment.
#[derive(Debug, Clone, PartialEq)]
pub enum TextElement {
    Text(Vec<u8>),
    Spacing(ContentNumber),
}

/// An element of a `TJ` array as a mathematical value.
pub enum TextElementView {
    Text(Seq<u8>),
    Spacing(NumberView),
}

/// The view of a `TJ` array element.
pub open spec fn text_element_view(e: TextElement) -> TextElementView {
    match e {
        TextElement::Text(v) => TextElementView::Text(v@),
        TextElement::Spacing(n) => TextElementView::Spacing(number_view(n)),
    }
}

/// The views of `TJ` array elements.
pub open spec fn text_elements_view(s: Seq<TextElement>) -> Seq<TextElementView> {
    s.map_values(|e: TextElement| text_element_view(e))
}

/// The views of content tokens.
pub open spec fn tokens_view(s: Seq<Token>) -> Seq<TokenView> {
    s.map_values(|t: Token| token_view(t))
}

} // verus!

verus! {

/// A content stream operation. Numeric operands are `ContentNumber`s:
/// a real number is kept as the text it was written with.
#[derive(Debug, Clone, PartialEq)]
pub enum ContentOperation {
    // BT
    BeginText,
    // ET
    EndText,
    // Tc
    SetCharSpacing(ContentNumber),
    // Tw
    SetWordSpacing(ContentNumber),
    // Tz
    SetHorizontalScaling(ContentNumber),
    // TL
    SetLeading(ContentNumber),
    // Tf
    SetFont(String, ContentNumber),
    // Tr
    SetTextRenderMode(i32),
    // Ts
    SetTextRise(ContentNumber),
    // Td
    MoveText(ContentNumber, ContentNumber),
    // TD
    MoveTextSetLeading(ContentNumber, ContentNumber),
    // Tm
    SetTextMatrix(ContentNumber, ContentNumber, ContentNumber, ContentNumber, ContentNumber, ContentNumber),
    // T*
    NextLine,
    // Tj
    ShowText(Vec<u8>),
    // TJ
    ShowTextArray(Vec<TextElement>),
    // '
    NextLineShowText(Vec<u8>),
    // "
    SetSpacingNextLineShowText(ContentNumber, ContentNumber, Vec<u8>),
    // q
    SaveGraphicsState,
    // Q
    RestoreGraphicsState,
    // cm
    SetTransformMatrix(ContentNumber, ContentNumber, ContentNumber, ContentNumber, ContentNumber, ContentNumber),
    // w
    SetLineWidth(ContentNumber),
    // J
    SetLineCap(i32),
    // j
    SetLineJoin(i32),
    // M
    SetMiterLimit(ContentNumber),
    // d
    SetDashPattern(Vec<ContentNumber>, ContentNumber),
    // ri
    SetIntent(String),
    // i
    SetFlatness(ContentNumber),
    // gs
    SetGraphicsStateParams(String),
    // m
    MoveTo(ContentNumber, ContentNumber),
    // l
    LineTo(ContentNumber, ContentNumber),
    // c
    CurveTo(ContentNumber, ContentNumber, ContentNumber, ContentNumber, ContentNumber, ContentNumber),
    // v
    CurveToV(ContentNumber, ContentNumber, ContentNumber, ContentNumber),
    // y
    CurveToY(ContentNumber, ContentNumber, ContentNumber, ContentNumber),
    // h
    ClosePath,
    // re
    Rectangle(ContentNumber, ContentNumber, ContentNumber, ContentNumber),
    // S
    Stroke,
    // s
    CloseStroke,
    // f / F
    Fill,
    // f*
    FillEvenOdd,
    // B
    FillStroke,
    // B*
    FillStrokeEvenOdd,
    // b
    CloseFillStroke,
    // b*
    CloseFillStrokeEvenOdd,
    // n
    EndPath,
    // W
    Clip,
    // W*
    ClipEvenOdd,
    // CS
    SetStrokingColorSpace(String),
    // cs
    SetNonStrokingColorSpace(String),
    // SC / SCN
    SetStrokingColor(Vec<ContentNumber>),
    // sc / scn
    SetNonStrokingColor(Vec<ContentNumber>),
    // G
    SetStrokingGray(ContentNumber),
    // g
    SetNonStrokingGray(ContentNumber),
    // RG
    SetStrokingRGB(ContentNumber, ContentNumber, ContentNumber),
    // rg
    SetNonStrokingRGB(ContentNumber, ContentNumber, ContentNumber),
    // K
    SetStrokingCMYK(ContentNumber, ContentNumber, ContentNumber, ContentNumber),
    // k
    SetNonStrokingCMYK(ContentNumber, ContentNumber, ContentNumber, ContentNumber),
    // sh
    ShadingFill(String),
    // BI
    BeginInlineImage,
    // ID...EI
    InlineImageData(Vec<u8>),
    // Do
    PaintXObject(String),
    // BMC
    BeginMarkedContent(String),
    // BDC
    BeginMarkedContentWithProps(String, Vec<(String, String)>),
    // EMC
    EndMarkedContent,
    // MP
    DefineMarkedContentPoint(String),
    // DP
    DefineMarkedContentPointWithProps(String, Vec<(String, String)>),
    // BX
    BeginCompatibility,
    // EX
    EndCompatibility,
}

/// A content stream operation with its operands as mathematical values.
pub enum OperationView {
    BeginText,
    EndText,
    SetCharSpacing(NumberView),
    SetWordSpacing(NumberView),
    SetHorizontalScaling(NumberView),
    SetLeading(NumberView),
    SetFont(Seq<char>, NumberView),
    SetTextRenderMode(i32),
    SetTextRise(NumberView),
    MoveText(NumberView, NumberView),
    MoveTextSetLeading(NumberView, NumberView),
    SetTextMatrix(NumberView, NumberView, NumberView, NumberView, NumberView, NumberView),
    NextLine,
    ShowText(Seq<u8>),
    ShowTextArray(Seq<TextElementView>),
    NextLineShowText(Seq<u8>),
    SetSpacingNextLineShowText(NumberView, NumberView, Seq<u8>),
    SaveGraphicsState,
    RestoreGraphicsState,
    SetTransformMatrix(NumberView, NumberView, NumberView, NumberView, NumberView, NumberView),
    SetLineWidth(NumberView),
    SetLineCap(i32),
    SetLineJoin(i32),
    SetMiterLimit(NumberView),
    SetDashPattern(Seq<NumberView>, NumberView),
    SetIntent(Seq<char>),
    SetFlatness(NumberView),
    SetGraphicsStateParams(Seq<char>),
    MoveTo(NumberView, NumberView),
    LineTo(NumberView, NumberView),
    CurveTo(NumberView, NumberView, NumberView, NumberView, NumberView, NumberView),
    CurveToV(NumberView, NumberView, NumberView, NumberView),
    CurveToY(NumberView, NumberView, NumberView, NumberView),
    ClosePath,
    Rectangle(NumberView, NumberView, NumberView, NumberView),
    Stroke,
    CloseStroke,
    Fill,
    FillEvenOdd,
    FillStroke,
    FillStrokeEvenOdd,
    CloseFillStroke,
    CloseFillStrokeEvenOdd,
    EndPath,
    Clip,
    ClipEvenOdd,
    SetStrokingColorSpace(Seq<char>),
    SetNonStrokingColorSpace(Seq<char>),
    SetStrokingColor(Seq<NumberView>),
    SetNonStrokingColor(Seq<NumberView>),
    SetStrokingGray(NumberView),
    SetNonStrokingGray(NumberView),
    SetStrokingRGB(NumberView, NumberView, NumberView),
    SetNonStrokingRGB(NumberView, NumberView, NumberView),
    SetStrokingCMYK(NumberView, NumberView, NumberView, NumberView),
    SetNonStrokingCMYK(NumberView, NumberView, NumberView, NumberView),
    ShadingFill(Seq<char>),
    BeginInlineImage,
    InlineImageData(Seq<u8>),
    PaintXObject(Seq<char>),
    BeginMarkedContent(Seq<char>),
    BeginMarkedContentWithProps(Seq<char>, Seq<(String, String)>),
    EndMarkedContent,
    DefineMarkedContentPoint(Seq<char>),
    DefineMarkedContentPointWithProps(Seq<char>, Seq<(String, String)>),
    BeginCompatibility,
    EndCompatibility,
}

/// The view of an operation.
pub open spec fn operation_view(o: ContentOperation) -> OperationView {
    match o {
        ContentOperation::BeginText => OperationView::BeginText,
        ContentOperation::EndText => OperationView::EndText,
        ContentOperation::SetCharSpacing(spacing) => OperationView::SetCharSpacing(number_view(spacing)),
        ContentOperation::SetWordSpacing(spacing) => OperationView::SetWordSpacing(number_view(spacing)),
        ContentOperation::SetHorizontalScaling(scale) => OperationView::SetHorizontalScaling(number_view(scale)),
        ContentOperation::SetLeading(leading) => OperationView::SetLeading(number_view(leading)),
        ContentOperation::SetFont(font, size) => OperationView::SetFont(font@, number_view(size)),
        ContentOperation::SetTextRenderMode(mode) => OperationView::SetTextRenderMode(mode),
        ContentOperation::SetTextRise(rise) => OperationView::SetTextRise(number_view(rise)),
        ContentOperation::MoveText(tx, ty) => OperationView::MoveText(number_view(tx), number_view(ty)),
        ContentOperation::MoveTextSetLeading(tx, ty) => OperationView::MoveTextSetLeading(number_view(tx), number_view(ty)),
        ContentOperation::SetTextMatrix(a, b, c, d, e, f) => OperationView::SetTextMatrix(number_view(a), number_view(b), number_view(c), number_view(d), number_view(e), number_view(f)),
        ContentOperation::NextLine => OperationView::NextLine,
        ContentOperation::ShowText(text) => OperationView::ShowText(text@),
        ContentOperation::ShowTextArray(elements) => OperationView::ShowTextArray(text_elements_view(elements@)),
        ContentOperation::NextLineShowText(text) => OperationView::NextLineShowText(text@),
        ContentOperation::SetSpacingNextLineShowText(ac, aw, text) => OperationView::SetSpacingNextLineShowText(number_view(ac), number_view(aw), text@),
        ContentOperation::SaveGraphicsState => OperationView::SaveGraphicsState,
        ContentOperation::RestoreGraphicsState => OperationView::RestoreGraphicsState,
        ContentOperation::SetTransformMatrix(a, b, c, d, e, f) => OperationView::SetTransformMatrix(number_view(a), number_view(b), number_view(c), number_view(d), number_view(e), number_view(f)),
        ContentOperation::SetLineWidth(width) => OperationView::SetLineWidth(number_view(width)),
        ContentOperation::SetLineCap(cap) => OperationView::SetLineCap(cap),
        ContentOperation::SetLineJoin(join) => OperationView::SetLineJoin(join),
        ContentOperation::SetMiterLimit(limit) => OperationView::SetMiterLimit(number_view(limit)),
        ContentOperation::SetDashPattern(pattern, phase) => OperationView::SetDashPattern(numbers_view(pattern@), number_view(phase)),
        ContentOperation::SetIntent(intent) => OperationView::SetIntent(intent@),
        ContentOperation::SetFlatness(flatness) => OperationView::SetFlatness(number_view(flatness)),
        ContentOperation::SetGraphicsStateParams(name) => OperationView::SetGraphicsStateParams(name@),
        ContentOperation::MoveTo(x, y) => OperationView::MoveTo(number_view(x), number_view(y)),
        ContentOperation::LineTo(x, y) => OperationView::LineTo(number_view(x), number_view(y)),
        ContentOperation::CurveTo(x1, y1, x2, y2, x3, y3) => OperationView::CurveTo(number_view(x1), number_view(y1), number_view(x2), number_view(y2), number_view(x3), number_view(y3)),
        ContentOperation::CurveToV(x2, y2, x3, y3) => OperationView::CurveToV(number_view(x2), number_view(y2), number_view(x3), number_view(y3)),
        ContentOperation::CurveToY(x1, y1, x3, y3) => OperationView::CurveToY(number_view(x1), number_view(y1), number_view(x3), number_view(y3)),
        ContentOperation::ClosePath => OperationView::ClosePath,
        ContentOperation::Rectangle(x, y, width, height) => OperationView::Rectangle(number_view(x), number_view(y), number_view(width), number_view(height)),
        ContentOperation::Stroke => OperationView::Stroke,
        ContentOperation::CloseStroke => OperationView::CloseStroke,
        ContentOperation::Fill => OperationView::Fill,
        ContentOperation::FillEvenOdd => OperationView::FillEvenOdd,
        ContentOperation::FillStroke => OperationView::FillStroke,
        ContentOperation::FillStrokeEvenOdd => OperationView::FillStrokeEvenOdd,
        ContentOperation::CloseFillStroke => OperationView::CloseFillStroke,
        ContentOperation::CloseFillStrokeEvenOdd => OperationView::CloseFillStrokeEvenOdd,
        ContentOperation::EndPath => OperationView::EndPath,
        ContentOperation::Clip => OperationView::Clip,
        ContentOperation::ClipEvenOdd => OperationView::ClipEvenOdd,
        ContentOperation::SetStrokingColorSpace(name) => OperationView::SetStrokingColorSpace(name@),
        ContentOperation::SetNonStrokingColorSpace(name) => OperationView::SetNonStrokingColorSpace(name@),
        ContentOperation::SetStrokingColor(components) => OperationView::SetStrokingColor(numbers_view(components@)),
        ContentOperation::SetNonStrokingColor(components) => OperationView::SetNonStrokingColor(numbers_view(components@)),
        ContentOperation::SetStrokingGray(gray) => OperationView::SetStrokingGray(number_view(gray)),
        ContentOperation::SetNonStrokingGray(gray) => OperationView::SetNonStrokingGray(number_view(gray)),
        ContentOperation::SetStrokingRGB(r, g, b) => OperationView::SetStrokingRGB(number_view(r), number_view(g), number_view(b)),
        ContentOperation::SetNonStrokingRGB(r, g, b) => OperationView::SetNonStrokingRGB(number_view(r), number_view(g), number_view(b)),
        ContentOperation::SetStrokingCMYK(c, m, y, k) => OperationView::SetStrokingCMYK(number_view(c), number_view(m), number_view(y), number_view(k)),
        ContentOperation::SetNonStrokingCMYK(c, m, y, k) => OperationView::SetNonStrokingCMYK(number_view(c), number_view(m), number_view(y), number_view(k)),
        ContentOperation::ShadingFill(name) => OperationView::ShadingFill(name@),
        ContentOperation::BeginInlineImage => OperationView::BeginInlineImage,
        ContentOperation::InlineImageData(data) => OperationView::InlineImageData(data@),
        ContentOperation::PaintXObject(name) => OperationView::PaintXObject(name@),
        ContentOperation::BeginMarkedContent(tag) => OperationView::BeginMarkedContent(tag@),
        ContentOperation::BeginMarkedContentWithProps(tag, props) => OperationView::BeginMarkedContentWithProps(tag@, props@),
        ContentOperation::EndMarkedContent => OperationView::EndMarkedContent,
        ContentOperation::DefineMarkedContentPoint(tag) => OperationView::DefineMarkedContentPoint(tag@),
        ContentOperation::DefineMarkedContentPointWithProps(tag, props) => OperationView::DefineMarkedContentPointWithProps(tag@, props@),
        ContentOperation::BeginCompatibility => OperationView::BeginCompatibility,
        ContentOperation::EndCompatibility => OperationView::EndCompatibility,
    }
}

/// The operands an operator takes, in the order they are written before
/// it; `None` for an operator this parser does not know (`BI` is read
/// apart: see `run_operations`).
pub open spec fn signature(op: Seq<char>) -> Option<Seq<OperandKind>> {
    if op == "BT"@ {
        Some(Seq::empty())
    } else if op == "ET"@ {
        Some(Seq::empty())
    } else if op == "Tc"@ {
        Some(seq![OperandKind::Number])
    } else if op == "Tw"@ {
        Some(seq![OperandKind::Number])
    } else if op == "Tz"@ {
        Some(seq![OperandKind::Number])
    } else if op == "TL"@ {
        Some(seq![OperandKind::Number])
    } else if op == "Tf"@ {
        Some(seq![OperandKind::Name, OperandKind::Number])
    } else if op == "Tr"@ {
        Some(seq![OperandKind::Integer])
    } else if op == "Ts"@ {
        Some(seq![OperandKind::Number])
    } else if op == "Td"@ {
        Some(seq![OperandKind::Number, OperandKind::Number])
    } else if op == "TD"@ {
        Some(seq![OperandKind::Number, OperandKind::Number])
    } else if op == "Tm"@ {
        Some(seq![OperandKind::Number, OperandKind::Number, OperandKind::Number, OperandKind::Number, OperandKind::Number, OperandKind::Number])
    } else if op == "T*"@ {
        Some(Seq::empty())
    } else if op == "Tj"@ {
        Some(seq![OperandKind::Text])
    } else if op == "TJ"@ {
        Some(seq![OperandKind::Array])
    } else if op == "'"@ {
        Some(seq![OperandKind::Text])
    } else if op == "\""@ {
        Some(seq![OperandKind::Number, OperandKind::Number, OperandKind::Text])
    } else if op == "q"@ {
        Some(Seq::empty())
    } else if op == "Q"@ {
        Some(Seq::empty())
    } else if op == "cm"@ {
        Some(seq![OperandKind::Number, OperandKind::Number, OperandKind::Number, OperandKind::Number, OperandKind::Number, OperandKind::Number])
    } else if op == "w"@ {
        Some(seq![OperandKind::Number])
    } else if op == "J"@ {
        Some(seq![OperandKind::Integer])
    } else if op == "j"@ {
        Some(seq![OperandKind::Integer])
    } else if op == "M"@ {
        Some(seq![OperandKind::Number])
    } else if op == "d"@ {
        Some(seq![OperandKind::Array, OperandKind::Number])
    } else if op == "ri"@ {
        Some(seq![OperandKind::Name])
    } else if op == "i"@ {
        Some(seq![OperandKind::Number])
    } else if op == "gs"@ {
        Some(seq![OperandKind::Name])
    } else if op == "m"@ {
        Some(seq![OperandKind::Number, OperandKind::Number])
    } else if op == "l"@ {
        Some(seq![OperandKind::Number, OperandKind::Number])
    } else if op == "c"@ {
        Some(seq![OperandKind::Number, OperandKind::Number, OperandKind::Number, OperandKind::Number, OperandKind::Number, OperandKind::Number])
    } else if op == "v"@ {
        Some(seq![OperandKind::Number, OperandKind::Number, OperandKind::Number, OperandKind::Number])
    } else if op == "y"@ {
        Some(seq![OperandKind::Number, OperandKind::Number, OperandKind::Number, OperandKind::Number])
    } else if op == "h"@ {
        Some(Seq::empty())
    } else if op == "re"@ {
        Some(seq![OperandKind::Number, OperandKind::Number, OperandKind::Number, OperandKind::Number])
    } else if op == "S"@ {
        Some(Seq::empty())
    } else if op == "s"@ {
        Some(Seq::empty())
    } else if op == "f"@ {
        Some(Seq::empty())
    } else if op == "F"@ {
        Some(Seq::empty())
    } else if op == "f*"@ {
        Some(Seq::empty())
    } else if op == "B"@ {
        Some(Seq::empty())
    } else if op == "B*"@ {
        Some(Seq::empty())
    } else if op == "b"@ {
        Some(Seq::empty())
    } else if op == "b*"@ {
        Some(Seq::empty())
    } else if op == "n"@ {
        Some(Seq::empty())
    } else if op == "W"@ {
        Some(Seq::empty())
    } else if op == "W*"@ {
        Some(Seq::empty())
    } else if op == "CS"@ {
        Some(seq![OperandKind::Name])
    } else if op == "cs"@ {
        Some(seq![OperandKind::Name])
    } else if op == "SC"@ {
        Some(seq![OperandKind::Components])
    } else if op == "SCN"@ {
        Some(seq![OperandKind::Components])
    } else if op == "sc"@ {
        Some(seq![OperandKind::Components])
    } else if op == "scn"@ {
        Some(seq![OperandKind::Components])
    } else if op == "G"@ {
        Some(seq![OperandKind::Number])
    } else if op == "g"@ {
        Some(seq![OperandKind::Number])
    } else if op == "RG"@ {
        Some(seq![OperandKind::Number, OperandKind::Number, OperandKind::Number])
    } else if op == "rg"@ {
        Some(seq![OperandKind::Number, OperandKind::Number, OperandKind::Number])
    } else if op == "K"@ {
        Some(seq![OperandKind::Number, OperandKind::Number, OperandKind::Number, OperandKind::Number])
    } else if op == "k"@ {
        Some(seq![OperandKind::Number, OperandKind::Number, OperandKind::Number, OperandKind::Number])
    } else if op == "sh"@ {
        Some(seq![OperandKind::Name])
    } else if op == "Do"@ {
        Some(seq![OperandKind::Name])
    } else if op == "BMC"@ {
        Some(seq![OperandKind::Name])
    } else if op == "BDC"@ {
        Some(seq![OperandKind::Name, OperandKind::Properties])
    } else if op == "EMC"@ {
        Some(Seq::empty())
    } else if op == "MP"@ {
        Some(seq![OperandKind::Name])
    } else if op == "DP"@ {
        Some(seq![OperandKind::Name, OperandKind::Properties])
    } else if op == "BX"@ {
        Some(Seq::empty())
    } else if op == "EX"@ {
        Some(Seq::empty())
    } else {
        None
    }
}

/// The operation an operator builds from its operands `a` (in written
/// order), or the error of a malformed `TJ` or `d` array.
pub open spec fn build_operation(op: Seq<char>, a: Seq<Operand>) -> Result<OperationView, Seq<char>> {
    if op == "BT"@ {
        Ok(OperationView::BeginText)
    } else if op == "ET"@ {
        Ok(OperationView::EndText)
    } else if op == "Tc"@ {
        Ok(OperationView::SetCharSpacing(arg_number(a[0])))
    } else if op == "Tw"@ {
        Ok(OperationView::SetWordSpacing(arg_number(a[0])))
    } else if op == "Tz"@ {
        Ok(OperationView::SetHorizontalScaling(arg_number(a[0])))
    } else if op == "TL"@ {
        Ok(OperationView::SetLeading(arg_number(a[0])))
    } else if op == "Tf"@ {
        Ok(OperationView::SetFont(arg_name(a[0]), arg_number(a[1])))
    } else if op == "Tr"@ {
        Ok(OperationView::SetTextRenderMode(arg_integer(a[0])))
    } else if op == "Ts"@ {
        Ok(OperationView::SetTextRise(arg_number(a[0])))
    } else if op == "Td"@ {
        Ok(OperationView::MoveText(arg_number(a[0]), arg_number(a[1])))
    } else if op == "TD"@ {
        Ok(OperationView::MoveTextSetLeading(arg_number(a[0]), arg_number(a[1])))
    } else if op == "Tm"@ {
        Ok(OperationView::SetTextMatrix(arg_number(a[0]), arg_number(a[1]), arg_number(a[2]), arg_number(a[3]), arg_number(a[4]), arg_number(a[5])))
    } else if op == "T*"@ {
        Ok(OperationView::NextLine)
    } else if op == "Tj"@ {
        Ok(OperationView::ShowText(arg_text(a[0])))
    } else if op == "TJ"@ {
        match text_array(arg_array(a[0])) {
            Ok(elements) => Ok(OperationView::ShowTextArray(elements)),
            Err(m) => Err(m),
        }
    } else if op == "'"@ {
        Ok(OperationView::NextLineShowText(arg_text(a[0])))
    } else if op == "\""@ {
        Ok(OperationView::SetSpacingNextLineShowText(arg_number(a[0]), arg_number(a[1]), arg_text(a[2])))
    } else if op == "q"@ {
        Ok(OperationView::SaveGraphicsState)
    } else if op == "Q"@ {
        Ok(OperationView::RestoreGraphicsState)
    } else if op == "cm"@ {
        Ok(OperationView::SetTransformMatrix(arg_number(a[0]), arg_number(a[1]), arg_number(a[2]), arg_number(a[3]), arg_number(a[4]), arg_number(a[5])))
    } else if op == "w"@ {
        Ok(OperationView::SetLineWidth(arg_number(a[0])))
    } else if op == "J"@ {
        Ok(OperationView::SetLineCap(arg_integer(a[0])))
    } else if op == "j"@ {
        Ok(OperationView::SetLineJoin(arg_integer(a[0])))
    } else if op == "M"@ {
        Ok(OperationView::SetMiterLimit(arg_number(a[0])))
    } else if op == "d"@ {
        match dash_array(arg_array(a[0])) {
            Ok(pattern) => Ok(OperationView::SetDashPattern(pattern, arg_number(a[1]))),
            Err(m) => Err(m),
        }
    } else if op == "ri"@ {
        Ok(OperationView::SetIntent(arg_name(a[0])))
    } else if op == "i"@ {
        Ok(OperationView::SetFlatness(arg_number(a[0])))
    } else if op == "gs"@ {
        Ok(OperationView::SetGraphicsStateParams(arg_name(a[0])))
    } else if op == "m"@ {
        Ok(OperationView::MoveTo(arg_number(a[0]), arg_number(a[1])))
    } else if op == "l"@ {
        Ok(OperationView::LineTo(arg_number(a[0]), arg_number(a[1])))
    } else if op == "c"@ {
        Ok(OperationView::CurveTo(arg_number(a[0]), arg_number(a[1]), arg_number(a[2]), arg_number(a[3]), arg_number(a[4]), arg_number(a[5])))
    } else if op == "v"@ {
        Ok(OperationView::CurveToV(arg_number(a[0]), arg_number(a[1]), arg_number(a[2]), arg_number(a[3])))
    } else if op == "y"@ {
        Ok(OperationView::CurveToY(arg_number(a[0]), arg_number(a[1]), arg_number(a[2]), arg_number(a[3])))
    } else if op == "h"@ {
        Ok(OperationView::ClosePath)
    } else if op == "re"@ {
        Ok(OperationView::Rectangle(arg_number(a[0]), arg_number(a[1]), arg_number(a[2]), arg_number(a[3])))
    } else if op == "S"@ {
        Ok(OperationView::Stroke)
    } else if op == "s"@ {
        Ok(OperationView::CloseStroke)
    } else if op == "f"@ {
        Ok(OperationView::Fill)
    } else if op == "F"@ {
        Ok(OperationView::Fill)
    } else if op == "f*"@ {
        Ok(OperationView::FillEvenOdd)
    } else if op == "B"@ {
        Ok(OperationView::FillStroke)
    } else if op == "B*"@ {
        Ok(OperationView::FillStrokeEvenOdd)
    } else if op == "b"@ {
        Ok(OperationView::CloseFillStroke)
    } else if op == "b*"@ {
        Ok(OperationView::CloseFillStrokeEvenOdd)
    } else if op == "n"@ {
        Ok(OperationView::EndPath)
    } else if op == "W"@ {
        Ok(OperationView::Clip)
    } else if op == "W*"@ {
        Ok(OperationView::ClipEvenOdd)
    } else if op == "CS"@ {
        Ok(OperationView::SetStrokingColorSpace(arg_name(a[0])))
    } else if op == "cs"@ {
        Ok(OperationView::SetNonStrokingColorSpace(arg_name(a[0])))
    } else if op == "SC"@ {
        Ok(OperationView::SetStrokingColor(arg_components(a[0])))
    } else if op == "SCN"@ {
        Ok(OperationView::SetStrokingColor(arg_components(a[0])))
    } else if op == "sc"@ {
        Ok(OperationView::SetNonStrokingColor(arg_components(a[0])))
    } else if op == "scn"@ {
        Ok(OperationView::SetNonStrokingColor(arg_components(a[0])))
    } else if op == "G"@ {
        Ok(OperationView::SetStrokingGray(arg_number(a[0])))
    } else if op == "g"@ {
        Ok(OperationView::SetNonStrokingGray(arg_number(a[0])))
    } else if op == "RG"@ {
        Ok(OperationView::SetStrokingRGB(arg_number(a[0]), arg_number(a[1]), arg_number(a[2])))
    } else if op == "rg"@ {
        Ok(OperationView::SetNonStrokingRGB(arg_number(a[0]), arg_number(a[1]), arg_number(a[2])))
    } else if op == "K"@ {
        Ok(OperationView::SetStrokingCMYK(arg_number(a[0]), arg_number(a[1]), arg_number(a[2]), arg_number(a[3])))
    } else if op == "k"@ {
        Ok(OperationView::SetNonStrokingCMYK(arg_number(a[0]), arg_number(a[1]), arg_number(a[2]), arg_number(a[3])))
    } else if op == "sh"@ {
        Ok(OperationView::ShadingFill(arg_name(a[0])))
    } else if op == "Do"@ {
        Ok(OperationView::PaintXObject(arg_name(a[0])))
    } else if op == "BMC"@ {
        Ok(OperationView::BeginMarkedContent(arg_name(a[0])))
    } else if op == "BDC"@ {
        Ok(OperationView::BeginMarkedContentWithProps(arg_name(a[0]), Seq::empty()))
    } else if op == "EMC"@ {
        Ok(OperationView::EndMarkedContent)
    } else if op == "MP"@ {
        Ok(OperationView::DefineMarkedContentPoint(arg_name(a[0])))
    } else if op == "DP"@ {
        Ok(OperationView::DefineMarkedContentPointWithProps(arg_name(a[0]), Seq::empty()))
    } else if op == "BX"@ {
        Ok(OperationView::BeginCompatibility)
    } else if op == "EX"@ {
        Ok(OperationView::EndCompatibility)
    } else {
        Err("Unknown operator: "@ + op)
    }
}

} // verus!

verus! {

/// What an operator takes from the operand stack.
pub enum OperandKind {
    /// A number (real or integer)
    Number,
    /// An integer
    Integer,
    /// A name
    Name,
    /// A literal or hexadecimal string
    Text,
    /// The tokens after the last `[` on the stack
    Array,
    /// A property list or name, of which nothing is kept (one token, if any)
    Properties,
    /// The numbers at the top of the stack, however many
    Components,
}

/// An operand taken from the stack.
pub enum Operand {
    Number(NumberView),
    Integer(i32),
    Name(Seq<char>),
    Text(Seq<u8>),
    Array(Seq<TokenView>),
    Properties,
    Components(Seq<NumberView>),
}

/// Whether a token is a number.
pub open spec fn is_numeric(t: TokenView) -> bool {
    t is Number || t is Integer
}

/// A numeric token as a number.
pub open spec fn token_number(t: TokenView) -> NumberView {
    match t {
        TokenView::Number(s) => NumberView::Real(s),
        TokenView::Integer(i) => NumberView::Integer(i),
        _ => NumberView::Integer(0),
    }
}

/// The index of the last `[` among the first `n` tokens, or -1.
pub open spec fn last_array_start(st: Seq<TokenView>, n: int) -> int
    decreases n,
{
    if n <= 0 {
        -1
    } else if st[n - 1] is ArrayStart {
        n - 1
    } else {
        last_array_start(st, n - 1)
    }
}

/// Where the run of numbers that ends at `n` starts.
pub open spec fn numeric_run_start(st: Seq<TokenView>, n: int) -> int
    decreases n,
{
    if n <= 0 {
        0
    } else if is_numeric(st[n - 1]) {
        numeric_run_start(st, n - 1)
    } else {
        n
    }
}

/// Taking one operand of kind `k` from the top of the stack `st`: the
/// operand and the stack left, or the error message.
pub open spec fn pop_operand(k: OperandKind, st: Seq<TokenView>) -> Result<(Operand, Seq<TokenView>), Seq<char>> {
    let n = st.len() as int;
    match k {
        OperandKind::Number => if n > 0 && is_numeric(st[n - 1]) {
            Ok((Operand::Number(token_number(st[n - 1])), st.drop_last()))
        } else {
            Err("Expected number operand"@)
        },
        OperandKind::Integer => if n > 0 && st[n - 1] is Integer {
            Ok((Operand::Integer(st[n - 1]->Integer_0), st.drop_last()))
        } else {
            Err("Expected integer operand"@)
        },
        OperandKind::Name => if n > 0 && st[n - 1] is Name {
            Ok((Operand::Name(st[n - 1]->Name_0), st.drop_last()))
        } else {
            Err("Expected name operand"@)
        },
        OperandKind::Text => if n > 0 && st[n - 1] is String {
            Ok((Operand::Text(st[n - 1]->String_0), st.drop_last()))
        } else if n > 0 && st[n - 1] is HexString {
            Ok((Operand::Text(st[n - 1]->HexString_0), st.drop_last()))
        } else {
            Err("Expected string operand"@)
        },
        OperandKind::Array => {
            let i = last_array_start(st, n);
            if i >= 0 {
                Ok((Operand::Array(st.subrange(i + 1, n)), st.take(i)))
            } else {
                Err("Expected array"@)
            }
        },
        OperandKind::Properties => Ok((Operand::Properties, if n > 0 { st.drop_last() } else { st })),
        OperandKind::Components => {
            let i = numeric_run_start(st, n);
            Ok((Operand::Components(token_numbers(st.subrange(i, n))), st.take(i)))
        },
    }
}

/// Taking the operands of kinds `ks[0..n]` from the stack, the last kind
/// first: the operands in written order, or the first error.
pub open spec fn pop_operands(ks: Seq<OperandKind>, n: int, st: Seq<TokenView>) -> Result<Seq<Operand>, Seq<char>>
    decreases n,
{
    if n <= 0 {
        Ok(Seq::empty())
    } else {
        match pop_operand(ks[n - 1], st) {
            Err(m) => Err(m),
            Ok((a, rest)) => match pop_operands(ks, n - 1, rest) {
                Err(m) => Err(m),
                Ok(args) => Ok(args.push(a)),
            },
        }
    }
}

/// The number an operand holds.
pub open spec fn arg_number(a: Operand) -> NumberView {
    match a {
        Operand::Number(n) => n,
        _ => NumberView::Integer(0),
    }
}

/// The integer an operand holds.
pub open spec fn arg_integer(a: Operand) -> i32 {
    match a {
        Operand::Integer(i) => i,
        _ => 0,
    }
}

/// The name an operand holds.
pub open spec fn arg_name(a: Operand) -> Seq<char> {
    match a {
        Operand::Name(s) => s,
        _ => Seq::empty(),
    }
}

/// The string an operand holds.
pub open spec fn arg_text(a: Operand) -> Seq<u8> {
    match a {
        Operand::Text(s) => s,
        _ => Seq::empty(),
    }
}

/// The tokens of an array operand.
pub open spec fn arg_array(a: Operand) -> Seq<TokenView> {
    match a {
        Operand::Array(s) => s,
        _ => Seq::empty(),
    }
}

/// The numbers of a components operand.
pub open spec fn arg_components(a: Operand) -> Seq<NumberView> {
    match a {
        Operand::Components(s) => s,
        _ => Seq::empty(),
    }
}

/// Whether a token may stand in a `TJ` array: a string or a number.
pub open spec fn text_element_ok(t: TokenView) -> bool {
    t is String || t is HexString || is_numeric(t)
}

/// The `TJ` array element a token stands for.
pub open spec fn text_element_of(t: TokenView) -> TextElementView {
    match t {
        TokenView::String(s) => TextElementView::Text(s),
        TokenView::HexString(s) => TextElementView::Text(s),
        _ => TextElementView::Spacing(token_number(t)),
    }
}

/// The `TJ` array elements tokens stand for.
pub open spec fn text_elements_of(ts: Seq<TokenView>) -> Seq<TextElementView> {
    ts.map_values(|t: TokenView| text_element_of(t))
}

/// The numbers numeric tokens stand for.
pub open spec fn token_numbers(ts: Seq<TokenView>) -> Seq<NumberView> {
    ts.map_values(|t: TokenView| token_number(t))
}

/// The elements of a `TJ` array, or the error when a token is neither a
/// string nor a number.
pub open spec fn text_array(ts: Seq<TokenView>) -> Result<Seq<TextElementView>, Seq<char>> {
    if forall|i: int| 0 <= i < ts.len() ==> text_element_ok(#[trigger] ts[i]) {
        Ok(text_elements_of(ts))
    } else {
        Err("Invalid element in text array"@)
    }
}

/// The numbers of a dash array, or the error when a token is not a number.
pub open spec fn dash_array(ts: Seq<TokenView>) -> Result<Seq<NumberView>, Seq<char>> {
    if forall|i: int| 0 <= i < ts.len() ==> is_numeric(#[trigger] ts[i]) {
        Ok(token_numbers(ts))
    } else {
        Err("Invalid element in dash array"@)
    }
}

/// What an operator (other than `BI`) makes of the operand stack `st`:
/// the operation, or the error message.
pub open spec fn operator_result(op: Seq<char>, st: Seq<TokenView>) -> Result<OperationView, Seq<char>> {
    match signature(op) {
        None => Err("Unknown operator: "@ + op),
        Some(ks) => match pop_operands(ks, ks.len() as int, st) {
            Err(m) => Err(m),
            Ok(args) => build_operation(op, args),
        },
    }
}

/// Where the inline image that starts at `p` ends: after the next `EI`
/// operator, or at the end of the tokens.
pub open spec fn inline_image_end(ts: Seq<TokenView>, p: int) -> int
    decreases ts.len() - p,
{
    if p < 0 || p >= ts.len() {
        p
    } else if ts[p] == TokenView::Operator("EI"@) {
        p + 1
    } else {
        inline_image_end(ts, p + 1)
    }
}

/// An inline image ends at or after where it starts, and within the tokens.
pub proof fn lemma_inline_image_end(ts: Seq<TokenView>, p: int)
    requires
        0 <= p,
    ensures
        p <= inline_image_end(ts, p),
        p <= ts.len() ==> inline_image_end(ts, p) <= ts.len(),
    decreases ts.len() - p,
{
    if p < ts.len() && ts[p] != TokenView::Operator("EI"@) {
        lemma_inline_image_end(ts, p + 1);
    }
}

/// The operations of the tokens from `pos`, with `st` on the operand stack
/// and `acc` read before: each operator takes its operands and clears the
/// stack; `BI` skips the inline image. An error gives the index after the
/// operator and the message.
pub open spec fn run_operations(ts: Seq<TokenView>, pos: int, st: Seq<TokenView>, acc: Seq<OperationView>) -> Result<Seq<OperationView>, (int, Seq<char>)>
    decreases ts.len() - pos,
{
    if pos < 0 || pos >= ts.len() {
        Ok(acc)
    } else {
        match ts[pos] {
            TokenView::Operator(op) => if op == "BI"@ {
                proof {
                    lemma_inline_image_end(ts, pos + 1);
                }
                run_operations(ts, inline_image_end(ts, pos + 1), Seq::empty(), acc.push(OperationView::BeginInlineImage))
            } else {
                match operator_result(op, st) {
                    Ok(v) => run_operations(ts, pos + 1, Seq::empty(), acc.push(v)),
                    Err(m) => Err((pos + 1, m)),
                }
            },
            t => run_operations(ts, pos + 1, st.push(t), acc),
        }
    }
}

/// What tokenizing a content stream from `pos` gives, with `acc` read
/// before.
pub enum Tokenized {
    /// All tokens up to the end
    Tokens(Seq<TokenView>),
    /// The position and message of an error
    Fail(int, Seq<char>),
    /// A token that does not advance (at `)`, `{` or `}`): reading would
    /// not end
    Stall,
}

/// The tokens of `input` from `pos`.
pub open spec fn tokenize_from(input: Seq<u8>, pos: int, acc: Seq<TokenView>) -> Tokenized
    decreases input.len() - pos,
{
    match content_step(input, pos) {
        ContentStep::End => Tokenized::Tokens(acc),
        ContentStep::Fail(q, m) => Tokenized::Fail(q, m),
        ContentStep::Tok(t, e) => if pos < e <= input.len() {
            tokenize_from(input, e, acc.push(t))
        } else {
            Tokenized::Stall
        },
    }
}

/// Whether `op` is one of the text object, state, positioning and showing operators.
pub open spec fn is_text_state_operator(op: Seq<char>) -> bool {
    op == "BT"@
    || op == "ET"@
    || op == "Tc"@
    || op == "Tw"@
    || op == "Tz"@
    || op == "TL"@
    || op == "Tf"@
    || op == "Tr"@
    || op == "Ts"@
    || op == "Td"@
    || op == "TD"@
    || op == "Tm"@
    || op == "T*"@
    || op == "Tj"@
    || op == "TJ"@
    || op == "'"@
    || op == "\""@
}

/// Whether `op` is one of the graphics state operators.
pub open spec fn is_graphics_state_operator(op: Seq<char>) -> bool {
    op == "q"@
    || op == "Q"@
    || op == "cm"@
    || op == "w"@
    || op == "J"@
    || op == "j"@
    || op == "M"@
    || op == "d"@
    || op == "ri"@
    || op == "i"@
    || op == "gs"@
}

/// Whether `op` is one of the path construction, painting and clipping operators.
pub open spec fn is_path_operator(op: Seq<char>) -> bool {
    op == "m"@
    || op == "l"@
    || op == "c"@
    || op == "v"@
    || op == "y"@
    || op == "h"@
    || op == "re"@
    || op == "S"@
    || op == "s"@
    || op == "f"@
    || op == "F"@
    || op == "f*"@
    || op == "B"@
    || op == "B*"@
    || op == "b"@
    || op == "b*"@
    || op == "n"@
    || op == "W"@
    || op == "W*"@
}

/// Whether `op` is one of the colour operators.
pub open spec fn is_color_operator(op: Seq<char>) -> bool {
    op == "CS"@
    || op == "cs"@
    || op == "SC"@
    || op == "SCN"@
    || op == "sc"@
    || op == "scn"@
    || op == "G"@
    || op == "g"@
    || op == "RG"@
    || op == "rg"@
    || op == "K"@
    || op == "k"@
}

/// Whether `op` is one of the shading, XObject, marked content and compatibility operators.
pub open spec fn is_other_operator(op: Seq<char>) -> bool {
    op == "sh"@
    || op == "Do"@
    || op == "BMC"@
    || op == "BDC"@
    || op == "EMC"@
    || op == "MP"@
    || op == "DP"@
    || op == "BX"@
    || op == "EX"@
}

/// Whether `res` is what operator `op` makes of the operand stack `st`,
/// an error standing at `pos`.
pub open spec fn operation_outcome(op: Seq<char>, st: Seq<TokenView>, pos: int, res: ParseResult<ContentOperation>) -> bool {
    match operator_result(op, st) {
        Ok(v) => res matches Ok(o) && operation_view(o) == v,
        Err(m) => res matches Err(ParseError::SyntaxError { position, message }) && position == pos
            && message@ == m,
    }
}

/// The views of operations.
pub open spec fn operations_view(s: Seq<ContentOperation>) -> Seq<OperationView> {
    s.map_values(|o: ContentOperation| operation_view(o))
}


proof fn lemma_numeric_run_start_all(st: Seq<TokenView>, n: int)
    requires
        0 <= n <= st.len(),
        forall|i: int| 0 <= i < n ==> is_numeric(#[trigger] st[i]),
    ensures
        numeric_run_start(st, n) == 0,
    decreases n,
{
    if n > 0 {
        lemma_numeric_run_start_all(st, n - 1);
    }
}




/// The spelling of each content stream operator: its length and characters.
proof fn lemma_operator_spellings()
    ensures
        "BT"@.len() == 2 && "BT"@[0] == 'B' && "BT"@[1] == 'T',
        "ET"@.len() == 2 && "ET"@[0] == 'E' && "ET"@[1] == 'T',
        "Tc"@.len() == 2 && "Tc"@[0] == 'T' && "Tc"@[1] == 'c',
        "Tw"@.len() == 2 && "Tw"@[0] == 'T' && "Tw"@[1] == 'w',
        "Tz"@.len() == 2 && "Tz"@[0] == 'T' && "Tz"@[1] == 'z',
        "TL"@.len() == 2 && "TL"@[0] == 'T' && "TL"@[1] == 'L',
        "Tf"@.len() == 2 && "Tf"@[0] == 'T' && "Tf"@[1] == 'f',
        "Tr"@.len() == 2 && "Tr"@[0] == 'T' && "Tr"@[1] == 'r',
        "Ts"@.len() == 2 && "Ts"@[0] == 'T' && "Ts"@[1] == 's',
        "Td"@.len() == 2 && "Td"@[0] == 'T' && "Td"@[1] == 'd',
        "TD"@.len() == 2 && "TD"@[0] == 'T' && "TD"@[1] == 'D',
        "Tm"@.len() == 2 && "Tm"@[0] == 'T' && "Tm"@[1] == 'm',
        "T*"@.len() == 2 && "T*"@[0] == 'T' && "T*"@[1] == '*',
        "Tj"@.len() == 2 && "Tj"@[0] == 'T' && "Tj"@[1] == 'j',
        "TJ"@.len() == 2 && "TJ"@[0] == 'T' && "TJ"@[1] == 'J',
        "'"@.len() == 1 && "'"@[0] == '\'',
        "\""@.len() == 1 && "\""@[0] == '"',
        "q"@.len() == 1 && "q"@[0] == 'q',
        "Q"@.len() == 1 && "Q"@[0] == 'Q',
        "cm"@.len() == 2 && "cm"@[0] == 'c' && "cm"@[1] == 'm',
        "w"@.len() == 1 && "w"@[0] == 'w',
        "J"@.len() == 1 && "J"@[0] == 'J',
        "j"@.len() == 1 && "j"@[0] == 'j',
        "M"@.len() == 1 && "M"@[0] == 'M',
        "d"@.len() == 1 && "d"@[0] == 'd',
        "ri"@.len() == 2 && "ri"@[0] == 'r' && "ri"@[1] == 'i',
        "i"@.len() == 1 && "i"@[0] == 'i',
        "gs"@.len() == 2 && "gs"@[0] == 'g' && "gs"@[1] == 's',
        "m"@.len() == 1 && "m"@[0] == 'm',
        "l"@.len() == 1 && "l"@[0] == 'l',
        "c"@.len() == 1 && "c"@[0] == 'c',
        "v"@.len() == 1 && "v"@[0] == 'v',
        "y"@.len() == 1 && "y"@[0] == 'y',
        "h"@.len() == 1 && "h"@[0] == 'h',
        "re"@.len() == 2 && "re"@[0] == 'r' && "re"@[1] == 'e',
        "S"@.len() == 1 && "S"@[0] == 'S',
        "s"@.len() == 1 && "s"@[0] == 's',
        "f"@.len() == 1 && "f"@[0] == 'f',
        "F"@.len() == 1 && "F"@[0] == 'F',
        "f*"@.len() == 2 && "f*"@[0] == 'f' && "f*"@[1] == '*',
        "B"@.len() == 1 && "B"@[0] == 'B',
        "B*"@.len() == 2 && "B*"@[0] == 'B' && "B*"@[1] == '*',
        "b"@.len() == 1 && "b"@[0] == 'b',
        "b*"@.len() == 2 && "b*"@[0] == 'b' && "b*"@[1] == '*',
        "n"@.len() == 1 && "n"@[0] == 'n',
        "W"@.len() == 1 && "W"@[0] == 'W',
        "W*"@.len() == 2 && "W*"@[0] == 'W' && "W*"@[1] == '*',
        "CS"@.len() == 2 && "CS"@[0] == 'C' && "CS"@[1] == 'S',
        "cs"@.len() == 2 && "cs"@[0] == 'c' && "cs"@[1] == 's',
        "SC"@.len() == 2 && "SC"@[0] == 'S' && "SC"@[1] == 'C',
        "SCN"@.len() == 3 && "SCN"@[0] == 'S' && "SCN"@[1] == 'C' && "SCN"@[2] == 'N',
        "sc"@.len() == 2 && "sc"@[0] == 's' && "sc"@[1] == 'c',
        "scn"@.len() == 3 && "scn"@[0] == 's' && "scn"@[1] == 'c' && "scn"@[2] == 'n',
        "G"@.len() == 1 && "G"@[0] == 'G',
        "g"@.len() == 1 && "g"@[0] == 'g',
        "RG"@.len() == 2 && "RG"@[0] == 'R' && "RG"@[1] == 'G',
        "rg"@.len() == 2 && "rg"@[0] == 'r' && "rg"@[1] == 'g',
        "K"@.len() == 1 && "K"@[0] == 'K',
        "k"@.len() == 1 && "k"@[0] == 'k',
        "sh"@.len() == 2 && "sh"@[0] == 's' && "sh"@[1] == 'h',
        "Do"@.len() == 2 && "Do"@[0] == 'D' && "Do"@[1] == 'o',
        "BMC"@.len() == 3 && "BMC"@[0] == 'B' && "BMC"@[1] == 'M' && "BMC"@[2] == 'C',
        "BDC"@.len() == 3 && "BDC"@[0] == 'B' && "BDC"@[1] == 'D' && "BDC"@[2] == 'C',
        "EMC"@.len() == 3 && "EMC"@[0] == 'E' && "EMC"@[1] == 'M' && "EMC"@[2] == 'C',
        "MP"@.len() == 2 && "MP"@[0] == 'M' && "MP"@[1] == 'P',
        "DP"@.len() == 2 && "DP"@[0] == 'D' && "DP"@[1] == 'P',
        "BX"@.len() == 2 && "BX"@[0] == 'B' && "BX"@[1] == 'X',
        "EX"@.len() == 2 && "EX"@[0] == 'E' && "EX"@[1] == 'X',
{
    reveal_strlit("BT");
    reveal_strlit("ET");
    reveal_strlit("Tc");
    reveal_strlit("Tw");
    reveal_strlit("Tz");
    reveal_strlit("TL");
    reveal_strlit("Tf");
    reveal_strlit("Tr");
    reveal_strlit("Ts");
    reveal_strlit("Td");
    reveal_strlit("TD");
    reveal_strlit("Tm");
    reveal_strlit("T*");
    reveal_strlit("Tj");
    reveal_strlit("TJ");
    reveal_strlit("'");
    reveal_strlit("\"");
    reveal_strlit("q");
    reveal_strlit("Q");
    reveal_strlit("cm");
    reveal_strlit("w");
    reveal_strlit("J");
    reveal_strlit("j");
    reveal_strlit("M");
    reveal_strlit("d");
    reveal_strlit("ri");
    reveal_strlit("i");
    reveal_strlit("gs");
    reveal_strlit("m");
    reveal_strlit("l");
    reveal_strlit("c");
    reveal_strlit("v");
    reveal_strlit("y");
    reveal_strlit("h");
    reveal_strlit("re");
    reveal_strlit("S");
    reveal_strlit("s");
    reveal_strlit("f");
    reveal_strlit("F");
    reveal_strlit("f*");
    reveal_strlit("B");
    reveal_strlit("B*");
    reveal_strlit("b");
    reveal_strlit("b*");
    reveal_strlit("n");
    reveal_strlit("W");
    reveal_strlit("W*");
    reveal_strlit("CS");
    reveal_strlit("cs");
    reveal_strlit("SC");
    reveal_strlit("SCN");
    reveal_strlit("sc");
    reveal_strlit("scn");
    reveal_strlit("G");
    reveal_strlit("g");
    reveal_strlit("RG");
    reveal_strlit("rg");
    reveal_strlit("K");
    reveal_strlit("k");
    reveal_strlit("sh");
    reveal_strlit("Do");
    reveal_strlit("BMC");
    reveal_strlit("BDC");
    reveal_strlit("EMC");
    reveal_strlit("MP");
    reveal_strlit("DP");
    reveal_strlit("BX");
    reveal_strlit("EX");
}

proof fn lemma_operator_bt_upper(a: Seq<Operand>)
    ensures
        signature("BT"@) == Some(Seq::<OperandKind>::empty()),
        build_operation("BT"@, a) == Ok::<OperationView, Seq<char>>(OperationView::BeginText),
{
    lemma_operator_spellings();
}

proof fn lemma_operator_et_upper(a: Seq<Operand>)
    ensures
        signature("ET"@) == Some(Seq::<OperandKind>::empty()),
        build_operation("ET"@, a) == Ok::<OperationView, Seq<char>>(OperationView::EndText),
{
    lemma_operator_spellings();
}

proof fn lemma_operator_t_star(a: Seq<Operand>)
    ensures
        signature("T*"@) == Some(Seq::<OperandKind>::empty()),
        build_operation("T*"@, a) == Ok::<OperationView, Seq<char>>(OperationView::NextLine),
{
    lemma_operator_spellings();
}

proof fn lemma_operator_q_lower(a: Seq<Operand>)
    ensures
        signature("q"@) == Some(Seq::<OperandKind>::empty()),
        build_operation("q"@, a) == Ok::<OperationView, Seq<char>>(OperationView::SaveGraphicsState),
{
    lemma_operator_spellings();
}

proof fn lemma_operator_q_upper(a: Seq<Operand>)
    ensures
        signature("Q"@) == Some(Seq::<OperandKind>::empty()),
        build_operation("Q"@, a) == Ok::<OperationView, Seq<char>>(OperationView::RestoreGraphicsState),
{
    lemma_operator_spellings();
}

proof fn lemma_operator_h_lower(a: Seq<Operand>)
    ensures
        signature("h"@) == Some(Seq::<OperandKind>::empty()),
        build_operation("h"@, a) == Ok::<OperationView, Seq<char>>(OperationView::ClosePath),
{
    lemma_operator_spellings();
}

proof fn lemma_operator_s_upper(a: Seq<Operand>)
    ensures
        signature("S"@) == Some(Seq::<OperandKind>::empty()),
        build_operation("S"@, a) == Ok::<OperationView, Seq<char>>(OperationView::Stroke),
{
    lemma_operator_spellings();
}

proof fn lemma_operator_s_lower(a: Seq<Operand>)
    ensures
        signature("s"@) == Some(Seq::<OperandKind>::empty()),
        build_operation("s"@, a) == Ok::<OperationView, Seq<char>>(OperationView::CloseStroke),
{
    lemma_operator_spellings();
}

proof fn lemma_operator_f_lower(a: Seq<Operand>)
    ensures
        signature("f"@) == Some(Seq::<OperandKind>::empty()),
        build_operation("f"@, a) == Ok::<OperationView, Seq<char>>(OperationView::Fill),
{
    lemma_operator_spellings();
}

proof fn lemma_operator_f_upper(a: Seq<Operand>)
    ensures
        signature("F"@) == Some(Seq::<OperandKind>::empty()),
        build_operation("F"@, a) == Ok::<OperationView, Seq<char>>(OperationView::Fill),
{
    lemma_operator_spellings();
}

proof fn lemma_operator_f_star(a: Seq<Operand>)
    ensures
        signature("f*"@) == Some(Seq::<OperandKind>::empty()),
        build_operation("f*"@, a) == Ok::<OperationView, Seq<char>>(OperationView::FillEvenOdd),
{
    lemma_operator_spellings();
}

proof fn lemma_operator_b_upper(a: Seq<Operand>)
    ensures
        signature("B"@) == Some(Seq::<OperandKind>::empty()),
        build_operation("B"@, a) == Ok::<OperationView, Seq<char>>(OperationView::FillStroke),
{
    lemma_operator_spellings();
}

proof fn lemma_operator_b_upper_star(a: Seq<Operand>)
    ensures
        signature("B*"@) == Some(Seq::<OperandKind>::empty()),
        build_operation("B*"@, a) == Ok::<OperationView, Seq<char>>(OperationView::FillStrokeEvenOdd),
{
    lemma_operator_spellings();
}

proof fn lemma_operator_b_lower(a: Seq<Operand>)
    ensures
        signature("b"@) == Some(Seq::<OperandKind>::empty()),
        build_operation("b"@, a) == Ok::<OperationView, Seq<char>>(OperationView::CloseFillStroke),
{
    lemma_operator_spellings();
}

proof fn lemma_operator_b_lower_star(a: Seq<Operand>)
    ensures
        signature("b*"@) == Some(Seq::<OperandKind>::empty()),
        build_operation("b*"@, a) == Ok::<OperationView, Seq<char>>(OperationView::CloseFillStrokeEvenOdd),
{
    lemma_operator_spellings();
}

proof fn lemma_operator_n_lower(a: Seq<Operand>)
    ensures
        signature("n"@) == Some(Seq::<OperandKind>::empty()),
        build_operation("n"@, a) == Ok::<OperationView, Seq<char>>(OperationView::EndPath),
{
    lemma_operator_spellings();
}

proof fn lemma_operator_w_upper(a: Seq<Operand>)
    ensures
        signature("W"@) == Some(Seq::<OperandKind>::empty()),
        build_operation("W"@, a) == Ok::<OperationView, Seq<char>>(OperationView::Clip),
{
    lemma_operator_spellings();
}

proof fn lemma_operator_w_upper_star(a: Seq<Operand>)
    ensures
        signature("W*"@) == Some(Seq::<OperandKind>::empty()),
        build_operation("W*"@, a) == Ok::<OperationView, Seq<char>>(OperationView::ClipEvenOdd),
{
    lemma_operator_spellings();
}

proof fn lemma_operator_emc(a: Seq<Operand>)
    ensures
        signature("EMC"@) == Some(Seq::<OperandKind>::empty()),
        build_operation("EMC"@, a) == Ok::<OperationView, Seq<char>>(OperationView::EndMarkedContent),
{
    lemma_operator_spellings();
}

proof fn lemma_operator_bx(a: Seq<Operand>)
    ensures
        signature("BX"@) == Some(Seq::<OperandKind>::empty()),
        build_operation("BX"@, a) == Ok::<OperationView, Seq<char>>(OperationView::BeginCompatibility),
{
    lemma_operator_spellings();
}

proof fn lemma_operator_ex(a: Seq<Operand>)
    ensures
        signature("EX"@) == Some(Seq::<OperandKind>::empty()),
        build_operation("EX"@, a) == Ok::<OperationView, Seq<char>>(OperationView::EndCompatibility),
{
    lemma_operator_spellings();
}

proof fn lemma_operator_tc(a: Seq<Operand>)
    ensures
        signature("Tc"@) == Some(seq![OperandKind::Number]),
        build_operation("Tc"@, a) == Ok::<OperationView, Seq<char>>(OperationView::SetCharSpacing(arg_number(a[0]))),
{
    lemma_operator_spellings();
}

proof fn lemma_operator_tw(a: Seq<Operand>)
    ensures
        signature("Tw"@) == Some(seq![OperandKind::Number]),
        build_operation("Tw"@, a) == Ok::<OperationView, Seq<char>>(OperationView::SetWordSpacing(arg_number(a[0]))),
{
    lemma_operator_spellings();
}

proof fn lemma_operator_tz(a: Seq<Operand>)
    ensures
        signature("Tz"@) == Some(seq![OperandKind::Number]),
        build_operation("Tz"@, a) == Ok::<OperationView, Seq<char>>(OperationView::SetHorizontalScaling(arg_number(a[0]))),
{
    lemma_operator_spellings();
}

proof fn lemma_operator_tl_upper(a: Seq<Operand>)
    ensures
        signature("TL"@) == Some(seq![OperandKind::Number]),
        build_operation("TL"@, a) == Ok::<OperationView, Seq<char>>(OperationView::SetLeading(arg_number(a[0]))),
{
    lemma_operator_spellings();
}

proof fn lemma_operator_ts(a: Seq<Operand>)
    ensures
        signature("Ts"@) == Some(seq![OperandKind::Number]),
        build_operation("Ts"@, a) == Ok::<OperationView, Seq<char>>(OperationView::SetTextRise(arg_number(a[0]))),
{
    lemma_operator_spellings();
}

proof fn lemma_operator_w_lower(a: Seq<Operand>)
    ensures
        signature("w"@) == Some(seq![OperandKind::Number]),
        build_operation("w"@, a) == Ok::<OperationView, Seq<char>>(OperationView::SetLineWidth(arg_number(a[0]))),
{
    lemma_operator_spellings();
}

proof fn lemma_operator_m_upper(a: Seq<Operand>)
    ensures
        signature("M"@) == Some(seq![OperandKind::Number]),
        build_operation("M"@, a) == Ok::<OperationView, Seq<char>>(OperationView::SetMiterLimit(arg_number(a[0]))),
{
    lemma_operator_spellings();
}

proof fn lemma_operator_i_lower(a: Seq<Operand>)
    ensures
        signature("i"@) == Some(seq![OperandKind::Number]),
        build_operation("i"@, a) == Ok::<OperationView, Seq<char>>(OperationView::SetFlatness(arg_number(a[0]))),
{
    lemma_operator_spellings();
}

proof fn lemma_operator_td(a: Seq<Operand>)
    ensures
        signature("Td"@) == Some(seq![OperandKind::Number, OperandKind::Number]),
        build_operation("Td"@, a) == Ok::<OperationView, Seq<char>>(OperationView::MoveText(arg_number(a[0]), arg_number(a[1]))),
{
    lemma_operator_spellings();
}

proof fn lemma_operator_td_upper(a: Seq<Operand>)
    ensures
        signature("TD"@) == Some(seq![OperandKind::Number, OperandKind::Number]),
        build_operation("TD"@, a) == Ok::<OperationView, Seq<char>>(OperationView::MoveTextSetLeading(arg_number(a[0]), arg_number(a[1]))),
{
    lemma_operator_spellings();
}

proof fn lemma_operator_m_lower(a: Seq<Operand>)
    ensures
        signature("m"@) == Some(seq![OperandKind::Number, OperandKind::Number]),
        build_operation("m"@, a) == Ok::<OperationView, Seq<char>>(OperationView::MoveTo(arg_number(a[0]), arg_number(a[1]))),
{
    lemma_operator_spellings();
}

proof fn lemma_operator_l_lower(a: Seq<Operand>)
    ensures
        signature("l"@) == Some(seq![OperandKind::Number, OperandKind::Number]),
        build_operation("l"@, a) == Ok::<OperationView, Seq<char>>(OperationView::LineTo(arg_number(a[0]), arg_number(a[1]))),
{
    lemma_operator_spellings();
}

proof fn lemma_operator_re(a: Seq<Operand>)
    ensures
        signature("re"@) == Some(seq![OperandKind::Number, OperandKind::Number, OperandKind::Number, OperandKind::Number]),
        build_operation("re"@, a) == Ok::<OperationView, Seq<char>>(OperationView::Rectangle(arg_number(a[0]), arg_number(a[1]), arg_number(a[2]), arg_number(a[3]))),
{
    lemma_operator_spellings();
}

proof fn lemma_operator_v_lower(a: Seq<Operand>)
    ensures
        signature("v"@) == Some(seq![OperandKind::Number, OperandKind::Number, OperandKind::Number, OperandKind::Number]),
        build_operation("v"@, a) == Ok::<OperationView, Seq<char>>(OperationView::CurveToV(arg_number(a[0]), arg_number(a[1]), arg_number(a[2]), arg_number(a[3]))),
{
    lemma_operator_spellings();
}

proof fn lemma_operator_y_lower(a: Seq<Operand>)
    ensures
        signature("y"@) == Some(seq![OperandKind::Number, OperandKind::Number, OperandKind::Number, OperandKind::Number]),
        build_operation("y"@, a) == Ok::<OperationView, Seq<char>>(OperationView::CurveToY(arg_number(a[0]), arg_number(a[1]), arg_number(a[2]), arg_number(a[3]))),
{
    lemma_operator_spellings();
}

proof fn lemma_operator_tm(a: Seq<Operand>)
    ensures
        signature("Tm"@) == Some(seq![OperandKind::Number, OperandKind::Number, OperandKind::Number, OperandKind::Number, OperandKind::Number, OperandKind::Number]),
        build_operation("Tm"@, a) == Ok::<OperationView, Seq<char>>(OperationView::SetTextMatrix(arg_number(a[0]), arg_number(a[1]), arg_number(a[2]), arg_number(a[3]), arg_number(a[4]), arg_number(a[5]))),
{
    lemma_operator_spellings();
}

proof fn lemma_operator_cm(a: Seq<Operand>)
    ensures
        signature("cm"@) == Some(seq![OperandKind::Number, OperandKind::Number, OperandKind::Number, OperandKind::Number, OperandKind::Number, OperandKind::Number]),
        build_operation("cm"@, a) == Ok::<OperationView, Seq<char>>(OperationView::SetTransformMatrix(arg_number(a[0]), arg_number(a[1]), arg_number(a[2]), arg_number(a[3]), arg_number(a[4]), arg_number(a[5]))),
{
    lemma_operator_spellings();
}

proof fn lemma_operator_c_lower(a: Seq<Operand>)
    ensures
        signature("c"@) == Some(seq![OperandKind::Number, OperandKind::Number, OperandKind::Number, OperandKind::Number, OperandKind::Number, OperandKind::Number]),
        build_operation("c"@, a) == Ok::<OperationView, Seq<char>>(OperationView::CurveTo(arg_number(a[0]), arg_number(a[1]), arg_number(a[2]), arg_number(a[3]), arg_number(a[4]), arg_number(a[5]))),
{
    lemma_operator_spellings();
}

proof fn lemma_operator_ri(a: Seq<Operand>)
    ensures
        signature("ri"@) == Some(seq![OperandKind::Name]),
        build_operation("ri"@, a) == Ok::<OperationView, Seq<char>>(OperationView::SetIntent(arg_name(a[0]))),
{
    lemma_operator_spellings();
}

proof fn lemma_operator_gs(a: Seq<Operand>)
    ensures
        signature("gs"@) == Some(seq![OperandKind::Name]),
        build_operation("gs"@, a) == Ok::<OperationView, Seq<char>>(OperationView::SetGraphicsStateParams(arg_name(a[0]))),
{
    lemma_operator_spellings();
}

proof fn lemma_operator_sh(a: Seq<Operand>)
    ensures
        signature("sh"@) == Some(seq![OperandKind::Name]),
        build_operation("sh"@, a) == Ok::<OperationView, Seq<char>>(OperationView::ShadingFill(arg_name(a[0]))),
{
    lemma_operator_spellings();
}

proof fn lemma_operator_do_op(a: Seq<Operand>)
    ensures
        signature("Do"@) == Some(seq![OperandKind::Name]),
        build_operation("Do"@, a) == Ok::<OperationView, Seq<char>>(OperationView::PaintXObject(arg_name(a[0]))),
{
    lemma_operator_spellings();
}

proof fn lemma_operator_bmc(a: Seq<Operand>)
    ensures
        signature("BMC"@) == Some(seq![OperandKind::Name]),
        build_operation("BMC"@, a) == Ok::<OperationView, Seq<char>>(OperationView::BeginMarkedContent(arg_name(a[0]))),
{
    lemma_operator_spellings();
}

proof fn lemma_operator_mp(a: Seq<Operand>)
    ensures
        signature("MP"@) == Some(seq![OperandKind::Name]),
        build_operation("MP"@, a) == Ok::<OperationView, Seq<char>>(OperationView::DefineMarkedContentPoint(arg_name(a[0]))),
{
    lemma_operator_spellings();
}

proof fn lemma_operator_tr(a: Seq<Operand>)
    ensures
        signature("Tr"@) == Some(seq![OperandKind::Integer]),
        build_operation("Tr"@, a) == Ok::<OperationView, Seq<char>>(OperationView::SetTextRenderMode(arg_integer(a[0]))),
{
    lemma_operator_spellings();
}

proof fn lemma_operator_j_upper(a: Seq<Operand>)
    ensures
        signature("J"@) == Some(seq![OperandKind::Integer]),
        build_operation("J"@, a) == Ok::<OperationView, Seq<char>>(OperationView::SetLineCap(arg_integer(a[0]))),
{
    lemma_operator_spellings();
}

proof fn lemma_operator_j_lower(a: Seq<Operand>)
    ensures
        signature("j"@) == Some(seq![OperandKind::Integer]),
        build_operation("j"@, a) == Ok::<OperationView, Seq<char>>(OperationView::SetLineJoin(arg_integer(a[0]))),
{
    lemma_operator_spellings();
}

proof fn lemma_operator_tj(a: Seq<Operand>)
    ensures
        signature("Tj"@) == Some(seq![OperandKind::Text]),
        build_operation("Tj"@, a) == Ok::<OperationView, Seq<char>>(OperationView::ShowText(arg_text(a[0]))),
{
    lemma_operator_spellings();
}

proof fn lemma_operator_quote(a: Seq<Operand>)
    ensures
        signature("'"@) == Some(seq![OperandKind::Text]),
        build_operation("'"@, a) == Ok::<OperationView, Seq<char>>(OperationView::NextLineShowText(arg_text(a[0]))),
{
    lemma_operator_spellings();
}

proof fn lemma_operator_tf(a: Seq<Operand>)
    ensures
        signature("Tf"@) == Some(seq![OperandKind::Name, OperandKind::Number]),
        build_operation("Tf"@, a) == Ok::<OperationView, Seq<char>>(OperationView::SetFont(arg_name(a[0]), arg_number(a[1]))),
{
    lemma_operator_spellings();
}

proof fn lemma_operator_double_quote(a: Seq<Operand>)
    ensures
        signature("\""@) == Some(seq![OperandKind::Number, OperandKind::Number, OperandKind::Text]),
        build_operation("\""@, a) == Ok::<OperationView, Seq<char>>(OperationView::SetSpacingNextLineShowText(arg_number(a[0]), arg_number(a[1]), arg_text(a[2]))),
{
    lemma_operator_spellings();
}

proof fn lemma_operator_bdc(a: Seq<Operand>)
    ensures
        signature("BDC"@) == Some(seq![OperandKind::Name, OperandKind::Properties]),
        build_operation("BDC"@, a) == Ok::<OperationView, Seq<char>>(OperationView::BeginMarkedContentWithProps(arg_name(a[0]), Seq::empty())),
{
    lemma_operator_spellings();
}

proof fn lemma_operator_dp(a: Seq<Operand>)
    ensures
        signature("DP"@) == Some(seq![OperandKind::Name, OperandKind::Properties]),
        build_operation("DP"@, a) == Ok::<OperationView, Seq<char>>(OperationView::DefineMarkedContentPointWithProps(arg_name(a[0]), Seq::empty())),
{
    lemma_operator_spellings();
}

proof fn lemma_operator_cs_upper(a: Seq<Operand>)
    ensures
        signature("CS"@) == Some(seq![OperandKind::Name]),
        build_operation("CS"@, a) == Ok::<OperationView, Seq<char>>(OperationView::SetStrokingColorSpace(arg_name(a[0]))),
{
    lemma_operator_spellings();
}

proof fn lemma_operator_cs_lower(a: Seq<Operand>)
    ensures
        signature("cs"@) == Some(seq![OperandKind::Name]),
        build_operation("cs"@, a) == Ok::<OperationView, Seq<char>>(OperationView::SetNonStrokingColorSpace(arg_name(a[0]))),
{
    lemma_operator_spellings();
}

proof fn lemma_operator_sc_upper(a: Seq<Operand>)
    ensures
        signature("SC"@) == Some(seq![OperandKind::Components]),
        build_operation("SC"@, a) == Ok::<OperationView, Seq<char>>(OperationView::SetStrokingColor(arg_components(a[0]))),
{
    lemma_operator_spellings();
}

proof fn lemma_operator_scn_upper(a: Seq<Operand>)
    ensures
        signature("SCN"@) == Some(seq![OperandKind::Components]),
        build_operation("SCN"@, a) == Ok::<OperationView, Seq<char>>(OperationView::SetStrokingColor(arg_components(a[0]))),
{
    lemma_operator_spellings();
}

proof fn lemma_operator_sc_lower(a: Seq<Operand>)
    ensures
        signature("sc"@) == Some(seq![OperandKind::Components]),
        build_operation("sc"@, a) == Ok::<OperationView, Seq<char>>(OperationView::SetNonStrokingColor(arg_components(a[0]))),
{
    lemma_operator_spellings();
}

proof fn lemma_operator_scn_lower(a: Seq<Operand>)
    ensures
        signature("scn"@) == Some(seq![OperandKind::Components]),
        build_operation("scn"@, a) == Ok::<OperationView, Seq<char>>(OperationView::SetNonStrokingColor(arg_components(a[0]))),
{
    lemma_operator_spellings();
}

proof fn lemma_operator_g_upper(a: Seq<Operand>)
    ensures
        signature("G"@) == Some(seq![OperandKind::Number]),
        build_operation("G"@, a) == Ok::<OperationView, Seq<char>>(OperationView::SetStrokingGray(arg_number(a[0]))),
{
    lemma_operator_spellings();
}

proof fn lemma_operator_g_lower(a: Seq<Operand>)
    ensures
        signature("g"@) == Some(seq![OperandKind::Number]),
        build_operation("g"@, a) == Ok::<OperationView, Seq<char>>(OperationView::SetNonStrokingGray(arg_number(a[0]))),
{
    lemma_operator_spellings();
}

proof fn lemma_operator_rg_upper(a: Seq<Operand>)
    ensures
        signature("RG"@) == Some(seq![OperandKind::Number, OperandKind::Number, OperandKind::Number]),
        build_operation("RG"@, a) == Ok::<OperationView, Seq<char>>(OperationView::SetStrokingRGB(arg_number(a[0]), arg_number(a[1]), arg_number(a[2]))),
{
    lemma_operator_spellings();
}

proof fn lemma_operator_rg_lower(a: Seq<Operand>)
    ensures
        signature("rg"@) == Some(seq![OperandKind::Number, OperandKind::Number, OperandKind::Number]),
        build_operation("rg"@, a) == Ok::<OperationView, Seq<char>>(OperationView::SetNonStrokingRGB(arg_number(a[0]), arg_number(a[1]), arg_number(a[2]))),
{
    lemma_operator_spellings();
}

proof fn lemma_operator_k_upper(a: Seq<Operand>)
    ensures
        signature("K"@) == Some(seq![OperandKind::Number, OperandKind::Number, OperandKind::Number, OperandKind::Number]),
        build_operation("K"@, a) == Ok::<OperationView, Seq<char>>(OperationView::SetStrokingCMYK(arg_number(a[0]), arg_number(a[1]), arg_number(a[2]), arg_number(a[3]))),
{
    lemma_operator_spellings();
}

proof fn lemma_operator_k_lower(a: Seq<Operand>)
    ensures
        signature("k"@) == Some(seq![OperandKind::Number, OperandKind::Number, OperandKind::Number, OperandKind::Number]),
        build_operation("k"@, a) == Ok::<OperationView, Seq<char>>(OperationView::SetNonStrokingCMYK(arg_number(a[0]), arg_number(a[1]), arg_number(a[2]), arg_number(a[3]))),
{
    lemma_operator_spellings();
}

/// `RG` sets the stroking colour and `rg` the non-stroking colour to the
/// three numbers on top of the stack, in the order they were written.
pub proof fn lemma_rgb_operators(st: Seq<TokenView>)
    requires
        st.len() >= 3 && is_numeric(st[st.len() - 3]) && is_numeric(st[st.len() - 2]) && is_numeric(st[st.len() - 1]),
    ensures
        operator_result("RG"@, st) == Ok::<OperationView, Seq<char>>(OperationView::SetStrokingRGB(token_number(st[st.len() - 3]), token_number(st[st.len() - 2]), token_number(st[st.len() - 1]))),
        operator_result("rg"@, st) == Ok::<OperationView, Seq<char>>(OperationView::SetNonStrokingRGB(token_number(st[st.len() - 3]), token_number(st[st.len() - 2]), token_number(st[st.len() - 1]))),
{
    let n = st.len() as int;
    let ks = seq![OperandKind::Number, OperandKind::Number, OperandKind::Number];
    let s1 = st.drop_last();
    let s2 = s1.drop_last();
    let s3 = s2.drop_last();
    assert(s1[n - 2] == st[n - 2]);
    assert(s2[n - 3] == st[n - 3]);
    let a1 = Operand::Number(token_number(st[n - 1]));
    let a2 = Operand::Number(token_number(st[n - 2]));
    let a3 = Operand::Number(token_number(st[n - 3]));
    assert(pop_operand(ks[2], st) == Ok::<(Operand, Seq<TokenView>), Seq<char>>((a1, s1)));
    assert(pop_operand(ks[1], s1) == Ok::<(Operand, Seq<TokenView>), Seq<char>>((a2, s2)));
    assert(pop_operand(ks[0], s2) == Ok::<(Operand, Seq<TokenView>), Seq<char>>((a3, s3)));
    assert(pop_operands(ks, 0, s3) == Ok::<Seq<Operand>, Seq<char>>(Seq::empty()));
    assert(pop_operands(ks, 1, s2) == Ok::<Seq<Operand>, Seq<char>>(seq![a3]));
    assert(seq![a3].push(a2) =~= seq![a3, a2]);
    assert(pop_operands(ks, 2, s1) == Ok::<Seq<Operand>, Seq<char>>(seq![a3, a2]));
    assert(seq![a3, a2].push(a1) =~= seq![a3, a2, a1]);
    assert(pop_operands(ks, 3, st) == Ok::<Seq<Operand>, Seq<char>>(seq![a3, a2, a1]));
    lemma_operator_rg_upper(seq![Operand::Number(token_number(st[st.len() - 3])), Operand::Number(token_number(st[st.len() - 2])), Operand::Number(token_number(st[st.len() - 1]))]);
    lemma_operator_rg_lower(seq![Operand::Number(token_number(st[st.len() - 3])), Operand::Number(token_number(st[st.len() - 2])), Operand::Number(token_number(st[st.len() - 1]))]);
}

/// Popping `k` numbers gives the top `k` tokens as numbers, in the order
/// they were written.
proof fn lemma_pop_numbers(ks: Seq<OperandKind>, k: int, st: Seq<TokenView>)
    requires
        0 <= k <= ks.len(),
        k <= st.len(),
        forall|i: int| 0 <= i < k ==> #[trigger] ks[i] == OperandKind::Number,
        forall|j: int| st.len() - k <= j < st.len() ==> is_numeric(#[trigger] st[j]),
    ensures
        pop_operands(ks, k, st) == Ok::<Seq<Operand>, Seq<char>>(
            Seq::new(k as nat, |i: int| Operand::Number(token_number(st[st.len() - k + i]))),
        ),
    decreases k,
{
    if k > 0 {
        let n = st.len() as int;
        let s1 = st.drop_last();
        assert(ks[k - 1] == OperandKind::Number);
        assert(is_numeric(st[n - 1]));
        assert forall|j: int| s1.len() - (k - 1) <= j < s1.len() implies is_numeric(#[trigger] s1[j]) by {
            assert(s1[j] == st[j]);
        }
        lemma_pop_numbers(ks, k - 1, s1);
        let prev = Seq::new((k - 1) as nat, |i: int| Operand::Number(token_number(s1[s1.len() - (k - 1) + i])));
        assert(pop_operand(ks[k - 1], st) == Ok::<(Operand, Seq<TokenView>), Seq<char>>(
            (Operand::Number(token_number(st[n - 1])), s1),
        ));
        assert(prev.push(Operand::Number(token_number(st[n - 1]))) =~= Seq::new(
            k as nat,
            |i: int| Operand::Number(token_number(st[n - k + i])),
        ));
    } else {
        assert(Seq::new(0nat, |i: int| Operand::Number(token_number(st[st.len() - k + i]))) =~= Seq::<Operand>::empty());
    }
}

/// Popping one operand of kind `k` when the top token suits it.
proof fn lemma_pop_one(k: OperandKind, st: Seq<TokenView>)
    requires
        pop_operand(k, st) is Ok,
    ensures
        pop_operands(seq![k], 1, st) == Ok::<Seq<Operand>, Seq<char>>(seq![pop_operand(k, st)->Ok_0.0]),
{
    let a = pop_operand(k, st)->Ok_0.0;
    let rest = pop_operand(k, st)->Ok_0.1;
    assert(seq![k][0] == k);
    assert(pop_operands(seq![k], 0, rest) == Ok::<Seq<Operand>, Seq<char>>(Seq::empty()));
    assert(Seq::<Operand>::empty().push(a) =~= seq![a]);
}

/// The operators without operands, whatever is on the stack: `BT` and
/// `ET` begin and end a text object, `T*` moves to the next line, `q` and
/// `Q` save and restore the graphics state, `h` closes the path, `S`
/// strokes, `s` closes and strokes, `f` and `F` fill, `f*` fills by the
/// even-odd rule, `B` fills and strokes, `B*` likewise even-odd, `b` and
/// `b*` close, fill and stroke, `n` ends the path, `W` and `W*` clip,
/// `EMC` ends marked content, `BX` and `EX` begin and end a compatibility
/// section.
pub proof fn lemma_operators_without_operands(st: Seq<TokenView>)
    ensures
        operator_result("BT"@, st) == Ok::<OperationView, Seq<char>>(OperationView::BeginText),
        operator_result("ET"@, st) == Ok::<OperationView, Seq<char>>(OperationView::EndText),
        operator_result("T*"@, st) == Ok::<OperationView, Seq<char>>(OperationView::NextLine),
        operator_result("q"@, st) == Ok::<OperationView, Seq<char>>(OperationView::SaveGraphicsState),
        operator_result("Q"@, st) == Ok::<OperationView, Seq<char>>(OperationView::RestoreGraphicsState),
        operator_result("h"@, st) == Ok::<OperationView, Seq<char>>(OperationView::ClosePath),
        operator_result("S"@, st) == Ok::<OperationView, Seq<char>>(OperationView::Stroke),
        operator_result("s"@, st) == Ok::<OperationView, Seq<char>>(OperationView::CloseStroke),
        operator_result("f"@, st) == Ok::<OperationView, Seq<char>>(OperationView::Fill),
        operator_result("F"@, st) == Ok::<OperationView, Seq<char>>(OperationView::Fill),
        operator_result("f*"@, st) == Ok::<OperationView, Seq<char>>(OperationView::FillEvenOdd),
        operator_result("B"@, st) == Ok::<OperationView, Seq<char>>(OperationView::FillStroke),
        operator_result("B*"@, st) == Ok::<OperationView, Seq<char>>(OperationView::FillStrokeEvenOdd),
        operator_result("b"@, st) == Ok::<OperationView, Seq<char>>(OperationView::CloseFillStroke),
        operator_result("b*"@, st) == Ok::<OperationView, Seq<char>>(OperationView::CloseFillStrokeEvenOdd),
        operator_result("n"@, st) == Ok::<OperationView, Seq<char>>(OperationView::EndPath),
        operator_result("W"@, st) == Ok::<OperationView, Seq<char>>(OperationView::Clip),
        operator_result("W*"@, st) == Ok::<OperationView, Seq<char>>(OperationView::ClipEvenOdd),
        operator_result("EMC"@, st) == Ok::<OperationView, Seq<char>>(OperationView::EndMarkedContent),
        operator_result("BX"@, st) == Ok::<OperationView, Seq<char>>(OperationView::BeginCompatibility),
        operator_result("EX"@, st) == Ok::<OperationView, Seq<char>>(OperationView::EndCompatibility),
{
    assert(pop_operands(Seq::<OperandKind>::empty(), 0, st) == Ok::<Seq<Operand>, Seq<char>>(Seq::empty()));
    lemma_operator_bt_upper(Seq::empty());
    lemma_operator_et_upper(Seq::empty());
    lemma_operator_t_star(Seq::empty());
    lemma_operator_q_lower(Seq::empty());
    lemma_operator_q_upper(Seq::empty());
    lemma_operator_h_lower(Seq::empty());
    lemma_operator_s_upper(Seq::empty());
    lemma_operator_s_lower(Seq::empty());
    lemma_operator_f_lower(Seq::empty());
    lemma_operator_f_upper(Seq::empty());
    lemma_operator_f_star(Seq::empty());
    lemma_operator_b_upper(Seq::empty());
    lemma_operator_b_upper_star(Seq::empty());
    lemma_operator_b_lower(Seq::empty());
    lemma_operator_b_lower_star(Seq::empty());
    lemma_operator_n_lower(Seq::empty());
    lemma_operator_w_upper(Seq::empty());
    lemma_operator_w_upper_star(Seq::empty());
    lemma_operator_emc(Seq::empty());
    lemma_operator_bx(Seq::empty());
    lemma_operator_ex(Seq::empty());
}

/// The operators that take one number set the parameter to the number on
/// top of the stack: `Tc` character spacing, `Tw` word spacing, `Tz`
/// horizontal scaling, `TL` leading, `Ts` text rise, `w` line width, `M`
/// miter limit, `i` flatness.
pub proof fn lemma_one_number_operators(st: Seq<TokenView>)
    requires
        st.len() >= 1 && is_numeric(st[st.len() - 1]),
    ensures
        operator_result("Tc"@, st) == Ok::<OperationView, Seq<char>>(OperationView::SetCharSpacing(token_number(st[st.len() - 1]))),
        operator_result("Tw"@, st) == Ok::<OperationView, Seq<char>>(OperationView::SetWordSpacing(token_number(st[st.len() - 1]))),
        operator_result("Tz"@, st) == Ok::<OperationView, Seq<char>>(OperationView::SetHorizontalScaling(token_number(st[st.len() - 1]))),
        operator_result("TL"@, st) == Ok::<OperationView, Seq<char>>(OperationView::SetLeading(token_number(st[st.len() - 1]))),
        operator_result("Ts"@, st) == Ok::<OperationView, Seq<char>>(OperationView::SetTextRise(token_number(st[st.len() - 1]))),
        operator_result("w"@, st) == Ok::<OperationView, Seq<char>>(OperationView::SetLineWidth(token_number(st[st.len() - 1]))),
        operator_result("M"@, st) == Ok::<OperationView, Seq<char>>(OperationView::SetMiterLimit(token_number(st[st.len() - 1]))),
        operator_result("i"@, st) == Ok::<OperationView, Seq<char>>(OperationView::SetFlatness(token_number(st[st.len() - 1]))),
{
    let n = st.len() as int;
    let ks = seq![OperandKind::Number];
    lemma_pop_numbers(ks, 1, st);
    let args = seq![Operand::Number(token_number(st[st.len() - 1]))];
    assert(Seq::new(1nat, |i: int| Operand::Number(token_number(st[n - 1 + i]))) =~= args);
    lemma_operator_tc(args);
    lemma_operator_tw(args);
    lemma_operator_tz(args);
    lemma_operator_tl_upper(args);
    lemma_operator_ts(args);
    lemma_operator_w_lower(args);
    lemma_operator_m_upper(args);
    lemma_operator_i_lower(args);
}

/// The operators that take two numbers, in written order: `Td` moves the
/// text position, `TD` also sets the leading, `m` begins a subpath at the
/// point, `l` appends a line to it.
pub proof fn lemma_two_number_operators(st: Seq<TokenView>)
    requires
        st.len() >= 2 && is_numeric(st[st.len() - 2]) && is_numeric(st[st.len() - 1]),
    ensures
        operator_result("Td"@, st) == Ok::<OperationView, Seq<char>>(OperationView::MoveText(token_number(st[st.len() - 2]), token_number(st[st.len() - 1]))),
        operator_result("TD"@, st) == Ok::<OperationView, Seq<char>>(OperationView::MoveTextSetLeading(token_number(st[st.len() - 2]), token_number(st[st.len() - 1]))),
        operator_result("m"@, st) == Ok::<OperationView, Seq<char>>(OperationView::MoveTo(token_number(st[st.len() - 2]), token_number(st[st.len() - 1]))),
        operator_result("l"@, st) == Ok::<OperationView, Seq<char>>(OperationView::LineTo(token_number(st[st.len() - 2]), token_number(st[st.len() - 1]))),
{
    let n = st.len() as int;
    let ks = seq![OperandKind::Number, OperandKind::Number];
    lemma_pop_numbers(ks, 2, st);
    let args = seq![Operand::Number(token_number(st[st.len() - 2])), Operand::Number(token_number(st[st.len() - 1]))];
    assert(Seq::new(2nat, |i: int| Operand::Number(token_number(st[n - 2 + i]))) =~= args);
    lemma_operator_td(args);
    lemma_operator_td_upper(args);
    lemma_operator_m_lower(args);
    lemma_operator_l_lower(args);
}

/// The operators that take four numbers, in written order: `re` appends a
/// rectangle, `v` and `y` append a Bezier curve whose first or last
/// control point is an end point.
pub proof fn lemma_four_number_operators(st: Seq<TokenView>)
    requires
        st.len() >= 4 && is_numeric(st[st.len() - 4]) && is_numeric(st[st.len() - 3]) && is_numeric(st[st.len() - 2]) && is_numeric(st[st.len() - 1]),
    ensures
        operator_result("re"@, st) == Ok::<OperationView, Seq<char>>(OperationView::Rectangle(token_number(st[st.len() - 4]), token_number(st[st.len() - 3]), token_number(st[st.len() - 2]), token_number(st[st.len() - 1]))),
        operator_result("v"@, st) == Ok::<OperationView, Seq<char>>(OperationView::CurveToV(token_number(st[st.len() - 4]), token_number(st[st.len() - 3]), token_number(st[st.len() - 2]), token_number(st[st.len() - 1]))),
        operator_result("y"@, st) == Ok::<OperationView, Seq<char>>(OperationView::CurveToY(token_number(st[st.len() - 4]), token_number(st[st.len() - 3]), token_number(st[st.len() - 2]), token_number(st[st.len() - 1]))),
{
    let n = st.len() as int;
    let ks = seq![OperandKind::Number, OperandKind::Number, OperandKind::Number, OperandKind::Number];
    lemma_pop_numbers(ks, 4, st);
    let args = seq![Operand::Number(token_number(st[st.len() - 4])), Operand::Number(token_number(st[st.len() - 3])), Operand::Number(token_number(st[st.len() - 2])), Operand::Number(token_number(st[st.len() - 1]))];
    assert(Seq::new(4nat, |i: int| Operand::Number(token_number(st[n - 4 + i]))) =~= args);
    lemma_operator_re(args);
    lemma_operator_v_lower(args);
    lemma_operator_y_lower(args);
}

/// The operators that take six numbers, in written order: `Tm` sets the
/// text matrix, `cm` concatenates the transformation matrix, `c` appends a
/// Bezier curve.
pub proof fn lemma_six_number_operators(st: Seq<TokenView>)
    requires
        st.len() >= 6 && is_numeric(st[st.len() - 6]) && is_numeric(st[st.len() - 5]) && is_numeric(st[st.len() - 4]) && is_numeric(st[st.len() - 3]) && is_numeric(st[st.len() - 2]) && is_numeric(st[st.len() - 1]),
    ensures
        operator_result("Tm"@, st) == Ok::<OperationView, Seq<char>>(OperationView::SetTextMatrix(token_number(st[st.len() - 6]), token_number(st[st.len() - 5]), token_number(st[st.len() - 4]), token_number(st[st.len() - 3]), token_number(st[st.len() - 2]), token_number(st[st.len() - 1]))),
        operator_result("cm"@, st) == Ok::<OperationView, Seq<char>>(OperationView::SetTransformMatrix(token_number(st[st.len() - 6]), token_number(st[st.len() - 5]), token_number(st[st.len() - 4]), token_number(st[st.len() - 3]), token_number(st[st.len() - 2]), token_number(st[st.len() - 1]))),
        operator_result("c"@, st) == Ok::<OperationView, Seq<char>>(OperationView::CurveTo(token_number(st[st.len() - 6]), token_number(st[st.len() - 5]), token_number(st[st.len() - 4]), token_number(st[st.len() - 3]), token_number(st[st.len() - 2]), token_number(st[st.len() - 1]))),
{
    let n = st.len() as int;
    let ks = seq![OperandKind::Number, OperandKind::Number, OperandKind::Number, OperandKind::Number, OperandKind::Number, OperandKind::Number];
    lemma_pop_numbers(ks, 6, st);
    let args = seq![Operand::Number(token_number(st[st.len() - 6])), Operand::Number(token_number(st[st.len() - 5])), Operand::Number(token_number(st[st.len() - 4])), Operand::Number(token_number(st[st.len() - 3])), Operand::Number(token_number(st[st.len() - 2])), Operand::Number(token_number(st[st.len() - 1]))];
    assert(Seq::new(6nat, |i: int| Operand::Number(token_number(st[n - 6 + i]))) =~= args);
    lemma_operator_tm(args);
    lemma_operator_cm(args);
    lemma_operator_c_lower(args);
}

/// The operators that take a name use the name on top of the stack: `ri`
/// sets the rendering intent, `gs` the graphics state parameters, `sh`
/// paints a shading, `Do` an XObject, `BMC` begins marked content and `MP`
/// marks a point.
pub proof fn lemma_name_operators(st: Seq<TokenView>)
    requires
        st.len() >= 1 && st[st.len() - 1] is Name,
    ensures
        operator_result("ri"@, st) == Ok::<OperationView, Seq<char>>(OperationView::SetIntent(st[st.len() - 1]->Name_0)),
        operator_result("gs"@, st) == Ok::<OperationView, Seq<char>>(OperationView::SetGraphicsStateParams(st[st.len() - 1]->Name_0)),
        operator_result("sh"@, st) == Ok::<OperationView, Seq<char>>(OperationView::ShadingFill(st[st.len() - 1]->Name_0)),
        operator_result("Do"@, st) == Ok::<OperationView, Seq<char>>(OperationView::PaintXObject(st[st.len() - 1]->Name_0)),
        operator_result("BMC"@, st) == Ok::<OperationView, Seq<char>>(OperationView::BeginMarkedContent(st[st.len() - 1]->Name_0)),
        operator_result("MP"@, st) == Ok::<OperationView, Seq<char>>(OperationView::DefineMarkedContentPoint(st[st.len() - 1]->Name_0)),
{
    lemma_pop_one(OperandKind::Name, st);
    lemma_operator_ri(seq![Operand::Name(st[st.len() - 1]->Name_0)]);
    lemma_operator_gs(seq![Operand::Name(st[st.len() - 1]->Name_0)]);
    lemma_operator_sh(seq![Operand::Name(st[st.len() - 1]->Name_0)]);
    lemma_operator_do_op(seq![Operand::Name(st[st.len() - 1]->Name_0)]);
    lemma_operator_bmc(seq![Operand::Name(st[st.len() - 1]->Name_0)]);
    lemma_operator_mp(seq![Operand::Name(st[st.len() - 1]->Name_0)]);
}

/// The operators that take an integer use the integer on top of the stack:
/// `Tr` sets the text rendering mode, `J` the line cap, `j` the line join.
pub proof fn lemma_integer_operators(st: Seq<TokenView>)
    requires
        st.len() >= 1 && st[st.len() - 1] is Integer,
    ensures
        operator_result("Tr"@, st) == Ok::<OperationView, Seq<char>>(OperationView::SetTextRenderMode(st[st.len() - 1]->Integer_0)),
        operator_result("J"@, st) == Ok::<OperationView, Seq<char>>(OperationView::SetLineCap(st[st.len() - 1]->Integer_0)),
        operator_result("j"@, st) == Ok::<OperationView, Seq<char>>(OperationView::SetLineJoin(st[st.len() - 1]->Integer_0)),
{
    lemma_pop_one(OperandKind::Integer, st);
    lemma_operator_tr(seq![Operand::Integer(st[st.len() - 1]->Integer_0)]);
    lemma_operator_j_upper(seq![Operand::Integer(st[st.len() - 1]->Integer_0)]);
    lemma_operator_j_lower(seq![Operand::Integer(st[st.len() - 1]->Integer_0)]);
}

/// `Tj` shows the string on top of the stack, and `'` moves to the next
/// line and shows it.
pub proof fn lemma_text_operators(st: Seq<TokenView>)
    requires
        st.len() >= 1 && st[st.len() - 1] is String,
    ensures
        operator_result("Tj"@, st) == Ok::<OperationView, Seq<char>>(OperationView::ShowText(st[st.len() - 1]->String_0)),
        operator_result("'"@, st) == Ok::<OperationView, Seq<char>>(OperationView::NextLineShowText(st[st.len() - 1]->String_0)),
{
    lemma_pop_one(OperandKind::Text, st);
    lemma_operator_tj(seq![Operand::Text(st[st.len() - 1]->String_0)]);
    lemma_operator_quote(seq![Operand::Text(st[st.len() - 1]->String_0)]);
}

/// `Tf` sets the font to the name and the size to the number on top of
/// the stack, in written order.
pub proof fn lemma_font_operator(st: Seq<TokenView>)
    requires
        st.len() >= 2 && st[st.len() - 2] is Name && is_numeric(st[st.len() - 1]),
    ensures
        operator_result("Tf"@, st) == Ok::<OperationView, Seq<char>>(OperationView::SetFont(st[st.len() - 2]->Name_0, token_number(st[st.len() - 1]))),
{
    let n = st.len() as int;
    let ks = seq![OperandKind::Name, OperandKind::Number];
    let s1 = st.drop_last();
    let s2 = s1.drop_last();
    assert(s1[n - 2] == st[n - 2]);
    let a1 = Operand::Number(token_number(st[n - 1]));
    let a2 = Operand::Name(st[n - 2]->Name_0);
    assert(pop_operand(ks[1], st) == Ok::<(Operand, Seq<TokenView>), Seq<char>>((a1, s1)));
    assert(pop_operand(ks[0], s1) == Ok::<(Operand, Seq<TokenView>), Seq<char>>((a2, s2)));
    assert(pop_operands(ks, 0, s2) == Ok::<Seq<Operand>, Seq<char>>(Seq::empty()));
    assert(Seq::<Operand>::empty().push(a2) =~= seq![a2]);
    assert(pop_operands(ks, 1, s1) == Ok::<Seq<Operand>, Seq<char>>(seq![a2]));
    assert(seq![a2].push(a1) =~= seq![a2, a1]);
    assert(pop_operands(ks, 2, st) == Ok::<Seq<Operand>, Seq<char>>(seq![a2, a1]));
    lemma_operator_tf(seq![a2, a1]);
}

/// `"` sets the word and character spacing to the two numbers and shows
/// the string on top of the stack, in written order.
pub proof fn lemma_spacing_text_operator(st: Seq<TokenView>)
    requires
        st.len() >= 3 && is_numeric(st[st.len() - 3]) && is_numeric(st[st.len() - 2]) && st[st.len() - 1] is String,
    ensures
        operator_result("\""@, st) == Ok::<OperationView, Seq<char>>(OperationView::SetSpacingNextLineShowText(token_number(st[st.len() - 3]), token_number(st[st.len() - 2]), st[st.len() - 1]->String_0)),
{
    let n = st.len() as int;
    let ks = seq![OperandKind::Number, OperandKind::Number, OperandKind::Text];
    let s1 = st.drop_last();
    let s2 = s1.drop_last();
    let s3 = s2.drop_last();
    assert(s1[n - 2] == st[n - 2]);
    assert(s2[n - 3] == st[n - 3]);
    let a1 = Operand::Text(st[n - 1]->String_0);
    let a2 = Operand::Number(token_number(st[n - 2]));
    let a3 = Operand::Number(token_number(st[n - 3]));
    assert(pop_operand(ks[2], st) == Ok::<(Operand, Seq<TokenView>), Seq<char>>((a1, s1)));
    assert(pop_operand(ks[1], s1) == Ok::<(Operand, Seq<TokenView>), Seq<char>>((a2, s2)));
    assert(pop_operand(ks[0], s2) == Ok::<(Operand, Seq<TokenView>), Seq<char>>((a3, s3)));
    assert(pop_operands(ks, 0, s3) == Ok::<Seq<Operand>, Seq<char>>(Seq::empty()));
    assert(Seq::<Operand>::empty().push(a3) =~= seq![a3]);
    assert(pop_operands(ks, 1, s2) == Ok::<Seq<Operand>, Seq<char>>(seq![a3]));
    assert(seq![a3].push(a2) =~= seq![a3, a2]);
    assert(pop_operands(ks, 2, s1) == Ok::<Seq<Operand>, Seq<char>>(seq![a3, a2]));
    assert(seq![a3, a2].push(a1) =~= seq![a3, a2, a1]);
    assert(pop_operands(ks, 3, st) == Ok::<Seq<Operand>, Seq<char>>(seq![a3, a2, a1]));
    lemma_operator_double_quote(seq![a3, a2, a1]);
}

/// `BDC` and `DP` take the tag name below the properties operand on top of
/// the stack: `BDC` begins marked content and `DP` marks a point with it.
pub proof fn lemma_marked_content_properties_operators(st: Seq<TokenView>)
    requires
        st.len() >= 2 && st[st.len() - 2] is Name,
    ensures
        operator_result("BDC"@, st) == Ok::<OperationView, Seq<char>>(OperationView::BeginMarkedContentWithProps(st[st.len() - 2]->Name_0, Seq::empty())),
        operator_result("DP"@, st) == Ok::<OperationView, Seq<char>>(OperationView::DefineMarkedContentPointWithProps(st[st.len() - 2]->Name_0, Seq::empty())),
{
    let n = st.len() as int;
    let ks = seq![OperandKind::Name, OperandKind::Properties];
    let s1 = st.drop_last();
    let s2 = s1.drop_last();
    assert(s1[n - 2] == st[n - 2]);
    let a1 = Operand::Properties;
    let a2 = Operand::Name(st[n - 2]->Name_0);
    assert(pop_operand(ks[1], st) == Ok::<(Operand, Seq<TokenView>), Seq<char>>((a1, s1)));
    assert(pop_operand(ks[0], s1) == Ok::<(Operand, Seq<TokenView>), Seq<char>>((a2, s2)));
    assert(pop_operands(ks, 0, s2) == Ok::<Seq<Operand>, Seq<char>>(Seq::empty()));
    assert(Seq::<Operand>::empty().push(a2) =~= seq![a2]);
    assert(pop_operands(ks, 1, s1) == Ok::<Seq<Operand>, Seq<char>>(seq![a2]));
    assert(seq![a2].push(a1) =~= seq![a2, a1]);
    assert(pop_operands(ks, 2, st) == Ok::<Seq<Operand>, Seq<char>>(seq![a2, a1]));
    lemma_operator_bdc(seq![a2, a1]);
    lemma_operator_dp(seq![a2, a1]);
}

/// Operand tokens before the next operator only pile up on the stack.
proof fn lemma_run_operands(ts: Seq<TokenView>, pos: int, k: int, st: Seq<TokenView>, acc: Seq<OperationView>)
    requires
        0 <= pos <= k <= ts.len(),
        forall|i: int| pos <= i < k ==> !(#[trigger] ts[i] is Operator),
    ensures
        run_operations(ts, pos, st, acc) == run_operations(ts, k, st + ts.subrange(pos, k), acc),
    decreases k - pos,
{
    if pos < k {
        assert(!(ts[pos] is Operator));
        lemma_run_operands(ts, pos + 1, k, st.push(ts[pos]), acc);
        assert(st.push(ts[pos]) + ts.subrange(pos + 1, k) =~= st + ts.subrange(pos, k));
    } else {
        assert(st + ts.subrange(pos, k) =~= st);
    }
}

/// A stream of operand tokens followed by one operator (other than `BI`)
/// yields exactly the one operation that the operator makes of those
/// operands, or that operator's error after the last token.
pub proof fn lemma_single_operation(operands: Seq<TokenView>, op: Seq<char>)
    requires
        forall|i: int| 0 <= i < operands.len() ==> !(#[trigger] operands[i] is Operator),
        op != "BI"@,
    ensures
        run_operations(operands.push(TokenView::Operator(op)), 0, Seq::empty(), Seq::empty()) == (match operator_result(
            op,
            operands,
        ) {
            Ok(v) => Ok::<Seq<OperationView>, (int, Seq<char>)>(seq![v]),
            Err(m) => Err(((operands.len() + 1) as int, m)),
        }),
{
    let ts = operands.push(TokenView::Operator(op));
    let n = operands.len() as int;
    assert forall|i: int| 0 <= i < n implies !(#[trigger] ts[i] is Operator) by {
        assert(ts[i] == operands[i]);
    }
    lemma_run_operands(ts, 0, n, Seq::empty(), Seq::empty());
    assert(Seq::<TokenView>::empty() + ts.subrange(0, n) =~= operands);
    assert(ts[n] == TokenView::Operator(op));
    assert(ts.len() == n + 1);
    match operator_result(op, operands) {
        Ok(v) => {
            assert(Seq::<OperationView>::empty().push(v) =~= seq![v]);
            assert(run_operations(ts, n + 1, Seq::empty(), seq![v]) == Ok::<Seq<OperationView>, (int, Seq<char>)>(
                seq![v],
            ));
            assert(run_operations(ts, n, operands, Seq::empty()) == run_operations(
                ts,
                n + 1,
                Seq::empty(),
                seq![v],
            ));
        },
        Err(m) => {
            assert(run_operations(ts, n, operands, Seq::empty()) == Err::<Seq<OperationView>, (int, Seq<char>)>(
                (n + 1, m),
            ));
        },
    }
}

/// Three numbers followed by `RG` are exactly one operation setting the
/// stroking colour to those numbers, and followed by `rg` one setting the
/// non-stroking colour.
pub proof fn lemma_rgb_stream(r: TokenView, g: TokenView, b: TokenView)
    requires
        is_numeric(r) && is_numeric(g) && is_numeric(b),
    ensures
        run_operations(seq![r, g, b, TokenView::Operator("RG"@)], 0, Seq::empty(), Seq::empty()) == Ok::<
            Seq<OperationView>,
            (int, Seq<char>),
        >(seq![OperationView::SetStrokingRGB(token_number(r), token_number(g), token_number(b))]),
        run_operations(seq![r, g, b, TokenView::Operator("rg"@)], 0, Seq::empty(), Seq::empty()) == Ok::<
            Seq<OperationView>,
            (int, Seq<char>),
        >(seq![OperationView::SetNonStrokingRGB(token_number(r), token_number(g), token_number(b))]),
{
    let st = seq![r, g, b];
    reveal_strlit("RG");
    reveal_strlit("rg");
    reveal_strlit("BI");
    assert("RG"@ != "BI"@) by {
        assert("RG"@[1] != "BI"@[1]);
    }
    assert("rg"@ != "BI"@) by {
        assert("rg"@[0] != "BI"@[0]);
    }
    assert(seq![r, g, b, TokenView::Operator("RG"@)] =~= st.push(TokenView::Operator("RG"@)));
    assert(seq![r, g, b, TokenView::Operator("rg"@)] =~= st.push(TokenView::Operator("rg"@)));
    lemma_rgb_operators(st);
    lemma_single_operation(st, "RG"@);
    lemma_single_operation(st, "rg"@);
}

/// `K` sets the stroking colour and `k` the non-stroking colour to the
/// four numbers on top of the stack, in the order they were written.
pub proof fn lemma_cmyk_operators(st: Seq<TokenView>)
    requires
        st.len() >= 4 && is_numeric(st[st.len() - 4]) && is_numeric(st[st.len() - 3]) && is_numeric(st[st.len() - 2])
            && is_numeric(st[st.len() - 1]),
    ensures
        operator_result("K"@, st) == Ok::<OperationView, Seq<char>>(OperationView::SetStrokingCMYK(token_number(st[st.len() - 4]), token_number(st[st.len() - 3]), token_number(st[st.len() - 2]), token_number(st[st.len() - 1]))),
        operator_result("k"@, st) == Ok::<OperationView, Seq<char>>(OperationView::SetNonStrokingCMYK(token_number(st[st.len() - 4]), token_number(st[st.len() - 3]), token_number(st[st.len() - 2]), token_number(st[st.len() - 1]))),
{
    let n = st.len() as int;
    let ks = seq![OperandKind::Number, OperandKind::Number, OperandKind::Number, OperandKind::Number];
    let s1 = st.drop_last();
    let s2 = s1.drop_last();
    let s3 = s2.drop_last();
    let s4 = s3.drop_last();
    assert(s1[n - 2] == st[n - 2]);
    assert(s2[n - 3] == st[n - 3]);
    assert(s3[n - 4] == st[n - 4]);
    let a1 = Operand::Number(token_number(st[n - 1]));
    let a2 = Operand::Number(token_number(st[n - 2]));
    let a3 = Operand::Number(token_number(st[n - 3]));
    let a4 = Operand::Number(token_number(st[n - 4]));
    assert(pop_operand(ks[3], st) == Ok::<(Operand, Seq<TokenView>), Seq<char>>((a1, s1)));
    assert(pop_operand(ks[2], s1) == Ok::<(Operand, Seq<TokenView>), Seq<char>>((a2, s2)));
    assert(pop_operand(ks[1], s2) == Ok::<(Operand, Seq<TokenView>), Seq<char>>((a3, s3)));
    assert(pop_operand(ks[0], s3) == Ok::<(Operand, Seq<TokenView>), Seq<char>>((a4, s4)));
    assert(pop_operands(ks, 0, s4) == Ok::<Seq<Operand>, Seq<char>>(Seq::empty()));
    assert(pop_operands(ks, 1, s3) == Ok::<Seq<Operand>, Seq<char>>(seq![a4]));
    assert(seq![a4].push(a3) =~= seq![a4, a3]);
    assert(pop_operands(ks, 2, s2) == Ok::<Seq<Operand>, Seq<char>>(seq![a4, a3]));
    assert(seq![a4, a3].push(a2) =~= seq![a4, a3, a2]);
    assert(pop_operands(ks, 3, s1) == Ok::<Seq<Operand>, Seq<char>>(seq![a4, a3, a2]));
    assert(seq![a4, a3, a2].push(a1) =~= seq![a4, a3, a2, a1]);
    assert(pop_operands(ks, 4, st) == Ok::<Seq<Operand>, Seq<char>>(seq![a4, a3, a2, a1]));
    lemma_operator_k_upper(seq![Operand::Number(token_number(st[st.len() - 4])), Operand::Number(token_number(st[st.len() - 3])), Operand::Number(token_number(st[st.len() - 2])), Operand::Number(token_number(st[st.len() - 1]))]);
    lemma_operator_k_lower(seq![Operand::Number(token_number(st[st.len() - 4])), Operand::Number(token_number(st[st.len() - 3])), Operand::Number(token_number(st[st.len() - 2])), Operand::Number(token_number(st[st.len() - 1]))]);
}

/// `G` sets the stroking gray level and `g` the non-stroking one to the
/// number on top of the stack.
pub proof fn lemma_gray_operators(st: Seq<TokenView>)
    requires
        st.len() >= 1 && is_numeric(st[st.len() - 1]),
    ensures
        operator_result("G"@, st) == Ok::<OperationView, Seq<char>>(OperationView::SetStrokingGray(token_number(st[st.len() - 1]))),
        operator_result("g"@, st) == Ok::<OperationView, Seq<char>>(OperationView::SetNonStrokingGray(token_number(st[st.len() - 1]))),
{
    reveal_with_fuel(pop_operands, 5);
    assert(pop_operands(seq![OperandKind::Number], 1, st) == Ok::<Seq<Operand>, Seq<char>>(seq![Operand::Number(token_number(st[st.len() - 1]))]));
    lemma_operator_g_upper(seq![Operand::Number(token_number(st[st.len() - 1]))]);
    lemma_operator_g_lower(seq![Operand::Number(token_number(st[st.len() - 1]))]);
}

/// `CS` sets the stroking colour space and `cs` the non-stroking one to
/// the name on top of the stack.
pub proof fn lemma_color_space_operators(st: Seq<TokenView>)
    requires
        st.len() >= 1 && st[st.len() - 1] is Name,
    ensures
        operator_result("CS"@, st) == Ok::<OperationView, Seq<char>>(OperationView::SetStrokingColorSpace(st[st.len() - 1]->Name_0)),
        operator_result("cs"@, st) == Ok::<OperationView, Seq<char>>(OperationView::SetNonStrokingColorSpace(st[st.len() - 1]->Name_0)),
{
    reveal_with_fuel(pop_operands, 5);
    assert(pop_operands(seq![OperandKind::Name], 1, st) == Ok::<Seq<Operand>, Seq<char>>(seq![Operand::Name(st[st.len() - 1]->Name_0)]));
    lemma_operator_cs_upper(seq![Operand::Name(st[st.len() - 1]->Name_0)]);
    lemma_operator_cs_lower(seq![Operand::Name(st[st.len() - 1]->Name_0)]);
}

/// `SC` and `SCN` set the stroking colour and `sc` and `scn` the
/// non-stroking colour to the numbers on the stack, in written order.
pub proof fn lemma_color_components_operators(st: Seq<TokenView>)
    requires
        forall|i: int| 0 <= i < st.len() ==> is_numeric(#[trigger] st[i]),
    ensures
        operator_result("SC"@, st) == Ok::<OperationView, Seq<char>>(OperationView::SetStrokingColor(token_numbers(st))),
        operator_result("SCN"@, st) == Ok::<OperationView, Seq<char>>(OperationView::SetStrokingColor(token_numbers(st))),
        operator_result("sc"@, st) == Ok::<OperationView, Seq<char>>(OperationView::SetNonStrokingColor(token_numbers(st))),
        operator_result("scn"@, st) == Ok::<OperationView, Seq<char>>(OperationView::SetNonStrokingColor(token_numbers(st))),
{
    lemma_numeric_run_start_all(st, st.len() as int);
    assert(st.subrange(0, st.len() as int) =~= st);
    reveal_with_fuel(pop_operands, 5);
    assert(pop_operands(seq![OperandKind::Components], 1, st) == Ok::<Seq<Operand>, Seq<char>>(seq![Operand::Components(token_numbers(st))]));
    lemma_operator_sc_upper(seq![Operand::Components(token_numbers(st))]);
    lemma_operator_scn_upper(seq![Operand::Components(token_numbers(st))]);
    lemma_operator_sc_lower(seq![Operand::Components(token_numbers(st))]);
    lemma_operator_scn_lower(seq![Operand::Components(token_numbers(st))]);
}

} // verus!

verus! {

/// Whether a token is a number.
fn is_numeric_token(t: &Token) -> (b: bool)
    ensures
        b == is_numeric(token_view(*t)),
{
    matches!(t, Token::Number(_) | Token::Integer(_))
}

/// The tokens below the end of a run of numbers, from its start, are numbers.
proof fn lemma_numeric_run(st: Seq<TokenView>, n: int, k: int)
    requires
        numeric_run_start(st, n) <= k < n,
    ensures
        is_numeric(st[k]),
    decreases n,
{
    if n > 0 && is_numeric(st[n - 1]) && k < n - 1 {
        lemma_numeric_run(st, n - 1, k);
    }
}

} // verus!

verus! {

/// A copy of a token.
fn copy_token(t: &Token) -> (c: Token)
    ensures
        token_view(c) == token_view(*t),
{
    match t {
        Token::Number(s) => Token::Number(s.clone()),
        Token::Integer(i) => Token::Integer(*i),
        Token::String(v) => Token::String(bytes_to_vec(v.as_slice())),
        Token::HexString(v) => Token::HexString(bytes_to_vec(v.as_slice())),
        Token::Name(s) => Token::Name(s.clone()),
        Token::Operator(s) => Token::Operator(s.clone()),
        Token::ArrayStart => Token::ArrayStart,
        Token::ArrayEnd => Token::ArrayEnd,
        Token::DictStart => Token::DictStart,
        Token::DictEnd => Token::DictEnd,
    }
}

/// Content stream parser: the tokens of a stream and the index of the
/// next one.
pub struct ContentParser {
    tokens: Vec<Token>,
    position: usize,
}

impl ContentParser {
    /// The tokens being parsed.
    pub closed spec fn tokens(&self) -> Seq<TokenView> {
        tokens_view(self.tokens@)
    }

    /// The index of the next token.
    pub closed spec fn pos(&self) -> int {
        self.position as int
    }

    /// Create a new content parser, with no tokens.
    pub fn new(_content: &[u8]) -> (p: Self)
        ensures
            p.tokens().len() == 0,
            p.pos() == 0,
    {
        ContentParser { tokens: Vec::new(), position: 0 }
    }

    /// Parse a content stream into its operations.
    pub fn parse(content: &[u8]) -> (r: ParseResult<Vec<ContentOperation>>)
        requires
            !(tokenize_from(content@, 0, Seq::empty()) is Stall),
        ensures
            parse_outcome(content@, r),
    {
        Self::parse_content(content)
    }

    /// Parse a content stream into its operations: read all its tokens,
    /// then the operators with their operands.
    pub fn parse_content(content: &[u8]) -> (r: ParseResult<Vec<ContentOperation>>)
        requires
            !(tokenize_from(content@, 0, Seq::empty()) is Stall),
        ensures
            parse_outcome(content@, r),
    {
        let mut tokenizer = ContentTokenizer::new(content);
        let mut tokens: Vec<Token> = Vec::new();
        proof {
            assert(tokens_view(tokens@) =~= Seq::<TokenView>::empty());
        }
        loop
            invariant
                tokenizer.input() == content@,
                0 <= tokenizer.pos() <= content@.len(),
                tokenize_from(content@, 0, Seq::empty()) == tokenize_from(
                    content@,
                    tokenizer.pos(),
                    tokens_view(tokens@),
                ),
                !(tokenize_from(content@, 0, Seq::empty()) is Stall),
            ensures
                tokenize_from(content@, 0, Seq::empty()) == Tokenized::Tokens(tokens_view(tokens@)),
            decreases content@.len() - tokenizer.pos(),
        {
            let ghost before = tokenizer.pos();
            match tokenizer.next_token() {
                Ok(Some(t)) => {
                    proof {
                        assert(tokens_view(tokens@.push(t)) =~= tokens_view(tokens@).push(token_view(t)));
                    }
                    tokens.push(t);
                },
                Ok(None) => {
                    proof {
                        lemma_skip_ws(content@, before);
                    }
                    break;
                },
                Err(e) => {
                    return Err(e);
                },
            }
        }
        let mut parser = ContentParser { tokens, position: 0 };
        parser.parse_operators()
    }
}

/// Whether reading the tokens of a content stream comes to an end (at
/// the end of the data or at a malformed token) rather than sticking at a
/// token that does not advance; `parse` may be called exactly then.
pub fn tokenizing_ends(content: &[u8]) -> (b: bool)
    ensures
        b == !(tokenize_from(content@, 0, Seq::empty()) is Stall),
{
    let mut tokenizer = ContentTokenizer::new(content);
    let ghost mut acc: Seq<TokenView> = Seq::empty();
    loop
        invariant
            tokenizer.input() == content@,
            0 <= tokenizer.pos() <= content@.len(),
            tokenize_from(content@, 0, Seq::empty()) == tokenize_from(content@, tokenizer.pos(), acc),
        decreases content@.len() - tokenizer.pos(),
    {
        let before = tokenizer.position;
        match tokenizer.next_token() {
            Ok(Some(t)) => {
                if tokenizer.position <= before || tokenizer.position > content.len() {
                    return false;
                }
                proof {
                    acc = acc.push(token_view(t));
                }
            },
            Ok(None) => {
                return true;
            },
            Err(_) => {
                return true;
            },
        }
    }
}

/// What parsing a content stream gives: the operations, or an error at a
/// position (a byte of the input for a malformed token, else the index of
/// the token after the operator) with its message.
pub open spec fn parse_outcome(input: Seq<u8>, r: ParseResult<Vec<ContentOperation>>) -> bool {
    match tokenize_from(input, 0, Seq::empty()) {
        Tokenized::Tokens(ts) => match run_operations(ts, 0, Seq::empty(), Seq::empty()) {
            Ok(ops) => r matches Ok(v) && operations_view(v@) == ops,
            Err((p, m)) => r matches Err(ParseError::SyntaxError { position, message }) && position == p
                && message@ == m,
        },
        Tokenized::Fail(q, m) => r matches Err(ParseError::SyntaxError { position, message }) && position == q
            && message@ == m,
        Tokenized::Stall => false,
    }
}

} // verus!

verus! {

impl ContentParser {
    /// Parse the operators from the current token on.
    fn parse_operators(&mut self) -> (r: ParseResult<Vec<ContentOperation>>)
        requires
            old(self).pos() <= old(self).tokens().len(),
        ensures
            match run_operations(old(self).tokens(), old(self).pos(), Seq::empty(), Seq::empty()) {
                Ok(ops) => r matches Ok(v) && operations_view(v@) == ops,
                Err((p, m)) => r matches Err(ParseError::SyntaxError { position, message }) && position
                    == p && message@ == m,
            },
    {
        let ghost ts = self.tokens();
        let ghost start = self.pos();
        let mut operators: Vec<ContentOperation> = Vec::new();
        let mut operand_stack: Vec<Token> = Vec::new();
        proof {
            assert(tokens_view(operand_stack@) =~= Seq::<TokenView>::empty());
            assert(operations_view(operators@) =~= Seq::<OperationView>::empty());
        }
        while self.position < self.tokens.len()
            invariant
                ts == old(self).tokens(),
                start == old(self).pos(),
                self.tokens() == ts,
                self.position <= self.tokens.len(),
                run_operations(ts, start, Seq::empty(), Seq::empty()) == run_operations(
                    ts,
                    self.pos(),
                    tokens_view(operand_stack@),
                    operations_view(operators@),
                ),
            decreases self.tokens.len() - self.position,
        {
            let token = copy_token(&self.tokens[self.position]);
            let ghost p = self.pos();
            proof {
                assert(ts[p] == token_view(token));
            }
            self.position = self.position + 1;
            match &token {
                Token::Operator(op) => {
                    let ghost st0 = tokens_view(operand_stack@);
                    let ghost acc0 = operations_view(operators@);
                    let res = self.parse_operator(op.as_str(), &mut operand_stack);
                    proof {
                        if op@ != "BI"@ {
                            assert(run_operations(ts, p, st0, acc0) == match operator_result(op@, st0) {
                                Ok(v) => run_operations(ts, p + 1, Seq::empty(), acc0.push(v)),
                                Err(m) => Err((p + 1, m)),
                            });
                        }
                    }
                    let operator = match res {
                        Ok(o) => o,
                        Err(e) => {
                            return Err(e);
                        },
                    };
                    proof {
                        lemma_inline_image_end(ts, p + 1);
                        assert(operations_view(operators@.push(operator)) =~= operations_view(operators@).push(
                            operation_view(operator),
                        ));
                        assert(tokens_view(operand_stack@) =~= Seq::<TokenView>::empty());
                    }
                    operators.push(operator);
                },
                _ => {
                    proof {
                        assert(tokens_view(operand_stack@.push(token)) =~= tokens_view(operand_stack@).push(
                            token_view(token),
                        ));
                    }
                    operand_stack.push(token);
                },
            }
        }
        Ok(operators)
    }

    /// Skip an inline image: the tokens up to and including the next `EI`.
    fn parse_inline_image(&mut self) -> (r: ParseResult<ContentOperation>)
        requires
            old(self).pos() <= old(self).tokens().len(),
        ensures
            final(self).tokens() == old(self).tokens(),
            final(self).pos() == inline_image_end(old(self).tokens(), old(self).pos()),
            r matches Ok(ContentOperation::BeginInlineImage),
    {
        let ghost ts = self.tokens();
        let ghost target = inline_image_end(ts, self.pos());
        while self.position < self.tokens.len()
            invariant_except_break
                target == inline_image_end(ts, self.pos()),
            invariant
                self.tokens() == ts,
                self.position <= self.tokens.len(),
            ensures
                target == self.pos(),
            decreases self.tokens.len() - self.position,
        {
            let is_end = match &self.tokens[self.position] {
                Token::Operator(op) => str_eq(op.as_str(), "EI"),
                _ => false,
            };
            if is_end {
                self.position = self.position + 1;
                break;
            }
            self.position = self.position + 1;
        }
        Ok(ContentOperation::BeginInlineImage)
    }

    /// The error of a malformed operator, at the current token.
    fn operand_error(&self, message: &str) -> (e: ParseError)
        ensures
            e matches ParseError::SyntaxError { position, message: m } && position == self.pos() && m@
                == message@,
    {
        ParseError::SyntaxError { position: self.position, message: String::from_str(message) }
    }

    /// Pop a number (real or integer).
    fn pop_number(&self, operands: &mut Vec<Token>) -> (r: ParseResult<ContentNumber>)
        ensures
            match pop_operand(OperandKind::Number, tokens_view(old(operands)@)) {
                Ok((a, rest)) => r matches Ok(n) && a == Operand::Number(number_view(n)) && tokens_view(
                    final(operands)@,
                ) == rest,
                Err(m) => r matches Err(ParseError::SyntaxError { position, message }) && position
                    == self.pos() && message@ == m,
            },
    {
        proof {
            if old(operands)@.len() > 0 {
                assert(tokens_view(old(operands)@).drop_last() =~= tokens_view(old(operands)@.drop_last()));
            }
        }
        match operands.pop() {
            Some(Token::Number(s)) => Ok(ContentNumber::Real(s)),
            Some(Token::Integer(i)) => Ok(ContentNumber::Integer(i)),
            _ => Err(self.operand_error("Expected number operand")),
        }
    }

    /// Pop an integer.
    fn pop_integer(&self, operands: &mut Vec<Token>) -> (r: ParseResult<i32>)
        ensures
            match pop_operand(OperandKind::Integer, tokens_view(old(operands)@)) {
                Ok((a, rest)) => r matches Ok(i) && a == Operand::Integer(i) && tokens_view(final(operands)@)
                    == rest,
                Err(m) => r matches Err(ParseError::SyntaxError { position, message }) && position
                    == self.pos() && message@ == m,
            },
    {
        proof {
            if old(operands)@.len() > 0 {
                assert(tokens_view(old(operands)@).drop_last() =~= tokens_view(old(operands)@.drop_last()));
            }
        }
        match operands.pop() {
            Some(Token::Integer(i)) => Ok(i),
            _ => Err(self.operand_error("Expected integer operand")),
        }
    }

    /// Pop a name.
    fn pop_name(&self, operands: &mut Vec<Token>) -> (r: ParseResult<String>)
        ensures
            match pop_operand(OperandKind::Name, tokens_view(old(operands)@)) {
                Ok((a, rest)) => r matches Ok(s) && a == Operand::Name(s@) && tokens_view(final(operands)@)
                    == rest,
                Err(m) => r matches Err(ParseError::SyntaxError { position, message }) && position
                    == self.pos() && message@ == m,
            },
    {
        proof {
            if old(operands)@.len() > 0 {
                assert(tokens_view(old(operands)@).drop_last() =~= tokens_view(old(operands)@.drop_last()));
            }
        }
        match operands.pop() {
            Some(Token::Name(n)) => Ok(n),
            _ => Err(self.operand_error("Expected name operand")),
        }
    }

    /// Pop a literal or hexadecimal string.
    fn pop_string(&self, operands: &mut Vec<Token>) -> (r: ParseResult<Vec<u8>>)
        ensures
            match pop_operand(OperandKind::Text, tokens_view(old(operands)@)) {
                Ok((a, rest)) => r matches Ok(v) && a == Operand::Text(v@) && tokens_view(final(operands)@)
                    == rest,
                Err(m) => r matches Err(ParseError::SyntaxError { position, message }) && position
                    == self.pos() && message@ == m,
            },
    {
        proof {
            if old(operands)@.len() > 0 {
                assert(tokens_view(old(operands)@).drop_last() =~= tokens_view(old(operands)@.drop_last()));
            }
        }
        match operands.pop() {
            Some(Token::String(s)) => Ok(s),
            Some(Token::HexString(s)) => Ok(s),
            _ => Err(self.operand_error("Expected string operand")),
        }
    }

    /// Pop the tokens after the last `[` on the stack, and the `[`.
    fn pop_array(&self, operands: &mut Vec<Token>) -> (r: ParseResult<Vec<Token>>)
        ensures
            match pop_operand(OperandKind::Array, tokens_view(old(operands)@)) {
                Ok((a, rest)) => r matches Ok(v) && a == Operand::Array(tokens_view(v@)) && tokens_view(
                    final(operands)@,
                ) == rest,
                Err(m) => r matches Err(ParseError::SyntaxError { position, message }) && position
                    == self.pos() && message@ == m,
            },
    {
        let ghost st = tokens_view(operands@);
        let n = operands.len();
        let mut i: usize = n;
        loop
            invariant
                i <= n,
                n == operands.len(),
                st == tokens_view(operands@),
                last_array_start(st, n as int) == last_array_start(st, i as int),
            ensures
                i <= n,
                n == operands.len(),
                st == tokens_view(operands@),
                last_array_start(st, n as int) == i - 1,
            decreases i,
        {
            if i == 0 {
                break;
            }
            if matches!(operands[i - 1], Token::ArrayStart) {
                break;
            }
            i = i - 1;
        }
        if i == 0 {
            return Err(self.operand_error("Expected array"));
        }
        let array = operands.split_off(i);
        operands.pop();
        proof {
            assert(tokens_view(array@) =~= st.subrange(i as int, n as int));
            assert(tokens_view(operands@) =~= st.take(i - 1));
        }
        Ok(array)
    }

    /// Pop a property list or a name: one token, if any; nothing of it is kept.
    fn pop_dict_or_name(&self, operands: &mut Vec<Token>) -> (r: ParseResult<Vec<(String, String)>>)
        ensures
            match pop_operand(OperandKind::Properties, tokens_view(old(operands)@)) {
                Ok((a, rest)) => r matches Ok(v) && a == Operand::Properties && v@ == Seq::<(String, String)>::empty()
                    && tokens_view(
                    final(operands)@,
                ) == rest,
                Err(m) => false,
            },
    {
        proof {
            if old(operands)@.len() > 0 {
                assert(tokens_view(old(operands)@).drop_last() =~= tokens_view(old(operands)@.drop_last()));
            }
        }
        operands.pop();
        let props: Vec<(String, String)> = Vec::new();
        proof {
            assert(props@ =~= Seq::<(String, String)>::empty());
        }
        Ok(props)
    }

    /// Pop the numbers at the top of the stack, in written order.
    fn pop_color_components(&self, operands: &mut Vec<Token>) -> (r: ParseResult<Vec<ContentNumber>>)
        ensures
            match pop_operand(OperandKind::Components, tokens_view(old(operands)@)) {
                Ok((a, rest)) => r matches Ok(v) && a == Operand::Components(numbers_view(v@)) && tokens_view(
                    final(operands)@,
                ) == rest,
                Err(m) => false,
            },
    {
        let ghost st = tokens_view(operands@);
        let n = operands.len();
        let mut i: usize = n;
        while i > 0 && is_numeric_token(&operands[i - 1])
            invariant
                i <= n,
                n == operands.len(),
                st == tokens_view(operands@),
                numeric_run_start(st, n as int) == numeric_run_start(st, i as int),
            decreases i,
        {
            i = i - 1;
        }
        let run = operands.split_off(i);
        let ghost run_view = st.subrange(i as int, n as int);
        proof {
            assert(tokens_view(run@) =~= run_view);
            assert(tokens_view(operands@) =~= st.take(i as int));
            assert forall|k: int| 0 <= k < run_view.len() implies is_numeric(#[trigger] run_view[k]) by {
                lemma_numeric_run(st, n as int, i as int + k);
            }
        }
        let mut components: Vec<ContentNumber> = Vec::new();
        let mut j: usize = 0;
        while j < run.len()
            invariant
                j <= run.len(),
                tokens_view(run@) == run_view,
                forall|k: int| 0 <= k < run_view.len() ==> is_numeric(#[trigger] run_view[k]),
                numbers_view(components@) == token_numbers(run_view.take(j as int)),
            decreases run.len() - j,
        {
            let c = match &run[j] {
                Token::Number(s) => ContentNumber::Real(s.clone()),
                Token::Integer(v) => ContentNumber::Integer(*v),
                _ => {
                    proof {
                        assert(is_numeric(run_view[j as int]));
                    }
                    vstd::pervasive::unreached()
                },
            };
            proof {
                assert(number_view(c) == token_number(run_view[j as int]));
                assert(numbers_view(components@.push(c)) =~= numbers_view(components@).push(number_view(c)));
                assert(token_numbers(run_view.take(j + 1)) =~= token_numbers(run_view.take(j as int)).push(
                    token_number(run_view[j as int]),
                ));
            }
            components.push(c);
            j = j + 1;
        }
        proof {
            assert(run_view.take(j as int) =~= run_view);
        }
        Ok(components)
    }

    /// The elements of a `TJ` array.
    fn parse_text_array(&self, tokens: Vec<Token>) -> (r: ParseResult<Vec<TextElement>>)
        ensures
            match text_array(tokens_view(tokens@)) {
                Ok(es) => r matches Ok(v) && text_elements_view(v@) == es,
                Err(m) => r matches Err(ParseError::SyntaxError { position, message }) && position
                    == self.pos() && message@ == m,
            },
    {
        let ghost ts = tokens_view(tokens@);
        let mut elements: Vec<TextElement> = Vec::new();
        let mut j: usize = 0;
        while j < tokens.len()
            invariant
                j <= tokens.len(),
                ts == tokens_view(tokens@),
                forall|k: int| 0 <= k < j ==> text_element_ok(#[trigger] ts[k]),
                text_elements_view(elements@) == text_elements_of(ts.take(j as int)),
            decreases tokens.len() - j,
        {
            let e = match &tokens[j] {
                Token::String(s) => TextElement::Text(bytes_to_vec(s.as_slice())),
                Token::HexString(s) => TextElement::Text(bytes_to_vec(s.as_slice())),
                Token::Number(s) => TextElement::Spacing(ContentNumber::Real(s.clone())),
                Token::Integer(v) => TextElement::Spacing(ContentNumber::Integer(*v)),
                _ => {
                    proof {
                        assert(!text_element_ok(ts[j as int]));
                    }
                    return Err(self.operand_error("Invalid element in text array"));
                },
            };
            proof {
                assert(text_element_view(e) == text_element_of(ts[j as int]));
                assert(text_elements_view(elements@.push(e)) =~= text_elements_view(elements@).push(
                    text_element_view(e),
                ));
                assert(text_elements_of(ts.take(j + 1)) =~= text_elements_of(ts.take(j as int)).push(
                    text_element_of(ts[j as int]),
                ));
            }
            elements.push(e);
            j = j + 1;
        }
        proof {
            assert(ts.take(j as int) =~= ts);
        }
        Ok(elements)
    }

    /// The numbers of a dash array.
    fn parse_dash_array(&self, tokens: Vec<Token>) -> (r: ParseResult<Vec<ContentNumber>>)
        ensures
            match dash_array(tokens_view(tokens@)) {
                Ok(ns) => r matches Ok(v) && numbers_view(v@) == ns,
                Err(m) => r matches Err(ParseError::SyntaxError { position, message }) && position
                    == self.pos() && message@ == m,
            },
    {
        let ghost ts = tokens_view(tokens@);
        let mut pattern: Vec<ContentNumber> = Vec::new();
        let mut j: usize = 0;
        while j < tokens.len()
            invariant
                j <= tokens.len(),
                ts == tokens_view(tokens@),
                forall|k: int| 0 <= k < j ==> is_numeric(#[trigger] ts[k]),
                numbers_view(pattern@) == token_numbers(ts.take(j as int)),
            decreases tokens.len() - j,
        {
            let n = match &tokens[j] {
                Token::Number(s) => ContentNumber::Real(s.clone()),
                Token::Integer(v) => ContentNumber::Integer(*v),
                _ => {
                    proof {
                        assert(!is_numeric(ts[j as int]));
                    }
                    return Err(self.operand_error("Invalid element in dash array"));
                },
            };
            proof {
                assert(number_view(n) == token_number(ts[j as int]));
                assert(numbers_view(pattern@.push(n)) =~= numbers_view(pattern@).push(number_view(n)));
                assert(token_numbers(ts.take(j + 1)) =~= token_numbers(ts.take(j as int)).push(
                    token_number(ts[j as int]),
                ));
            }
            pattern.push(n);
            j = j + 1;
        }
        proof {
            assert(ts.take(j as int) =~= ts);
        }
        Ok(pattern)
    }

    /// The operation of operator `op`, which takes its operands from
    /// `operands` and clears them; `BI` also skips the inline image. An
    /// unknown operator leaves the operands as they were.
    pub fn parse_operator(&mut self, op: &str, operands: &mut Vec<Token>) -> (r: ParseResult<ContentOperation>)
        requires
            old(self).pos() <= old(self).tokens().len(),
        ensures
            final(self).tokens() == old(self).tokens(),
            if op@ == "BI"@ {
                &&& r matches Ok(ContentOperation::BeginInlineImage)
                &&& final(self).pos() == inline_image_end(old(self).tokens(), old(self).pos())
                &&& final(operands)@.len() == 0
            } else {
                &&& final(self).pos() == old(self).pos()
                &&& operation_outcome(op@, tokens_view(old(operands)@), old(self).pos(), r)
                &&& r is Ok ==> final(operands)@.len() == 0
            },
            !is_text_state_operator(op@) && !is_graphics_state_operator(op@) && !is_path_operator(op@)
                && !is_color_operator(op@) && !is_other_operator(op@) && op@ != "BI"@ ==> final(
                operands)@ == old(operands)@,
    {
        if str_eq(op, "BI") {
            operands.clear();
            return self.parse_inline_image();
        }
        let found = match self.text_state_operation(op, operands) {
            Some(res) => Some(res),
            None => match self.graphics_state_operation(op, operands) {
                Some(res) => Some(res),
                None => match self.path_operation(op, operands) {
                    Some(res) => Some(res),
                    None => match self.color_operation(op, operands) {
                        Some(res) => Some(res),
                        None => self.other_operation(op, operands),
                    },
                },
            },
        };
        match found {
            Some(Ok(operator)) => {
                operands.clear();
                Ok(operator)
            },
            Some(Err(e)) => Err(e),
            None => Err(ParseError::SyntaxError {
                position: self.position,
                message: concat_str("Unknown operator: ", op),
            }),
        }
    }

    /// The operation of one of the text object, state, positioning and showing
    /// operators; `None` for another operator.
    fn text_state_operation(&self, op: &str, operands: &mut Vec<Token>) -> (r: Option<ParseResult<ContentOperation>>)
        ensures
            match r {
                None => final(operands)@ == old(operands)@ && !is_text_state_operator(op@),
                Some(res) => is_text_state_operator(op@) && operation_outcome(op@, tokens_view(old(operands)@), self.pos(), res),
            },
    {
        proof {
            reveal_with_fuel(pop_operands, 7);
        }
        let operator = if str_eq(op, "BT") {
            ContentOperation::BeginText
        } else if str_eq(op, "ET") {
            ContentOperation::EndText
        } else if str_eq(op, "Tc") {
            let spacing = match self.pop_number(operands) {
                Ok(x) => x,
                Err(e) => return Some(Err(e)),
            };
            ContentOperation::SetCharSpacing(spacing)
        } else if str_eq(op, "Tw") {
            let spacing = match self.pop_number(operands) {
                Ok(x) => x,
                Err(e) => return Some(Err(e)),
            };
            ContentOperation::SetWordSpacing(spacing)
        } else if str_eq(op, "Tz") {
            let scale = match self.pop_number(operands) {
                Ok(x) => x,
                Err(e) => return Some(Err(e)),
            };
            ContentOperation::SetHorizontalScaling(scale)
        } else if str_eq(op, "TL") {
            let leading = match self.pop_number(operands) {
                Ok(x) => x,
                Err(e) => return Some(Err(e)),
            };
            ContentOperation::SetLeading(leading)
        } else if str_eq(op, "Tf") {
            let size = match self.pop_number(operands) {
                Ok(x) => x,
                Err(e) => return Some(Err(e)),
            };
            let font = match self.pop_name(operands) {
                Ok(x) => x,
                Err(e) => return Some(Err(e)),
            };
            ContentOperation::SetFont(font, size)
        } else if str_eq(op, "Tr") {
            let mode = match self.pop_integer(operands) {
                Ok(x) => x,
                Err(e) => return Some(Err(e)),
            };
            ContentOperation::SetTextRenderMode(mode)
        } else if str_eq(op, "Ts") {
            let rise = match self.pop_number(operands) {
                Ok(x) => x,
                Err(e) => return Some(Err(e)),
            };
            ContentOperation::SetTextRise(rise)
        } else if str_eq(op, "Td") {
            let ty = match self.pop_number(operands) {
                Ok(x) => x,
                Err(e) => return Some(Err(e)),
            };
            let tx = match self.pop_number(operands) {
                Ok(x) => x,
                Err(e) => return Some(Err(e)),
            };
            ContentOperation::MoveText(tx, ty)
        } else if str_eq(op, "TD") {
            let ty = match self.pop_number(operands) {
                Ok(x) => x,
                Err(e) => return Some(Err(e)),
            };
            let tx = match self.pop_number(operands) {
                Ok(x) => x,
                Err(e) => return Some(Err(e)),
            };
            ContentOperation::MoveTextSetLeading(tx, ty)
        } else if str_eq(op, "Tm") {
            let f = match self.pop_number(operands) {
                Ok(x) => x,
                Err(e) => return Some(Err(e)),
            };
            let e = match self.pop_number(operands) {
                Ok(x) => x,
                Err(e) => return Some(Err(e)),
            };
            let d = match self.pop_number(operands) {
                Ok(x) => x,
                Err(e) => return Some(Err(e)),
            };
            let c = match self.pop_number(operands) {
                Ok(x) => x,
                Err(e) => return Some(Err(e)),
            };
            let b = match self.pop_number(operands) {
                Ok(x) => x,
                Err(e) => return Some(Err(e)),
            };
            let a = match self.pop_number(operands) {
                Ok(x) => x,
                Err(e) => return Some(Err(e)),
            };
            ContentOperation::SetTextMatrix(a, b, c, d, e, f)
        } else if str_eq(op, "T*") {
            ContentOperation::NextLine
        } else if str_eq(op, "Tj") {
            let text = match self.pop_string(operands) {
                Ok(x) => x,
                Err(e) => return Some(Err(e)),
            };
            ContentOperation::ShowText(text)
        } else if str_eq(op, "TJ") {
            let array = match self.pop_array(operands) {
                Ok(x) => x,
                Err(e) => return Some(Err(e)),
            };
            let elements = match self.parse_text_array(array) {
                Ok(x) => x,
                Err(e) => return Some(Err(e)),
            };
            ContentOperation::ShowTextArray(elements)
        } else if str_eq(op, "'") {
            let text = match self.pop_string(operands) {
                Ok(x) => x,
                Err(e) => return Some(Err(e)),
            };
            ContentOperation::NextLineShowText(text)
        } else if str_eq(op, "\"") {
            let text = match self.pop_string(operands) {
                Ok(x) => x,
                Err(e) => return Some(Err(e)),
            };
            let aw = match self.pop_number(operands) {
                Ok(x) => x,
                Err(e) => return Some(Err(e)),
            };
            let ac = match self.pop_number(operands) {
                Ok(x) => x,
                Err(e) => return Some(Err(e)),
            };
            ContentOperation::SetSpacingNextLineShowText(ac, aw, text)
        } else {
            return None;
        };
        Some(Ok(operator))
    }

    /// The operation of one of the graphics state operators; `None` for another operator.
    fn graphics_state_operation(&self, op: &str, operands: &mut Vec<Token>) -> (r: Option<ParseResult<ContentOperation>>)
        requires
            !is_text_state_operator(op@),
        ensures
            match r {
                None => final(operands)@ == old(operands)@ && !is_graphics_state_operator(op@),
                Some(res) => is_graphics_state_operator(op@) && operation_outcome(op@, tokens_view(old(operands)@), self.pos(), res),
            },
    {
        proof {
            reveal_with_fuel(pop_operands, 7);
        }
        let operator = if str_eq(op, "q") {
            ContentOperation::SaveGraphicsState
        } else if str_eq(op, "Q") {
            ContentOperation::RestoreGraphicsState
        } else if str_eq(op, "cm") {
            let f = match self.pop_number(operands) {
                Ok(x) => x,
                Err(e) => return Some(Err(e)),
            };
            let e = match self.pop_number(operands) {
                Ok(x) => x,
                Err(e) => return Some(Err(e)),
            };
            let d = match self.pop_number(operands) {
                Ok(x) => x,
                Err(e) => return Some(Err(e)),
            };
            let c = match self.pop_number(operands) {
                Ok(x) => x,
                Err(e) => return Some(Err(e)),
            };
            let b = match self.pop_number(operands) {
                Ok(x) => x,
                Err(e) => return Some(Err(e)),
            };
            let a = match self.pop_number(operands) {
                Ok(x) => x,
                Err(e) => return Some(Err(e)),
            };
            ContentOperation::SetTransformMatrix(a, b, c, d, e, f)
        } else if str_eq(op, "w") {
            let width = match self.pop_number(operands) {
                Ok(x) => x,
                Err(e) => return Some(Err(e)),
            };
            ContentOperation::SetLineWidth(width)
        } else if str_eq(op, "J") {
            let cap = match self.pop_integer(operands) {
                Ok(x) => x,
                Err(e) => return Some(Err(e)),
            };
            ContentOperation::SetLineCap(cap)
        } else if str_eq(op, "j") {
            let join = match self.pop_integer(operands) {
                Ok(x) => x,
                Err(e) => return Some(Err(e)),
            };
            ContentOperation::SetLineJoin(join)
        } else if str_eq(op, "M") {
            let limit = match self.pop_number(operands) {
                Ok(x) => x,
                Err(e) => return Some(Err(e)),
            };
            ContentOperation::SetMiterLimit(limit)
        } else if str_eq(op, "d") {
            let phase = match self.pop_number(operands) {
                Ok(x) => x,
                Err(e) => return Some(Err(e)),
            };
            let array = match self.pop_array(operands) {
                Ok(x) => x,
                Err(e) => return Some(Err(e)),
            };
            let pattern = match self.parse_dash_array(array) {
                Ok(x) => x,
                Err(e) => return Some(Err(e)),
            };
            ContentOperation::SetDashPattern(pattern, phase)
        } else if str_eq(op, "ri") {
            let intent = match self.pop_name(operands) {
                Ok(x) => x,
                Err(e) => return Some(Err(e)),
            };
            ContentOperation::SetIntent(intent)
        } else if str_eq(op, "i") {
            let flatness = match self.pop_number(operands) {
                Ok(x) => x,
                Err(e) => return Some(Err(e)),
            };
            ContentOperation::SetFlatness(flatness)
        } else if str_eq(op, "gs") {
            let name = match self.pop_name(operands) {
                Ok(x) => x,
                Err(e) => return Some(Err(e)),
            };
            ContentOperation::SetGraphicsStateParams(name)
        } else {
            return None;
        };
        Some(Ok(operator))
    }

    /// The operation of one of the path construction, painting and clipping
    /// operators; `None` for another operator.
    #[verifier::rlimit(50)]
    fn path_operation(&self, op: &str, operands: &mut Vec<Token>) -> (r: Option<ParseResult<ContentOperation>>)
        requires
            !is_text_state_operator(op@),
            !is_graphics_state_operator(op@),
        ensures
            match r {
                None => final(operands)@ == old(operands)@ && !is_path_operator(op@),
                Some(res) => is_path_operator(op@) && operation_outcome(op@, tokens_view(old(operands)@), self.pos(), res),
            },
    {
        proof {
            reveal_with_fuel(pop_operands, 7);
        }
        let operator = if str_eq(op, "m") {
            let y = match self.pop_number(operands) {
                Ok(x) => x,
                Err(e) => return Some(Err(e)),
            };
            let x = match self.pop_number(operands) {
                Ok(x) => x,
                Err(e) => return Some(Err(e)),
            };
            ContentOperation::MoveTo(x, y)
        } else if str_eq(op, "l") {
            let y = match self.pop_number(operands) {
                Ok(x) => x,
                Err(e) => return Some(Err(e)),
            };
            let x = match self.pop_number(operands) {
                Ok(x) => x,
                Err(e) => return Some(Err(e)),
            };
            ContentOperation::LineTo(x, y)
        } else if str_eq(op, "c") {
            let y3 = match self.pop_number(operands) {
                Ok(x) => x,
                Err(e) => return Some(Err(e)),
            };
            let x3 = match self.pop_number(operands) {
                Ok(x) => x,
                Err(e) => return Some(Err(e)),
            };
            let y2 = match self.pop_number(operands) {
                Ok(x) => x,
                Err(e) => return Some(Err(e)),
            };
            let x2 = match self.pop_number(operands) {
                Ok(x) => x,
                Err(e) => return Some(Err(e)),
            };
            let y1 = match self.pop_number(operands) {
                Ok(x) => x,
                Err(e) => return Some(Err(e)),
            };
            let x1 = match self.pop_number(operands) {
                Ok(x) => x,
                Err(e) => return Some(Err(e)),
            };
            ContentOperation::CurveTo(x1, y1, x2, y2, x3, y3)
        } else if str_eq(op, "v") {
            let y3 = match self.pop_number(operands) {
                Ok(x) => x,
                Err(e) => return Some(Err(e)),
            };
            let x3 = match self.pop_number(operands) {
                Ok(x) => x,
                Err(e) => return Some(Err(e)),
            };
            let y2 = match self.pop_number(operands) {
                Ok(x) => x,
                Err(e) => return Some(Err(e)),
            };
            let x2 = match self.pop_number(operands) {
                Ok(x) => x,
                Err(e) => return Some(Err(e)),
            };
            ContentOperation::CurveToV(x2, y2, x3, y3)
        } else if str_eq(op, "y") {
            let y3 = match self.pop_number(operands) {
                Ok(x) => x,
                Err(e) => return Some(Err(e)),
            };
            let x3 = match self.pop_number(operands) {
                Ok(x) => x,
                Err(e) => return Some(Err(e)),
            };
            let y1 = match self.pop_number(operands) {
                Ok(x) => x,
                Err(e) => return Some(Err(e)),
            };
            let x1 = match self.pop_number(operands) {
                Ok(x) => x,
                Err(e) => return Some(Err(e)),
            };
            ContentOperation::CurveToY(x1, y1, x3, y3)
        } else if str_eq(op, "h") {
            ContentOperation::ClosePath
        } else if str_eq(op, "re") {
            let height = match self.pop_number(operands) {
                Ok(x) => x,
                Err(e) => return Some(Err(e)),
            };
            let width = match self.pop_number(operands) {
                Ok(x) => x,
                Err(e) => return Some(Err(e)),
            };
            let y = match self.pop_number(operands) {
                Ok(x) => x,
                Err(e) => return Some(Err(e)),
            };
            let x = match self.pop_number(operands) {
                Ok(x) => x,
                Err(e) => return Some(Err(e)),
            };
            ContentOperation::Rectangle(x, y, width, height)
        } else if str_eq(op, "S") {
            ContentOperation::Stroke
        } else if str_eq(op, "s") {
            ContentOperation::CloseStroke
        } else if str_eq(op, "f") {
            ContentOperation::Fill
        } else if str_eq(op, "F") {
            ContentOperation::Fill
        } else if str_eq(op, "f*") {
            ContentOperation::FillEvenOdd
        } else if str_eq(op, "B") {
            ContentOperation::FillStroke
        } else if str_eq(op, "B*") {
            ContentOperation::FillStrokeEvenOdd
        } else if str_eq(op, "b") {
            ContentOperation::CloseFillStroke
        } else if str_eq(op, "b*") {
            ContentOperation::CloseFillStrokeEvenOdd
        } else if str_eq(op, "n") {
            ContentOperation::EndPath
        } else if str_eq(op, "W") {
            ContentOperation::Clip
        } else if str_eq(op, "W*") {
            ContentOperation::ClipEvenOdd
        } else {
            return None;
        };
        Some(Ok(operator))
    }

    /// The operation of one of the colour operators; `None` for another operator.
    fn color_operation(&self, op: &str, operands: &mut Vec<Token>) -> (r: Option<ParseResult<ContentOperation>>)
        requires
            !is_text_state_operator(op@),
            !is_graphics_state_operator(op@),
            !is_path_operator(op@),
        ensures
            match r {
                None => final(operands)@ == old(operands)@ && !is_color_operator(op@),
                Some(res) => is_color_operator(op@) && operation_outcome(op@, tokens_view(old(operands)@), self.pos(), res),
            },
    {
        proof {
            reveal_with_fuel(pop_operands, 7);
        }
        let operator = if str_eq(op, "CS") {
            let name = match self.pop_name(operands) {
                Ok(x) => x,
                Err(e) => return Some(Err(e)),
            };
            ContentOperation::SetStrokingColorSpace(name)
        } else if str_eq(op, "cs") {
            let name = match self.pop_name(operands) {
                Ok(x) => x,
                Err(e) => return Some(Err(e)),
            };
            ContentOperation::SetNonStrokingColorSpace(name)
        } else if str_eq(op, "SC") {
            let components = match self.pop_color_components(operands) {
                Ok(x) => x,
                Err(e) => return Some(Err(e)),
            };
            ContentOperation::SetStrokingColor(components)
        } else if str_eq(op, "SCN") {
            let components = match self.pop_color_components(operands) {
                Ok(x) => x,
                Err(e) => return Some(Err(e)),
            };
            ContentOperation::SetStrokingColor(components)
        } else if str_eq(op, "sc") {
            let components = match self.pop_color_components(operands) {
                Ok(x) => x,
                Err(e) => return Some(Err(e)),
            };
            ContentOperation::SetNonStrokingColor(components)
        } else if str_eq(op, "scn") {
            let components = match self.pop_color_components(operands) {
                Ok(x) => x,
                Err(e) => return Some(Err(e)),
            };
            ContentOperation::SetNonStrokingColor(components)
        } else if str_eq(op, "G") {
            let gray = match self.pop_number(operands) {
                Ok(x) => x,
                Err(e) => return Some(Err(e)),
            };
            ContentOperation::SetStrokingGray(gray)
        } else if str_eq(op, "g") {
            let gray = match self.pop_number(operands) {
                Ok(x) => x,
                Err(e) => return Some(Err(e)),
            };
            ContentOperation::SetNonStrokingGray(gray)
        } else if str_eq(op, "RG") {
            let b = match self.pop_number(operands) {
                Ok(x) => x,
                Err(e) => return Some(Err(e)),
            };
            let g = match self.pop_number(operands) {
                Ok(x) => x,
                Err(e) => return Some(Err(e)),
            };
            let r = match self.pop_number(operands) {
                Ok(x) => x,
                Err(e) => return Some(Err(e)),
            };
            ContentOperation::SetStrokingRGB(r, g, b)
        } else if str_eq(op, "rg") {
            let b = match self.pop_number(operands) {
                Ok(x) => x,
                Err(e) => return Some(Err(e)),
            };
            let g = match self.pop_number(operands) {
                Ok(x) => x,
                Err(e) => return Some(Err(e)),
            };
            let r = match self.pop_number(operands) {
                Ok(x) => x,
                Err(e) => return Some(Err(e)),
            };
            ContentOperation::SetNonStrokingRGB(r, g, b)
        } else if str_eq(op, "K") {
            let k = match self.pop_number(operands) {
                Ok(x) => x,
                Err(e) => return Some(Err(e)),
            };
            let y = match self.pop_number(operands) {
                Ok(x) => x,
                Err(e) => return Some(Err(e)),
            };
            let m = match self.pop_number(operands) {
                Ok(x) => x,
                Err(e) => return Some(Err(e)),
            };
            let c = match self.pop_number(operands) {
                Ok(x) => x,
                Err(e) => return Some(Err(e)),
            };
            ContentOperation::SetStrokingCMYK(c, m, y, k)
        } else if str_eq(op, "k") {
            let k = match self.pop_number(operands) {
                Ok(x) => x,
                Err(e) => return Some(Err(e)),
            };
            let y = match self.pop_number(operands) {
                Ok(x) => x,
                Err(e) => return Some(Err(e)),
            };
            let m = match self.pop_number(operands) {
                Ok(x) => x,
                Err(e) => return Some(Err(e)),
            };
            let c = match self.pop_number(operands) {
                Ok(x) => x,
                Err(e) => return Some(Err(e)),
            };
            ContentOperation::SetNonStrokingCMYK(c, m, y, k)
        } else {
            return None;
        };
        Some(Ok(operator))
    }

    /// The operation of one of the shading, XObject, marked content and compatibility
    /// operators; `None` for another operator.
    fn other_operation(&self, op: &str, operands: &mut Vec<Token>) -> (r: Option<ParseResult<ContentOperation>>)
        requires
            !is_text_state_operator(op@),
            !is_graphics_state_operator(op@),
            !is_path_operator(op@),
            !is_color_operator(op@),
        ensures
            match r {
                None => final(operands)@ == old(operands)@ && !is_other_operator(op@),
                Some(res) => is_other_operator(op@) && operation_outcome(op@, tokens_view(old(operands)@), self.pos(), res),
            },
    {
        proof {
            reveal_with_fuel(pop_operands, 7);
        }
        let operator = if str_eq(op, "sh") {
            let name = match self.pop_name(operands) {
                Ok(x) => x,
                Err(e) => return Some(Err(e)),
            };
            ContentOperation::ShadingFill(name)
        } else if str_eq(op, "Do") {
            let name = match self.pop_name(operands) {
                Ok(x) => x,
                Err(e) => return Some(Err(e)),
            };
            ContentOperation::PaintXObject(name)
        } else if str_eq(op, "BMC") {
            let tag = match self.pop_name(operands) {
                Ok(x) => x,
                Err(e) => return Some(Err(e)),
            };
            ContentOperation::BeginMarkedContent(tag)
        } else if str_eq(op, "BDC") {
            let props = match self.pop_dict_or_name(operands) {
                Ok(x) => x,
                Err(e) => return Some(Err(e)),
            };
            let tag = match self.pop_name(operands) {
                Ok(x) => x,
                Err(e) => return Some(Err(e)),
            };
            ContentOperation::BeginMarkedContentWithProps(tag, props)
        } else if str_eq(op, "EMC") {
            ContentOperation::EndMarkedContent
        } else if str_eq(op, "MP") {
            let tag = match self.pop_name(operands) {
                Ok(x) => x,
                Err(e) => return Some(Err(e)),
            };
            ContentOperation::DefineMarkedContentPoint(tag)
        } else if str_eq(op, "DP") {
            let props = match self.pop_dict_or_name(operands) {
                Ok(x) => x,
                Err(e) => return Some(Err(e)),
            };
            let tag = match self.pop_name(operands) {
                Ok(x) => x,
                Err(e) => return Some(Err(e)),
            };
            ContentOperation::DefineMarkedContentPointWithProps(tag, props)
        } else if str_eq(op, "BX") {
            ContentOperation::BeginCompatibility
        } else if str_eq(op, "EX") {
            ContentOperation::EndCompatibility
        } else {
            return None;
        };
        Some(Ok(operator))
    }
}

} // verus!
