//! The PDF object model (ISO 32000-1, 7.3) and the parser that builds
//! objects from the lexer's tokens.

use vstd::prelude::*;
use vstd::utf8::{decode_utf8, valid_utf8};
use crate::error::{ParseError, ParseResult};
use crate::filters::{decode_stream, decode_stream_spec, is_outcome, FilterEntry};
use crate::parse_options::{default_options, ParseOptions};
use crate::text::{decimal_seq, push_decimal, str_eq};
use vstd::string::StringSliceAdditionalSpecFns;
use crate::lexer::{
    keyword_matches, lemma_lex_progress, lemma_token_weight_push, lex_spec, step_len, step_peeked, token_debug_spec, token_result,
    token_view, token_debug, ws_end, keyword_ahead, ErrView, LexState, LexStep, Lexer, Token, TokenView, error_is,
};

verus! {

#[verifier::external_type_specification]
#[verifier::external_body]
pub struct ExUtf8Error(std::str::Utf8Error);

/// `std::str::from_utf8`: the bytes as text when they are valid UTF-8,
/// else the error describing the first invalid sequence. Claimed: success
/// exactly on valid UTF-8, with its decoding.
#[verifier::external_body]
fn str_from_utf8(bytes: &[u8]) -> (r: Result<&str, std::str::Utf8Error>)
    ensures
        r is Ok <==> valid_utf8(bytes@),
        r matches Ok(s) ==> s@ == decode_utf8(bytes@),
{
    std::str::from_utf8(bytes)
}

/// PDF Name object: an identifier such as `/Type`, without the slash.
#[derive(Debug, Clone, PartialEq, Eq, Hash)]
pub struct PdfName(pub String);

/// PDF String object: its bytes, in whatever encoding the document uses.
#[derive(Debug, Clone, PartialEq)]
pub struct PdfString(pub Vec<u8>);

impl PdfString {
    /// Create a new PDF string.
    pub fn new(data: Vec<u8>) -> (s: Self)
        ensures
            s.0@ == data@,
    {
        PdfString(data)
    }

    /// The string as UTF-8 text, if its bytes are valid UTF-8.
    pub fn as_str(&self) -> (r: Result<&str, std::str::Utf8Error>)
        ensures
            r is Ok <==> valid_utf8(self.0@),
            r matches Ok(s) ==> s@ == decode_utf8(self.0@),
    {
        str_from_utf8(self.0.as_slice())
    }

    /// The bytes of the string.
    pub fn as_bytes(&self) -> (b: &[u8])
        ensures
            b@ == self.0@,
    {
        self.0.as_slice()
    }
}

impl PdfName {
    /// Create a new PDF name.
    pub fn new(name: String) -> (n: Self)
        ensures
            n.0@ == name@,
    {
        PdfName(name)
    }

    /// The name as text.
    pub fn as_str(&self) -> (s: &str)
        ensures
            s@ == self.0@,
    {
        self.0.as_str()
    }
}

/// PDF Array object - ordered collection of PDF objects.
#[derive(Debug, PartialEq)]
pub struct PdfArray(pub Vec<PdfObject>);

/// PDF Dictionary object: its entries in the order their keys were first
/// inserted; no key occurs twice.
#[derive(Debug, PartialEq)]
pub struct PdfDictionary(pub Vec<(PdfName, PdfObject)>);

/// PDF Stream object - dictionary with associated binary data.
#[derive(Debug, PartialEq)]
pub struct PdfStream {
    /// Stream dictionary containing Length, Filter, and other properties
    pub dict: PdfDictionary,
    /// Raw stream data (may be compressed)
    pub data: Vec<u8>,
}

/// PDF Object types. A real number is kept as the text it was written
/// with (one that `str::parse::<f64>` accepts).
#[derive(Debug, PartialEq)]
pub enum PdfObject {
    Null,
    Boolean(bool),
    Integer(i64),
    Real(String),
    String(PdfString),
    Name(PdfName),
    Array(PdfArray),
    Dictionary(PdfDictionary),
    Stream(PdfStream),
    Reference(u32, u16),
}

/// A PDF object as a mathematical value: a dictionary is the sequence of
/// its entries.
pub enum ObjectView {
    Null,
    Boolean(bool),
    Integer(i64),
    Real(Seq<char>),
    String(Seq<u8>),
    Name(Seq<char>),
    Array(Seq<ObjectView>),
    Dictionary(Seq<(Seq<char>, ObjectView)>),
    Stream(Seq<(Seq<char>, ObjectView)>, Seq<u8>),
    Reference(u32, u16),
}

/// The views of objects.
pub open spec fn objects_view(v: Seq<PdfObject>) -> Seq<ObjectView>
    decreases v,
{
    if v.len() == 0 {
        Seq::empty()
    } else {
        objects_view(v.drop_last()).push(object_view(v.last()))
    }
}

/// The views of dictionary entries.
pub open spec fn entries_view(v: Seq<(PdfName, PdfObject)>) -> Seq<(Seq<char>, ObjectView)>
    decreases v,
{
    if v.len() == 0 {
        Seq::empty()
    } else {
        entries_view(v.drop_last()).push((v.last().0.0@, object_view(v.last().1)))
    }
}

/// The view of an object.
pub open spec fn object_view(o: PdfObject) -> ObjectView
    decreases o,
{
    match o {
        PdfObject::Null => ObjectView::Null,
        PdfObject::Boolean(b) => ObjectView::Boolean(b),
        PdfObject::Integer(i) => ObjectView::Integer(i),
        PdfObject::Real(s) => ObjectView::Real(s@),
        PdfObject::String(s) => ObjectView::String(s.0@),
        PdfObject::Name(n) => ObjectView::Name(n.0@),
        PdfObject::Array(a) => ObjectView::Array(objects_view(a.0@)),
        PdfObject::Dictionary(d) => ObjectView::Dictionary(entries_view(d.0@)),
        PdfObject::Stream(st) => ObjectView::Stream(entries_view(st.dict.0@), st.data@),
        PdfObject::Reference(n, g) => ObjectView::Reference(n, g),
    }
}

} // verus!

verus! {

/// The next token: one that leaves less to read, unless it is the end of
/// the input.
fn lex_next(l: &mut Lexer) -> (r: ParseResult<Token>)
    requires
        old(l).wf(),
    ensures
        final(l).wf(),
        token_result(r, old(l).state().next().0),
        final(l).state() == old(l).state().next().1,
        old(l).state().step() == old(l).state().next(),
        final(l).state().size() <= old(l).state().size(),
{
    let ghost a = *l;
    let r = l.next_token();
    proof {
        let p = a.state().pushed;
        if a.pushed().len() > 0 {
            assert(l.state().pushed =~= p.drop_last());
            lemma_token_weight_push(p.drop_last(), p.last());
            assert(p.drop_last().push(p.last()) =~= p);
        } else {
            let st = lex_spec(a.avail());
            lemma_lex_progress(a.avail());
            Lexer::lemma_advanced_state(a, *l, step_len(st), step_peeked(st));
            assert(l.state().pushed =~= p);
        }
    }
    r
}

/// Peek at the next token.
fn lex_peek(l: &mut Lexer) -> (r: ParseResult<Token>)
    requires
        old(l).wf(),
    ensures
        final(l).wf(),
        token_result(r, old(l).state().peek().0),
        final(l).state() == old(l).state().peek().1,
        final(l).state().size() <= old(l).state().size(),
{
    let ghost a = *l;
    let r = l.peek_token();
    proof {
        let p = a.state().pushed;
        if a.pushed().len() > 0 {
            assert(l.state().pushed =~= p.drop_last());
            lemma_token_weight_push(p.drop_last(), p.last());
            assert(p.drop_last().push(p.last()) =~= p);
        } else {
            let st = lex_spec(a.avail());
            if r is Err {
                Lexer::lemma_advanced_state(a, *l, step_len(st), step_peeked(st));
            }
            assert(l.state().pushed =~= p);
        }
    }
    r
}

/// Push a token back.
fn lex_push(l: &mut Lexer, t: Token)
    requires
        old(l).wf(),
    ensures
        final(l).wf(),
        final(l).state() == old(l).state().push(token_view(t)),
        final(l).state().size() == old(l).state().size() + if token_view(t) is Eof {
            0int
        } else {
            1int
        },
{
    let ghost a = *l;
    l.push_token(t);
    proof {
        assert(l.state().pushed =~= a.state().pushed.push(token_view(t)));
        lemma_token_weight_push(a.state().pushed, token_view(t));
    }
}

/// Skip whitespace.
fn lex_skip_ws(l: &mut Lexer)
    requires
        old(l).wf(),
    ensures
        final(l).wf(),
        final(l).state() == old(l).state().skip_ws(),
        final(l).state().size() <= old(l).state().size(),
{
    let ghost a = *l;
    let _ = l.skip_whitespace();
    proof {
        let k = ws_end(a.avail(), 0);
        Lexer::lemma_advanced_state(a, *l, k, k < a.avail().len());
        assert(l.state().pushed =~= a.state().pushed);
    }
}

/// Read a newline.
fn lex_newline(l: &mut Lexer) -> (r: ParseResult<()>)
    requires
        old(l).wf(),
    ensures
        final(l).wf(),
        final(l).state() == old(l).state().newline().1,
        final(l).state().size() <= old(l).state().size(),
        match old(l).state().newline().0 {
            Ok(_) => r is Ok,
            Err(e) => r matches Err(x) && error_is(x, e),
        },
{
    let ghost a = *l;
    let r = l.read_newline();
    proof {
        let s = a.avail();
        if s.len() > 0 && s[0] == 0x0D {
            if s.len() > 1 && s[1] == 0x0A {
                Lexer::lemma_advanced_state(a, *l, 2, false);
            } else {
                Lexer::lemma_advanced_state(a, *l, 1, s.len() > 1);
            }
        } else if s.len() > 0 && s[0] == 0x0A {
            Lexer::lemma_advanced_state(a, *l, 1, false);
        } else {
            Lexer::lemma_advanced_state(a, *l, 0, s.len() > 0);
        }
        assert(l.state().pushed =~= a.state().pushed);
    }
    r
}

/// Read `n` bytes from the reader.
fn lex_bytes(l: &mut Lexer, n: usize) -> (r: ParseResult<Vec<u8>>)
    requires
        old(l).wf(),
    ensures
        final(l).wf(),
        final(l).state() == old(l).state().bytes(n as int).1,
        final(l).state().size() <= old(l).state().size(),
        match old(l).state().bytes(n as int).0 {
            Ok(v) => r matches Ok(x) && x@ == v,
            Err(e) => r matches Err(x) && error_is(x, e),
        },
{
    let ghost a = *l;
    let r = l.read_bytes(n);
    proof {
        assert(l.state().pushed =~= a.state().pushed);
        a.lemma_wf_offset();
        l.lemma_wf_offset();
        if n > 0 && a.reader_offset() + n <= a.data().len() {
            assert(a.state().unread().len() == a.data().len() - a.reader_offset());
            if l.reader_offset() < l.data().len() {
                assert(l.state().unread().len() == l.data().len() - l.reader_offset());
            }
        }
    }
    r
}

/// Look at the next byte.
fn lex_peek_byte(l: &mut Lexer) -> (r: ParseResult<u8>)
    requires
        old(l).wf(),
    ensures
        final(l).wf(),
        final(l).state() == old(l).state().peek_byte().1,
        final(l).state().size() <= old(l).state().size(),
        match old(l).state().peek_byte().0 {
            Ok(b) => r == Ok::<u8, ParseError>(b),
            Err(e) => r matches Err(x) && error_is(x, e),
        },
{
    let ghost a = *l;
    let r = l.peek_byte();
    proof {
        Lexer::lemma_advanced_state(a, *l, 0, a.avail().len() > 0);
        assert(l.state().pushed =~= a.state().pushed);
    }
    r
}

/// Consume the next byte.
fn lex_read_byte(l: &mut Lexer) -> (r: ParseResult<u8>)
    requires
        old(l).wf(),
    ensures
        final(l).wf(),
        final(l).state() == old(l).state().read_byte().1,
        final(l).state().size() <= old(l).state().size(),
        match old(l).state().read_byte().0 {
            Ok(b) => r == Ok::<u8, ParseError>(b),
            Err(e) => r matches Err(x) && error_is(x, e),
        },
{
    let ghost a = *l;
    let r = l.read_byte();
    proof {
        if a.avail().len() > 0 {
            Lexer::lemma_advanced_state(a, *l, 1, false);
        } else {
            Lexer::lemma_advanced_state(a, *l, 0, false);
        }
        assert(l.state().pushed =~= a.state().pushed);
    }
    r
}

/// Expect a keyword as the next token.
fn lex_expect(l: &mut Lexer, keyword: &str) -> (r: ParseResult<()>)
    requires
        old(l).wf(),
    ensures
        final(l).wf(),
        final(l).state() == old(l).state().expect(keyword@).1,
        final(l).state().size() <= old(l).state().size(),
        match old(l).state().expect(keyword@).0 {
            Ok(_) => r is Ok,
            Err(e) => r matches Err(x) && error_is(x, e),
        },
{
    let ghost a = *l;
    let r = l.expect_keyword(keyword);
    proof {
        let p = a.state().pushed;
        if a.pushed().len() > 0 {
            assert(l.state().pushed =~= p.drop_last());
            lemma_token_weight_push(p.drop_last(), p.last());
            assert(p.drop_last().push(p.last()) =~= p);
        } else {
            let st = lex_spec(a.avail());
            Lexer::lemma_advanced_state(a, *l, step_len(st), step_peeked(st));
            assert(l.state().pushed =~= p);
        }
    }
    r
}

} // verus!

verus! {

/// The index of the entry with key `k` among the first `n` entries, or -1.
pub open spec fn key_index(d: Seq<(Seq<char>, ObjectView)>, k: Seq<char>, n: int) -> int
    decreases n,
{
    if n <= 0 {
        -1
    } else if d[n - 1].0 == k {
        n - 1
    } else {
        key_index(d, k, n - 1)
    }
}

/// The value of key `k` in the entries `d`.
pub open spec fn dict_get(d: Seq<(Seq<char>, ObjectView)>, k: Seq<char>) -> Option<ObjectView> {
    let i = key_index(d, k, d.len() as int);
    if i >= 0 {
        Some(d[i].1)
    } else {
        None
    }
}

/// The entries `d` with key `k` set to `v`: in place when the key is
/// there, else added at the end.
pub open spec fn dict_insert(d: Seq<(Seq<char>, ObjectView)>, k: Seq<char>, v: ObjectView) -> Seq<(Seq<char>, ObjectView)> {
    let i = key_index(d, k, d.len() as int);
    if i >= 0 {
        d.update(i, (k, v))
    } else {
        d.push((k, v))
    }
}

/// Whether no key occurs twice among the entries.
pub open spec fn distinct_keys(d: Seq<(Seq<char>, ObjectView)>) -> bool {
    forall|i: int, j: int| 0 <= i < j < d.len() ==> d[i].0 != d[j].0
}

/// The `usize` value that stands for "search for `endstream`".
pub open spec fn search_length() -> int {
    usize::MAX as int
}

/// How many bytes of stream data to read, by the stream dictionary's
/// `Length` entry: a direct integer (-1, like a missing entry in lenient
/// mode, or an indirect reference in lenient mode, means searching for
/// `endstream`); an error standing at `pos` otherwise.
pub open spec fn stream_length(d: Seq<(Seq<char>, ObjectView)>, o: ParseOptions, pos: int) -> Result<int, ErrView> {
    match dict_get(d, "Length"@) {
        None => if o.lenient_streams {
            Ok(search_length())
        } else {
            Err(ErrView::MissingKey("Length"@))
        },
        Some(ObjectView::Integer(len)) => if len == -1 {
            Ok(search_length())
        } else {
            Ok((len as usize) as int)
        },
        Some(ObjectView::Reference(n, g)) => if o.lenient_streams {
            Ok(search_length())
        } else {
            Err(ErrView::Syntax(
                pos,
                "Stream length reference ("@ + decimal_seq(n as nat) + " "@ + decimal_seq(g as nat)
                    + " R) requires lenient mode or reference resolution"@,
            ))
        },
        Some(_) => Err(ErrView::Syntax(pos, "Invalid stream length type"@)),
    }
}

/// Reading stream data up to `endstream`, byte by byte, at most 65536
/// bytes, `i` of them read into `data`: the data and whether `endstream`
/// was found. At each `e` the next token is peeked and the reader goes
/// back to where it was.
pub open spec fn stream_search(s: LexState, i: int, data: Seq<u8>) -> (Result<(Seq<u8>, bool), ErrView>, LexState)
    decreases 65536 - i,
{
    if i >= 65536 {
        (Ok((data, false)), s)
    } else {
        match s.peek_byte() {
            (Err(_), s1) => (Ok((data, false)), s1),
            (Ok(b), s1) => {
                let (found, s3) = if b == 0x65 {
                    let (r, s2) = s1.peek();
                    if r == Ok::<TokenView, ErrView>(TokenView::EndStream) {
                        (true, s2)
                    } else {
                        (false, s2.restore(s1.offset, s1.peeked))
                    }
                } else {
                    (false, s1)
                };
                if found {
                    (Ok((data, true)), s3)
                } else {
                    match s3.read_byte() {
                        (Err(e), s4) => (Err(e), s4),
                        (Ok(c), s4) => stream_search(s4, i + 1, data.push(c)),
                    }
                }
            },
        }
    }
}

/// Recovering a stream whose data is not followed by `endstream`: the
/// bytes up to the next `endstream` within `max_recovery_bytes` are added
/// to `data`, and the keyword is read.
pub open spec fn stream_recover(s: LexState, data: Seq<u8>, o: ParseOptions) -> (Result<Seq<u8>, ErrView>, LexState) {
    match keyword_ahead(s.unread(), "endstream".spec_bytes(), o.max_recovery_bytes as int, 1) {
        Some(n) => {
            let (r, s1) = s.bytes(n);
            match r {
                Err(e) => (Err(e), s1),
                Ok(extra) => {
                    let (r2, s2) = s1.skip_ws().expect("endstream"@);
                    match r2 {
                        Err(e) => (Err(e), s2),
                        Ok(_) => (Ok(data + extra), s2),
                    }
                },
            }
        },
        None => (
            Err(ErrView::Syntax(
                s.pos,
                "Could not find 'endstream' within "@ + decimal_seq(o.max_recovery_bytes as nat) + " bytes"@,
            )),
            s,
        ),
    }
}

/// The end of a stream after its data: `endstream`, or (in lenient mode)
/// a recovery.
pub open spec fn stream_end(s: LexState, data: Seq<u8>, o: ParseOptions) -> (Result<Seq<u8>, ErrView>, LexState) {
    let (r, s1) = s.skip_ws().peek();
    match r {
        Ok(TokenView::EndStream) => {
            let (r2, s2) = s1.next();
            match r2 {
                Err(e) => (Err(e), s2),
                Ok(_) => (Ok(data), s2),
            }
        },
        Ok(t) => if o.lenient_streams {
            stream_recover(s1, data, o)
        } else {
            (Err(ErrView::Unexpected("endstream"@, token_debug_spec(t))), s1)
        },
        Err(e) => if o.lenient_streams {
            stream_recover(s1, data, o)
        } else {
            (Err(e), s1)
        },
    }
}

/// The data of a stream whose dictionary is `d`, read after the `stream`
/// keyword.
pub open spec fn stream_data(s: LexState, d: Seq<(Seq<char>, ObjectView)>, o: ParseOptions) -> (Result<Seq<u8>, ErrView>, LexState) {
    match stream_length(d, o, s.pos) {
        Err(e) => (Err(e), s),
        Ok(length) => {
            let (r1, s1) = s.newline();
            match r1 {
                Err(e) => (Err(e), s1),
                Ok(_) => if length == search_length() {
                    let (r2, s2) = stream_search(s1, 0, Seq::empty());
                    match r2 {
                        Err(e) => (Err(e), s2),
                        Ok((data, found)) => if !found && !o.lenient_streams {
                            (Err(ErrView::Syntax(s2.pos, "Could not find endstream marker"@)), s2)
                        } else {
                            stream_end(s2, data, o)
                        },
                    }
                } else {
                    let (r2, s2) = s1.bytes(length);
                    match r2 {
                        Err(e) => (Err(e), s2),
                        Ok(data) => stream_end(s2, data, o),
                    }
                },
            }
        },
    }
}

/// After a dictionary `d`: a stream when `stream` follows (comments
/// skipped), else the dictionary, the token after it pushed back.
pub open spec fn dict_tail(s: LexState, d: Seq<(Seq<char>, ObjectView)>, o: ParseOptions) -> (Result<ObjectView, ErrView>, LexState)
    decreases s.size(),
{
    let (r, s1) = s.step();
    match r {
        Err(e) => (Err(e), s1),
        Ok(TokenView::Stream) => {
            let (r2, s2) = stream_data(s1, d, o);
            match r2 {
                Err(e) => (Err(e), s2),
                Ok(data) => (Ok(ObjectView::Stream(d, data)), s2),
            }
        },
        Ok(TokenView::Comment(_)) => if s1.size() < s.size() {
            dict_tail(s1, d, o)
        } else {
            (Err(ErrView::Stall), s1)
        },
        Ok(t) => (Ok(ObjectView::Dictionary(d)), s1.push(t)),
    }
}

/// The rank of a token in the order in which parsing recurses: the end
/// of the input ranks lowest.
pub open spec fn token_rank(t: TokenView) -> int {
    if t is Eof {
        0
    } else {
        2
    }
}

/// Parsing an object from state `s`: the object (or error) and the state
/// after it.
pub open spec fn object_at(s: LexState, o: ParseOptions) -> (Result<ObjectView, ErrView>, LexState)
    decreases s.size(), 1int,
{
    let (r, s1) = s.step();
    match r {
        Err(e) => (Err(e), s1),
        Ok(t) => object_after(s1, t, o),
    }
}

/// Parsing the object that starts with token `t`, read before state `s`.
/// An integer from 0 to 9999999 followed by an integer from 0 to 65535
/// and `R` is a reference; the tokens read after a lone integer are pushed
/// back.
pub open spec fn object_after(s: LexState, t: TokenView, o: ParseOptions) -> (Result<ObjectView, ErrView>, LexState)
    decreases s.size(), token_rank(t),
{
    match t {
        TokenView::Null => (Ok(ObjectView::Null), s),
        TokenView::Boolean(b) => (Ok(ObjectView::Boolean(b)), s),
        TokenView::Integer(i) => if !(0 <= i <= 9999999) {
            (Ok(ObjectView::Integer(i)), s)
        } else {
            let (r1, s1) = s.next();
            match r1 {
                Err(e) => (Err(e), s1),
                Ok(t1) => if t1 matches TokenView::Integer(g) && 0 <= g <= 65535 {
                    let (r2, s2) = s1.next();
                    match r2 {
                        Err(e) => (Err(e), s2),
                        Ok(t2) => if t2 == TokenView::Name(seq!['R']) {
                            (Ok(ObjectView::Reference(i as u32, t1->Integer_0 as u16)), s2)
                        } else {
                            (Ok(ObjectView::Integer(i)), s2.push(t2).push(t1))
                        },
                    }
                } else {
                    (Ok(ObjectView::Integer(i)), s1.push(t1))
                },
            }
        },
        TokenView::Real(x) => (Ok(ObjectView::Real(x)), s),
        TokenView::String(v) => (Ok(ObjectView::String(v)), s),
        TokenView::Name(n) => (Ok(ObjectView::Name(n)), s),
        TokenView::ArrayStart => array_rest(s, Seq::empty(), o),
        TokenView::DictStart => dict_or_stream(s, o),
        TokenView::Comment(_) => object_at(s, o),
        TokenView::StartXRef => (Err(ErrView::Syntax(0, "StartXRef encountered - this is not a PDF object"@)), s),
        TokenView::Eof => (Err(ErrView::Syntax(0, "Unexpected end of file"@)), s),
        _ => (Err(ErrView::Unexpected("PDF object"@, token_debug_spec(t))), s),
    }
}

/// The rest of an array, `acc` read so far: elements up to `]`, comments
/// skipped.
pub open spec fn array_rest(s: LexState, acc: Seq<ObjectView>, o: ParseOptions) -> (Result<ObjectView, ErrView>, LexState)
    decreases s.size(), 1int,
{
    let (r, s1) = s.step();
    match r {
        Err(e) => (Err(e), s1),
        Ok(TokenView::ArrayEnd) => (Ok(ObjectView::Array(acc)), s1),
        Ok(TokenView::Comment(_)) => if s1.size() < s.size() {
            array_rest(s1, acc, o)
        } else {
            (Err(ErrView::Stall), s1)
        },
        Ok(t) => if s1.size() < s.size() || (t is Eof && s1.size() <= s.size()) {
            let (r2, s2) = object_after(s1, t, o);
            match r2 {
                Err(e) => (Err(e), s2),
                Ok(v) => if s2.size() < s.size() {
                    array_rest(s2, acc.push(v), o)
                } else {
                    (Err(ErrView::Stall), s2)
                },
            }
        } else {
            (Err(ErrView::Stall), s1)
        },
    }
}

/// A dictionary or a stream, after `<<`.
pub open spec fn dict_or_stream(s: LexState, o: ParseOptions) -> (Result<ObjectView, ErrView>, LexState)
    decreases s.size(), 1int,
{
    let (r, s1) = dict_entries(s, Seq::empty(), o);
    match r {
        Err(e) => (Err(e), s1),
        Ok(d) => dict_tail(s1, d, o),
    }
}

/// The entries of a dictionary, `acc` read so far: name keys and their
/// values up to `>>`, comments skipped; a later value of a key replaces
/// an earlier one.
pub open spec fn dict_entries(s: LexState, acc: Seq<(Seq<char>, ObjectView)>, o: ParseOptions) -> (Result<Seq<(Seq<char>, ObjectView)>, ErrView>, LexState)
    decreases s.size(), 0int,
{
    let (r, s1) = s.step();
    match r {
        Err(e) => (Err(e), s1),
        Ok(TokenView::DictEnd) => (Ok(acc), s1),
        Ok(TokenView::Comment(_)) => if s1.size() < s.size() {
            dict_entries(s1, acc, o)
        } else {
            (Err(ErrView::Stall), s1)
        },
        Ok(TokenView::Name(k)) => if s1.size() < s.size() {
            let (r2, s2) = object_at(s1, o);
            match r2 {
                Err(e) => (Err(e), s2),
                Ok(v) => if s2.size() < s.size() {
                    dict_entries(s2, dict_insert(acc, k, v), o)
                } else {
                    (Err(ErrView::Stall), s2)
                },
            }
        } else {
            (Err(ErrView::Stall), s1)
        },
        Ok(t) => (Err(ErrView::Unexpected("dictionary key (name) or >>"@, token_debug_spec(t))), s1),
    }
}

/// Whether `r` is the object result `v` describes, and the lexer ends in
/// state `s` after a success.
pub open spec fn object_result(r: ParseResult<PdfObject>, v: Result<ObjectView, ErrView>) -> bool {
    match v {
        Ok(x) => r matches Ok(obj) && object_view(obj) == x,
        Err(e) => r matches Err(x) && error_is(x, e),
    }
}

} // verus!

verus! {

/// The views of objects, one for each object.
pub proof fn lemma_objects_view(v: Seq<PdfObject>)
    ensures
        objects_view(v).len() == v.len(),
        forall|i: int| 0 <= i < v.len() ==> #[trigger] objects_view(v)[i] == object_view(v[i]),
    decreases v.len(),
{
    if v.len() > 0 {
        lemma_objects_view(v.drop_last());
    }
}

/// The views of entries, one for each entry.
pub proof fn lemma_entries_view(v: Seq<(PdfName, PdfObject)>)
    ensures
        entries_view(v).len() == v.len(),
        forall|i: int| 0 <= i < v.len() ==> #[trigger] entries_view(v)[i] == (v[i].0.0@, object_view(v[i].1)),
    decreases v.len(),
{
    if v.len() > 0 {
        lemma_entries_view(v.drop_last());
    }
}

/// Viewing objects with one more at the end.
pub proof fn lemma_objects_view_push(v: Seq<PdfObject>, x: PdfObject)
    ensures
        objects_view(v.push(x)) == objects_view(v).push(object_view(x)),
{
    assert(v.push(x).drop_last() =~= v);
}

/// Viewing entries with one more at the end, or one replaced.
proof fn lemma_entries_view_change(v: Seq<(PdfName, PdfObject)>, i: int, x: (PdfName, PdfObject))
    ensures
        entries_view(v.push(x)) == entries_view(v).push((x.0.0@, object_view(x.1))),
        0 <= i < v.len() ==> entries_view(v.update(i, x)) == entries_view(v).update(i, (x.0.0@, object_view(x.1))),
{
    assert(v.push(x).drop_last() =~= v);
    if 0 <= i < v.len() {
        lemma_entries_view(v);
        lemma_entries_view(v.update(i, x));
        assert(entries_view(v.update(i, x)) =~= entries_view(v).update(i, (x.0.0@, object_view(x.1))));
    }
}

impl PdfArray {
    /// Create a new empty array.
    pub fn new() -> (a: Self)
        ensures
            objects_view(a.0@) == Seq::<ObjectView>::empty(),
    {
        PdfArray(Vec::new())
    }

    /// Get the number of elements.
    pub fn len(&self) -> (n: usize)
        ensures
            n == self.0@.len(),
    {
        self.0.len()
    }

    /// Check if the array is empty.
    pub fn is_empty(&self) -> (b: bool)
        ensures
            b == (self.0@.len() == 0),
    {
        self.0.len() == 0
    }

    /// Get an element by index.
    pub fn get(&self, index: usize) -> (r: Option<&PdfObject>)
        ensures
            index < self.0@.len() ==> r == Some(&self.0@[index as int]),
            index >= self.0@.len() ==> r is None,
    {
        if index < self.0.len() {
            Some(&self.0[index])
        } else {
            None
        }
    }

    /// Add an element to the end.
    pub fn push(&mut self, obj: PdfObject)
        ensures
            final(self).0@ == old(self).0@.push(obj),
    {
        self.0.push(obj);
    }
}

impl PdfDictionary {
    /// Create a new empty dictionary.
    pub fn new() -> (d: Self)
        ensures
            entries_view(d.0@) == Seq::<(Seq<char>, ObjectView)>::empty(),
    {
        PdfDictionary(Vec::new())
    }

    /// The index of the entry with the key, if any.
    fn key_position(&self, key: &str) -> (r: Option<usize>)
        ensures
            match r {
                Some(i) => i as int == key_index(entries_view(self.0@), key@, self.0@.len() as int) && i < self.0@.len(),
                None => key_index(entries_view(self.0@), key@, self.0@.len() as int) == -1,
            },
    {
        let ghost ev = entries_view(self.0@);
        proof {
            lemma_entries_view(self.0@);
        }
        let mut i = self.0.len();
        while i > 0
            invariant
                i <= self.0@.len(),
                ev == entries_view(self.0@),
                ev.len() == self.0@.len(),
                forall|j: int| 0 <= j < self.0@.len() ==> #[trigger] ev[j] == (self.0@[j].0.0@, object_view(self.0@[j].1)),
                key_index(ev, key@, self.0@.len() as int) == key_index(ev, key@, i as int),
            decreases i,
        {
            if str_eq(self.0[i - 1].0.0.as_str(), key) {
                return Some(i - 1);
            }
            i = i - 1;
        }
        None
    }

    /// Get a value by key name.
    pub fn get(&self, key: &str) -> (r: Option<&PdfObject>)
        ensures
            match dict_get(entries_view(self.0@), key@) {
                Some(v) => r matches Some(o) && object_view(*o) == v,
                None => r is None,
            },
    {
        proof {
            lemma_entries_view(self.0@);
        }
        match self.key_position(key) {
            Some(i) => Some(&self.0[i].1),
            None => None,
        }
    }

    /// Insert a key-value pair: a value already under the key is replaced.
    pub fn insert(&mut self, key: String, value: PdfObject)
        ensures
            entries_view(final(self).0@) == dict_insert(entries_view(old(self).0@), key@, object_view(value)),
    {
        let ghost v = self.0@;
        let ghost entry = (PdfName(key), value);
        proof {
            lemma_entries_view(v);
        }
        match self.key_position(key.as_str()) {
            Some(i) => {
                self.0.remove(i);
                self.0.insert(i, (PdfName(key), value));
                proof {
                    assert(self.0@ =~= v.update(i as int, entry));
                    lemma_entries_view_change(v, i as int, entry);
                }
            },
            None => {
                self.0.push((PdfName(key), value));
                proof {
                    lemma_entries_view_change(v, 0, entry);
                }
            },
        }
    }

    /// Check if the dictionary contains a key.
    pub fn contains_key(&self, key: &str) -> (b: bool)
        ensures
            b == (dict_get(entries_view(self.0@), key@) is Some),
    {
        proof {
            lemma_entries_view(self.0@);
        }
        self.key_position(key).is_some()
    }

    /// Get the dictionary type (value of the /Type key, when it is a name).
    pub fn get_type(&self) -> (r: Option<&str>)
        ensures
            match dict_get(entries_view(self.0@), "Type"@) {
                Some(ObjectView::Name(n)) => r matches Some(s) && s@ == n,
                _ => r is None,
            },
    {
        match self.get("Type") {
            Some(PdfObject::Name(n)) => Some(n.0.as_str()),
            _ => None,
        }
    }
}

} // verus!

verus! {

/// Whether `r` is the object parse the spec `v` describes, the lexer
/// ending in the state after it on success and with no more to read.
pub open spec fn parsed_object(r: ParseResult<PdfObject>, v: (Result<ObjectView, ErrView>, LexState), before: LexState, after: LexState) -> bool {
    &&& object_result(r, v.0)
    &&& r is Ok ==> after == v.1 && after.size() <= before.size()
}

impl PdfObject {
    /// Parse a PDF object from a lexer.
    pub fn parse(lexer: &mut Lexer) -> (r: ParseResult<Self>)
        requires
            old(lexer).wf(),
        ensures
            final(lexer).wf(),
            parsed_object(r, object_at(old(lexer).state(), default_options()), old(lexer).state(), final(lexer).state()),
    {
        let token = match lex_next(lexer) {
            Ok(t) => t,
            Err(e) => {
                return Err(e);
            },
        };
        Self::parse_from_token(lexer, token)
    }

    /// Parse a PDF object with custom options.
    pub fn parse_with_options(lexer: &mut Lexer, options: &ParseOptions) -> (r: ParseResult<Self>)
        requires
            old(lexer).wf(),
        ensures
            final(lexer).wf(),
            parsed_object(r, object_at(old(lexer).state(), *options), old(lexer).state(), final(lexer).state()),
        decreases old(lexer).state().size(), 1int,
    {
        let token = match lex_next(lexer) {
            Ok(t) => t,
            Err(e) => {
                return Err(e);
            },
        };
        Self::parse_from_token_with_options(lexer, token, options)
    }

    /// Parse the object that starts with `token`, with the default options.
    fn parse_from_token(lexer: &mut Lexer, token: Token) -> (r: ParseResult<Self>)
        requires
            old(lexer).wf(),
        ensures
            final(lexer).wf(),
            parsed_object(r, object_after(old(lexer).state(), token_view(token), default_options()), old(lexer).state(), final(lexer).state()),
    {
        let options = ParseOptions::default();
        Self::parse_from_token_with_options(lexer, token, &options)
    }

    /// Parse the object that starts with `token`.
    pub fn parse_from_token_with_options(lexer: &mut Lexer, token: Token, options: &ParseOptions) -> (r: ParseResult<Self>)
        requires
            old(lexer).wf(),
        ensures
            final(lexer).wf(),
            parsed_object(r, object_after(old(lexer).state(), token_view(token), *options), old(lexer).state(), final(lexer).state()),
        decreases old(lexer).state().size(), token_rank(token_view(token)),
    {
        match token {
            Token::Null => Ok(PdfObject::Null),
            Token::Boolean(b) => Ok(PdfObject::Boolean(b)),
            Token::Integer(i) => {
                // An object number may start a reference `n g R`.
                if !(0 <= i && i <= 9999999) {
                    return Ok(PdfObject::Integer(i));
                }
                let next = match lex_next(lexer) {
                    Ok(t) => t,
                    Err(e) => {
                        return Err(e);
                    },
                };
                match next {
                    Token::Integer(gen) => {
                        if 0 <= gen && gen <= 65535 {
                            let after = match lex_next(lexer) {
                                Ok(t) => t,
                                Err(e) => {
                                    return Err(e);
                                },
                            };
                            let is_r = match &after {
                                Token::Name(s) => str_eq(s.as_str(), "R"),
                                _ => false,
                            };
                            proof {
                                reveal_strlit("R");
                                assert("R"@ =~= seq!['R']);
                            }
                            if is_r {
                                Ok(PdfObject::Reference(i as u32, gen as u16))
                            } else {
                                lex_push(lexer, after);
                                lex_push(lexer, Token::Integer(gen));
                                Ok(PdfObject::Integer(i))
                            }
                        } else {
                            lex_push(lexer, Token::Integer(gen));
                            Ok(PdfObject::Integer(i))
                        }
                    },
                    other => {
                        lex_push(lexer, other);
                        Ok(PdfObject::Integer(i))
                    },
                }
            },
            Token::Real(r) => Ok(PdfObject::Real(r)),
            Token::String(s) => Ok(PdfObject::String(PdfString(s))),
            Token::Name(n) => Ok(PdfObject::Name(PdfName(n))),
            Token::ArrayStart => Self::parse_array_with_options(lexer, options),
            Token::DictStart => Self::parse_dictionary_or_stream_with_options(lexer, options),
            Token::Comment(_) => Self::parse_with_options(lexer, options),
            Token::StartXRef => Err(ParseError::SyntaxError {
                position: 0,
                message: String::from_str("StartXRef encountered - this is not a PDF object"),
            }),
            Token::Eof => Err(ParseError::SyntaxError {
                position: 0,
                message: String::from_str("Unexpected end of file"),
            }),
            other => Err(ParseError::UnexpectedToken {
                expected: String::from_str("PDF object"),
                found: token_debug(&other),
            }),
        }
    }

    /// Parse the rest of an array, after `[`.
    fn parse_array_with_options(lexer: &mut Lexer, options: &ParseOptions) -> (r: ParseResult<Self>)
        requires
            old(lexer).wf(),
        ensures
            final(lexer).wf(),
            parsed_object(r, array_rest(old(lexer).state(), Seq::empty(), *options), old(lexer).state(), final(lexer).state()),
        decreases old(lexer).state().size(), 1int,
    {
        let ghost s0 = lexer.state();
        let mut elements: Vec<PdfObject> = Vec::new();
        proof {
            assert(objects_view(elements@) =~= Seq::<ObjectView>::empty());
        }
        loop
            invariant
                lexer.wf(),
                s0 == old(lexer).state(),
                lexer.state().size() <= s0.size(),
                array_rest(s0, Seq::empty(), *options) == array_rest(lexer.state(), objects_view(elements@), *options),
            decreases lexer.state().size(),
        {
            let ghost s = lexer.state();
            let token = match lex_next(lexer) {
                Ok(t) => t,
                Err(e) => {
                    return Err(e);
                },
            };
            match token {
                Token::ArrayEnd => {
                    return Ok(PdfObject::Array(PdfArray(elements)));
                },
                Token::Comment(_) => {},
                _ => {
                    let ghost s1 = lexer.state();
                    let obj = match Self::parse_from_token_with_options(lexer, token, options) {
                        Ok(o) => o,
                        Err(e) => {
                            return Err(e);
                        },
                    };
                    proof {
                        lemma_objects_view_push(elements@, obj);
                    }
                    elements.push(obj);
                },
            }
        }
    }

    /// Parse a dictionary, or a stream when `stream` follows it, after `<<`.
    fn parse_dictionary_or_stream_with_options(lexer: &mut Lexer, options: &ParseOptions) -> (r: ParseResult<Self>)
        requires
            old(lexer).wf(),
        ensures
            final(lexer).wf(),
            parsed_object(r, dict_or_stream(old(lexer).state(), *options), old(lexer).state(), final(lexer).state()),
        decreases old(lexer).state().size(), 1int,
    {
        let dict = match Self::parse_dictionary_inner_with_options(lexer, options) {
            Ok(d) => d,
            Err(e) => {
                return Err(e);
            },
        };
        let ghost s1 = lexer.state();
        let ghost d = entries_view(dict.0@);
        loop
            invariant
                lexer.wf(),
                d == entries_view(dict.0@),
                dict_or_stream(old(lexer).state(), *options) == dict_tail(lexer.state(), d, *options),
                lexer.state().size() <= old(lexer).state().size(),
            decreases lexer.state().size(),
        {
            let token = match lex_next(lexer) {
                Ok(t) => t,
                Err(e) => {
                    return Err(e);
                },
            };
            match token {
                Token::Stream => {
                    let data = match Self::parse_stream_data_with_options(lexer, &dict, options) {
                        Ok(v) => v,
                        Err(e) => {
                            return Err(e);
                        },
                    };
                    return Ok(PdfObject::Stream(PdfStream { dict, data }));
                },
                Token::Comment(_) => {},
                _ => {
                    lex_push(lexer, token);
                    return Ok(PdfObject::Dictionary(dict));
                },
            }
        }
    }

    /// Parse the entries of a dictionary, after `<<`, up to `>>`.
    fn parse_dictionary_inner_with_options(lexer: &mut Lexer, options: &ParseOptions) -> (r: ParseResult<PdfDictionary>)
        requires
            old(lexer).wf(),
        ensures
            final(lexer).wf(),
            ({
                let (v, s) = dict_entries(old(lexer).state(), Seq::empty(), *options);
                match v {
                    Ok(d) => r matches Ok(x) && entries_view(x.0@) == d && final(lexer).state() == s
                        && s.size() <= old(lexer).state().size(),
                    Err(e) => r matches Err(x) && error_is(x, e),
                }
            }),
        decreases old(lexer).state().size(), 0int,
    {
        let ghost s0 = lexer.state();
        let mut dict = PdfDictionary::new();
        loop
            invariant
                lexer.wf(),
                s0 == old(lexer).state(),
                lexer.state().size() <= s0.size(),
                dict_entries(s0, Seq::empty(), *options) == dict_entries(lexer.state(), entries_view(dict.0@), *options),
            decreases lexer.state().size(),
        {
            let token = match lex_next(lexer) {
                Ok(t) => t,
                Err(e) => {
                    return Err(e);
                },
            };
            match token {
                Token::DictEnd => {
                    return Ok(dict);
                },
                Token::Comment(_) => {},
                Token::Name(key) => {
                    let value = match Self::parse_with_options(lexer, options) {
                        Ok(v) => v,
                        Err(e) => {
                            return Err(e);
                        },
                    };
                    dict.insert(key, value);
                },
                other => {
                    return Err(ParseError::UnexpectedToken {
                        expected: String::from_str("dictionary key (name) or >>"),
                        found: token_debug(&other),
                    });
                },
            }
        }
    }
}

} // verus!

verus! {

/// A keyword found ahead is found within the bytes searched.
proof fn lemma_keyword_ahead_bounds(u: Seq<u8>, kw: Seq<u8>, max: int, j: int)
    ensures
        keyword_ahead(u, kw, max, j) matches Some(k) ==> 0 <= k <= max,
    decreases u.len() + 1 - j,
{
    if !(j < 1 || j > max || j > u.len()) && !(j >= kw.len() && u.subrange(j - kw.len(), j) == kw) {
        lemma_keyword_ahead_bounds(u, kw, max, j + 1);
    }
}

/// Whether `r` is the stream-data result `v` describes, the lexer ending
/// in the state after it on success and with no more to read.
pub open spec fn read_stream_data(r: ParseResult<Vec<u8>>, v: (Result<Seq<u8>, ErrView>, LexState), before: LexState, after: LexState) -> bool {
    &&& match v.0 {
        Ok(d) => r matches Ok(x) && x@ == d,
        Err(e) => r matches Err(x) && error_is(x, e),
    }
    &&& r is Ok ==> after == v.1 && after.size() <= before.size()
}

impl PdfObject {
    /// Read the data of a stream whose dictionary is `dict`, after the
    /// `stream` keyword, up to and including `endstream`.
    pub fn parse_stream_data_with_options(lexer: &mut Lexer, dict: &PdfDictionary, options: &ParseOptions) -> (r: ParseResult<Vec<u8>>)
        requires
            old(lexer).wf(),
        ensures
            final(lexer).wf(),
            read_stream_data(r, stream_data(old(lexer).state(), entries_view(dict.0@), *options), old(lexer).state(), final(lexer).state()),
    {
        let ghost d = entries_view(dict.0@);
        let length: usize = match dict.get("Length") {
            None => {
                if options.lenient_streams {
                    usize::MAX
                } else {
                    return Err(ParseError::MissingKey(String::from_str("Length")));
                }
            },
            Some(PdfObject::Integer(len)) => {
                if *len == -1 {
                    usize::MAX
                } else {
                    *len as usize
                }
            },
            Some(PdfObject::Reference(obj_num, gen_num)) => {
                if options.lenient_streams {
                    usize::MAX
                } else {
                    let mut message = String::from_str("Stream length reference (");
                    push_decimal(&mut message, *obj_num as u64);
                    message.append(" ");
                    push_decimal(&mut message, *gen_num as u64);
                    message.append(" R) requires lenient mode or reference resolution");
                    return Err(ParseError::SyntaxError { position: lexer.position(), message });
                }
            },
            Some(_) => {
                return Err(ParseError::SyntaxError {
                    position: lexer.position(),
                    message: String::from_str("Invalid stream length type"),
                });
            },
        };
        match lex_newline(lexer) {
            Ok(()) => {},
            Err(e) => {
                return Err(e);
            },
        }
        let stream_data = if length == usize::MAX {
            // Unknown length: read byte by byte up to `endstream`.
            let ghost s1 = lexer.state();
            let mut data: Vec<u8> = Vec::new();
            let mut found_endstream = false;
            let mut i: usize = 0;
            while i < 65536
                invariant_except_break
                    stream_search(s1, 0, Seq::empty()) == stream_search(lexer.state(), i as int, data@),
                    !found_endstream,
                invariant
                    lexer.wf(),
                    i <= 65536,
                    lexer.state().size() <= s1.size(),
                ensures
                    stream_search(s1, 0, Seq::empty()) == (
                        Ok::<(Seq<u8>, bool), ErrView>((data@, found_endstream)),
                        lexer.state(),
                    ),
                    lexer.wf(),
                    lexer.state().size() <= s1.size(),
                decreases 65536 - i,
            {
                let ghost s = lexer.state();
                match lex_peek_byte(lexer) {
                    Ok(b) => {
                        if b == 0x65 {
                            let ghost sp = lexer.state();
                            let saved = match lexer.save_position() {
                                Ok(p) => p,
                                Err(e) => {
                                    return Err(e);
                                },
                            };
                            proof {
                                lexer.lemma_wf_offset();
                            }
                            let peeked = lex_peek(lexer);
                            if matches!(peeked, Ok(Token::EndStream)) {
                                found_endstream = true;
                                break;
                            }
                            let _ = lexer.restore_position(saved);
                            proof {
                                assert(lexer.state().pushed =~= sp.peek().1.pushed);
                            }
                        }
                        let c = match lex_read_byte(lexer) {
                            Ok(c) => c,
                            Err(e) => {
                                return Err(e);
                            },
                        };
                        data.push(c);
                        i = i + 1;
                    },
                    Err(_) => {
                        break;
                    },
                }
            }
            if !found_endstream && !options.lenient_streams {
                return Err(ParseError::SyntaxError {
                    position: lexer.position(),
                    message: String::from_str("Could not find endstream marker"),
                });
            }
            data
        } else {
            match lex_bytes(lexer, length) {
                Ok(v) => v,
                Err(e) => {
                    return Err(e);
                },
            }
        };
        Self::read_stream_end(lexer, stream_data, options)
    }

    /// After the data of a stream: whitespace, then `endstream`; in lenient
    /// mode, the bytes up to a later `endstream` are added to the data.
    fn read_stream_end(lexer: &mut Lexer, data: Vec<u8>, options: &ParseOptions) -> (r: ParseResult<Vec<u8>>)
        requires
            old(lexer).wf(),
        ensures
            final(lexer).wf(),
            read_stream_data(r, stream_end(old(lexer).state(), data@, *options), old(lexer).state(), final(lexer).state()),
    {
        lex_skip_ws(lexer);
        match lex_peek(lexer) {
            Ok(Token::EndStream) => {
                match lex_next(lexer) {
                    Ok(_) => Ok(data),
                    Err(e) => Err(e),
                }
            },
            Ok(other) => {
                if options.lenient_streams {
                    Self::recover_stream_end(lexer, data, options)
                } else {
                    Err(ParseError::UnexpectedToken { expected: String::from_str("endstream"), found: token_debug(&other) })
                }
            },
            Err(e) => {
                if options.lenient_streams {
                    Self::recover_stream_end(lexer, data, options)
                } else {
                    Err(e)
                }
            },
        }
    }

    /// Find `endstream` within `max_recovery_bytes` bytes and add the bytes
    /// before it to the data.
    fn recover_stream_end(lexer: &mut Lexer, data: Vec<u8>, options: &ParseOptions) -> (r: ParseResult<Vec<u8>>)
        requires
            old(lexer).wf(),
        ensures
            final(lexer).wf(),
            read_stream_data(r, stream_recover(old(lexer).state(), data@, *options), old(lexer).state(), final(lexer).state()),
    {
        let ghost s0 = lexer.state();
        let found = match lexer.find_keyword_ahead("endstream", options.max_recovery_bytes) {
            Ok(f) => f,
            Err(e) => {
                return Err(e);
            },
        };
        proof {
            lemma_keyword_ahead_bounds(s0.unread(), "endstream".spec_bytes(), options.max_recovery_bytes as int, 1);
        }
        match found {
            Some(additional_bytes) => {
                let extra = match lex_bytes(lexer, additional_bytes) {
                    Ok(v) => v,
                    Err(e) => {
                        return Err(e);
                    },
                };
                let mut stream_data = data;
                let mut extra_data = extra;
                let ghost joined = stream_data@ + extra_data@;
                stream_data.append(&mut extra_data);
                lex_skip_ws(lexer);
                match lex_expect(lexer, "endstream") {
                    Ok(()) => Ok(stream_data),
                    Err(e) => Err(e),
                }
            },
            None => {
                let mut message = String::from_str("Could not find 'endstream' within ");
                push_decimal(&mut message, options.max_recovery_bytes as u64);
                message.append(" bytes");
                Err(ParseError::SyntaxError { position: lexer.position(), message })
            },
        }
    }
}

} // verus!

verus! {

/// Whether a filter entry describes the `Filter` value `v` of a stream
/// dictionary: a name, an array (each element's name, or `None` for an
/// element that is not a name), or another value.
pub open spec fn filter_entry_of(v: ObjectView, e: FilterEntry) -> bool {
    match v {
        ObjectView::Name(n) => e matches FilterEntry::Name(s) && s@ == n,
        ObjectView::Array(items) => e matches FilterEntry::Array(names) && names@.len() == items.len() && forall|i: int|
            0 <= i < items.len() ==> match items[i] {
                ObjectView::Name(n) => #[trigger] names@[i] matches Some(s) && s@ == n,
                _ => names@[i] is None,
            },
        _ => e is Other,
    }
}

/// The `Filter` entry of a stream dictionary, as the filter decoder takes it.
pub fn filter_entry(dict: &PdfDictionary) -> (r: Option<FilterEntry>)
    ensures
        match dict_get(entries_view(dict.0@), "Filter"@) {
            None => r is None,
            Some(v) => r matches Some(e) && filter_entry_of(v, e),
        },
{
    match dict.get("Filter") {
        None => None,
        Some(PdfObject::Name(n)) => Some(FilterEntry::Name(n.0.clone())),
        Some(PdfObject::Array(a)) => {
            proof {
                lemma_objects_view(a.0@);
            }
            let mut names: Vec<Option<String>> = Vec::new();
            let mut i: usize = 0;
            while i < a.0.len()
                invariant
                    i <= a.0@.len(),
                    names@.len() == i,
                    objects_view(a.0@).len() == a.0@.len(),
                    forall|j: int| 0 <= j < a.0@.len() ==> #[trigger] objects_view(a.0@)[j] == object_view(a.0@[j]),
                    forall|j: int| 0 <= j < i ==> match objects_view(a.0@)[j] {
                        ObjectView::Name(n) => #[trigger] names@[j] matches Some(s) && s@ == n,
                        _ => names@[j] is None,
                    },
                decreases a.0.len() - i,
            {
                let name = match &a.0[i] {
                    PdfObject::Name(n) => Some(n.0.clone()),
                    _ => None,
                };
                names.push(name);
                i = i + 1;
            }
            Some(FilterEntry::Array(names))
        },
        Some(_) => Some(FilterEntry::Other),
    }
}

impl PdfStream {
    /// Get the decompressed stream data: the filters its `Filter` entry
    /// names, applied with the default options.
    pub fn decode(&self) -> (r: ParseResult<Vec<u8>>)
        ensures
            exists|e: Option<FilterEntry>|
                (match dict_get(entries_view(self.dict.0@), "Filter"@) {
                    None => e is None,
                    Some(v) => e matches Some(x) && filter_entry_of(v, x),
                }) && is_outcome(r, decode_stream_spec(self.data@, e, default_options())),
    {
        let entry = filter_entry(&self.dict);
        let options = ParseOptions::default();
        let r = decode_stream(self.data.as_slice(), entry.as_ref(), &options);
        proof {
            assert(match entry {
                Some(e) => Some(e),
                None => None::<FilterEntry>,
            } == entry);
        }
        r
    }

    /// Get the raw (possibly compressed) stream data.
    pub fn raw_data(&self) -> (d: &[u8])
        ensures
            d@ == self.data@,
    {
        self.data.as_slice()
    }
}

impl PdfObject {
    /// Check if this object is null.
    pub fn is_null(&self) -> (b: bool)
        ensures
            b == (*self is Null),
    {
        matches!(self, PdfObject::Null)
    }

    /// Get the value as a boolean.
    pub fn as_bool(&self) -> (r: Option<bool>)
        ensures
            match *self {
                PdfObject::Boolean(b) => r == Some(b),
                _ => r is None,
            },
    {
        match self {
            PdfObject::Boolean(b) => Some(*b),
            _ => None,
        }
    }

    /// Get the value as an integer.
    pub fn as_integer(&self) -> (r: Option<i64>)
        ensures
            match *self {
                PdfObject::Integer(i) => r == Some(i),
                _ => r is None,
            },
    {
        match self {
            PdfObject::Integer(i) => Some(*i),
            _ => None,
        }
    }

    /// Get the value as a string.
    pub fn as_string(&self) -> (r: Option<&PdfString>)
        ensures
            match *self {
                PdfObject::String(s) => r == Some(&s),
                _ => r is None,
            },
    {
        match self {
            PdfObject::String(s) => Some(s),
            _ => None,
        }
    }

    /// Get the value as a name.
    pub fn as_name(&self) -> (r: Option<&PdfName>)
        ensures
            match *self {
                PdfObject::Name(n) => r == Some(&n),
                _ => r is None,
            },
    {
        match self {
            PdfObject::Name(n) => Some(n),
            _ => None,
        }
    }

    /// Get the value as an array.
    pub fn as_array(&self) -> (r: Option<&PdfArray>)
        ensures
            match *self {
                PdfObject::Array(a) => r == Some(&a),
                _ => r is None,
            },
    {
        match self {
            PdfObject::Array(a) => Some(a),
            _ => None,
        }
    }

    /// Get the value as a dictionary (a stream gives its dictionary).
    pub fn as_dict(&self) -> (r: Option<&PdfDictionary>)
        ensures
            match *self {
                PdfObject::Dictionary(d) => r == Some(&d),
                PdfObject::Stream(s) => r == Some(&s.dict),
                _ => r is None,
            },
    {
        match self {
            PdfObject::Dictionary(d) => Some(d),
            PdfObject::Stream(s) => Some(&s.dict),
            _ => None,
        }
    }

    /// Get the value as a stream.
    pub fn as_stream(&self) -> (r: Option<&PdfStream>)
        ensures
            match *self {
                PdfObject::Stream(s) => r == Some(&s),
                _ => r is None,
            },
    {
        match self {
            PdfObject::Stream(s) => Some(s),
            _ => None,
        }
    }

    /// Get the value as a reference.
    pub fn as_reference(&self) -> (r: Option<(u32, u16)>)
        ensures
            match *self {
                PdfObject::Reference(n, g) => r == Some((n, g)),
                _ => r is None,
            },
    {
        match self {
            PdfObject::Reference(n, g) => Some((*n, *g)),
            _ => None,
        }
    }
}

impl Default for PdfDictionary {
    /// An empty dictionary.
    fn default() -> (d: Self)
        ensures
            d.0@.len() == 0,
    {
        PdfDictionary(Vec::new())
    }
}

impl Default for PdfArray {
    /// An empty array.
    fn default() -> (a: Self)
        ensures
            a.0@.len() == 0,
    {
        PdfArray(Vec::new())
    }
}

} // verus!

verus! {

/// Reading the header `n g obj` of the indirect object at byte `at`,
/// expected to be object `n` generation `g`. In lenient syntax a header
/// token of another kind stands for the expected number (generation 0),
/// numbers need not match, and `obj` may be missing (the token read in
/// its place is dropped).
pub open spec fn object_header(s: LexState, n: u32, g: u16, at: int, o: ParseOptions) -> (Result<(), ErrView>, LexState) {
    let (r1, s1) = s.next();
    match r1 {
        Err(e) => (Err(e), s1),
        Ok(t1) => {
            let read_n: Option<u32> = match t1 {
                TokenView::Integer(v) => Some(v as u32),
                _ => if o.lenient_syntax {
                    Some(n)
                } else {
                    None
                },
            };
            match read_n {
                None => (Err(ErrView::Syntax(at, "Expected object number"@)), s1),
                Some(rn) => if rn != n && !o.lenient_syntax {
                    (
                        Err(ErrView::Syntax(
                            at,
                            "Object number mismatch: expected "@ + decimal_seq(n as nat) + ", found "@
                                + decimal_seq(rn as nat),
                        )),
                        s1,
                    )
                } else {
                    let (r2, s2) = s1.next();
                    match r2 {
                        Err(e) => (Err(e), s2),
                        Ok(t2) => {
                            let read_g: Option<u16> = match t2 {
                                TokenView::Integer(v) => Some(v as u16),
                                _ => if o.lenient_syntax {
                                    Some(0u16)
                                } else {
                                    None
                                },
                            };
                            match read_g {
                                None => (Err(ErrView::Syntax(at, "Expected generation number"@)), s2),
                                Some(rg) => if rg != g && !o.lenient_syntax {
                                    (
                                        Err(ErrView::Syntax(
                                            at,
                                            "Generation number mismatch: expected "@ + decimal_seq(g as nat)
                                                + ", found "@ + decimal_seq(rg as nat),
                                        )),
                                        s2,
                                    )
                                } else {
                                    let (r3, s3) = s2.next();
                                    match r3 {
                                        Err(e) => (Err(e), s3),
                                        Ok(TokenView::Obj) => (Ok(()), s3),
                                        Ok(_) => if o.lenient_syntax {
                                            (Ok(()), s3)
                                        } else {
                                            (Err(ErrView::Syntax(at, "Expected 'obj' keyword"@)), s3)
                                        },
                                    }
                                },
                            }
                        },
                    }
                },
            }
        },
    }
}

/// Reading `endobj` after the indirect object at byte `at`; in lenient
/// syntax another token is dropped in its place.
pub open spec fn object_end(s: LexState, at: int, o: ParseOptions) -> (Result<(), ErrView>, LexState) {
    let (r, s1) = s.next();
    match r {
        Err(e) => (Err(e), s1),
        Ok(TokenView::EndObj) => (Ok(()), s1),
        Ok(_) => if o.lenient_syntax {
            (Ok(()), s1)
        } else {
            (Err(ErrView::Syntax(at, "Expected 'endobj' keyword"@)), s1)
        },
    }
}

/// Whether `r` is the check result `v` describes, the lexer ending in the
/// state after it on success.
pub open spec fn checked(r: ParseResult<()>, v: (Result<(), ErrView>, LexState), after: LexState) -> bool {
    &&& match v.0 {
        Ok(_) => r is Ok && after == v.1,
        Err(e) => r matches Err(x) && error_is(x, e),
    }
}

/// Read the header `obj_num gen_num obj` of the indirect object at byte
/// `offset`, checking its numbers.
pub fn read_object_header(lexer: &mut Lexer, obj_num: u32, gen_num: u16, offset: usize, options: &ParseOptions) -> (r: ParseResult<()>)
    requires
        old(lexer).wf(),
    ensures
        final(lexer).wf(),
        checked(r, object_header(old(lexer).state(), obj_num, gen_num, offset as int, *options), final(lexer).state()),
{
    let read_obj_num: u32 = match lex_next(lexer) {
        Ok(Token::Integer(n)) => n as u32,
        Ok(_) => {
            if options.lenient_syntax {
                obj_num
            } else {
                return Err(ParseError::SyntaxError {
                    position: offset,
                    message: String::from_str("Expected object number"),
                });
            }
        },
        Err(e) => {
            return Err(e);
        },
    };
    if read_obj_num != obj_num && !options.lenient_syntax {
        let mut message = String::from_str("Object number mismatch: expected ");
        push_decimal(&mut message, obj_num as u64);
        message.append(", found ");
        push_decimal(&mut message, read_obj_num as u64);
        return Err(ParseError::SyntaxError { position: offset, message });
    }
    let read_gen_num: u16 = match lex_next(lexer) {
        Ok(Token::Integer(n)) => n as u16,
        Ok(_) => {
            if options.lenient_syntax {
                0
            } else {
                return Err(ParseError::SyntaxError {
                    position: offset,
                    message: String::from_str("Expected generation number"),
                });
            }
        },
        Err(e) => {
            return Err(e);
        },
    };
    if read_gen_num != gen_num && !options.lenient_syntax {
        let mut message = String::from_str("Generation number mismatch: expected ");
        push_decimal(&mut message, gen_num as u64);
        message.append(", found ");
        push_decimal(&mut message, read_gen_num as u64);
        return Err(ParseError::SyntaxError { position: offset, message });
    }
    match lex_next(lexer) {
        Ok(Token::Obj) => Ok(()),
        Ok(_) => {
            if options.lenient_syntax {
                Ok(())
            } else {
                Err(ParseError::SyntaxError { position: offset, message: String::from_str("Expected 'obj' keyword") })
            }
        },
        Err(e) => Err(e),
    }
}

/// Read `endobj` after the indirect object at byte `offset`.
pub fn read_object_end(lexer: &mut Lexer, offset: usize, options: &ParseOptions) -> (r: ParseResult<()>)
    requires
        old(lexer).wf(),
    ensures
        final(lexer).wf(),
        checked(r, object_end(old(lexer).state(), offset as int, *options), final(lexer).state()),
{
    match lex_next(lexer) {
        Ok(Token::EndObj) => Ok(()),
        Ok(_) => {
            if options.lenient_syntax {
                Ok(())
            } else {
                Err(ParseError::SyntaxError {
                    position: offset,
                    message: String::from_str("Expected 'endobj' keyword"),
                })
            }
        },
        Err(e) => Err(e),
    }
}

} // verus!

verus! {

/// The index a key is found at holds the key, and nothing after it does.
proof fn lemma_key_index(d: Seq<(Seq<char>, ObjectView)>, k: Seq<char>, n: int)
    requires
        0 <= n <= d.len(),
    ensures
        -1 <= key_index(d, k, n) < n,
        key_index(d, k, n) >= 0 ==> d[key_index(d, k, n)].0 == k,
        forall|j: int| key_index(d, k, n) < j < n ==> #[trigger] d[j].0 != k,
    decreases n,
{
    if n > 0 && d[n - 1].0 != k {
        lemma_key_index(d, k, n - 1);
    }
}

/// A key is found exactly when some entry holds it.
proof fn lemma_key_index_found(d: Seq<(Seq<char>, ObjectView)>, k: Seq<char>, n: int)
    requires
        0 <= n <= d.len(),
    ensures
        key_index(d, k, n) >= 0 <==> exists|j: int| 0 <= j < n && #[trigger] d[j].0 == k,
    decreases n,
{
    lemma_key_index(d, k, n);
    if n > 0 && d[n - 1].0 != k {
        lemma_key_index_found(d, k, n - 1);
    }
}

/// Reading a key just written gives the value written; other keys read
/// as before; and a dictionary whose keys are distinct keeps them
/// distinct.
pub proof fn lemma_dict_insert_get(d: Seq<(Seq<char>, ObjectView)>, k: Seq<char>, v: ObjectView, k2: Seq<char>)
    ensures
        dict_get(dict_insert(d, k, v), k) == Some(v),
        k2 != k ==> dict_get(dict_insert(d, k, v), k2) == dict_get(d, k2),
        distinct_keys(d) ==> distinct_keys(dict_insert(d, k, v)),
{
    let n = d.len() as int;
    let i = key_index(d, k, n);
    let e = dict_insert(d, k, v);
    lemma_key_index(d, k, n);
    lemma_key_index(d, k2, n);
    lemma_key_index(e, k, e.len() as int);
    lemma_key_index(e, k2, e.len() as int);
    lemma_key_index_found(d, k2, n);
    lemma_key_index_found(e, k2, e.len() as int);
    lemma_key_index_found(d, k, n);
    if i >= 0 {
        assert(e[i].0 == k);
        if k2 != k {
            let a = key_index(d, k2, n);
            let b = key_index(e, k2, n);
            if a >= 0 {
                assert(e[a].0 == k2);
            }
            if b >= 0 {
                assert(d[b].0 == k2);
            }
            assert(a == b);
        }
    } else {
        assert(e[n].0 == k);
        if k2 != k {
            let a = key_index(d, k2, n);
            let b = key_index(e, k2, n + 1);
            assert(e[n].0 != k2);
            if a >= 0 {
                assert(e[a].0 == k2);
            }
            if b >= 0 {
                assert(d[b].0 == k2);
            }
            assert(a == b);
        }
    }
    if distinct_keys(d) {
        assert forall|a: int, b: int| 0 <= a < b < e.len() implies e[a].0 != e[b].0 by {
            if i < 0 && b == n {
                assert(d[a].0 != k);
            }
        }
    }
}

/// A dictionary built by inserting into distinct-keyed entries has
/// distinct keys: the parser's dictionaries never hold a key twice.
pub proof fn lemma_parsed_dict_distinct(s: LexState, acc: Seq<(Seq<char>, ObjectView)>, o: ParseOptions)
    requires
        distinct_keys(acc),
    ensures
        dict_entries(s, acc, o).0 matches Ok(d) ==> distinct_keys(d),
    decreases s.size(),
{
    let (r, s1) = s.step();
    match r {
        Ok(TokenView::Comment(_)) => {
            if s1.size() < s.size() {
                lemma_parsed_dict_distinct(s1, acc, o);
            }
        },
        Ok(TokenView::Name(k)) => {
            if s1.size() < s.size() {
                let (r2, s2) = object_at(s1, o);
                if let Ok(v) = r2 {
                    if s2.size() < s.size() {
                        lemma_dict_insert_get(acc, k, v, k);
                        lemma_parsed_dict_distinct(s2, dict_insert(acc, k, v), o);
                    }
                }
            }
        },
        _ => {},
    }
}

} // verus!

verus! {

/// A copy of an object, element by element.
pub fn copy_object(o: &PdfObject) -> (c: PdfObject)
    ensures
        object_view(c) == object_view(*o),
    decreases o,
{
    match o {
        PdfObject::Null => PdfObject::Null,
        PdfObject::Boolean(b) => PdfObject::Boolean(*b),
        PdfObject::Integer(i) => PdfObject::Integer(*i),
        PdfObject::Real(s) => PdfObject::Real(s.clone()),
        PdfObject::String(s) => PdfObject::String(PdfString(crate::text::bytes_to_vec(s.0.as_slice()))),
        PdfObject::Name(n) => PdfObject::Name(PdfName(n.0.clone())),
        PdfObject::Array(a) => {
            let mut items: Vec<PdfObject> = Vec::new();
            let mut i: usize = 0;
            while i < a.0.len()
                invariant
                    i <= a.0@.len(),
                    objects_view(items@) == objects_view(a.0@.take(i as int)),
                *o == PdfObject::Array(*a),
                decreases a.0.len() - i,
            {
                assert(decreases_to!(*o => a.0@[i as int])) by {
                    assert(o->Array_0 == *a);
                    assert(decreases_to!(*o => o->Array_0));
                    assert(decreases_to!(*a => a.0));
                    assert(decreases_to!(a.0 => a.0@));
                    assert(decreases_to!(a.0@ => a.0@[i as int]));
                }
                let c = copy_object(&a.0[i]);
                proof {
                    lemma_objects_view_push(items@, c);
                    lemma_objects_view_push(a.0@.take(i as int), a.0@[i as int]);
                    assert(a.0@.take(i as int).push(a.0@[i as int]) =~= a.0@.take(i + 1));
                }
                items.push(c);
                i = i + 1;
            }
            assert(a.0@.take(a.0@.len() as int) =~= a.0@);
            PdfObject::Array(PdfArray(items))
        },
        PdfObject::Dictionary(d) => {
            let entries = copy_entries(d, Ghost(*o));
            PdfObject::Dictionary(PdfDictionary(entries))
        },
        PdfObject::Stream(st) => {
            let entries = copy_entries(&st.dict, Ghost(*o));
            PdfObject::Stream(
                PdfStream {
                    dict: PdfDictionary(entries),
                    data: crate::text::bytes_to_vec(st.data.as_slice()),
                },
            )
        },
        PdfObject::Reference(n, g) => PdfObject::Reference(*n, *g),
    }
}

/// A copy of the entries of a dictionary that is part of `whole`.
fn copy_entries(d: &PdfDictionary, Ghost(whole): Ghost<PdfObject>) -> (c: Vec<(PdfName, PdfObject)>)
    requires
        (whole matches PdfObject::Dictionary(x) && x == *d) || (whole matches PdfObject::Stream(st) && st.dict
            == *d),
    ensures
        entries_view(c@) == entries_view(d.0@),
    decreases whole, 0nat,
{
    let mut items: Vec<(PdfName, PdfObject)> = Vec::new();
    let mut i: usize = 0;
    while i < d.0.len()
        invariant
            i <= d.0@.len(),
            entries_view(items@) == entries_view(d.0@.take(i as int)),
            (whole matches PdfObject::Dictionary(x) && x == *d) || (whole matches PdfObject::Stream(st)
                && st.dict == *d),
        decreases d.0.len() - i,
    {
        let key = PdfName(d.0[i].0.0.clone());
        assert(decreases_to!(whole => d.0@[i as int].1));
        let value = copy_object(&d.0[i].1);
        proof {
            lemma_entries_view_change(items@, -1, (key, value));
            lemma_entries_view_change(d.0@.take(i as int), -1, d.0@[i as int]);
            assert(d.0@.take(i as int).push(d.0@[i as int]) =~= d.0@.take(i + 1));
        }
        items.push((key, value));
        i = i + 1;
    }
    assert(d.0@.take(d.0@.len() as int) =~= d.0@);
    items
}

impl PdfDictionary {
    /// A copy of the dictionary.
    pub fn copy(&self) -> (c: Self)
        ensures
            entries_view(c.0@) == entries_view(self.0@),
    {
        let mut items: Vec<(PdfName, PdfObject)> = Vec::new();
        let mut i: usize = 0;
        while i < self.0.len()
            invariant
                i <= self.0@.len(),
                entries_view(items@) == entries_view(self.0@.take(i as int)),
            decreases self.0.len() - i,
        {
            let key = PdfName(self.0[i].0.0.clone());
            let value = copy_object(&self.0[i].1);
            proof {
                lemma_entries_view_change(items@, -1, (key, value));
                lemma_entries_view_change(self.0@.take(i as int), -1, self.0@[i as int]);
                assert(self.0@.take(i as int).push(self.0@[i as int]) =~= self.0@.take(i + 1));
            }
            items.push((key, value));
            i = i + 1;
        }
        assert(self.0@.take(self.0@.len() as int) =~= self.0@);
        PdfDictionary(items)
    }
}

} // verus!
