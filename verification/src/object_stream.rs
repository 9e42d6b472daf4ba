//! Cross-reference entries of PDF 1.5, which may point into object
//! streams, and the objects such streams hold.

use vstd::prelude::*;
use crate::error::{ParseError, ParseResult};
use crate::lexer::{error_is, lex_spec, token_view, ErrView, LexState, LexStep, Lexer, Token, TokenView};
use crate::objects::{object_at, object_view, ObjectView, PdfObject};
use crate::parse_options::default_options;
use crate::xref::XRefEntry;

verus! {

/// Extended XRef entry to handle compressed objects.
#[derive(Debug, Clone, Copy, PartialEq, Eq, Structural)]
pub enum XRefEntryType {
    /// Free object
    Free { next_free_obj: u32, generation: u16 },
    /// Uncompressed object
    InUse { offset: u64, generation: u16 },
    /// Compressed object in object stream
    Compressed { stream_obj_num: u32, index_in_stream: u32 },
}

impl XRefEntryType {
    /// Convert to simple XRefEntry for compatibility: a free entry keeps
    /// its generation at offset 0, an in-use entry its offset and
    /// generation, and a compressed entry is in use at offset 0, generation 0.
    pub fn to_simple_entry(&self) -> (r: XRefEntry)
        ensures
            r == (match *self {
                XRefEntryType::Free { generation, .. } => XRefEntry { offset: 0, generation, in_use: false },
                XRefEntryType::InUse { offset, generation } => XRefEntry { offset, generation, in_use: true },
                XRefEntryType::Compressed { .. } => XRefEntry { offset: 0, generation: 0, in_use: true },
            }),
    {
        match self {
            XRefEntryType::Free { generation, .. } => XRefEntry {
                offset: 0,
                generation: *generation,
                in_use: false,
            },
            XRefEntryType::InUse { offset, generation } => XRefEntry {
                offset: *offset,
                generation: *generation,
                in_use: true,
            },
            XRefEntryType::Compressed { .. } => XRefEntry { offset: 0, generation: 0, in_use: true },
        }
    }
}

/// Reading `n` more pairs (object number, offset) of an object stream's
/// header from the bytes `s`, `consumed` of them already read, by a
/// lexer whose count of consumed bytes was `base` at the start: the pairs
/// appended to `acc` and the bytes read; or an error's position and
/// message (a token that is not an integer gives position 0).
pub open spec fn offset_pairs(s: Seq<u8>, base: int, consumed: int, n: nat, acc: Seq<(u32, u32)>) -> Result<
    (Seq<(u32, u32)>, int),
    (int, Seq<char>),
>
    decreases n,
{
    if n == 0 {
        Ok((acc, consumed))
    } else {
        match lex_spec(s.skip(consumed)) {
            LexStep::Fail(k, m, _) => Err((base + consumed + k, m)),
            LexStep::Tok(TokenView::Integer(num), k, _) => {
                let c1 = consumed + k;
                match lex_spec(s.skip(c1)) {
                    LexStep::Fail(k2, m, _) => Err((base + c1 + k2, m)),
                    LexStep::Tok(TokenView::Integer(off), k2, _) => offset_pairs(
                        s,
                        base,
                        c1 + k2,
                        (n - 1) as nat,
                        acc.push((num as u32, off as u32)),
                    ),
                    LexStep::Tok(_, _, _) => Err((0, "Expected offset in object stream"@)),
                }
            },
            LexStep::Tok(_, _, _) => Err((0, "Expected object number in object stream"@)),
        }
    }
}

/// Read the `n` pairs (object number, offset) at the start of an object
/// stream's data; numbers are taken as `u32`, low bits kept.
pub fn read_object_offsets(lexer: &mut Lexer, n: u32) -> (r: ParseResult<Vec<(u32, u32)>>)
    requires
        old(lexer).wf(),
        old(lexer).pushed().len() == 0,
    ensures
        match offset_pairs(old(lexer).avail(), old(lexer).pos(), 0, n as nat, Seq::empty()) {
            Ok((v, k)) => r matches Ok(w) && w@ == v && final(lexer).moved(*old(lexer), k),
            Err((p, m)) => r matches Err(ParseError::SyntaxError { position, message }) && position == p
                && message@ == m,
        },
{
    let ghost base = *lexer;
    let ghost s = lexer.avail();
    let mut offsets: Vec<(u32, u32)> = Vec::new();
    let mut i: u32 = 0;
    let ghost mut consumed: int = 0;
    assert(s.skip(0) =~= s);
    while i < n
        invariant
            i <= n,
            s == base.avail(),
            base == *old(lexer),
            lexer.moved(base, consumed),
            lexer.pushed().len() == 0,
            offset_pairs(s, base.pos(), 0, n as nat, Seq::empty()) == offset_pairs(
                s,
                base.pos(),
                consumed,
                (n - i) as nat,
                offsets@,
            ),
        decreases n - i,
    {
        let ghost before = *lexer;
        assert(before.avail() == s.skip(consumed));
        let obj_num = match lexer.next_token() {
            Ok(Token::Integer(v)) => v as u32,
            Ok(_) => {
                return Err(ParseError::SyntaxError {
                    position: 0,
                    message: String::from_str("Expected object number in object stream"),
                });
            },
            Err(e) => {
                return Err(e);
            },
        };
        let ghost k1 = crate::lexer::step_len(lex_spec(before.avail()));
        proof {
            Lexer::lemma_moved_trans(base, before, *lexer, consumed, k1);
            assert(s.skip(consumed).skip(k1) =~= s.skip(consumed + k1));
        }
        let ghost mid = *lexer;
        let offset = match lexer.next_token() {
            Ok(Token::Integer(v)) => v as u32,
            Ok(_) => {
                return Err(ParseError::SyntaxError {
                    position: 0,
                    message: String::from_str("Expected offset in object stream"),
                });
            },
            Err(e) => {
                return Err(e);
            },
        };
        let ghost k2 = crate::lexer::step_len(lex_spec(mid.avail()));
        proof {
            Lexer::lemma_moved_trans(base, mid, *lexer, consumed + k1, k2);
            consumed = consumed + k1 + k2;
        }
        offsets.push((obj_num, offset));
        i = i + 1;
    }
    Ok(offsets)
}

} // verus!

verus! {

/// The state of a lexer just created over `data`, reading from `start`.
pub open spec fn fresh_state(data: Seq<u8>, start: int) -> LexState {
    LexState { data, offset: start, peeked: None, pos: 0, pushed: Seq::empty() }
}

/// The views of numbered objects.
pub open spec fn numbered_view(v: Seq<(u32, PdfObject)>) -> Seq<(u32, ObjectView)>
    decreases v.len(),
{
    if v.len() == 0 {
        Seq::empty()
    } else {
        numbered_view(v.drop_last()).push((v.last().0, object_view(v.last().1)))
    }
}

/// The index of the entry numbered `k` among the first `n`, or -1.
pub open spec fn number_index(v: Seq<(u32, ObjectView)>, k: u32, n: int) -> int
    decreases n,
{
    if n <= 0 {
        -1
    } else if v[n - 1].0 == k {
        n - 1
    } else {
        number_index(v, k, n - 1)
    }
}

/// The numbered objects `v` with object `k` set to `o`: in place when it
/// is there, else added at the end.
pub open spec fn number_insert(v: Seq<(u32, ObjectView)>, k: u32, o: ObjectView) -> Seq<(u32, ObjectView)> {
    let i = number_index(v, k, v.len() as int);
    if i >= 0 {
        v.update(i, (k, o))
    } else {
        v.push((k, o))
    }
}

/// The object parsed, with the default options, from byte `start` of
/// `data`.
#[verifier::opaque]
pub open spec fn object_at_start(data: Seq<u8>, start: int) -> Result<ObjectView, ErrView> {
    object_at(fresh_state(data, start), default_options()).0
}

/// The objects of an object stream whose data is `data`, for the pairs
/// (number, offset) from the `i`-th on, `acc` parsed before: each object
/// is parsed from `first + offset` (wrapping at 2^32); a later object of
/// the same number replaces an earlier one.
pub open spec fn stream_objects(data: Seq<u8>, first: u32, pairs: Seq<(u32, u32)>, i: int, acc: Seq<(u32, ObjectView)>) -> Result<Seq<(u32, ObjectView)>, ErrView>
    decreases pairs.len() - i,
{
    if i < 0 || i >= pairs.len() {
        Ok(acc)
    } else {
        let sum = first + pairs[i].1;
        let start = if sum > u32::MAX {
            sum - 0x1_0000_0000
        } else {
            sum
        };
        match object_at_start(data, start) {
            Ok(v) => stream_objects(data, first, pairs, i + 1, number_insert(acc, pairs[i].0, v)),
            Err(e) => Err(e),
        }
    }
}

/// The views of numbered objects, one for each.
proof fn lemma_numbered_view(v: Seq<(u32, PdfObject)>)
    ensures
        numbered_view(v).len() == v.len(),
        forall|i: int| 0 <= i < v.len() ==> #[trigger] numbered_view(v)[i] == (v[i].0, object_view(v[i].1)),
    decreases v.len(),
{
    if v.len() > 0 {
        lemma_numbered_view(v.drop_last());
    }
}

/// Set object `num` among numbered objects, in place when it is there.
fn insert_numbered(v: &mut Vec<(u32, PdfObject)>, num: u32, obj: PdfObject)
    ensures
        numbered_view(final(v)@) == number_insert(numbered_view(old(v)@), num, object_view(obj)),
{
    let ghost old_v = v@;
    let ghost nv = numbered_view(v@);
    let ghost entry = (num, obj);
    proof {
        lemma_numbered_view(v@);
    }
    let mut i = v.len();
    loop
        invariant
            v@ == old_v,
            i <= v@.len(),
            nv.len() == v@.len(),
            forall|j: int| 0 <= j < v@.len() ==> #[trigger] nv[j] == (v@[j].0, object_view(v@[j].1)),
            number_index(nv, num, v@.len() as int) == number_index(nv, num, i as int),
        ensures
            v@ == old_v,
            i <= v@.len(),
            i == 0 ==> number_index(nv, num, v@.len() as int) == -1,
            i > 0 ==> number_index(nv, num, v@.len() as int) == i - 1,
        decreases i,
    {
        if i == 0 {
            break;
        }
        if v[i - 1].0 == num {
            break;
        }
        i = i - 1;
    }
    if i > 0 {
        v.remove(i - 1);
        v.insert(i - 1, (num, obj));
        proof {
            assert(v@ =~= old_v.update(i - 1, entry));
            lemma_numbered_view(v@);
            assert(numbered_view(v@) =~= nv.update(i - 1, (num, object_view(obj))));
        }
    } else {
        v.push((num, obj));
        proof {
            assert(v@.drop_last() =~= old_v);
        }
    }
}

/// Parse the objects of an object stream from its decoded data: the `n`
/// pairs (number, offset) at its start, then each object at `first` plus
/// its offset.
pub fn parse_stream_objects(data: &[u8], n: u32, first: u32) -> (r: ParseResult<Vec<(u32, PdfObject)>>)
    requires
        data@.len() < usize::MAX,
    ensures
        match offset_pairs(data@, 0, 0, n as nat, Seq::empty()) {
            Ok((pairs, _)) => match stream_objects(data@, first, pairs, 0, Seq::empty()) {
                Ok(v) => r matches Ok(w) && numbered_view(w@) == v,
                Err(e) => r matches Err(x) && error_is(x, e),
            },
            Err((p, m)) => r matches Err(ParseError::SyntaxError { position, message }) && position == p
                && message@ == m,
        },
{
    let mut lexer = Lexer::new(data, 0);
    proof {
        assert(lexer.avail() =~= data@);
    }
    let offsets = match read_object_offsets(&mut lexer, n) {
        Ok(v) => v,
        Err(e) => {
            return Err(e);
        },
    };
    let ghost pairs = offsets@;
    let mut objects: Vec<(u32, PdfObject)> = Vec::new();
    proof {
        assert(numbered_view(objects@) =~= Seq::<(u32, ObjectView)>::empty());
    }
    let mut i: usize = 0;
    while i < offsets.len()
        invariant
            i <= offsets@.len(),
            pairs == offsets@,
            offset_pairs(data@, 0, 0, n as nat, Seq::empty()) matches Ok((p, _)) && p == pairs,
            data@.len() < usize::MAX,
            stream_objects(data@, first, pairs, 0, Seq::empty()) == stream_objects(
                data@,
                first,
                pairs,
                i as int,
                numbered_view(objects@),
            ),
        decreases offsets.len() - i,
    {
        let (obj_num, offset) = offsets[i];
        let start = first.wrapping_add(offset);
        let mut obj_lexer = Lexer::new(data, start as usize);
        proof {
            assert(obj_lexer.state().pushed =~= Seq::<TokenView>::empty());
            assert(obj_lexer.state() == fresh_state(data@, start as int));
        }
        let obj = match PdfObject::parse(&mut obj_lexer) {
            Ok(o) => o,
            Err(e) => {
                proof {
                    reveal(object_at_start);
                }
                return Err(e);
            },
        };
        proof {
            reveal(object_at_start);
        }
        insert_numbered(&mut objects, obj_num, obj);
        i = i + 1;
    }
    Ok(objects)
}

} // verus!
