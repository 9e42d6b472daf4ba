//! Cross-reference streams (ISO 32000-1, 7.5.8): entries stored as
//! fixed-width big-endian fields, their decoding, and the layout a
//! builder writes.

use vstd::prelude::*;
use vstd::arithmetic::div_mod::{lemma_mod_breakdown, lemma_fundamental_div_mod};
use crate::error::{ParseError, ParseResult};
use crate::text::{decimal_seq, push_decimal};
use crate::objects::{
    PdfArray, PdfDictionary, PdfName, PdfObject, ObjectView, dict_get, dict_insert, entries_view, object_view,
    objects_view, lemma_objects_view, lemma_objects_view_push,
};
use crate::filters::{Filter, FilterFailure, apply_filter, apply_filter_spec, filter_of_name};
use crate::lexer::{str_debug, str_debug_text};
use crate::parse_options::ParseOptions;

verus! {

/// Cross-reference entry.
#[derive(Debug, Clone, Copy, PartialEq, Eq, Structural)]
pub enum XRefEntry {
    /// Free object entry
    Free {
        /// Next free object number
        next_free_object: u32,
        /// Generation number
        generation: u16,
    },
    /// In-use object entry
    InUse {
        /// Byte offset in the file
        offset: u64,
        /// Generation number
        generation: u16,
    },
    /// Compressed object entry (PDF 1.5+)
    Compressed {
        /// Object number of the object stream containing this object
        stream_object_number: u32,
        /// Index of this object within the object stream
        index_within_stream: u32,
    },
}

/// The big-endian value of a byte string.
pub open spec fn be_value(s: Seq<u8>) -> nat
    decreases s.len(),
{
    if s.len() == 0 {
        0
    } else {
        be_value(s.drop_last()) * 256 + s.last() as nat
    }
}

/// 256 to the power `n`.
pub open spec fn pow256(n: nat) -> nat
    decreases n,
{
    if n == 0 {
        1
    } else {
        256 * pow256((n - 1) as nat)
    }
}

/// The low `w` bytes of `v`, most significant first.
pub open spec fn be_bytes(v: nat, w: nat) -> Seq<u8>
    decreases w,
{
    if w == 0 {
        Seq::empty()
    } else {
        be_bytes(v / 256, (w - 1) as nat).push((v % 256) as u8)
    }
}

/// Fewest bytes, at least one, that hold `v`.
pub open spec fn bytes_needed_spec(v: nat) -> nat
    decreases v,
{
    if v < 256 {
        1
    } else {
        1 + bytes_needed_spec(v / 256)
    }
}

proof fn lemma_read_step(x: nat, b: u8)
    ensures
        ((x % 0x1_0000_0000_0000_0000) % 0x100_0000_0000_0000) * 256 + b == (x * 256 + b)
            % 0x1_0000_0000_0000_0000,
{
    let m: int = 0x100_0000_0000_0000;
    let big: int = 0x1_0000_0000_0000_0000;
    lemma_fundamental_div_mod(x as int, m);
    let q = x as int / m;
    let r = x as int % m;
    assert(big == m * 256);
    assert(x as int == m * q + r);
    assert((x as int % big) % m == r) by {
        vstd::arithmetic::div_mod::lemma_mod_mod(x as int, m, 256);
    }
    assert(x * 256 + b == big * q + (r * 256 + b)) by (nonlinear_arith)
        requires
            x as int == m * q + r,
            big == m * 256,
    ;
    assert(0 <= r * 256 + b < big) by (nonlinear_arith)
        requires
            0 <= r < m,
            0 <= b < 256,
            big == m * 256,
    ;
    vstd::arithmetic::div_mod::lemma_mod_multiples_vanish(q, r * 256 + b, big);
    vstd::arithmetic::div_mod::lemma_small_mod((r * 256 + b) as nat, big as nat);
}

/// Read a big-endian field from bytes, keeping the low 64 bits.
pub fn read_field(bytes: &[u8]) -> (v: u64)
    ensures
        v == be_value(bytes@) % 0x1_0000_0000_0000_0000,
{
    let mut value: u64 = 0;
    let mut i: usize = 0;
    while i < bytes.len()
        invariant
            i <= bytes.len(),
            value == be_value(bytes@.take(i as int)) % 0x1_0000_0000_0000_0000,
        decreases bytes.len() - i,
    {
        let b = bytes[i];
        proof {
            assert(bytes@.take(i + 1).drop_last() =~= bytes@.take(i as int));
            lemma_read_step(be_value(bytes@.take(i as int)), b);
        }
        let low = value % 0x100_0000_0000_0000;
        value = low * 256 + b as u64;
        i = i + 1;
    }
    assert(bytes@.take(bytes.len() as int) =~= bytes@);
    value
}

/// Append the low `width` bytes of `value`, most significant first.
pub fn write_field(output: &mut Vec<u8>, value: u64, width: usize)
    requires
        width <= 8,
    ensures
        final(output)@ == old(output)@ + be_bytes(value as nat, width as nat),
    decreases width,
{
    if width > 0 {
        write_field(output, value / 256, width - 1);
        output.push((value % 256) as u8);
        assert(final(output)@ =~= old(output)@ + be_bytes(value as nat, width as nat));
    } else {
        assert(final(output)@ =~= old(output)@ + be_bytes(value as nat, width as nat));
    }
}

/// Fewest bytes, at least one, needed to represent a value.
pub fn bytes_needed(value: u64) -> (n: usize)
    ensures
        n == bytes_needed_spec(value as nat),
        1 <= n <= 8,
{
    let mut v = value;
    let mut n: usize = 1;
    proof {
        lemma_bytes_needed_bound(value as nat);
    }
    while v >= 256
        invariant
            1 <= n,
            n + bytes_needed_spec(v as nat) - 1 == bytes_needed_spec(value as nat),
            bytes_needed_spec(value as nat) <= 8,
        decreases v,
    {
        proof {
            lemma_bytes_needed_pos((v / 256) as nat);
        }
        v = v / 256;
        n = n + 1;
    }
    n
}

proof fn lemma_bytes_needed_pos(v: nat)
    ensures
        bytes_needed_spec(v) >= 1,
{
}

proof fn lemma_bytes_needed_bound(v: nat)
    requires
        v < 0x1_0000_0000_0000_0000,
    ensures
        1 <= bytes_needed_spec(v) <= 8,
{
    reveal_with_fuel(bytes_needed_spec, 9);
}

/// Sum of the first `k` widths.
pub open spec fn prefix_width(w: Seq<usize>, k: int) -> int
    decreases k,
{
    if k <= 0 {
        0
    } else {
        prefix_width(w, k - 1) + w[k - 1]
    }
}

/// Field `k` of the entry at `offset`: the big-endian value of its bytes,
/// keeping the low 64 bits.
pub open spec fn field_at(data: Seq<u8>, w: Seq<usize>, offset: int, k: int) -> u64 {
    (be_value(data.subrange(offset + prefix_width(w, k), offset + prefix_width(w, k + 1)))
        % 0x1_0000_0000_0000_0000) as u64
}

/// The type of the entry at `offset`: its first field, or type 1 when
/// that field has width 0 (ISO 32000-1, 7.5.8: a field absent from the
/// stream takes its default, and the type's default is 1).
pub open spec fn type_field(data: Seq<u8>, w: Seq<usize>, offset: int) -> u64 {
    if w.len() > 0 && w[0] == 0 {
        1
    } else {
        field_at(data, w, offset, 0)
    }
}

/// The entry that a type field and two fields stand for; `None` for an
/// unknown type.
pub open spec fn entry_of_fields(t: u64, f1: u64, f2: u64) -> Option<XRefEntry> {
    if t == 0 {
        Some(XRefEntry::Free { next_free_object: f1 as u32, generation: f2 as u16 })
    } else if t == 1 {
        Some(XRefEntry::InUse { offset: f1, generation: f2 as u16 })
    } else if t == 2 {
        Some(XRefEntry::Compressed { stream_object_number: f1 as u32, index_within_stream: f2 as u32 })
    } else {
        None
    }
}

/// The entry types of a cross-reference stream (ISO 32000-1, table 18):
/// type 0 is a free entry (next free object number, generation), type 1
/// an object in use (byte offset, generation), type 2 an object in an
/// object stream (stream object number, index within it); the fields of
/// an entry give its type back.
pub proof fn lemma_stream_entry_types(f1: u64, f2: u64)
    ensures
        f1 <= u32::MAX && f2 <= u16::MAX ==> entry_of_fields(0, f1, f2) == Some(
            XRefEntry::Free { next_free_object: f1 as u32, generation: f2 as u16 },
        ),
        f2 <= u16::MAX ==> entry_of_fields(1, f1, f2) == Some(XRefEntry::InUse { offset: f1, generation: f2 as u16 }),
        f1 <= u32::MAX && f2 <= u32::MAX ==> entry_of_fields(2, f1, f2) == Some(
            XRefEntry::Compressed { stream_object_number: f1 as u32, index_within_stream: f2 as u32 },
        ),
        entry_fields(XRefEntry::Free { next_free_object: f1 as u32, generation: f2 as u16 }).0 == 0,
        entry_fields(XRefEntry::InUse { offset: f1, generation: f2 as u16 }).0 == 1,
        entry_fields(XRefEntry::Compressed { stream_object_number: f1 as u32, index_within_stream: f2 as u32 }).0 == 2,
{
}

/// Decoding the entries of index pair `p` from its `i`-th entry on, the
/// entry data starting at `offset`, after the entries `acc`: `None` where
/// the decoding would overflow (object number, offset, or fewer than three
/// widths for a known type); else the entries, or the error's position and message.
pub open spec fn decode_from(
    data: Seq<u8>,
    w: Seq<usize>,
    index: Seq<(u32, u32)>,
    p: int,
    i: int,
    offset: int,
    acc: Seq<(u32, XRefEntry)>,
) -> Option<Result<Seq<(u32, XRefEntry)>, (int, Seq<char>)>>
    decreases index.len() - p, (if 0 <= p < index.len() { index[p].1 - i } else { 0 }),
{
    let size = prefix_width(w, w.len() as int);
    if p < 0 || p >= index.len() {
        Some(Ok(acc))
    } else if i >= index[p].1 {
        decode_from(data, w, index, p + 1, 0, offset, acc)
    } else if offset + size > usize::MAX {
        None
    } else if offset + size > data.len() {
        Some(Err((offset, "Xref stream data truncated"@)))
    } else if index[p].0 + i > u32::MAX {
        None
    } else {
        let t = type_field(data, w, offset);
        if t > 2 {
            Some(Err((offset, "Invalid xref entry type: "@ + decimal_seq(t as nat))))
        } else if w.len() < 3 {
            None
        } else {
            let e = entry_of_fields(t, field_at(data, w, offset, 1), field_at(data, w, offset, 2));
            decode_from(data, w, index, p, i + 1, offset + size, acc.push(((index[p].0 + i) as u32, e.unwrap())))
        }
    }
}

/// Decoding all entries of a cross-reference stream; `None` where the
/// decoding would overflow.
pub open spec fn decode_entries_spec(data: Seq<u8>, w: Seq<usize>, index: Seq<(u32, u32)>) -> Option<
    Result<Seq<(u32, XRefEntry)>, (int, Seq<char>)>,
> {
    let size = prefix_width(w, w.len() as int);
    if size > usize::MAX {
        None
    } else if size == 0 {
        Some(Err((0, "Invalid entry size (0) in xref stream"@)))
    } else {
        decode_from(data, w, index, 0, 0, 0, Seq::empty())
    }
}

/// Cross-reference stream: its dictionary, decoded data, field widths
/// (the W array) and subsections (the Index array as pairs of first
/// object number and count).
pub struct XRefStream<D> {
    /// Stream dictionary
    pub dict: D,
    /// Decoded stream data
    pub data: Vec<u8>,
    /// Field widths from W array
    pub widths: Vec<usize>,
    /// Index array (pairs of [first_object_number, count])
    pub index: Vec<(u32, u32)>,
}

impl<D> XRefStream<D> {
    /// Decode the entries of the stream, subsection by subsection, each
    /// with its object number.
    pub fn to_xref_entries(&self) -> (r: ParseResult<Vec<(u32, XRefEntry)>>)
        requires
            decode_entries_spec(self.data@, self.widths@, self.index@) is Some,
        ensures
            match decode_entries_spec(self.data@, self.widths@, self.index@) {
                Some(Ok(v)) => r matches Ok(w) && w@ == v,
                Some(Err((pos, m))) => r matches Err(ParseError::SyntaxError { position, message })
                    && position == pos && message@ == m,
                None => false,
            },
    {
        let ghost target = decode_entries_spec(self.data@, self.widths@, self.index@);
        let mut entry_size: usize = 0;
        let mut k: usize = 0;
        while k < self.widths.len()
            invariant
                k <= self.widths.len(),
                entry_size == prefix_width(self.widths@, k as int),
                target == decode_entries_spec(self.data@, self.widths@, self.index@),
                target is Some,
            decreases self.widths.len() - k,
        {
            proof {
                lemma_prefix_width_mono(self.widths@, k as int + 1, self.widths.len() as int);
            }
            entry_size = entry_size + self.widths[k];
            k = k + 1;
        }
        if entry_size == 0 {
            return Err(ParseError::SyntaxError {
                position: 0,
                message: String::from_str("Invalid entry size (0) in xref stream"),
            });
        }
        let mut entries: Vec<(u32, XRefEntry)> = Vec::new();
        let mut data_offset: usize = 0;
        let mut p: usize = 0;
        while p < self.index.len()
            invariant
                p <= self.index.len(),
                entry_size == prefix_width(self.widths@, self.widths.len() as int),
                entry_size > 0,
                target == decode_from(self.data@, self.widths@, self.index@, p as int, 0, data_offset as int, entries@),
                target == decode_entries_spec(self.data@, self.widths@, self.index@),
                target is Some,
            decreases self.index.len() - p,
        {
            let (first_obj, count) = self.index[p];
            let mut i: u32 = 0;
            while i < count
                invariant
                    p < self.index.len(),
                    (first_obj, count) == self.index@[p as int],
                    i <= count,
                    entry_size == prefix_width(self.widths@, self.widths.len() as int),
                    entry_size > 0,
                    target == decode_from(self.data@, self.widths@, self.index@, p as int, i as int, data_offset as int, entries@),
                    target == decode_entries_spec(self.data@, self.widths@, self.index@),
                    target is Some,
                decreases count - i,
            {
                if entry_size > usize::MAX - data_offset {
                    assert(false);
                }
                if data_offset + entry_size > self.data.len() {
                    return Err(ParseError::SyntaxError {
                        position: data_offset,
                        message: String::from_str("Xref stream data truncated"),
                    });
                }
                if self.widths.len() == 0 {
                    assert(false);
                }
                let entry_type = if self.widths[0] == 0 {
                    1
                } else {
                    self.read_entry_field(data_offset, 0)
                };
                if first_obj as u64 + i as u64 > u32::MAX as u64 {
                    assert(false);
                }
                let obj_num = first_obj + i;
                if entry_type > 2 {
                    let mut msg = String::from_str("Invalid xref entry type: ");
                    push_decimal(&mut msg, entry_type);
                    return Err(ParseError::SyntaxError { position: data_offset, message: msg });
                }
                if self.widths.len() < 3 {
                    assert(false);
                }
                let f1 = self.read_entry_field(data_offset, 1);
                let f2 = self.read_entry_field(data_offset, 2);
                let entry = if entry_type == 0 {
                    XRefEntry::Free { next_free_object: f1 as u32, generation: f2 as u16 }
                } else if entry_type == 1 {
                    XRefEntry::InUse { offset: f1, generation: f2 as u16 }
                } else {
                    XRefEntry::Compressed { stream_object_number: f1 as u32, index_within_stream: f2 as u32 }
                };
                entries.push((obj_num, entry));
                data_offset = data_offset + entry_size;
                i = i + 1;
            }
            p = p + 1;
        }
        Ok(entries)
    }

    /// Field `k` of the entry at `offset`.
    fn read_entry_field(&self, offset: usize, k: usize) -> (v: u64)
        requires
            k < self.widths.len(),
            offset + prefix_width(self.widths@, self.widths.len() as int) <= self.data.len(),
        ensures
            v == field_at(self.data@, self.widths@, offset as int, k as int),
    {
        let mut start: usize = offset;
        let mut j: usize = 0;
        proof {
            lemma_prefix_width_mono(self.widths@, k as int + 1, self.widths.len() as int);
        }
        while j < k
            invariant
                j <= k < self.widths.len(),
                start == offset + prefix_width(self.widths@, j as int),
                offset + prefix_width(self.widths@, k as int + 1) <= self.data.len(),
            decreases k - j,
        {
            proof {
                lemma_prefix_width_mono(self.widths@, j as int + 1, k as int + 1);
            }
            start = start + self.widths[j];
            j = j + 1;
        }
        let end = start + self.widths[k];
        proof {
            lemma_prefix_width_mono(self.widths@, 0, k as int);
        }
        let (head, _) = self.data.as_slice().split_at(end);
        let (_, field) = head.split_at(start);
        assert(field@ =~= self.data@.subrange(start as int, end as int));
        read_field(field)
    }
}

proof fn lemma_prefix_width_mono(w: Seq<usize>, a: int, b: int)
    requires
        0 <= a <= b <= w.len(),
    ensures
        0 <= prefix_width(w, a) <= prefix_width(w, b),
    decreases b - a,
{
    lemma_prefix_width_nonneg(w, a);
    if a < b {
        lemma_prefix_width_mono(w, a, b - 1);
    }
}

proof fn lemma_prefix_width_nonneg(w: Seq<usize>, k: int)
    requires
        0 <= k <= w.len(),
    ensures
        0 <= prefix_width(w, k),
    decreases k,
{
    if k > 0 {
        lemma_prefix_width_nonneg(w, k - 1);
    }
}

/// `x` placed after the last entry of `s` whose object number is not
/// greater than its own (`s` being sorted, the order stays stable).
pub open spec fn insert_by_num(s: Seq<(u32, XRefEntry)>, x: (u32, XRefEntry)) -> Seq<(u32, XRefEntry)>
    decreases s.len(),
{
    if s.len() == 0 {
        seq![x]
    } else if s.last().0 <= x.0 {
        s.push(x)
    } else {
        insert_by_num(s.drop_last(), x).push(s.last())
    }
}

/// The entries stably sorted by object number.
pub open spec fn sort_by_num(s: Seq<(u32, XRefEntry)>) -> Seq<(u32, XRefEntry)>
    decreases s.len(),
{
    if s.len() == 0 {
        s
    } else {
        insert_by_num(sort_by_num(s.drop_last()), s.last())
    }
}

/// Type, second and third field of an entry.
pub open spec fn entry_fields(e: XRefEntry) -> (u64, u64, u64) {
    match e {
        XRefEntry::Free { next_free_object, generation } => (0, next_free_object as u64, generation as u64),
        XRefEntry::InUse { offset, generation } => (1, offset, generation as u64),
        XRefEntry::Compressed { stream_object_number, index_within_stream } => (
            2,
            stream_object_number as u64,
            index_within_stream as u64,
        ),
    }
}

/// Largest second-field value among the entries' offsets, next free
/// object numbers and indexes within an object stream.
pub open spec fn max_offset(s: Seq<(u32, XRefEntry)>) -> u64
    decreases s.len(),
{
    if s.len() == 0 {
        0
    } else {
        let m = max_offset(s.drop_last());
        let v = match s.last().1 {
            XRefEntry::InUse { offset, .. } => offset,
            XRefEntry::Compressed { index_within_stream, .. } => index_within_stream as u64,
            XRefEntry::Free { next_free_object, .. } => next_free_object as u64,
        };
        if v > m { v } else { m }
    }
}

/// Largest object number, and object stream number, of the entries.
pub open spec fn max_obj_num(s: Seq<(u32, XRefEntry)>) -> u32
    decreases s.len(),
{
    if s.len() == 0 {
        0
    } else {
        let m = max_obj_num(s.drop_last());
        let m = if s.last().0 > m { s.last().0 } else { m };
        match s.last().1 {
            XRefEntry::Compressed { stream_object_number, .. } => if stream_object_number > m {
                stream_object_number
            } else {
                m
            },
            _ => m,
        }
    }
}

/// Largest third-field value: the generations of the free and in-use
/// entries and the indexes within an object stream of the compressed ones.
pub open spec fn max_third_field(s: Seq<(u32, XRefEntry)>) -> u64
    decreases s.len(),
{
    if s.len() == 0 {
        0
    } else {
        let m = max_third_field(s.drop_last());
        let v = entry_fields(s.last().1).2;
        if v > m { v } else { m }
    }
}

/// Width of the second field: enough bytes for its largest value and for
/// the largest object number.
pub open spec fn layout_w2(s: Seq<(u32, XRefEntry)>) -> nat {
    let a = max_offset(s);
    let b = max_obj_num(s) as u64;
    bytes_needed_spec(if a > b { a as nat } else { b as nat })
}

/// Width of the third field: enough bytes for its largest value.
pub open spec fn layout_w3(s: Seq<(u32, XRefEntry)>) -> nat {
    bytes_needed_spec(max_third_field(s) as nat)
}

/// The bytes of one entry: type (one byte), second and third field.
pub open spec fn encode_entry(e: XRefEntry, w2: nat, w3: nat) -> Seq<u8> {
    let (t, f2, f3) = entry_fields(e);
    be_bytes(t as nat, 1) + be_bytes(f2 as nat, w2) + be_bytes(f3 as nat, w3)
}

/// The bytes of the entries, one after another.
pub open spec fn stream_bytes(s: Seq<(u32, XRefEntry)>, w2: nat, w3: nat) -> Seq<u8>
    decreases s.len(),
{
    if s.len() == 0 {
        Seq::empty()
    } else {
        stream_bytes(s.drop_last(), w2, w3) + encode_entry(s.last().1, w2, w3)
    }
}

/// One more than the largest object number, or 0 without entries.
pub open spec fn layout_size(s: Seq<(u32, XRefEntry)>) -> int
    decreases s.len(),
{
    if s.len() == 0 {
        0
    } else {
        let m = layout_size(s.drop_last());
        if s.last().0 + 1 > m { s.last().0 + 1 } else { m }
    }
}

/// What a cross-reference stream writes besides its data: W, Size, the
/// Index pair (when the first object number is not 0), and the Length of
/// the uncompressed data.
pub struct XRefStreamLayout {
    /// Field widths (the W array)
    pub widths: Vec<usize>,
    /// One more than the largest object number (the Size entry)
    pub size: u32,
    /// First object number and count (the Index array), when the first
    /// object number is not 0
    pub index: Option<(u32, u32)>,
    /// Length of the uncompressed entry data
    pub length: usize,
}

/// XRef stream builder for creating new xref streams.
pub struct XRefStreamBuilder {
    entries: Vec<(u32, XRefEntry)>,
    trailer_entries: PdfDictionary,
}

impl XRefStreamBuilder {
    /// The entries added so far, in order of addition.
    pub closed spec fn entries(&self) -> Seq<(u32, XRefEntry)> {
        self.entries@
    }

    /// The additional trailer dictionary entries.
    pub closed spec fn trailer(&self) -> Seq<(Seq<char>, ObjectView)> {
        entries_view(self.trailer_entries.0@)
    }

    /// Create a new XRef stream builder.
    pub fn new() -> (b: Self)
        ensures
            b.entries() == Seq::<(u32, XRefEntry)>::empty(),
            b.trailer() == Seq::<(Seq<char>, ObjectView)>::empty(),
    {
        XRefStreamBuilder { entries: Vec::new(), trailer_entries: PdfDictionary::new() }
    }

    /// Add an entry to the xref stream.
    pub fn add_entry(&mut self, obj_num: u32, entry: XRefEntry)
        ensures
            final(self).entries() == old(self).entries().push((obj_num, entry)),
            final(self).trailer() == old(self).trailer(),
    {
        self.entries.push((obj_num, entry));
    }

    /// Add a trailer dictionary entry.
    pub fn add_trailer_entry(&mut self, key: &str, value: PdfObject)
        ensures
            final(self).entries() == old(self).entries(),
            final(self).trailer() == dict_insert(old(self).trailer(), key@, object_view(value)),
    {
        self.trailer_entries.insert(String::from_str(key), value);
    }

    /// The entries stably sorted by object number, the layout of the
    /// stream and its uncompressed data.
    pub fn build_layout(&self) -> (r: (Vec<(u32, XRefEntry)>, XRefStreamLayout, Vec<u8>))
        requires
            forall|i: int| 0 <= i < self.entries().len() ==> #[trigger] self.entries()[i].0 < u32::MAX,
        ensures
            r.0@ == sort_by_num(self.entries()),
            r.1.widths@ == seq![1usize, layout_w2(r.0@) as usize, layout_w3(r.0@) as usize],
            1 <= layout_w2(r.0@) <= 8,
            1 <= layout_w3(r.0@) <= 8,
            r.1.size == layout_size(r.0@),
            r.1.index == (if r.0@.len() > 0 && r.0@[0].0 != 0 {
                Some((r.0@[0].0, r.0@.len() as u32))
            } else {
                None
            }),
            r.2@ == stream_bytes(r.0@, layout_w2(r.0@), layout_w3(r.0@)),
            r.1.length == r.2@.len(),
    {
        let sorted = sort_entries(&self.entries);
        proof {
            assert forall|i: int| 0 <= i < self.entries@.len() implies #[trigger] self.entries@[i].0
                < u32::MAX by {
                assert(self.entries()[i] == self.entries@[i]);
            }
            lemma_sort_keeps_keys(self.entries@);
        }
        let mut max_offset_v: u64 = 0;
        let mut max_obj: u32 = 0;
        let mut max_third: u64 = 0;
        let mut size: u32 = 0;
        let mut i: usize = 0;
        while i < sorted.len()
            invariant
                i <= sorted.len(),
                forall|k: int| 0 <= k < sorted@.len() ==> #[trigger] sorted@[k].0 < u32::MAX,
                max_offset_v == max_offset(sorted@.take(i as int)),
                max_obj == max_obj_num(sorted@.take(i as int)),
                max_third == max_third_field(sorted@.take(i as int)),
                size == layout_size(sorted@.take(i as int)),
            decreases sorted.len() - i,
        {
            let (num, entry) = sorted[i];
            assert(sorted@.take(i + 1).drop_last() =~= sorted@.take(i as int));
            if num > max_obj {
                max_obj = num;
            }
            match entry {
                XRefEntry::InUse { offset, generation } => {
                    if offset > max_offset_v {
                        max_offset_v = offset;
                    }
                    if generation as u64 > max_third {
                        max_third = generation as u64;
                    }
                },
                XRefEntry::Free { next_free_object, generation } => {
                    if next_free_object as u64 > max_offset_v {
                        max_offset_v = next_free_object as u64;
                    }
                    if generation as u64 > max_third {
                        max_third = generation as u64;
                    }
                },
                XRefEntry::Compressed { stream_object_number, index_within_stream } => {
                    if stream_object_number > max_obj {
                        max_obj = stream_object_number;
                    }
                    if index_within_stream as u64 > max_offset_v {
                        max_offset_v = index_within_stream as u64;
                    }
                    if index_within_stream as u64 > max_third {
                        max_third = index_within_stream as u64;
                    }
                },
            }
            if num + 1 > size {
                size = num + 1;
            }
            i = i + 1;
        }
        assert(sorted@.take(sorted.len() as int) =~= sorted@);
        let w1: usize = 1;
        let w2 = bytes_needed(if max_offset_v > max_obj as u64 {
            max_offset_v
        } else {
            max_obj as u64
        });
        let w3 = bytes_needed(max_third);
        let mut data: Vec<u8> = Vec::new();
        let mut j: usize = 0;
        while j < sorted.len()
            invariant
                j <= sorted.len(),
                w1 == 1,
                1 <= w2 <= 8,
                1 <= w3 <= 8,
                w2 == layout_w2(sorted@),
                w3 == layout_w3(sorted@),
                data@ == stream_bytes(sorted@.take(j as int), w2 as nat, w3 as nat),
            decreases sorted.len() - j,
        {
            let (_, entry) = sorted[j];
            assert(sorted@.take(j + 1).drop_last() =~= sorted@.take(j as int));
            let ghost before = data@;
            match entry {
                XRefEntry::Free { next_free_object, generation } => {
                    write_field(&mut data, 0, w1);
                    write_field(&mut data, next_free_object as u64, w2);
                    write_field(&mut data, generation as u64, w3);
                },
                XRefEntry::InUse { offset, generation } => {
                    write_field(&mut data, 1, w1);
                    write_field(&mut data, offset, w2);
                    write_field(&mut data, generation as u64, w3);
                },
                XRefEntry::Compressed { stream_object_number, index_within_stream } => {
                    write_field(&mut data, 2, w1);
                    write_field(&mut data, stream_object_number as u64, w2);
                    write_field(&mut data, index_within_stream as u64, w3);
                },
            }
            assert(data@ =~= before + encode_entry(entry, w2 as nat, w3 as nat));
            j = j + 1;
        }
        assert(sorted@.take(sorted.len() as int) =~= sorted@);
        let index = if sorted.len() > 0 && sorted[0].0 != 0 {
            Some((sorted[0].0, sorted.len() as u32))
        } else {
            None
        };
        let mut widths: Vec<usize> = Vec::new();
        widths.push(w1);
        widths.push(w2);
        widths.push(w3);
        assert(widths@ =~= seq![1usize, layout_w2(sorted@) as usize, layout_w3(sorted@) as usize]);
        let length = data.len();
        (sorted, XRefStreamLayout { widths, size, index, length }, data)
    }
}

/// Position at which `x` goes into the sorted entries `s`: after the last
/// entry whose object number is not greater than its own.
pub open spec fn insert_position(s: Seq<(u32, XRefEntry)>, x: (u32, XRefEntry)) -> int
    decreases s.len(),
{
    if s.len() == 0 || s.last().0 <= x.0 {
        s.len() as int
    } else {
        insert_position(s.drop_last(), x)
    }
}

proof fn lemma_insert_by_num(s: Seq<(u32, XRefEntry)>, x: (u32, XRefEntry))
    ensures
        0 <= insert_position(s, x) <= s.len(),
        insert_by_num(s, x) == s.insert(insert_position(s, x), x),
        forall|k: int| insert_position(s, x) <= k < s.len() ==> #[trigger] s[k].0 > x.0,
    decreases s.len(),
{
    if s.len() > 0 && s.last().0 > x.0 {
        lemma_insert_by_num(s.drop_last(), x);
        let k = insert_position(s.drop_last(), x);
        assert(s.drop_last().insert(k, x).push(s.last()) =~= s.insert(k, x));
        assert forall|j: int| k <= j < s.len() implies #[trigger] s[j].0 > x.0 by {
            if j < s.len() - 1 {
                assert(s[j] == s.drop_last()[j]);
            }
        }
    } else {
        assert(s.push(x) =~= s.insert(s.len() as int, x));
    }
}

/// The entries stably sorted by object number (insertion sort).
fn sort_entries(entries: &Vec<(u32, XRefEntry)>) -> (r: Vec<(u32, XRefEntry)>)
    ensures
        r@ == sort_by_num(entries@),
{
    let mut result: Vec<(u32, XRefEntry)> = Vec::new();
    let mut j: usize = 0;
    assert(entries@.take(0) =~= Seq::<(u32, XRefEntry)>::empty());
    while j < entries.len()
        invariant
            j <= entries.len(),
            result@ == sort_by_num(entries@.take(j as int)),
        decreases entries.len() - j,
    {
        let x = entries[j];
        assert(entries@.take(j + 1).drop_last() =~= entries@.take(j as int));
        proof {
            lemma_insert_by_num(result@, x);
        }
        let mut k = result.len();
        assert(result@.take(k as int) =~= result@);
        while k > 0 && result[k - 1].0 > x.0
            invariant
                k <= result.len(),
                insert_position(result@, x) == insert_position(result@.take(k as int), x),
            decreases k,
        {
            assert(result@.take(k as int).drop_last() =~= result@.take(k - 1));
            k = k - 1;
        }
        assert(result@.take(k as int).len() == k);
        proof {
            if k > 0 {
                assert(result@.take(k as int).last() == result@[k - 1]);
            }
        }
        assert(result@.take(result.len() as int) =~= result@);
        result.insert(k, x);
        j = j + 1;
    }
    assert(entries@.take(entries.len() as int) =~= entries@);
    result
}

proof fn lemma_insert_keeps_keys(s: Seq<(u32, XRefEntry)>, x: (u32, XRefEntry), bound: u32)
    requires
        forall|i: int| 0 <= i < s.len() ==> #[trigger] s[i].0 < bound,
        x.0 < bound,
    ensures
        forall|i: int| 0 <= i < insert_by_num(s, x).len() ==> #[trigger] insert_by_num(s, x)[i].0 < bound,
        insert_by_num(s, x).len() == s.len() + 1,
    decreases s.len(),
{
    if s.len() > 0 && s.last().0 > x.0 {
        lemma_insert_keeps_keys(s.drop_last(), x, bound);
    }
}

proof fn lemma_sort_keeps_keys(s: Seq<(u32, XRefEntry)>)
    requires
        forall|i: int| 0 <= i < s.len() ==> #[trigger] s[i].0 < u32::MAX,
    ensures
        forall|i: int| 0 <= i < sort_by_num(s).len() ==> #[trigger] sort_by_num(s)[i].0 < u32::MAX,
        sort_by_num(s).len() == s.len(),
    decreases s.len(),
{
    if s.len() > 0 {
        lemma_sort_keeps_keys(s.drop_last());
        lemma_insert_keeps_keys(sort_by_num(s.drop_last()), s.last(), u32::MAX);
    }
}

/// What flate2's `ZlibEncoder` at the default compression level gives
/// for `data` once written in full and finished: the compressed bytes, or
/// the text of the error.
pub uninterp spec fn zlib_compressed(data: Seq<u8>) -> Result<Seq<u8>, Seq<char>>;

/// `flate2::write::ZlibEncoder::new(Vec::new(), Compression::default())`,
/// `write_all` of the data, then `finish`. Claimed: the result is
/// `zlib_compressed` of the data, an error converted to its display text.
#[verifier::external_body]
fn zlib_compress(data: &[u8]) -> (r: Result<Vec<u8>, String>)
    ensures
        match zlib_compressed(data@) {
            Ok(v) => r matches Ok(w) && w@ == v,
            Err(m) => r matches Err(e) && e@ == m,
        },
{
    let mut encoder = flate2::write::ZlibEncoder::new(Vec::new(), flate2::Compression::default());
    match std::io::Write::write_all(&mut encoder, data) {
        Ok(()) => {},
        Err(e) => {
            return Err(e.to_string());
        },
    }
    match encoder.finish() {
        Ok(v) => Ok(v),
        Err(e) => Err(e.to_string()),
    }
}

/// Compress data using flate compression.
pub fn compress_data(data: &[u8]) -> (r: ParseResult<Vec<u8>>)
    ensures
        match zlib_compressed(data@) {
            Ok(v) => r matches Ok(w) && w@ == v,
            Err(m) => r matches Err(ParseError::StreamDecodeError(msg)) && msg@ == "Compression failed: "@
                + m,
        },
{
    match zlib_compress(data) {
        Ok(v) => Ok(v),
        Err(e) => {
            let mut msg = String::from_str("Compression failed: ");
            msg.append(e.as_str());
            Err(ParseError::StreamDecodeError(msg))
        },
    }
}

/// The dictionary of a built stream: the trailer entries, then Type, W,
/// Size, Index (when the first object number is not 0), Length of the
/// uncompressed data and Filter, each inserted in that order.
pub open spec fn built_dict(
    trailer: Seq<(Seq<char>, ObjectView)>,
    sorted: Seq<(u32, XRefEntry)>,
    length: nat,
) -> Seq<(Seq<char>, ObjectView)> {
    let d1 = dict_insert(trailer, "Type"@, ObjectView::Name("XRef"@));
    let d2 = dict_insert(
        d1,
        "W"@,
        ObjectView::Array(
            seq![
                ObjectView::Integer(1),
                ObjectView::Integer(layout_w2(sorted) as i64),
                ObjectView::Integer(layout_w3(sorted) as i64),
            ],
        ),
    );
    let d3 = dict_insert(d2, "Size"@, ObjectView::Integer(layout_size(sorted) as i64));
    let d4 = if sorted.len() > 0 && sorted[0].0 != 0 {
        dict_insert(
            d3,
            "Index"@,
            ObjectView::Array(
                seq![ObjectView::Integer(sorted[0].0 as i64), ObjectView::Integer(sorted.len() as u32 as i64)],
            ),
        )
    } else {
        d3
    };
    let d5 = dict_insert(d4, "Length"@, ObjectView::Integer(length as i64));
    dict_insert(d5, "Filter"@, ObjectView::Name("FlateDecode"@))
}

/// An array object of integers.
fn integer_array(values: &Vec<i64>) -> (o: PdfObject)
    ensures
        object_view(o) == ObjectView::Array(Seq::new(values@.len(), |i: int| ObjectView::Integer(values@[i]))),
{
    let mut items: Vec<PdfObject> = Vec::new();
    let mut i: usize = 0;
    while i < values.len()
        invariant
            i <= values@.len(),
            objects_view(items@) == Seq::new(i as nat, |k: int| ObjectView::Integer(values@[k])),
        decreases values.len() - i,
    {
        let ghost before = items@;
        items.push(PdfObject::Integer(values[i]));
        proof {
            lemma_objects_view_push(before, PdfObject::Integer(values@[i as int]));
            assert(before.push(PdfObject::Integer(values@[i as int])) == items@);
            assert(objects_view(items@) =~= Seq::new((i + 1) as nat, |k: int| ObjectView::Integer(values@[k])));
        }
        i = i + 1;
    }
    PdfObject::Array(PdfArray(items))
}

impl XRefStreamBuilder {
    /// Build the xref stream: its dictionary (the trailer entries with
    /// Type, W, Size, Index, Length and Filter) and the entry data
    /// compressed with FlateDecode.
    pub fn build(self) -> (r: ParseResult<(PdfDictionary, Vec<u8>)>)
        requires
            forall|i: int| 0 <= i < self.entries().len() ==> #[trigger] self.entries()[i].0 < u32::MAX,
        ensures
            ({
                let sorted = sort_by_num(self.entries());
                let data = stream_bytes(sorted, layout_w2(sorted), layout_w3(sorted));
                match zlib_compressed(data) {
                    Ok(c) => r matches Ok((dict, w)) && w@ == c && entries_view(dict.0@) == built_dict(
                        self.trailer(),
                        sorted,
                        data.len(),
                    ),
                    Err(m) => r matches Err(ParseError::StreamDecodeError(msg)) && msg@
                        == "Compression failed: "@ + m,
                }
            }),
    {
        let (sorted, layout, data) = self.build_layout();
        let ghost sv = sorted@;
        let compressed = match compress_data(data.as_slice()) {
            Ok(c) => c,
            Err(e) => {
                return Err(e);
            },
        };
        let mut dict = self.trailer_entries;
        dict.insert(String::from_str("Type"), PdfObject::Name(PdfName(String::from_str("XRef"))));
        let mut w: Vec<i64> = Vec::new();
        w.push(layout.widths[0] as i64);
        w.push(layout.widths[1] as i64);
        w.push(layout.widths[2] as i64);
        let w_obj = integer_array(&w);
        assert(Seq::new(w@.len(), |i: int| ObjectView::Integer(w@[i])) =~= seq![
            ObjectView::Integer(1),
            ObjectView::Integer(layout_w2(sv) as i64),
            ObjectView::Integer(layout_w3(sv) as i64),
        ]);
        dict.insert(String::from_str("W"), w_obj);
        dict.insert(String::from_str("Size"), PdfObject::Integer(layout.size as i64));
        match layout.index {
            Some((first, count)) => {
                let mut ix: Vec<i64> = Vec::new();
                ix.push(first as i64);
                ix.push(count as i64);
                let ix_obj = integer_array(&ix);
                assert(Seq::new(ix@.len(), |i: int| ObjectView::Integer(ix@[i])) =~= seq![
                    ObjectView::Integer(sv[0].0 as i64),
                    ObjectView::Integer(sv.len() as u32 as i64),
                ]);
                dict.insert(String::from_str("Index"), ix_obj);
            },
            None => {},
        }
        dict.insert(String::from_str("Length"), PdfObject::Integer(layout.length as i64));
        dict.insert(String::from_str("Filter"), PdfObject::Name(PdfName(String::from_str("FlateDecode"))));
        Ok((dict, compressed))
    }
}

/// The subsections a reader takes from a built stream: its Index pair,
/// or `(0, Size)` when it has none.
pub open spec fn layout_index_pairs(sorted: Seq<(u32, XRefEntry)>) -> Seq<(u32, u32)> {
    if sorted.len() > 0 && sorted[0].0 != 0 {
        seq![(sorted[0].0, sorted.len() as u32)]
    } else {
        seq![(0u32, layout_size(sorted) as u32)]
    }
}

/// Whether the object numbers run on by one from the first.
pub open spec fn consecutive_numbers(s: Seq<(u32, XRefEntry)>) -> bool {
    forall|i: int| 0 <= i < s.len() ==> #[trigger] s[i].0 == s[0].0 + i
}

proof fn lemma_pow256_facts(w: nat)
    ensures
        pow256(w) > 0,
        w <= 8 ==> pow256(w) <= 0x1_0000_0000_0000_0000,
    decreases w,
{
    if w > 0 {
        lemma_pow256_facts((w - 1) as nat);
    }
    if w <= 8 {
        reveal_with_fuel(pow256, 9);
    }
}

proof fn lemma_pow256_mono(a: nat, b: nat)
    requires
        a <= b,
    ensures
        pow256(a) <= pow256(b),
    decreases b,
{
    if a < b {
        lemma_pow256_mono(a, (b - 1) as nat);
        lemma_pow256_facts((b - 1) as nat);
    }
}

proof fn lemma_be_bytes(v: nat, w: nat)
    ensures
        be_bytes(v, w).len() == w,
        be_value(be_bytes(v, w)) == v % pow256(w),
    decreases w,
{
    lemma_pow256_facts(w);
    if w > 0 {
        lemma_be_bytes(v / 256, (w - 1) as nat);
        lemma_pow256_facts((w - 1) as nat);
        let b = be_bytes(v, w);
        assert(b.drop_last() == be_bytes(v / 256, (w - 1) as nat));
        lemma_mod_breakdown(v as int, 256, pow256((w - 1) as nat) as int);
        assert(be_value(b) == be_value(b.drop_last()) * 256 + (v % 256));
        assert(v % pow256(w) == 256 * ((v / 256) % pow256((w - 1) as nat)) + v % 256);
    } else {
        assert(v % 1 == 0);
    }
}

/// A field written with `write_field` in a width that holds its value
/// reads back, with `read_field`, as that value.
pub proof fn lemma_field_roundtrip(value: u64, width: nat)
    requires
        width <= 8,
        value < pow256(width),
    ensures
        be_bytes(value as nat, width).len() == width,
        be_value(be_bytes(value as nat, width)) % 0x1_0000_0000_0000_0000 == value,
{
    lemma_be_bytes(value as nat, width);
    lemma_pow256_facts(width);
    vstd::arithmetic::div_mod::lemma_small_mod(value as nat, pow256(width));
    vstd::arithmetic::div_mod::lemma_small_mod(value as nat, 0x1_0000_0000_0000_0000);
}

/// The width that `bytes_needed` gives a value holds the value.
pub proof fn lemma_bytes_needed_holds(value: u64)
    ensures
        (value as nat) < pow256(bytes_needed_spec(value as nat)),
{
    lemma_bytes_needed_fits(value as nat, value as nat);
}

proof fn lemma_bytes_needed_fits(m: nat, v: nat)
    requires
        v <= m,
    ensures
        v < pow256(bytes_needed_spec(m)),
    decreases m,
{
    if m >= 256 {
        lemma_bytes_needed_fits(m / 256, m / 256);
        lemma_pow256_facts(bytes_needed_spec(m / 256));
        assert(m < pow256(bytes_needed_spec(m))) by (nonlinear_arith)
            requires
                m / 256 < pow256(bytes_needed_spec(m / 256)),
                pow256(bytes_needed_spec(m)) == 256 * pow256(bytes_needed_spec(m / 256)),
        ;
    } else {
        reveal_with_fuel(pow256, 2);
    }
}

proof fn lemma_max_bounds(s: Seq<(u32, XRefEntry)>, i: int)
    requires
        0 <= i < s.len(),
    ensures
        s[i].0 <= max_obj_num(s),
        match s[i].1 {
            XRefEntry::InUse { offset, generation } => offset <= max_offset(s) && generation
                <= max_third_field(s),
            XRefEntry::Free { next_free_object, generation } => next_free_object <= max_offset(s)
                && generation <= max_third_field(s),
            XRefEntry::Compressed { stream_object_number, index_within_stream } => index_within_stream
                <= max_offset(s) && stream_object_number <= max_obj_num(s) && index_within_stream
                <= max_third_field(s),
        },
    decreases s.len(),
{
    if i < s.len() - 1 {
        lemma_max_bounds(s.drop_last(), i);
        assert(s.drop_last()[i] == s[i]);
    }
}

proof fn lemma_stream_bytes_len(s: Seq<(u32, XRefEntry)>, w2: nat, w3: nat)
    ensures
        stream_bytes(s, w2, w3).len() == s.len() * (1 + w2 + w3),
    decreases s.len(),
{
    if s.len() > 0 {
        lemma_stream_bytes_len(s.drop_last(), w2, w3);
        let (t, f2, f3) = entry_fields(s.last().1);
        lemma_be_bytes(t as nat, 1);
        lemma_be_bytes(f2 as nat, w2);
        lemma_be_bytes(f3 as nat, w3);
        assert(s.len() * (1 + w2 + w3) == (s.len() - 1) * (1 + w2 + w3) + (1 + w2 + w3)) by (nonlinear_arith);
    }
}

proof fn lemma_stream_bytes_entry(s: Seq<(u32, XRefEntry)>, w2: nat, w3: nat, i: int)
    requires
        0 <= i < s.len(),
    ensures
        stream_bytes(s, w2, w3).subrange(i * (1 + w2 + w3), (i + 1) * (1 + w2 + w3)) == encode_entry(
            s[i].1,
            w2,
            w3,
        ),
    decreases s.len(),
{
    let size = 1 + w2 + w3;
    let prev = stream_bytes(s.drop_last(), w2, w3);
    lemma_stream_bytes_len(s.drop_last(), w2, w3);
    let (t, f2, f3) = entry_fields(s.last().1);
    lemma_be_bytes(t as nat, 1);
    lemma_be_bytes(f2 as nat, w2);
    lemma_be_bytes(f3 as nat, w3);
    let enc = encode_entry(s.last().1, w2, w3);
    assert(enc.len() == size);
    if i == s.len() - 1 {
        assert(prev.len() == i * size);
        assert((i + 1) * size == i * size + size) by (nonlinear_arith);
        assert((prev + enc).subrange(i * size, (i + 1) * size) =~= enc);
    } else {
        lemma_stream_bytes_entry(s.drop_last(), w2, w3, i);
        assert((i + 1) * size <= (s.len() - 1) * size) by (nonlinear_arith)
            requires
                i + 1 <= s.len() - 1,
                size >= 0,
        ;
        assert(0 <= i * size <= (i + 1) * size) by (nonlinear_arith)
            requires
                i >= 0,
                size >= 0,
        ;
        assert(prev.len() == (s.len() - 1) * size);
        assert((prev + enc).subrange(i * size, (i + 1) * size) =~= prev.subrange(i * size, (i + 1) * size));
        assert(s.drop_last()[i] == s[i]);
    }
}

/// Whether the second and third fields of every entry fit their widths.
pub open spec fn fields_fit(s: Seq<(u32, XRefEntry)>, w2: nat, w3: nat) -> bool {
    forall|j: int|
        0 <= j < s.len() ==> (#[trigger] entry_fields(s[j].1)).1 < pow256(w2) && entry_fields(
            s[j].1,
        ).2 < pow256(w3)
}

proof fn lemma_entry_fields_read(s: Seq<(u32, XRefEntry)>, w2: nat, w3: nat, i: int)
    requires
        0 <= i < s.len(),
        1 <= w2 <= 8,
        1 <= w3 <= 8,
        fields_fit(s, w2, w3),
    ensures
        ({
            let data = stream_bytes(s, w2, w3);
            let w = seq![1usize, w2 as usize, w3 as usize];
            let off = i * (1 + w2 + w3);
            &&& field_at(data, w, off, 0) == entry_fields(s[i].1).0
            &&& field_at(data, w, off, 1) == entry_fields(s[i].1).1
            &&& field_at(data, w, off, 2) == entry_fields(s[i].1).2
            &&& prefix_width(w, 3) == 1 + w2 + w3
        }),
{
    let data = stream_bytes(s, w2, w3);
    let w = seq![1usize, w2 as usize, w3 as usize];
    let size = 1 + w2 + w3;
    let off = i * size;
    reveal_with_fuel(prefix_width, 4);
    assert(prefix_width(w, 1) == 1);
    assert(prefix_width(w, 2) == 1 + w2);
    assert(prefix_width(w, 3) == size);
    lemma_stream_bytes_entry(s, w2, w3, i);
    lemma_stream_bytes_len(s, w2, w3);
    assert((i + 1) * size == off + size) by (nonlinear_arith)
        requires
            off == i * size,
    ;
    assert(0 <= off) by (nonlinear_arith)
        requires
            i >= 0,
            size >= 0,
            off == i * size,
    ;
    let (t, f2, f3) = entry_fields(s[i].1);
    let enc = encode_entry(s[i].1, w2, w3);
    lemma_be_bytes(t as nat, 1);
    lemma_be_bytes(f2 as nat, w2);
    lemma_be_bytes(f3 as nat, w3);
    lemma_pow256_facts(1);
    lemma_pow256_facts(w2);
    lemma_pow256_facts(w3);
    reveal_with_fuel(pow256, 2);
    assert(data.subrange(off, off + size) == enc);
    assert(off + size <= data.len()) by (nonlinear_arith)
        requires
            off + size == (i + 1) * size,
            data.len() == s.len() * size,
            i + 1 <= s.len(),
            size >= 0,
    ;
    assert(enc.subrange(0, 1) =~= be_bytes(t as nat, 1));
    assert(enc.subrange(1, 1 + w2 as int) =~= be_bytes(f2 as nat, w2));
    assert(enc.subrange(1 + w2 as int, size as int) =~= be_bytes(f3 as nat, w3));
    assert(data.subrange(off + 0, off + 1) =~= enc.subrange(0, 1));
    assert(data.subrange(off + 1, off + 1 + w2) =~= enc.subrange(1, 1 + w2 as int));
    assert(data.subrange(off + 1 + w2, off + size) =~= enc.subrange(1 + w2 as int, size as int));
    assert(t < 256);
    assert(entry_fields(s[i].1).1 < pow256(w2));
    assert(entry_fields(s[i].1).2 < pow256(w3));
    vstd::arithmetic::div_mod::lemma_small_mod(t as nat, pow256(1));
    vstd::arithmetic::div_mod::lemma_small_mod(f2 as nat, pow256(w2));
    vstd::arithmetic::div_mod::lemma_small_mod(f3 as nat, pow256(w3));
    vstd::arithmetic::div_mod::lemma_small_mod(t as nat, 0x1_0000_0000_0000_0000);
    vstd::arithmetic::div_mod::lemma_small_mod(f2 as nat, 0x1_0000_0000_0000_0000);
    vstd::arithmetic::div_mod::lemma_small_mod(f3 as nat, 0x1_0000_0000_0000_0000);
}

proof fn lemma_decode_run(s: Seq<(u32, XRefEntry)>, w2: nat, w3: nat, first: u32, i: int)
    requires
        1 <= w2 <= 8,
        1 <= w3 <= 8,
        fields_fit(s, w2, w3),
        consecutive_numbers(s),
        s.len() > 0 ==> s[0].0 == first,
        forall|j: int| 0 <= j < s.len() ==> #[trigger] s[j].0 < u32::MAX,
        stream_bytes(s, w2, w3).len() <= usize::MAX,
        0 <= i <= s.len(),
    ensures
        decode_from(
            stream_bytes(s, w2, w3),
            seq![1usize, w2 as usize, w3 as usize],
            seq![(first, s.len() as u32)],
            0,
            i,
            i * (1 + w2 + w3),
            s.take(i),
        ) == Some(Ok::<Seq<(u32, XRefEntry)>, (int, Seq<char>)>(s)),
    decreases s.len() - i,
{
    let data = stream_bytes(s, w2, w3);
    let w = seq![1usize, w2 as usize, w3 as usize];
    let index = seq![(first, s.len() as u32)];
    let size = 1 + w2 + w3;
    lemma_stream_bytes_len(s, w2, w3);
    reveal_with_fuel(prefix_width, 4);
    if s.len() > 0 {
        assert(s[s.len() - 1].0 == first + (s.len() - 1));
    }
    assert(s.len() <= u32::MAX);
    assert(index[0].1 as int == s.len());
    if i < s.len() {
        lemma_entry_fields_read(s, w2, w3, i);
        lemma_decode_run(s, w2, w3, first, i + 1);
        assert((i + 1) * size == i * size + size) by (nonlinear_arith);
        assert((i + 1) * size <= s.len() * size) by (nonlinear_arith)
            requires
                i + 1 <= s.len(),
                size >= 0,
        ;
        assert(s[i].0 == first + i);
        let (t, f2, f3) = entry_fields(s[i].1);
        assert(entry_of_fields(t, f2, f3) == Some(s[i].1));
        assert(s.take(i).push(((first + i) as u32, s[i].1)) =~= s.take(i + 1));
        assert(s.len() <= u32::MAX);
        assert(index[0].1 as int == s.len());
        assert(prefix_width(w, w.len() as int) == size);
        assert(i * size + size <= data.len());
        assert(type_field(data, w, i * size) <= 2);
        assert(decode_from(data, w, index, 0, i, i * size, s.take(i)) == decode_from(
            data,
            w,
            index,
            0,
            i + 1,
            i * size + size,
            s.take(i).push(((first + i) as u32, s[i].1)),
        ));
        assert(decode_from(data, w, index, 0, i + 1, (i + 1) * size, s.take(i + 1)) == Some(
            Ok::<Seq<(u32, XRefEntry)>, (int, Seq<char>)>(s),
        ));
    } else {
        assert(s.take(i) =~= s);
        assert(decode_from(data, w, index, 1, 0, i * size, s.take(i)) == Some(
            Ok::<Seq<(u32, XRefEntry)>, (int, Seq<char>)>(s.take(i)),
        ));
        assert(decode_from(data, w, index, 0, i, i * size, s.take(i)) == decode_from(data, w, index, 1, 0, i * size, s.take(i)));
    }
}

proof fn lemma_layout_size_consecutive(s: Seq<(u32, XRefEntry)>)
    requires
        forall|j: int| 0 <= j < s.len() ==> #[trigger] s[j].0 == j,
    ensures
        layout_size(s) == s.len(),
    decreases s.len(),
{
    if s.len() > 0 {
        assert forall|j: int| 0 <= j < s.drop_last().len() implies #[trigger] s.drop_last()[j].0 == j by {
            assert(s.drop_last()[j] == s[j]);
        }
        lemma_layout_size_consecutive(s.drop_last());
    }
}

/// What a reader decodes from a built stream's widths, subsections and
/// uncompressed data is the builder's entries, sorted by object number,
/// when their object numbers run on by one.
pub proof fn lemma_stream_roundtrip(entries: Seq<(u32, XRefEntry)>)
    requires
        forall|i: int| 0 <= i < entries.len() ==> #[trigger] entries[i].0 < u32::MAX,
        consecutive_numbers(sort_by_num(entries)),
        stream_bytes(
            sort_by_num(entries),
            layout_w2(sort_by_num(entries)),
            layout_w3(sort_by_num(entries)),
        ).len() <= usize::MAX,
    ensures
        ({
            let sorted = sort_by_num(entries);
            decode_entries_spec(
                stream_bytes(sorted, layout_w2(sorted), layout_w3(sorted)),
                seq![1usize, layout_w2(sorted) as usize, layout_w3(sorted) as usize],
                layout_index_pairs(sorted),
            ) == Some(Ok::<Seq<(u32, XRefEntry)>, (int, Seq<char>)>(sorted))
        }),
{
    let sorted = sort_by_num(entries);
    let w2 = layout_w2(sorted);
    let w3 = layout_w3(sorted);
    lemma_sort_keeps_keys(entries);
    let m2 = if max_offset(sorted) > max_obj_num(sorted) as u64 {
        max_offset(sorted) as nat
    } else {
        max_obj_num(sorted) as nat
    };
    lemma_bytes_needed_bound(m2);
    lemma_bytes_needed_bound(max_third_field(sorted) as nat);
    lemma_bytes_needed_pos(m2);
    lemma_bytes_needed_pos(max_third_field(sorted) as nat);
    assert forall|j: int| 0 <= j < sorted.len() implies (#[trigger] entry_fields(sorted[j].1)).1 < pow256(
        w2,
    ) && entry_fields(sorted[j].1).2 < pow256(w3) by {
        lemma_max_bounds(sorted, j);
        match sorted[j].1 {
            XRefEntry::Free { next_free_object, generation } => {
                lemma_bytes_needed_fits(m2, next_free_object as nat);
                lemma_bytes_needed_fits(max_third_field(sorted) as nat, generation as nat);
            },
            XRefEntry::InUse { offset, generation } => {
                lemma_bytes_needed_fits(m2, offset as nat);
                lemma_bytes_needed_fits(max_third_field(sorted) as nat, generation as nat);
            },
            XRefEntry::Compressed { stream_object_number, index_within_stream } => {
                lemma_bytes_needed_fits(m2, stream_object_number as nat);
                lemma_bytes_needed_fits(max_third_field(sorted) as nat, index_within_stream as nat);
            },
        }
    }
    let first = if sorted.len() > 0 {
        sorted[0].0
    } else {
        0u32
    };
    if sorted.len() > 0 {
        assert(sorted[sorted.len() - 1].0 == sorted[0].0 + (sorted.len() - 1));
    }
    if sorted.len() > 0 && sorted[0].0 == 0 || sorted.len() == 0 {
        assert forall|j: int| 0 <= j < sorted.len() implies #[trigger] sorted[j].0 == j by {}
        lemma_layout_size_consecutive(sorted);
    }
    assert(layout_index_pairs(sorted) == seq![(first, sorted.len() as u32)]);
    lemma_decode_run(sorted, w2, w3, first, 0);
    reveal_with_fuel(prefix_width, 4);
    assert(sorted.take(0) =~= Seq::<(u32, XRefEntry)>::empty());
}

} // verus!

verus! {

/// Why a cross-reference stream was refused: a missing key, a syntax
/// error (at position 0) or a decoding error, with its text.
pub enum XRefStreamFailure {
    /// `ParseError::MissingKey` with this text
    Missing(Seq<char>),
    /// `ParseError::SyntaxError` at position 0 with this message
    Syntax(Seq<char>),
    /// `ParseError::StreamDecodeError` with this message
    Decode(Seq<char>),
}

/// Whether `e` is the error that `f` describes.
pub open spec fn is_stream_failure(e: ParseError, f: XRefStreamFailure) -> bool {
    match f {
        XRefStreamFailure::Missing(k) => e matches ParseError::MissingKey(key) && key@ == k,
        XRefStreamFailure::Syntax(m) => e matches ParseError::SyntaxError { position, message } && position
            == 0 && message@ == m,
        XRefStreamFailure::Decode(m) => e matches ParseError::StreamDecodeError(msg) && msg@ == m,
    }
}

/// The view of an optional object.
pub open spec fn opt_view(o: Option<&PdfObject>) -> Option<ObjectView> {
    match o {
        Some(x) => Some(object_view(*x)),
        None => None,
    }
}

/// Whether every element is an integer.
pub open spec fn all_integers(a: Seq<ObjectView>) -> bool {
    forall|i: int| 0 <= i < a.len() ==> #[trigger] a[i] is Integer
}

/// The value of an integer object (0 for another object).
pub open spec fn int_value(o: ObjectView) -> i64 {
    match o {
        ObjectView::Integer(n) => n,
        _ => 0,
    }
}

/// The field widths from the W entry: an array of three integers.
pub open spec fn stream_widths(w: Option<ObjectView>) -> Result<Seq<usize>, XRefStreamFailure> {
    match w {
        Some(ObjectView::Array(a)) => if !all_integers(a) {
            Err(XRefStreamFailure::Syntax("Invalid width in W array"@))
        } else if a.len() != 3 {
            Err(XRefStreamFailure::Syntax("W array must have 3 elements, found "@ + decimal_seq(a.len())))
        } else {
            Ok(seq![int_value(a[0]) as usize, int_value(a[1]) as usize, int_value(a[2]) as usize])
        },
        _ => Err(XRefStreamFailure::Missing("W array in xref stream"@)),
    }
}

/// Subsection pairs from the Index array, two elements at a time from
/// element `i` on; a last unpaired element is ignored.
pub open spec fn index_pairs(a: Seq<ObjectView>, i: int) -> Result<Seq<(u32, u32)>, XRefStreamFailure>
    decreases a.len() - i,
{
    if i < 0 || i + 1 >= a.len() {
        Ok(Seq::empty())
    } else if !(a[i] is Integer) {
        Err(XRefStreamFailure::Syntax("Invalid first object number in Index"@))
    } else if !(a[i + 1] is Integer) {
        Err(XRefStreamFailure::Syntax("Invalid count in Index"@))
    } else {
        match index_pairs(a, i + 2) {
            Ok(rest) => Ok(seq![(int_value(a[i]) as u32, int_value(a[i + 1]) as u32)] + rest),
            Err(e) => Err(e),
        }
    }
}

/// The subsections: from the Index entry when it is an array, else the
/// single subsection `(0, Size)`.
pub open spec fn stream_index(index: Option<ObjectView>, size: Option<ObjectView>) -> Result<
    Seq<(u32, u32)>,
    XRefStreamFailure,
> {
    match index {
        Some(ObjectView::Array(a)) => index_pairs(a, 0),
        _ => match size {
            Some(ObjectView::Integer(n)) => Ok(seq![(0u32, n as u32)]),
            _ => Err(XRefStreamFailure::Missing("Size in xref stream"@)),
        },
    }
}

/// The message for a filter name that names no filter (the name as
/// `Debug` writes a `PdfName`).
pub open spec fn unknown_filter_message(n: Seq<char>) -> Seq<char> {
    "Unknown filter: PdfName("@ + str_debug_text(n) + ")"@
}

/// The data after the filter named `n`.
pub open spec fn named_filter(data: Seq<u8>, n: Seq<char>, options: ParseOptions) -> Result<Seq<u8>, XRefStreamFailure> {
    match filter_of_name(n) {
        None => Err(XRefStreamFailure::Decode(unknown_filter_message(n))),
        Some(f) => match apply_filter_spec(data, f, options) {
            Ok(v) => Ok(v),
            Err(FilterFailure::Decode(m)) => Err(XRefStreamFailure::Decode(m)),
            Err(FilterFailure::Syntax(m)) => Err(XRefStreamFailure::Syntax(m)),
        },
    }
}

/// The data after the filters named in the array from element `i` on, in
/// order; elements that are not names are passed over.
pub open spec fn filter_chain(data: Seq<u8>, a: Seq<ObjectView>, i: int, options: ParseOptions) -> Result<
    Seq<u8>,
    XRefStreamFailure,
>
    decreases a.len() - i,
{
    if i < 0 || i >= a.len() {
        Ok(data)
    } else {
        match a[i] {
            ObjectView::Name(n) => match named_filter(data, n, options) {
                Ok(next) => filter_chain(next, a, i + 1, options),
                Err(e) => Err(e),
            },
            _ => filter_chain(data, a, i + 1, options),
        }
    }
}

/// The stream data after its Filter entry: one name, an array of names, or
/// (absent or of another type) no filter.
pub open spec fn stream_filtered(data: Seq<u8>, f: Option<ObjectView>, options: ParseOptions) -> Result<
    Seq<u8>,
    XRefStreamFailure,
> {
    match f {
        Some(ObjectView::Name(n)) => named_filter(data, n, options),
        Some(ObjectView::Array(a)) => filter_chain(data, a, 0, options),
        _ => Ok(data),
    }
}

/// The widths, subsections and decoded data of a cross-reference stream
/// with dictionary entries `d` and raw data `data`, read in that order.
pub open spec fn xref_stream_parts(d: Seq<(Seq<char>, ObjectView)>, data: Seq<u8>, options: ParseOptions) -> Result<
    (Seq<usize>, Seq<(u32, u32)>, Seq<u8>),
    XRefStreamFailure,
> {
    match stream_widths(dict_get(d, "W"@)) {
        Err(e) => Err(e),
        Ok(w) => match stream_index(dict_get(d, "Index"@), dict_get(d, "Size"@)) {
            Err(e) => Err(e),
            Ok(ix) => match stream_filtered(data, dict_get(d, "Filter"@), options) {
                Err(e) => Err(e),
                Ok(v) => Ok((w, ix, v)),
            },
        },
    }
}

/// The widths of a W entry.
fn widths_of(w: Option<&PdfObject>) -> (r: ParseResult<Vec<usize>>)
    ensures
        match stream_widths(opt_view(w)) {
            Ok(ws) => r matches Ok(v) && v@ == ws,
            Err(f) => r matches Err(e) && is_stream_failure(e, f),
        },
{
    let obj = match w {
        Some(o) => o,
        None => {
            return Err(ParseError::MissingKey(String::from_str("W array in xref stream")));
        },
    };
    let arr = match obj {
        PdfObject::Array(a) => a,
        _ => {
            return Err(ParseError::MissingKey(String::from_str("W array in xref stream")));
        },
    };
    let ghost av = objects_view(arr.0@);
    assert(opt_view(w) == Some(object_view(*obj)));
    assert(object_view(*obj) == ObjectView::Array(av));
    proof {
        lemma_objects_view(arr.0@);
    }
    let mut ws: Vec<usize> = Vec::new();
    let mut i: usize = 0;
    while i < arr.0.len()
        invariant
            i <= arr.0@.len(),
            av == objects_view(arr.0@),
            av.len() == arr.0@.len(),
            forall|k: int| 0 <= k < arr.0@.len() ==> #[trigger] av[k] == object_view(arr.0@[k]),
            ws@.len() == i,
            opt_view(w) == Some(ObjectView::Array(av)),
            forall|k: int| 0 <= k < i ==> #[trigger] av[k] is Integer && ws@[k] == int_value(av[k]) as usize,
        decreases arr.0.len() - i,
    {
        match &arr.0[i] {
            PdfObject::Integer(n) => {
                ws.push(*n as usize);
            },
            _ => {
                assert(!(av[i as int] is Integer));
                assert(!all_integers(av));
                assert(opt_view(w) == Some(ObjectView::Array(av)));
                return Err(ParseError::SyntaxError {
                    position: 0,
                    message: String::from_str("Invalid width in W array"),
                });
            },
        }
        i = i + 1;
    }
    assert(all_integers(av));
    if ws.len() != 3 {
        let mut msg = String::from_str("W array must have 3 elements, found ");
        push_decimal(&mut msg, ws.len() as u64);
        return Err(ParseError::SyntaxError { position: 0, message: msg });
    }
    assert(ws@ =~= seq![int_value(av[0]) as usize, int_value(av[1]) as usize, int_value(av[2]) as usize]) by {
        assert(av[0] is Integer && ws@[0] == int_value(av[0]) as usize);
        assert(av[1] is Integer && ws@[1] == int_value(av[1]) as usize);
        assert(av[2] is Integer && ws@[2] == int_value(av[2]) as usize);
    }
    Ok(ws)
}

/// The subsections from an Index entry and a Size entry.
fn index_of(index: Option<&PdfObject>, size: Option<&PdfObject>) -> (r: ParseResult<Vec<(u32, u32)>>)
    ensures
        match stream_index(opt_view(index), opt_view(size)) {
            Ok(ps) => r matches Ok(v) && v@ == ps,
            Err(f) => r matches Err(e) && is_stream_failure(e, f),
        },
{
    let obj = match index {
        Some(o) => o,
        None => &PdfObject::Null,
    };
    let arr = match obj {
        PdfObject::Array(a) => a,
        _ => {
            assert(!(opt_view(index) matches Some(ObjectView::Array(_))));
            let n = match size {
                Some(PdfObject::Integer(n)) => *n,
                _ => {
                    return Err(ParseError::MissingKey(String::from_str("Size in xref stream")));
                },
            };
            let mut v: Vec<(u32, u32)> = Vec::new();
            v.push((0, n as u32));
            assert(v@ =~= seq![(0u32, n as u32)]);
            return Ok(v);
        },
    };
    let ghost av = objects_view(arr.0@);
    assert(opt_view(index) == Some(object_view(*obj)));
    assert(object_view(*obj) == ObjectView::Array(av));
    proof {
        lemma_objects_view(arr.0@);
    }
    let ghost target = index_pairs(av, 0);
    let mut pairs: Vec<(u32, u32)> = Vec::new();
    let mut i: usize = 0;
    assert(pairs@ + Seq::<(u32, u32)>::empty() =~= pairs@);
    while i < arr.0.len() && arr.0.len() - i >= 2
        invariant
            i <= arr.0@.len(),
            av == objects_view(arr.0@),
            av.len() == arr.0@.len(),
            forall|k: int| 0 <= k < arr.0@.len() ==> #[trigger] av[k] == object_view(arr.0@[k]),
            target == index_pairs(av, 0),
            opt_view(index) == Some(ObjectView::Array(av)),
            target == match index_pairs(av, i as int) {
                Ok(rest) => Ok(pairs@ + rest),
                Err(e) => Err(e),
            },
        decreases arr.0.len() - i,
    {
        let first = match &arr.0[i] {
            PdfObject::Integer(n) => *n as u32,
            _ => {
                assert(!(av[i as int] is Integer));
                assert(opt_view(index) == Some(ObjectView::Array(av)));
                return Err(ParseError::SyntaxError {
                    position: 0,
                    message: String::from_str("Invalid first object number in Index"),
                });
            },
        };
        let count = match &arr.0[i + 1] {
            PdfObject::Integer(n) => *n as u32,
            _ => {
                assert(!(av[i + 1] is Integer));
                assert(opt_view(index) == Some(ObjectView::Array(av)));
                return Err(ParseError::SyntaxError {
                    position: 0,
                    message: String::from_str("Invalid count in Index"),
                });
            },
        };
        let ghost before = pairs@;
        pairs.push((first, count));
        proof {
            match index_pairs(av, i + 2) {
                Ok(rest) => {
                    assert(before + (seq![(first, count)] + rest) =~= pairs@ + rest);
                },
                Err(_) => {},
            }
        }
        i = i + 2;
    }
    assert(pairs@ + Seq::<(u32, u32)>::empty() =~= pairs@);
    Ok(pairs)
}

/// The data after the filter named `name`.
fn apply_named_filter(data: &[u8], name: &str, options: &ParseOptions) -> (r: ParseResult<Vec<u8>>)
    ensures
        match named_filter(data@, name@, *options) {
            Ok(v) => r matches Ok(w) && w@ == v,
            Err(f) => r matches Err(e) && is_stream_failure(e, f),
        },
{
    match Filter::from_name(name) {
        Some(f) => apply_filter(data, f, options),
        None => {
            let mut msg = String::from_str("Unknown filter: PdfName(");
            let shown = str_debug(name);
            msg.append(shown.as_str());
            msg.append(")");
            Err(ParseError::StreamDecodeError(msg))
        },
    }
}

/// The stream data after the filters of a Filter entry.
fn filtered_data(data: Vec<u8>, filter: Option<&PdfObject>, options: &ParseOptions) -> (r: ParseResult<Vec<u8>>)
    ensures
        match stream_filtered(data@, opt_view(filter), *options) {
            Ok(v) => r matches Ok(w) && w@ == v,
            Err(f) => r matches Err(e) && is_stream_failure(e, f),
        },
{
    let obj = match filter {
        Some(o) => o,
        None => {
            return Ok(data);
        },
    };
    assert(opt_view(filter) == Some(object_view(*obj)));
    match obj {
        PdfObject::Name(n) => apply_named_filter(data.as_slice(), n.as_str(), options),
        PdfObject::Array(a) => {
            let ghost av = objects_view(a.0@);
            assert(object_view(*obj) == ObjectView::Array(av));
            let ghost data0 = data@;
            proof {
                lemma_objects_view(a.0@);
            }
            let mut cur = data;
            let mut i: usize = 0;
            while i < a.0.len()
                invariant
                    i <= a.0@.len(),
                    av == objects_view(a.0@),
                    av.len() == a.0@.len(),
                    forall|k: int| 0 <= k < a.0@.len() ==> #[trigger] av[k] == object_view(a.0@[k]),
                    filter_chain(data0, av, 0, *options) == filter_chain(cur@, av, i as int, *options),
                    data0 == data@,
                    opt_view(filter) == Some(ObjectView::Array(av)),
                decreases a.0.len() - i,
            {
                match &a.0[i] {
                    PdfObject::Name(n) => {
                        assert(av[i as int] == ObjectView::Name(n.0@));
                        cur = match apply_named_filter(cur.as_slice(), n.as_str(), options) {
                            Ok(next) => next,
                            Err(e) => {
                                return Err(e);
                            },
                        };
                    },
                    _ => {},
                }
                i = i + 1;
            }
            Ok(cur)
        },
        _ => Ok(data),
    }
}

impl XRefStream<PdfDictionary> {
    /// Parse a cross-reference stream from its dictionary and raw data:
    /// the W widths, the Index subsections (or `(0, Size)`), and the data
    /// decoded by the Filter entry.
    pub fn parse(stream_dict: PdfDictionary, stream_data: Vec<u8>, options: &ParseOptions) -> (r: ParseResult<Self>)
        ensures
            match xref_stream_parts(entries_view(stream_dict.0@), stream_data@, *options) {
                Ok((w, ix, v)) => r matches Ok(xs) && xs.widths@ == w && xs.index@ == ix && xs.data@ == v
                    && xs.dict == stream_dict,
                Err(f) => r matches Err(e) && is_stream_failure(e, f),
            },
    {
        let widths = match widths_of(stream_dict.get("W")) {
            Ok(w) => w,
            Err(e) => {
                return Err(e);
            },
        };
        let index = match index_of(stream_dict.get("Index"), stream_dict.get("Size")) {
            Ok(ix) => ix,
            Err(e) => {
                return Err(e);
            },
        };
        let data = match filtered_data(stream_data, stream_dict.get("Filter"), options) {
            Ok(d) => d,
            Err(e) => {
                return Err(e);
            },
        };
        Ok(XRefStream { dict: stream_dict, data, widths, index })
    }

    /// The trailer dictionary of the stream.
    pub fn trailer_dict(&self) -> (r: &PdfDictionary)
        ensures
            *r == self.dict,
    {
        &self.dict
    }

    /// Whether this is a hybrid-reference file: the dictionary has an
    /// XRefStm entry.
    pub fn is_hybrid(&self) -> (r: bool)
        ensures
            r == dict_get(entries_view(self.dict.0@), "XRefStm"@) is Some,
    {
        self.dict.get("XRefStm").is_some()
    }

    /// The offset of the additional cross-reference stream of a hybrid
    /// file: the XRefStm entry when it is an integer.
    pub fn get_xref_stm_offset(&self) -> (r: Option<u64>)
        ensures
            r == match dict_get(entries_view(self.dict.0@), "XRefStm"@) {
                Some(ObjectView::Integer(n)) => Some(n as u64),
                _ => None::<u64>,
            },
    {
        match self.dict.get("XRefStm") {
            Some(PdfObject::Integer(n)) => Some(*n as u64),
            _ => None,
        }
    }

    /// The offset of the previous cross-reference section: the Prev entry
    /// when it is an integer.
    pub fn get_prev_offset(&self) -> (r: Option<u64>)
        ensures
            r == match dict_get(entries_view(self.dict.0@), "Prev"@) {
                Some(ObjectView::Integer(n)) => Some(n as u64),
                _ => None::<u64>,
            },
    {
        match self.dict.get("Prev") {
            Some(PdfObject::Integer(n)) => Some(*n as u64),
            _ => None,
        }
    }
}

} // verus!
