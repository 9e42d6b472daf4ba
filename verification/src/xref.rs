//! Cross-reference tables (ISO 32000-1, 7.5.4): entries by object number,
//! the fixed-width entry lines of a traditional table, the `startxref`
//! pointer at the end of a file, and the entries of a cross-reference stream.

use vstd::prelude::*;
use vstd::std_specs::iter::IteratorSpec;
use std::collections::HashMap;
use crate::encoding::{lossy_text, utf8_lossy_string};
use crate::error::{ParseError, ParseResult};
use crate::header::find_char;
use crate::xref_stream::{be_value, read_field};
use crate::lexical::{is_unicode_ws, is_whitespace_char, parse_uint_chars, parse_uint_spec, string_chars, trim_range, trim_spec};

verus! {

broadcast use vstd::std_specs::hash::group_hash_axioms;

/// Cross-reference entry.
#[derive(Debug, Clone, Copy, PartialEq, Eq, Structural)]
pub struct XRefEntry {
    /// Byte offset in the file (for in-use entries)
    pub offset: u64,
    /// Generation number
    pub generation: u16,
    /// Whether this entry is in use
    pub in_use: bool,
}

/// Extended entry information for compressed objects.
#[derive(Debug, Clone, Copy, PartialEq, Eq)]
pub struct XRefEntryExt {
    /// Basic entry information
    pub basic: XRefEntry,
    /// Object stream number and index within it, for compressed objects
    pub compressed_info: Option<(u32, u32)>,
}

/// Cross-reference table: entries and extended entries by object number,
/// and the trailer dictionary (of type `T`) when one was read.
pub struct XRefTable<T> {
    entries: HashMap<u32, XRefEntry>,
    extended_entries: HashMap<u32, XRefEntryExt>,
    trailer: Option<T>,
}

impl<T> XRefTable<T> {
    /// The entries by object number.
    pub closed spec fn entry_map(&self) -> Map<u32, XRefEntry> {
        self.entries@
    }

    /// The extended entries by object number.
    pub closed spec fn extended_map(&self) -> Map<u32, XRefEntryExt> {
        self.extended_entries@
    }

    /// The trailer dictionary, if any.
    pub closed spec fn trailer_value(&self) -> Option<T> {
        self.trailer
    }

    /// Create a new empty xref table.
    pub fn new() -> (t: Self)
        ensures
            t.entry_map() == Map::<u32, XRefEntry>::empty(),
            t.extended_map() == Map::<u32, XRefEntryExt>::empty(),
            t.trailer_value() is None,
    {
        XRefTable { entries: HashMap::new(), extended_entries: HashMap::new(), trailer: None }
    }

    /// Get an xref entry by object number.
    pub fn get_entry(&self, obj_num: u32) -> (r: Option<&XRefEntry>)
        ensures
            match r {
                Some(e) => self.entry_map().contains_key(obj_num) && self.entry_map()[obj_num] == *e,
                None => !self.entry_map().contains_key(obj_num),
            },
    {
        self.entries.get(&obj_num)
    }

    /// Get the trailer dictionary.
    pub fn trailer(&self) -> (r: Option<&T>)
        ensures
            match r {
                Some(t) => self.trailer_value() == Some(*t),
                None => self.trailer_value() is None,
            },
    {
        self.trailer.as_ref()
    }

    /// Get the number of entries.
    pub fn len(&self) -> (n: usize)
        ensures
            n == self.entry_map().len(),
    {
        self.entries.len()
    }

    /// The entries with their object numbers, each object once, in the
    /// order the table's hash map gives them.
    pub fn iter(&self) -> (v: Vec<(u32, XRefEntry)>)
        ensures
            exists|ks: Seq<u32>|
                #![trigger ks.to_set()]
                ks.no_duplicates() && ks.to_set() == self.entry_map().dom() && v@ == ks.map_values(
                    |k: u32| (k, self.entry_map()[k]),
                ),
    {
        let mut v: Vec<(u32, XRefEntry)> = Vec::new();
        let ghost m = self.entries@;
        let ghost ks: Seq<u32> = vstd::std_specs::hash::spec_keys_iter(&self.entries).remaining().unref();
        for k in it: self.entries.keys()
            invariant
                m == self.entries@,
                it.seq().unref() == ks,
                v@ == ks.take(it.index() as int).map_values(|x: u32| (x, m[x])),
                ks.to_set() == m.dom(),
                ks.no_duplicates(),
        {
            let e = *self.entries.get(k).unwrap();
            assert(ks.take(it.index() + 1) =~= ks.take(it.index() as int).push(*k));
            v.push((*k, e));
            assert(v@ =~= ks.take(it.index() + 1).map_values(|x: u32| (x, m[x])));
        }
        assert(ks.take(ks.len() as int) =~= ks);
        v
    }

    /// Check if the table is empty.
    pub fn is_empty(&self) -> (r: bool)
        ensures
            r == (self.entry_map().len() == 0),
    {
        proof {
            if self.entries@.len() == 0 {
                assert(self.entries@.dom() =~= Set::<u32>::empty());
            } else if self.entries@.dom().finite() {
                assert(self.entries@ != Map::<u32, XRefEntry>::empty());
            }
        }
        self.entries.is_empty()
    }

    /// Get extended entry information (for compressed objects).
    pub fn get_extended_entry(&self, obj_num: u32) -> (r: Option<&XRefEntryExt>)
        ensures
            match r {
                Some(e) => self.extended_map().contains_key(obj_num) && self.extended_map()[obj_num]
                    == *e,
                None => !self.extended_map().contains_key(obj_num),
            },
    {
        self.extended_entries.get(&obj_num)
    }

    /// Check if an object is compressed.
    pub fn is_compressed(&self, obj_num: u32) -> (r: bool)
        ensures
            r == (self.extended_map().contains_key(obj_num) && self.extended_map()[obj_num].compressed_info
                is Some),
    {
        match self.extended_entries.get(&obj_num) {
            Some(e) => e.compressed_info.is_some(),
            None => false,
        }
    }

    /// Record an entry, replacing any earlier one for the object.
    pub fn add_entry(&mut self, obj_num: u32, entry: XRefEntry)
        ensures
            final(self).entry_map() == old(self).entry_map().insert(obj_num, entry),
            final(self).extended_map() == old(self).extended_map(),
            final(self).trailer_value() == old(self).trailer_value(),
    {
        self.entries.insert(obj_num, entry);
    }

    /// Record an extended entry, replacing any earlier one for the object.
    pub fn add_extended_entry(&mut self, obj_num: u32, entry: XRefEntryExt)
        ensures
            final(self).extended_map() == old(self).extended_map().insert(obj_num, entry),
            final(self).entry_map() == old(self).entry_map(),
            final(self).trailer_value() == old(self).trailer_value(),
    {
        self.extended_entries.insert(obj_num, entry);
    }

    /// Set the trailer dictionary.
    pub fn set_trailer(&mut self, trailer: Option<T>)
        ensures
            final(self).trailer_value() == trailer,
            final(self).entry_map() == old(self).entry_map(),
            final(self).extended_map() == old(self).extended_map(),
    {
        self.trailer = trailer;
    }
}

impl<T> Default for XRefTable<T> {
    /// An empty table.
    fn default() -> (t: Self)
        ensures
            t.entry_map() == Map::<u32, XRefEntry>::empty(),
            t.extended_map() == Map::<u32, XRefEntryExt>::empty(),
            t.trailer_value() is None,
    {
        Self::new()
    }
}

/// Bytes of a character in UTF-8.
pub open spec fn utf8_len(c: char) -> nat {
    let v = c as u32;
    if v < 0x80 {
        1
    } else if v < 0x800 {
        2
    } else if v < 0x10000 {
        3
    } else {
        4
    }
}

/// Bytes of a text in UTF-8.
pub open spec fn utf8_bytes_len(s: Seq<char>) -> nat
    decreases s.len(),
{
    if s.len() == 0 {
        0
    } else {
        utf8_bytes_len(s.drop_last()) + utf8_len(s.last())
    }
}

/// Index of the character that starts at byte `b` of the text, searching
/// from character `k`; `None` when `b` falls inside a character.
pub open spec fn char_index_from(s: Seq<char>, b: int, k: int) -> Option<int>
    decreases s.len() + 1 - k,
{
    if k < 0 || k > s.len() {
        None
    } else if utf8_bytes_len(s.take(k)) == b {
        Some(k)
    } else if utf8_bytes_len(s.take(k)) > b {
        None
    } else {
        char_index_from(s, b, k + 1)
    }
}

/// Reading one entry line of a traditional table (`nnnnnnnnnn ggggg n`):
/// the entry, `Some(None)` for an invalid line, and `None` where the
/// line, trimmed, is at least 18 bytes long but byte 10, 11 or 16 falls
/// inside a character (where slicing the text panics).
pub open spec fn xref_entry_spec(line: Seq<char>) -> Option<Option<XRefEntry>> {
    let t = trim_spec(line);
    if utf8_bytes_len(t) < 18 {
        Some(None)
    } else {
        match (char_index_from(t, 10, 0), char_index_from(t, 11, 0), char_index_from(t, 16, 0)) {
            (Some(a), Some(b), Some(c)) => {
                let offset = parse_uint_spec(trim_spec(t.subrange(0, a)), 0xFFFF_FFFF_FFFF_FFFF);
                let generation = parse_uint_spec(trim_spec(t.subrange(b, c)), 0xFFFF);
                match (offset, generation) {
                    (Some(o), Some(g)) => if t.len() > 17 && t[17] == 'n' {
                        Some(Some(XRefEntry { offset: o as u64, generation: g as u16, in_use: true }))
                    } else if t.len() > 17 && t[17] == 'f' {
                        Some(Some(XRefEntry { offset: o as u64, generation: g as u16, in_use: false }))
                    } else {
                        Some(None)
                    },
                    _ => Some(None),
                }
            },
            _ => None,
        }
    }
}

/// A table entry line marks an object in use by `n` and free by `f` in
/// its eighteenth column (after trimming); any other letter there makes
/// the line invalid.
pub proof fn lemma_xref_entry_kind(line: Seq<char>)
    ensures
        xref_entry_spec(line) matches Some(Some(e)) ==> (trim_spec(line)[17] == 'n' || trim_spec(line)[17] == 'f')
            && (e.in_use <==> trim_spec(line)[17] == 'n'),
{
}

/// Bytes of a character in UTF-8.
fn char_utf8_len(c: char) -> (n: usize)
    ensures
        n == utf8_len(c),
{
    let v = c as u32;
    if v < 0x80 {
        1
    } else if v < 0x800 {
        2
    } else if v < 0x10000 {
        3
    } else {
        4
    }
}

proof fn lemma_utf8_len_pos(c: char)
    ensures
        1 <= utf8_len(c) <= 4,
{
}

/// The UTF-8 byte length of `s[from..to]`, or `limit` when it is at least `limit`.
fn utf8_len_capped(s: &Vec<char>, from: usize, to: usize, limit: usize) -> (n: usize)
    requires
        from <= to <= s.len(),
        1 <= limit <= 1000,
    ensures
        n == (if utf8_bytes_len(s@.subrange(from as int, to as int)) >= limit {
            limit as int
        } else {
            utf8_bytes_len(s@.subrange(from as int, to as int)) as int
        }),
{
    let ghost t = s@.subrange(from as int, to as int);
    let mut total: usize = 0;
    let mut k = from;
    while k < to
        invariant
            from <= k <= to <= s.len(),
            t == s@.subrange(from as int, to as int),
            total == utf8_bytes_len(t.take(k - from)),
            total < limit,
            limit <= 1000,
        decreases to - k,
    {
        assert(t.take(k - from + 1).drop_last() =~= t.take(k - from));
        assert(t[k - from] == s@[k as int]);
        total = total + char_utf8_len(s[k]);
        k = k + 1;
        if total >= limit {
            proof {
                lemma_bytes_len_prefix(t, k - from, t.len() as int);
                assert(t.take(t.len() as int) =~= t);
            }
            return limit;
        }
    }
    assert(t.take(k - from) =~= t);
    total
}

proof fn lemma_bytes_len_prefix(t: Seq<char>, a: int, b: int)
    requires
        0 <= a <= b <= t.len(),
    ensures
        utf8_bytes_len(t.take(a)) <= utf8_bytes_len(t.take(b)),
    decreases b - a,
{
    if a < b {
        lemma_bytes_len_prefix(t, a, b - 1);
        assert(t.take(b).drop_last() =~= t.take(b - 1));
    }
}

/// Index (from `from`) of the character of `s[from..to]` that starts at
/// byte `target`; `None` when that byte falls inside a character or past the end.
fn char_index_of_byte(s: &Vec<char>, from: usize, to: usize, target: usize) -> (r: Option<usize>)
    requires
        from <= to <= s.len(),
        target <= 1000,
    ensures
        match char_index_from(s@.subrange(from as int, to as int), target as int, 0) {
            Some(k) => r == Some(k as usize),
            None => r is None,
        },
{
    let ghost t = s@.subrange(from as int, to as int);
    let mut total: usize = 0;
    let mut k: usize = 0;
    while k <= to - from
        invariant
            from <= to <= s.len(),
            from + k <= to + 1,
            t == s@.subrange(from as int, to as int),
            from + k <= to ==> total == utf8_bytes_len(t.take(k as int)),
            from + k <= to ==> char_index_from(t, target as int, 0) == char_index_from(t, target as int, k as int),
            from + k > to ==> char_index_from(t, target as int, 0) is None,
            total <= target,
            target <= 1000,
        decreases to + 1 - (from + k),
    {
        if total == target {
            return Some(k);
        }
        if from + k == to {
            return None;
        }
        assert(t.take(k + 1).drop_last() =~= t.take(k as int));
        assert(t[k as int] == s@[from + k]);
        let next = total + char_utf8_len(s[from + k]);
        if next > target {
            assert(char_index_from(t, target as int, k + 1) is None);
            return None;
        }
        total = next;
        k = k + 1;
    }
    None
}

/// Parse a single xref entry line: ten offset digits, five generation
/// digits, and `n` (in use) or `f` (free), after trimming the line.
pub fn parse_xref_entry(line: &str) -> (r: ParseResult<XRefEntry>)
    requires
        xref_entry_spec(line@) is Some,
    ensures
        match xref_entry_spec(line@) {
            Some(Some(e)) => r matches Ok(x) && x == e,
            Some(None) => r matches Err(ParseError::InvalidXRef),
            None => false,
        },
{
    let chars = string_chars(line);
    let (from, to) = trim_range(&chars, 0, chars.len());
    let ghost t = chars@.subrange(from as int, to as int);
    assert(chars@.subrange(0, chars@.len() as int) =~= chars@);
    if utf8_len_capped(&chars, from, to, 18) < 18 {
        return Err(ParseError::InvalidXRef);
    }
    let a = char_index_of_byte(&chars, from, to, 10);
    let b = char_index_of_byte(&chars, from, to, 11);
    let c = char_index_of_byte(&chars, from, to, 16);
    let (a, b, c) = match (a, b, c) {
        (Some(a), Some(b), Some(c)) => (a, b, c),
        _ => {
            assert(false);
            return Err(ParseError::InvalidXRef);
        },
    };
    proof {
        lemma_char_index_bound(t, 10, 0);
        lemma_char_index_bound(t, 11, 0);
        lemma_char_index_bound(t, 16, 0);
        lemma_char_index_order(t, 11, 16);
    }
    let (oa, ob) = trim_range(&chars, from, from + a);
    assert(chars@.subrange(from as int, from + a) =~= t.subrange(0, a as int));
    let offset = parse_uint_chars(&chars, oa, ob, 0xFFFF_FFFF_FFFF_FFFF);
    let (ga, gb) = trim_range(&chars, from + b, from + c);
    assert(chars@.subrange(from + b, from + c) =~= t.subrange(b as int, c as int));
    let generation = parse_uint_chars(&chars, ga, gb, 0xFFFF);
    let (offset, generation) = match (offset, generation) {
        (Some(o), Some(g)) => (o, g as u16),
        _ => {
            return Err(ParseError::InvalidXRef);
        },
    };
    let flag = if to - from > 17 {
        Some(chars[from + 17])
    } else {
        None
    };
    assert(to - from > 17 ==> t[17] == chars@[from + 17]);
    match flag {
        Some('n') => Ok(XRefEntry { offset, generation, in_use: true }),
        Some('f') => Ok(XRefEntry { offset, generation, in_use: false }),
        _ => Err(ParseError::InvalidXRef),
    }
}

proof fn lemma_char_index_bound(t: Seq<char>, b: int, k: int)
    requires
        0 <= k,
    ensures
        char_index_from(t, b, k) matches Some(i) ==> k <= i <= t.len() && utf8_bytes_len(t.take(i)) == b,
    decreases t.len() + 1 - k,
{
    if 0 <= k <= t.len() && utf8_bytes_len(t.take(k)) < b {
        lemma_char_index_bound(t, b, k + 1);
    }
}

proof fn lemma_char_index_order(t: Seq<char>, b1: int, b2: int)
    requires
        b1 <= b2,
    ensures
        char_index_from(t, b1, 0) is Some && char_index_from(t, b2, 0) is Some ==> char_index_from(
            t,
            b1,
            0,
        ).unwrap() <= char_index_from(t, b2, 0).unwrap(),
{
    lemma_char_index_bound(t, b1, 0);
    lemma_char_index_bound(t, b2, 0);
    if let (Some(i), Some(j)) = (char_index_from(t, b1, 0), char_index_from(t, b2, 0)) {
        if j < i {
            lemma_bytes_len_prefix(t, j, i);
            lemma_bytes_len_strict(t, j, i);
        }
    }
}

proof fn lemma_bytes_len_strict(t: Seq<char>, a: int, b: int)
    requires
        0 <= a < b <= t.len(),
    ensures
        utf8_bytes_len(t.take(a)) < utf8_bytes_len(t.take(b)),
    decreases b - a,
{
    assert(t.take(b).drop_last() =~= t.take(b - 1));
    lemma_utf8_len_pos(t[b - 1]);
    if a < b - 1 {
        lemma_bytes_len_strict(t, a, b - 1);
    }
}

/// The offset named after the first `startxref` line that has a line
/// after it, in text split into lines at `\n` and trimmed; `None` when
/// there is none or the next line is not a `u64`.
pub open spec fn startxref_search(s: Seq<char>) -> Option<u64>
    decreases s.len(),
{
    if s.len() == 0 {
        None
    } else {
        let k = find_char(s, '\n', 0);
        let line = s.take(k);
        let rest = if k < s.len() {
            s.skip(k + 1)
        } else {
            Seq::empty()
        };
        if trim_spec(line) == "startxref"@ && rest.len() > 0 {
            let next = rest.take(find_char(rest, '\n', 0));
            match parse_uint_spec(trim_spec(next), 0xFFFF_FFFF_FFFF_FFFF) {
                Some(v) => Some(v as u64),
                None => None,
            }
        } else {
            proof {
                lemma_find_char_bounds(s, '\n', 0);
            }
            startxref_search(rest)
        }
    }
}

pub proof fn lemma_find_char_bounds(s: Seq<char>, c: char, i: int)
    requires
        0 <= i <= s.len(),
    ensures
        i <= find_char(s, c, i) <= s.len(),
        find_char(s, c, i) < s.len() ==> s[find_char(s, c, i)] == c,
    decreases s.len() - i,
{
    if i < s.len() && s[i] != c {
        lemma_find_char_bounds(s, c, i + 1);
    }
}

/// Index of the first `\n` at or after `i` in `s[..end]`, or `end`.
fn find_newline(s: &Vec<char>, i: usize, end: usize) -> (k: usize)
    requires
        i <= end <= s.len(),
    ensures
        i <= k <= end,
        k == i + find_char(s@.subrange(i as int, end as int), '\n', 0),
{
    let ghost t = s@.subrange(i as int, end as int);
    let mut k = i;
    while k < end && s[k] != '\n'
        invariant
            i <= k <= end <= s.len(),
            t == s@.subrange(i as int, end as int),
            find_char(t, '\n', 0) == find_char(t, '\n', k - i),
        decreases end - k,
    {
        assert(t[k - i] == s@[k as int]);
        k = k + 1;
    }
    proof {
        if k < end {
            assert(t[k - i] == s@[k as int]);
        }
    }
    k
}

/// Whether `s[from..to]` is the word `startxref`.
fn is_startxref(s: &Vec<char>, from: usize, to: usize) -> (r: bool)
    requires
        from <= to <= s.len(),
    ensures
        r == (s@.subrange(from as int, to as int) == "startxref"@),
{
    proof {
        reveal_strlit("startxref");
    }
    let ghost t = s@.subrange(from as int, to as int);
    assert("startxref"@.len() == 9);
    if to - from != 9 {
        return false;
    }
    let r = s[from] == 's' && s[from + 1] == 't' && s[from + 2] == 'a' && s[from + 3] == 'r'
        && s[from + 4] == 't' && s[from + 5] == 'x' && s[from + 6] == 'r' && s[from + 7] == 'e'
        && s[from + 8] == 'f';
    proof {
        if r {
            assert(t =~= "startxref"@);
        } else if t == "startxref"@ {
            assert(t[0] == s@[from as int]);
            assert(t[1] == s@[from + 1]);
            assert(t[2] == s@[from + 2]);
            assert(t[3] == s@[from + 3]);
            assert(t[4] == s@[from + 4]);
            assert(t[5] == s@[from + 5]);
            assert(t[6] == s@[from + 6]);
            assert(t[7] == s@[from + 7]);
            assert(t[8] == s@[from + 8]);
        }
    }
    r
}

/// The offset of the cross-reference section, from the last bytes of a
/// file (at most 1024 of them): read as text with invalid UTF-8 replaced,
/// the first `startxref` line followed by a line whose trimmed text is
/// the offset.
pub fn find_xref_offset_in(tail: &[u8]) -> (r: ParseResult<u64>)
    ensures
        match startxref_search(lossy_text(tail@)) {
            Some(v) => r matches Ok(x) && x == v,
            None => r matches Err(ParseError::InvalidXRef),
        },
{
    let text = utf8_lossy_string(tail);
    let chars = string_chars(text.as_str());
    let n = chars.len();
    let ghost full = chars@;
    let mut pos: usize = 0;
    assert(full.skip(0) =~= full);
    while pos < n
        invariant
            pos <= n == chars.len(),
            full == chars@,
            full == lossy_text(tail@),
            startxref_search(full) == startxref_search(full.skip(pos as int)),
        decreases n - pos,
    {
        let ghost s = full.skip(pos as int);
        let k = find_newline(&chars, pos, n);
        assert(full.subrange(pos as int, n as int) =~= s);
        let (a, b) = trim_range(&chars, pos, k);
        assert(chars@.subrange(pos as int, k as int) =~= s.take(k - pos));
        let rest_start = if k < n {
            k + 1
        } else {
            n
        };
        proof {
            lemma_find_char_bounds(s, '\n', 0);
            if k < n {
                assert(s.skip(k - pos + 1) =~= full.skip(rest_start as int));
            } else {
                assert(full.skip(rest_start as int) =~= Seq::<char>::empty());
            }
        }
        if is_startxref(&chars, a, b) && rest_start < n {
            let k2 = find_newline(&chars, rest_start, n);
            let (c, d) = trim_range(&chars, rest_start, k2);
            let ghost rest = full.skip(rest_start as int);
            assert(full.subrange(rest_start as int, n as int) =~= rest);
            assert(chars@.subrange(rest_start as int, k2 as int) =~= rest.take(k2 - rest_start));
            assert(rest.len() > 0);
            assert(trim_spec(s.take(k - pos)) == "startxref"@);
            assert(k2 - rest_start == find_char(rest, '\n', 0));
            let parsed = parse_uint_chars(&chars, c, d, 0xFFFF_FFFF_FFFF_FFFF);
            assert(chars@.subrange(c as int, d as int) == trim_spec(rest.take(k2 - rest_start)));
            return match parsed {
                Some(v) => Ok(v),
                None => Err(ParseError::InvalidXRef),
            };
        }
        pos = rest_start;
    }
    assert(full.skip(pos as int) =~= Seq::<char>::empty());
    Err(ParseError::InvalidXRef)
}

/// Why the parameters of a cross-reference stream were refused: a missing
/// key, or a syntax error (at position 0), with its text.
pub enum StreamParamFailure {
    /// `ParseError::MissingKey` with this key
    Missing(Seq<char>),
    /// `ParseError::SyntaxError` at position 0 with this message
    Syntax(Seq<char>),
}

/// Whether `e` is the error that `f` describes.
pub open spec fn is_param_failure(e: ParseError, f: StreamParamFailure) -> bool {
    match f {
        StreamParamFailure::Missing(k) => e matches ParseError::MissingKey(key) && key@ == k,
        StreamParamFailure::Syntax(m) => e matches ParseError::SyntaxError { position, message }
            && position == 0 && message@ == m,
    }
}

/// Subsection pairs from the Index array, two values at a time, from
/// element `i` on.
pub open spec fn index_pairs_from(a: Seq<Option<i64>>, i: int) -> Result<Seq<(u32, u32)>, Seq<char>>
    decreases a.len() - i,
{
    if i < 0 || i >= a.len() {
        Ok(Seq::empty())
    } else if i + 1 >= a.len() {
        Err("Index array must have even number of elements"@)
    } else if a[i] is None || a[i + 1] is None {
        Err("Index values must be integers"@)
    } else {
        match index_pairs_from(a, i + 2) {
            Ok(rest) => Ok(seq![(a[i].unwrap() as u32, a[i + 1].unwrap() as u32)] + rest),
            Err(m) => Err(m),
        }
    }
}

/// The subsections and field widths of a cross-reference stream, from its
/// Size, Index and W entries (`None` when absent; for Index, `Some(None)`
/// when it is not an array; an element `None` when it is not an integer).
pub open spec fn stream_params_spec(
    size: Option<i64>,
    index: Option<Option<Seq<Option<i64>>>>,
    w: Option<Seq<Option<i64>>>,
) -> Result<(Seq<(u32, u32)>, Seq<usize>), StreamParamFailure> {
    match size {
        None => Err(StreamParamFailure::Missing("Size"@)),
        Some(size) => {
            let pairs = match index {
                None => Ok(seq![(0u32, size as u32)]),
                Some(None) => Err("Index must be an array"@),
                Some(Some(a)) => index_pairs_from(a, 0),
            };
            match pairs {
                Err(m) => Err(StreamParamFailure::Syntax(m)),
                Ok(pairs) => widths_part(pairs, w),
            }
        },
    }
}

/// The widths of the W entry, after the subsections `pairs` were read.
pub open spec fn widths_part(pairs: Seq<(u32, u32)>, w: Option<Seq<Option<i64>>>) -> Result<
    (Seq<(u32, u32)>, Seq<usize>),
    StreamParamFailure,
> {
    match w {
        None => Err(StreamParamFailure::Missing("W"@)),
        Some(w) => if w.len() != 3 {
            Err(StreamParamFailure::Syntax("W array must have exactly 3 elements"@))
        } else if w[0] is None || w[1] is None || w[2] is None {
            Err(StreamParamFailure::Syntax("W values must be integers"@))
        } else {
            Ok((pairs, seq![w[0].unwrap() as usize, w[1].unwrap() as usize, w[2].unwrap() as usize]))
        },
    }
}

/// The elements of an optional array.
pub open spec fn array_view(a: Option<Vec<Option<i64>>>) -> Option<Seq<Option<i64>>> {
    match a {
        None => None,
        Some(v) => Some(v@),
    }
}

/// The elements of an optional value that may not be an array.
pub open spec fn nested_array_view(a: Option<Option<Vec<Option<i64>>>>) -> Option<Option<Seq<Option<i64>>>> {
    match a {
        None => None,
        Some(None) => Some(None),
        Some(Some(v)) => Some(Some(v@)),
    }
}

/// The subsections (first object number, count) and field widths of a
/// cross-reference stream, from its Size, Index and W entries.
pub fn stream_params(
    size: Option<i64>,
    index: Option<Option<Vec<Option<i64>>>>,
    w: Option<Vec<Option<i64>>>,
) -> (r: ParseResult<(Vec<(u32, u32)>, Vec<usize>)>)
    ensures
        match stream_params_spec(size, nested_array_view(index), array_view(w)) {
            Ok((p, ws)) => r matches Ok((rp, rw)) && rp@ == p && rw@ == ws,
            Err(f) => r matches Err(e) && is_param_failure(e, f),
        },
{
    let ghost w_spec = array_view(w);
    let ghost overall = stream_params_spec(size, nested_array_view(index), w_spec);
    let size_value = match size {
        Some(s) => s,
        None => {
            return Err(ParseError::MissingKey(String::from_str("Size")));
        },
    };
    let mut pairs: Vec<(u32, u32)> = Vec::new();
    match index {
        None => {
            pairs.push((0, size_value as u32));
        },
        Some(None) => {
            return Err(ParseError::SyntaxError {
                position: 0,
                message: String::from_str("Index must be an array"),
            });
        },
        Some(Some(a)) => {
            let mut i: usize = 0;
            let ghost target = index_pairs_from(a@, 0);
            assert(pairs@ =~= Seq::<(u32, u32)>::empty());
            while i < a.len()
                invariant
                    i <= a.len() + 1,
                    i % 2 == 0,
                    target == index_pairs_from(a@, 0),
                    overall == stream_params_spec(size, nested_array_view(index), array_view(w)),
                    overall == match target {
                        Err(m) => Err(StreamParamFailure::Syntax(m)),
                        Ok(p) => widths_part(p, w_spec),
                    },
                    target == match index_pairs_from(a@, i as int) {
                        Ok(rest) => Ok(pairs@ + rest),
                        Err(m) => Err(m),
                    },
                decreases a.len() + 1 - i,
            {
                if i + 1 >= a.len() {
                    return Err(ParseError::SyntaxError {
                        position: 0,
                        message: String::from_str("Index array must have even number of elements"),
                    });
                }
                let (first, count) = match (a[i], a[i + 1]) {
                    (Some(f), Some(c)) => (f as u32, c as u32),
                    _ => {
                        return Err(ParseError::SyntaxError {
                            position: 0,
                            message: String::from_str("Index values must be integers"),
                        });
                    },
                };
                let ghost before = pairs@;
                pairs.push((first, count));
                proof {
                    match index_pairs_from(a@, i + 2) {
                        Ok(rest) => {
                            assert(before + (seq![(first, count)] + rest) =~= pairs@ + rest);
                        },
                        Err(_) => {},
                    }
                }
                i = i + 2;
            }
            assert(pairs@ + Seq::<(u32, u32)>::empty() =~= pairs@);
        },
    }
    let w = match w {
        Some(w) => w,
        None => {
            return Err(ParseError::MissingKey(String::from_str("W")));
        },
    };
    if w.len() != 3 {
        return Err(ParseError::SyntaxError {
            position: 0,
            message: String::from_str("W array must have exactly 3 elements"),
        });
    }
    let widths = match (w[0], w[1], w[2]) {
        (Some(a), Some(b), Some(c)) => {
            let mut v: Vec<usize> = Vec::new();
            v.push(a as usize);
            v.push(b as usize);
            v.push(c as usize);
            v
        },
        _ => {
            return Err(ParseError::SyntaxError {
                position: 0,
                message: String::from_str("W values must be integers"),
            });
        },
    };
    assert(widths@ =~= seq![w@[0].unwrap() as usize, w@[1].unwrap() as usize, w@[2].unwrap() as usize]);
    Ok((pairs, widths))
}

/// The table entry that a stream entry's fields stand for: free, in use,
/// compressed (in use at offset 0), or, for an unknown type, free at 0.
pub open spec fn table_entry_of(t: u64, f2: u64, f3: u64) -> XRefEntry {
    if t == 0 {
        XRefEntry { offset: f2, generation: f3 as u16, in_use: false }
    } else if t == 1 {
        XRefEntry { offset: f2, generation: f3 as u16, in_use: true }
    } else if t == 2 {
        XRefEntry { offset: 0, generation: 0, in_use: true }
    } else {
        XRefEntry { offset: 0, generation: 0, in_use: false }
    }
}

/// As a table entry, a stream entry of type 0 is free and one of type 1
/// in use, each with its second field as offset and third as generation;
/// one of type 2 (in an object stream) is in use with no offset.
pub proof fn lemma_table_entry_types(f2: u64, f3: u64)
    requires
        f3 <= u16::MAX,
    ensures
        table_entry_of(0, f2, f3) == (XRefEntry { offset: f2, generation: f3 as u16, in_use: false }),
        table_entry_of(1, f2, f3) == (XRefEntry { offset: f2, generation: f3 as u16, in_use: true }),
        table_entry_of(2, f2, f3) == (XRefEntry { offset: 0, generation: 0, in_use: true }),
{
}

/// A field of `width` bytes at `offset`, big-endian, low 64 bits kept.
pub open spec fn stream_field(data: Seq<u8>, offset: int, width: int) -> u64 {
    (be_value(data.subrange(offset, offset + width)) % 0x1_0000_0000_0000_0000) as u64
}

/// Decoding the entries of subsection `p` from its `i`-th entry on, the
/// data starting at `offset`, into the maps `entries` and `ext` (a type
/// field of width 0 stands for type 1, its default in ISO 32000-1, 7.5.8): `None`
/// where an object number or offset would overflow, `Err` when the data
/// is truncated.
pub open spec fn decode_maps_from(
    data: Seq<u8>,
    w: Seq<usize>,
    index: Seq<(u32, u32)>,
    p: int,
    i: int,
    offset: int,
    entries: Map<u32, XRefEntry>,
    ext: Map<u32, XRefEntryExt>,
) -> Option<Result<(Map<u32, XRefEntry>, Map<u32, XRefEntryExt>), ()>>
    decreases index.len() - p, (if 0 <= p < index.len() { index[p].1 - i } else { 0 }),
{
    let size = w[0] + w[1] + w[2];
    if p < 0 || p >= index.len() {
        Some(Ok((entries, ext)))
    } else if i >= index[p].1 {
        decode_maps_from(data, w, index, p + 1, 0, offset, entries, ext)
    } else if offset + size > usize::MAX {
        None
    } else if offset + size > data.len() {
        Some(Err(()))
    } else if index[p].0 + i > u32::MAX {
        None
    } else {
        let n = (index[p].0 + i) as u32;
        let t = if w[0] == 0 {
            1u64
        } else {
            stream_field(data, offset, w[0] as int)
        };
        let f2 = stream_field(data, offset + w[0], w[1] as int);
        let f3 = stream_field(data, offset + w[0] + w[1], w[2] as int);
        let e = table_entry_of(t, f2, f3);
        let ext2 = if t == 2 {
            ext.insert(n, XRefEntryExt { basic: e, compressed_info: Some((f2 as u32, f3 as u32)) })
        } else {
            ext
        };
        decode_maps_from(data, w, index, p, i + 1, offset + size, entries.insert(n, e), ext2)
    }
}

/// Decoding all entries of a cross-reference stream into maps.
pub open spec fn decode_maps(data: Seq<u8>, w: Seq<usize>, index: Seq<(u32, u32)>) -> Option<
    Result<(Map<u32, XRefEntry>, Map<u32, XRefEntryExt>), ()>,
> {
    decode_maps_from(data, w, index, 0, 0, 0, Map::empty(), Map::empty())
}

/// A cross-reference stream: its dictionary (of type `D`) and its decoded
/// entries and extended entries by object number.
pub struct XRefStream<D> {
    dict: D,
    entries: HashMap<u32, XRefEntry>,
    extended_entries: HashMap<u32, XRefEntryExt>,
}

/// The field of `width` bytes at `offset`.
fn read_stream_field(data: &[u8], offset: usize, width: usize) -> (v: u64)
    requires
        offset + width <= data.len(),
    ensures
        v == stream_field(data@, offset as int, width as int),
{
    let (head, _) = data.split_at(offset + width);
    let (_, field) = head.split_at(offset);
    assert(field@ =~= data@.subrange(offset as int, offset + width));
    read_field(field)
}

impl<D> XRefStream<D> {
    /// The entries by object number.
    pub closed spec fn entry_map(&self) -> Map<u32, XRefEntry> {
        self.entries@
    }

    /// The extended entries by object number.
    pub closed spec fn extended_map(&self) -> Map<u32, XRefEntryExt> {
        self.extended_entries@
    }

    /// The stream dictionary.
    pub closed spec fn dict_value(&self) -> D {
        self.dict
    }

    /// Parse an xref stream from its dictionary, the dictionary's Size,
    /// Index and W entries, and the stream data as decoding gave it.
    pub fn parse(
        dict: D,
        size: Option<i64>,
        index: Option<Option<Vec<Option<i64>>>>,
        w: Option<Vec<Option<i64>>>,
        data: ParseResult<Vec<u8>>,
    ) -> (r: ParseResult<Self>)
        requires
            match (stream_params_spec(size, nested_array_view(index), array_view(w)), data) {
                (Ok((p, ws)), Ok(d)) => decode_maps(d@, ws, p) is Some,
                _ => true,
            },
        ensures
            match stream_params_spec(size, nested_array_view(index), array_view(w)) {
                Err(f) => r matches Err(e) && is_param_failure(e, f),
                Ok((p, ws)) => match data {
                    Err(e) => r matches Err(e2) && e2 == e,
                    Ok(d) => match decode_maps(d@, ws, p) {
                        Some(Ok((m1, m2))) => r matches Ok(xs) && xs.entry_map() == m1 && xs.extended_map()
                            == m2 && xs.dict_value() == dict,
                        Some(Err(())) => r matches Err(ParseError::SyntaxError { position, message })
                            && position == 0 && message@ == "Xref stream data truncated"@,
                        None => false,
                    },
                },
            },
    {
        let (pairs, widths) = match stream_params(size, index, w) {
            Ok(v) => v,
            Err(e) => {
                return Err(e);
            },
        };
        let bytes = match data {
            Ok(d) => d,
            Err(e) => {
                return Err(e);
            },
        };
        let mut entries: HashMap<u32, XRefEntry> = HashMap::new();
        let mut extended: HashMap<u32, XRefEntryExt> = HashMap::new();
        let ghost target = decode_maps(bytes@, widths@, pairs@);
        let mut offset: usize = 0;
        let mut p: usize = 0;
        while p < pairs.len()
            invariant
                p <= pairs.len(),
                widths.len() == 3,
                target == decode_maps_from(bytes@, widths@, pairs@, p as int, 0, offset as int, entries@, extended@),
                target is Some,
                target == decode_maps(bytes@, widths@, pairs@),
                stream_params_spec(size, nested_array_view(index), array_view(w)) == Ok::<
                    (Seq<(u32, u32)>, Seq<usize>),
                    StreamParamFailure,
                >((pairs@, widths@)),
                data matches Ok(d) && d@ == bytes@,
            decreases pairs.len() - p,
        {
            let (first, count) = pairs[p];
            let mut i: u32 = 0;
            while i < count
                invariant
                    p < pairs.len(),
                    (first, count) == pairs@[p as int],
                    i <= count,
                    widths.len() == 3,
                    target == decode_maps_from(bytes@, widths@, pairs@, p as int, i as int, offset as int, entries@, extended@),
                    target is Some,
                    target == decode_maps(bytes@, widths@, pairs@),
                    stream_params_spec(size, nested_array_view(index), array_view(w)) == Ok::<
                        (Seq<(u32, u32)>, Seq<usize>),
                        StreamParamFailure,
                    >((pairs@, widths@)),
                    data matches Ok(d) && d@ == bytes@,
                decreases count - i,
            {
                let w0 = widths[0];
                let w1 = widths[1];
                let w2 = widths[2];
                if w0 > usize::MAX - offset || w1 > usize::MAX - offset - w0 || w2 > usize::MAX - offset - w0 - w1 {
                    assert(false);
                }
                if offset + w0 + w1 + w2 > bytes.len() {
                    return Err(ParseError::SyntaxError {
                        position: 0,
                        message: String::from_str("Xref stream data truncated"),
                    });
                }
                let t = if w0 == 0 {
                    1
                } else {
                    read_stream_field(bytes.as_slice(), offset, w0)
                };
                let f2 = read_stream_field(bytes.as_slice(), offset + w0, w1);
                let f3 = read_stream_field(bytes.as_slice(), offset + w0 + w1, w2);
                if first as u64 + i as u64 > u32::MAX as u64 {
                    assert(false);
                }
                let n = first + i;
                let entry = if t == 0 {
                    XRefEntry { offset: f2, generation: f3 as u16, in_use: false }
                } else if t == 1 {
                    XRefEntry { offset: f2, generation: f3 as u16, in_use: true }
                } else if t == 2 {
                    let e = XRefEntry { offset: 0, generation: 0, in_use: true };
                    extended.insert(n, XRefEntryExt { basic: e, compressed_info: Some((f2 as u32, f3 as u32)) });
                    e
                } else {
                    XRefEntry { offset: 0, generation: 0, in_use: false }
                };
                entries.insert(n, entry);
                offset = offset + w0 + w1 + w2;
                i = i + 1;
            }
            p = p + 1;
        }
        Ok(XRefStream { dict, entries, extended_entries: extended })
    }

    /// Get an entry by object number.
    pub fn get_entry(&self, obj_num: u32) -> (r: Option<&XRefEntry>)
        ensures
            match r {
                Some(e) => self.entry_map().contains_key(obj_num) && self.entry_map()[obj_num] == *e,
                None => !self.entry_map().contains_key(obj_num),
            },
    {
        self.entries.get(&obj_num)
    }

    /// Get the trailer dictionary from the stream.
    pub fn trailer(&self) -> (r: &D)
        ensures
            *r == self.dict_value(),
    {
        &self.dict
    }
}

impl<D> XRefTable<D> {
    /// A table holding the entries of a cross-reference stream, with the
    /// stream's dictionary as its trailer.
    pub fn from_stream(stream: XRefStream<D>) -> (t: Self)
        ensures
            t.entry_map() == stream.entry_map(),
            t.extended_map() == stream.extended_map(),
            t.trailer_value() == Some(stream.dict_value()),
    {
        XRefTable {
            entries: stream.entries,
            extended_entries: stream.extended_entries,
            trailer: Some(stream.dict),
        }
    }
}

/// Index of the first whitespace character at or after `i`, or the length.
pub open spec fn find_ws(t: Seq<char>, i: int) -> int
    decreases t.len() - i,
{
    if i < 0 || i >= t.len() {
        t.len() as int
    } else if is_unicode_ws(t[i]) {
        i
    } else {
        find_ws(t, i + 1)
    }
}

/// Index of the first non-whitespace character at or after `i`, or the length.
pub open spec fn skip_ws(t: Seq<char>, i: int) -> int
    decreases t.len() - i,
{
    if i < 0 || i >= t.len() {
        t.len() as int
    } else if is_unicode_ws(t[i]) {
        skip_ws(t, i + 1)
    } else {
        i
    }
}

/// The two whitespace-separated words of a trimmed, non-empty line, or
/// `None` when it has one word or more than two.
pub open spec fn two_words(t: Seq<char>) -> Option<(Seq<char>, Seq<char>)> {
    let k = find_ws(t, 0);
    if k >= t.len() {
        None
    } else {
        let j = skip_ws(t, k);
        if find_ws(t, j) < t.len() {
            None
        } else {
            Some((t.take(k), t.skip(j)))
        }
    }
}

/// The line at `i`, or an empty line past the end (as reading at the end
/// of a file gives).
pub open spec fn line_at(lines: Seq<Seq<char>>, i: int) -> Seq<char> {
    if 0 <= i < lines.len() {
        lines[i]
    } else {
        Seq::empty()
    }
}

/// Reading `count` entry lines of a subsection starting at object number
/// `first`, from entry `i` whose line is at `li`: the entries added to
/// `m` and the line after them; `None` where reading panics (a slice inside
/// a character, or an object number overflow).
pub open spec fn subsection_from(
    lines: Seq<Seq<char>>,
    li: int,
    first: u32,
    count: u32,
    i: int,
    m: Map<u32, XRefEntry>,
) -> Option<Result<(Map<u32, XRefEntry>, int), ()>>
    decreases count - i,
{
    if i >= count {
        Some(Ok((m, li)))
    } else {
        match xref_entry_spec(line_at(lines, li)) {
            None => None,
            Some(None) => Some(Err(())),
            Some(Some(e)) => if first + i > u32::MAX {
                None
            } else {
                subsection_from(lines, li + 1, first, count, i + 1, m.insert((first + i) as u32, e))
            },
        }
    }
}

/// Reading the subsections of a traditional table from line `li` up to
/// and including the `trailer` line: the entries added to `m` and the
/// number of the line after `trailer`; `Err` for an invalid subsection,
/// `None` where reading panics or never ends (no `trailer` line).
pub open spec fn traditional_from(lines: Seq<Seq<char>>, li: int, m: Map<u32, XRefEntry>) -> Option<
    Result<(Map<u32, XRefEntry>, int), ()>,
>
    decreases lines.len() - li,
{
    if li < 0 || li >= lines.len() {
        None
    } else {
        let t = trim_spec(lines[li]);
        if t.len() == 0 {
            traditional_from(lines, li + 1, m)
        } else if t == "trailer"@ {
            Some(Ok((m, li + 1)))
        } else {
            match two_words(t) {
                None => Some(Err(())),
                Some((a, b)) => match (parse_uint_spec(a, 0xFFFF_FFFF), parse_uint_spec(b, 0xFFFF_FFFF)) {
                    (Some(first), Some(count)) => match subsection_from(
                        lines,
                        li + 1,
                        first as u32,
                        count as u32,
                        0,
                        m,
                    ) {
                        None => None,
                        Some(Err(())) => Some(Err(())),
                        Some(Ok((m2, next))) => if li < next <= lines.len() {
                            traditional_from(lines, next, m2)
                        } else {
                            None
                        },
                    },
                    _ => Some(Err(())),
                },
            }
        }
    }
}

/// The views of the lines.
pub open spec fn lines_view(lines: Seq<String>) -> Seq<Seq<char>> {
    Seq::new(lines.len(), |i: int| lines[i]@)
}

proof fn lemma_subsection_advances(
    lines: Seq<Seq<char>>,
    li: int,
    first: u32,
    count: u32,
    i: int,
    m: Map<u32, XRefEntry>,
)
    requires
        i <= count,
    ensures
        subsection_from(lines, li, first, count, i, m) matches Some(Ok((_, next))) ==> next == li + (
        count - i),
    decreases count - i,
{
    if i < count {
        if let Some(Some(e)) = xref_entry_spec(line_at(lines, li)) {
            if first + i <= u32::MAX {
                lemma_subsection_advances(lines, li + 1, first, count, i + 1, m.insert((first + i) as u32, e));
            }
        }
    }
}

/// Whether `s[from..to]` is the word `trailer`.
fn is_trailer(s: &Vec<char>, from: usize, to: usize) -> (r: bool)
    requires
        from <= to <= s.len(),
    ensures
        r == (s@.subrange(from as int, to as int) == "trailer"@),
{
    proof {
        reveal_strlit("trailer");
    }
    let ghost t = s@.subrange(from as int, to as int);
    assert("trailer"@.len() == 7);
    if to - from != 7 {
        return false;
    }
    let r = s[from] == 't' && s[from + 1] == 'r' && s[from + 2] == 'a' && s[from + 3] == 'i'
        && s[from + 4] == 'l' && s[from + 5] == 'e' && s[from + 6] == 'r';
    proof {
        if r {
            assert(t =~= "trailer"@);
        } else if t == "trailer"@ {
            assert(t[0] == s@[from as int]);
            assert(t[1] == s@[from + 1]);
            assert(t[2] == s@[from + 2]);
            assert(t[3] == s@[from + 3]);
            assert(t[4] == s@[from + 4]);
            assert(t[5] == s@[from + 5]);
            assert(t[6] == s@[from + 6]);
        }
    }
    r
}

/// The two words of the trimmed text `s[from..to]`, as ranges.
fn split_two_words(s: &Vec<char>, from: usize, to: usize) -> (r: Option<((usize, usize), (usize, usize))>)
    requires
        from <= to <= s.len(),
    ensures
        match two_words(s@.subrange(from as int, to as int)) {
            None => r is None,
            Some((a, b)) => r matches Some((ra, rb)) && from <= ra.0 <= ra.1 <= to && from <= rb.0
                <= rb.1 <= to && s@.subrange(ra.0 as int, ra.1 as int) == a && s@.subrange(
                rb.0 as int,
                rb.1 as int,
            ) == b,
        },
{
    let ghost t = s@.subrange(from as int, to as int);
    let mut k = from;
    while k < to && !is_whitespace_char(s[k])
        invariant
            from <= k <= to <= s.len(),
            t == s@.subrange(from as int, to as int),
            find_ws(t, 0) == find_ws(t, k - from),
        decreases to - k,
    {
        assert(t[k - from] == s@[k as int]);
        k = k + 1;
    }
    if k < to {
        assert(t[k - from] == s@[k as int]);
    }
    if k >= to {
        return None;
    }
    let mut j = k;
    while j < to && is_whitespace_char(s[j])
        invariant
            k <= j <= to <= s.len(),
            from <= k,
            t == s@.subrange(from as int, to as int),
            skip_ws(t, k - from) == skip_ws(t, j - from),
        decreases to - j,
    {
        assert(t[j - from] == s@[j as int]);
        j = j + 1;
    }
    if j < to {
        assert(t[j - from] == s@[j as int]);
    }
    let mut q = j;
    while q < to && !is_whitespace_char(s[q])
        invariant
            j <= q <= to <= s.len(),
            from <= j,
            t == s@.subrange(from as int, to as int),
            find_ws(t, j - from) == find_ws(t, q - from),
        decreases to - q,
    {
        assert(t[q - from] == s@[q as int]);
        q = q + 1;
    }
    if q < to {
        assert(t[q - from] == s@[q as int]);
        return None;
    }
    assert(s@.subrange(from as int, k as int) =~= t.take(k - from));
    assert(s@.subrange(j as int, to as int) =~= t.skip(j - from));
    Some(((from, k), (j, to)))
}

impl<T> XRefTable<T> {
    /// Read the subsections of a traditional table from `lines` (the lines
    /// after the `xref` keyword), up to and including the `trailer` line:
    /// skip empty lines, read each `first count` header and its `count`
    /// entry lines (an empty line past the last one), and record the
    /// entries. Gives the number of lines read.
    pub fn parse_traditional_lines(&mut self, lines: &[String]) -> (r: ParseResult<usize>)
        requires
            traditional_from(lines_view(lines@), 0, old(self).entry_map()) is Some,
        ensures
            match traditional_from(lines_view(lines@), 0, old(self).entry_map()) {
                Some(Ok((m, next))) => r matches Ok(n) && n == next && final(self).entry_map() == m,
                Some(Err(())) => r matches Err(ParseError::InvalidXRef),
                None => false,
            },
            final(self).extended_map() == old(self).extended_map(),
            final(self).trailer_value() == old(self).trailer_value(),
    {
        let ghost lv = lines_view(lines@);
        let ghost target = traditional_from(lv, 0, self.entry_map());
        let mut li: usize = 0;
        loop
            invariant
                lv == lines_view(lines@),
                target == traditional_from(lv, li as int, self.entry_map()),
                target is Some,
                li <= lines.len(),
                target == traditional_from(lines_view(lines@), 0, old(self).entry_map()),
                self.extended_map() == old(self).extended_map(),
                self.trailer_value() == old(self).trailer_value(),
            decreases lines.len() - li,
        {
            if li >= lines.len() {
                assert(false);
                return Err(ParseError::InvalidXRef);
            }
            let chars = string_chars(lines[li].as_str());
            assert(lv[li as int] == chars@);
            let (a, b) = trim_range(&chars, 0, chars.len());
            assert(chars@.subrange(0, chars@.len() as int) =~= chars@);
            if a == b {
                li = li + 1;
                continue;
            }
            if is_trailer(&chars, a, b) {
                return Ok(li + 1);
            }
            let ((p0, p1), (q0, q1)) = match split_two_words(&chars, a, b) {
                Some(v) => v,
                None => {
                    return Err(ParseError::InvalidXRef);
                },
            };
            let first = match parse_uint_chars(&chars, p0, p1, 0xFFFF_FFFF) {
                Some(v) => v as u32,
                None => {
                    return Err(ParseError::InvalidXRef);
                },
            };
            let count = match parse_uint_chars(&chars, q0, q1, 0xFFFF_FFFF) {
                Some(v) => v as u32,
                None => {
                    return Err(ParseError::InvalidXRef);
                },
            };
            let ghost m0 = self.entry_map();
            proof {
                lemma_subsection_advances(lv, li + 1, first, count, 0, m0);
                let t = trim_spec(lv[li as int]);
                assert(t == chars@.subrange(a as int, b as int));
                assert(t.len() != 0);
                assert(t != "trailer"@);
                assert(two_words(t) is Some);
                assert(traditional_from(lv, li as int, m0) == match subsection_from(
                    lv,
                    li + 1,
                    first,
                    count,
                    0,
                    m0,
                ) {
                    None => None,
                    Some(Err(())) => Some(Err(())),
                    Some(Ok((m2, next))) => if li < next <= lv.len() {
                        traditional_from(lv, next, m2)
                    } else {
                        None
                    },
                });
            }
            let mut i: u32 = 0;
            let mut lj: usize = li + 1;
            while i < count
                invariant
                    lv == lines_view(lines@),
                    li < lj,
                    lj == li + 1 + i,
                    i <= count,
                    subsection_from(lv, li as int + 1, first, count, 0, m0) == subsection_from(
                        lv,
                        lj as int,
                        first,
                        count,
                        i as int,
                        self.entry_map(),
                    ),
                    subsection_from(lv, li as int + 1, first, count, 0, m0) is Some,
                    subsection_from(lv, li as int + 1, first, count, 0, m0) matches Some(Err(()))
                        ==> target == Some(Err::<(Map<u32, XRefEntry>, int), ()>(())),
                    self.extended_map() == old(self).extended_map(),
                    self.trailer_value() == old(self).trailer_value(),
                    target == traditional_from(lv, li as int, m0),
                    target == traditional_from(lines_view(lines@), 0, old(self).entry_map()),
                    lj <= lines.len(),
                decreases count - i,
            {
                let entry = if lj < lines.len() {
                    assert(line_at(lv, lj as int) == lines@[lj as int]@);
                    parse_xref_entry(lines[lj].as_str())
                } else {
                    assert(line_at(lv, lj as int) =~= ""@) by {
                        reveal_strlit("");
                    }
                    parse_xref_entry("")
                };
                let entry = match entry {
                    Ok(e) => e,
                    Err(e) => {
                        return Err(e);
                    },
                };
                if first as u64 + i as u64 > u32::MAX as u64 {
                    assert(false);
                }
                self.add_entry(first + i, entry);
                i = i + 1;
                lj = lj + 1;
            }
            li = lj;
            if li > lines.len() {
                assert(false);
            }
        }
    }
}

} // verus!

verus! {

/// Where an object is to be read from, as its cross-reference entries say.
#[derive(Debug, Clone, Copy, PartialEq, Eq)]
pub enum ObjectLocation {
    /// In an object stream: the stream's object number and the index within it
    Compressed(u32, u32),
    /// A free entry: the object reads as null
    Free,
    /// At this byte offset in the file
    AtOffset(u64),
}

/// Where object `n`, generation `g`, is to be read from: `None` for an
/// invalid reference.
pub open spec fn locate_spec(entries: Map<u32, XRefEntry>, ext: Map<u32, XRefEntryExt>, n: u32, g: u16) -> Option<
    ObjectLocation,
> {
    if ext.contains_key(n) && ext[n].compressed_info is Some {
        let (s, i) = ext[n].compressed_info.unwrap();
        Some(ObjectLocation::Compressed(s, i))
    } else if !entries.contains_key(n) {
        None
    } else if !entries[n].in_use {
        Some(ObjectLocation::Free)
    } else if entries[n].generation != g {
        None
    } else {
        Some(ObjectLocation::AtOffset(entries[n].offset))
    }
}

impl<T> XRefTable<T> {
    /// Where object `obj_num`, generation `gen_num`, is to be read from: an
    /// object stream for a compressed object; a free entry reads as null
    /// whatever the generation; an in-use entry gives its offset when the
    /// generation matches. An object without an entry, or with another
    /// generation, is an invalid reference.
    pub fn locate(&self, obj_num: u32, gen_num: u16) -> (r: ParseResult<ObjectLocation>)
        ensures
            match locate_spec(self.entry_map(), self.extended_map(), obj_num, gen_num) {
                Some(l) => r == Ok::<ObjectLocation, ParseError>(l),
                None => r matches Err(ParseError::InvalidReference(n, g)) && n == obj_num && g == gen_num,
            },
    {
        if let Some(ext_entry) = self.get_extended_entry(obj_num) {
            if let Some((stream_obj_num, index_in_stream)) = ext_entry.compressed_info {
                return Ok(ObjectLocation::Compressed(stream_obj_num, index_in_stream));
            }
        }
        let entry = match self.get_entry(obj_num) {
            Some(e) => *e,
            None => {
                return Err(ParseError::InvalidReference(obj_num, gen_num));
            },
        };
        if !entry.in_use {
            return Ok(ObjectLocation::Free);
        }
        if entry.generation != gen_num {
            return Err(ParseError::InvalidReference(obj_num, gen_num));
        }
        Ok(ObjectLocation::AtOffset(entry.offset))
    }
}

} // verus!
