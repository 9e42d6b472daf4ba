//! Document metadata and line splitting for PDF text.

use vstd::prelude::*;

verus! {

/// Document metadata.
#[derive(Debug, Clone)]
pub struct DocumentMetadata {
    pub title: Option<String>,
    pub author: Option<String>,
    pub subject: Option<String>,
    pub keywords: Option<String>,
    pub creator: Option<String>,
    pub producer: Option<String>,
    pub creation_date: Option<String>,
    pub modification_date: Option<String>,
    pub version: String,
    pub page_count: Option<u32>,
}

impl Default for DocumentMetadata {
    /// No entries, an empty version and no page count.
    fn default() -> (m: Self)
        ensures
            m.title is None,
            m.author is None,
            m.subject is None,
            m.keywords is None,
            m.creator is None,
            m.producer is None,
            m.creation_date is None,
            m.modification_date is None,
            m.version@ == Seq::<char>::empty(),
            m.page_count is None,
    {
        DocumentMetadata {
            title: None,
            author: None,
            subject: None,
            keywords: None,
            creator: None,
            producer: None,
            creation_date: None,
            modification_date: None,
            version: String::new(),
            page_count: None,
        }
    }
}

/// Index of the first `\n` or `\r` at or after `i`, or the length.
pub open spec fn find_eol(s: Seq<char>, i: int) -> int
    decreases s.len() - i,
{
    if i < 0 || i >= s.len() {
        s.len() as int
    } else if s[i] == '\n' || s[i] == '\r' {
        i
    } else {
        find_eol(s, i + 1)
    }
}

/// The first line of the text and the text after its end of line
/// (`\r\n`, `\n` or `\r`); `None` for empty text.
pub open spec fn split_first_line(s: Seq<char>) -> Option<(Seq<char>, Seq<char>)> {
    if s.len() == 0 {
        None
    } else {
        let k = find_eol(s, 0);
        if k >= s.len() {
            Some((s, Seq::empty()))
        } else if s[k] == '\r' && k + 1 < s.len() && s[k + 1] == '\n' {
            Some((s.take(k), s.skip(k + 2)))
        } else {
            Some((s.take(k), s.skip(k + 1)))
        }
    }
}

/// Iterator over the lines of a text, which end with `\r\n`, `\n` or `\r`.
pub struct EOLIter<'s> {
    remainder: &'s str,
}

impl<'s> EOLIter<'s> {
    /// The text not yet split into lines.
    pub closed spec fn remainder(&self) -> Seq<char> {
        self.remainder@
    }

    /// Lines of `text`.
    pub fn new(text: &'s str) -> (it: Self)
        ensures
            it.remainder() == text@,
    {
        EOLIter { remainder: text }
    }

    /// The next line, without its end of line; `None` once the text is used up.
    pub fn next(&mut self) -> (r: Option<&'s str>)
        ensures
            match split_first_line(old(self).remainder()) {
                None => r is None && final(self).remainder() == old(self).remainder(),
                Some((line, rest)) => r matches Some(l) && l@ == line && final(self).remainder() == rest,
            },
    {
        let s = self.remainder;
        let n = s.unicode_len();
        if n == 0 {
            return None;
        }
        let mut k: usize = 0;
        while k < n && s.get_char(k) != '\n' && s.get_char(k) != '\r'
            invariant
                k <= n,
                n == s@.len(),
                s@ == old(self).remainder(),
                find_eol(s@, 0) == find_eol(s@, k as int),
            decreases n - k,
        {
            k = k + 1;
        }
        if k >= n {
            self.remainder = s.substring_char(n, n);
            assert(self.remainder@ =~= Seq::<char>::empty());
            return Some(s);
        }
        let line = s.substring_char(0, k);
        let skip = if s.get_char(k) == '\r' && k + 1 < n && s.get_char(k + 1) == '\n' {
            k + 2
        } else {
            k + 1
        };
        self.remainder = s.substring_char(skip, n);
        assert(line@ =~= s@.take(k as int));
        assert(self.remainder@ =~= s@.skip(skip as int));
        Some(line)
    }
}

} // verus!
