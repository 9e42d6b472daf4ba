//! Character-level helpers shared by the line parsers: Unicode whitespace
//! and trimming, and decimal numbers as `str::parse` reads them.

use vstd::prelude::*;

verus! {

/// Unicode whitespace, as `char::is_whitespace` defines it.
pub open spec fn is_unicode_ws(c: char) -> bool {
    let v = c as u32;
    (0x09 <= v <= 0x0D) || v == 0x20 || v == 0x85 || v == 0xA0 || v == 0x1680 || (0x2000 <= v
        <= 0x200A) || v == 0x2028 || v == 0x2029 || v == 0x202F || v == 0x205F || v == 0x3000
}

/// Index of the first non-whitespace character at or after `i`.
pub open spec fn trim_start_index(s: Seq<char>, i: int) -> int
    decreases s.len() - i,
{
    if 0 <= i < s.len() && is_unicode_ws(s[i]) {
        trim_start_index(s, i + 1)
    } else {
        i
    }
}

/// Index just past the last non-whitespace character before `j`, no lower than `i`.
pub open spec fn trim_end_index(s: Seq<char>, i: int, j: int) -> int
    decreases j - i,
{
    if j > i && is_unicode_ws(s[j - 1]) {
        trim_end_index(s, i, j - 1)
    } else {
        j
    }
}

/// The text without leading and trailing whitespace, as `str::trim` gives it.
pub open spec fn trim_spec(s: Seq<char>) -> Seq<char> {
    let a = trim_start_index(s, 0);
    s.subrange(a, trim_end_index(s, a, s.len() as int))
}

/// Whether every character is an ASCII digit.
pub open spec fn all_digits(d: Seq<char>) -> bool {
    forall|i: int| 0 <= i < d.len() ==> '0' <= #[trigger] d[i] <= '9'
}

/// The number the decimal digits stand for.
pub open spec fn digits_value(d: Seq<char>) -> int
    decreases d.len(),
{
    if d.len() == 0 {
        0
    } else {
        digits_value(d.drop_last()) * 10 + (d.last() as int - 48)
    }
}

/// Unsigned parsing as `str::parse` does it for a type whose largest value
/// is `max`: an optional `+`, then one or more decimal digits worth at most `max`.
pub open spec fn parse_uint_spec(s: Seq<char>, max: nat) -> Option<nat> {
    let d = if s.len() > 0 && s[0] == '+' {
        s.skip(1)
    } else {
        s
    };
    if d.len() > 0 && all_digits(d) && digits_value(d) <= max {
        Some(digits_value(d) as nat)
    } else {
        None
    }
}

/// The characters of a string.
pub fn string_chars(s: &str) -> (v: Vec<char>)
    ensures
        v@ == s@,
{
    let mut v: Vec<char> = Vec::new();
    let ghost full = s@;
    for c in it: s.chars()
        invariant
            it.seq() == full,
            v@ == full.take(it.index() as int),
    {
        assert(full.take(it.index() + 1) =~= full.take(it.index() as int).push(c));
        v.push(c);
    }
    assert(full.take(full.len() as int) =~= full);
    v
}

/// Whether a character is Unicode whitespace.
pub fn is_whitespace_char(c: char) -> (r: bool)
    ensures
        r == is_unicode_ws(c),
{
    let v = c as u32;
    (0x09 <= v && v <= 0x0D) || v == 0x20 || v == 0x85 || v == 0xA0 || v == 0x1680 || (0x2000 <= v
        && v <= 0x200A) || v == 0x2028 || v == 0x2029 || v == 0x202F || v == 0x205F || v == 0x3000
}

/// The bounds of `s[from..to]` without its leading and trailing whitespace.
pub fn trim_range(s: &Vec<char>, from: usize, to: usize) -> (r: (usize, usize))
    requires
        from <= to <= s.len(),
    ensures
        from <= r.0 <= r.1 <= to,
        s@.subrange(r.0 as int, r.1 as int) == trim_spec(s@.subrange(from as int, to as int)),
{
    let ghost t = s@.subrange(from as int, to as int);
    let mut a = from;
    while a < to && is_whitespace_char(s[a])
        invariant
            from <= a <= to <= s.len(),
            t == s@.subrange(from as int, to as int),
            trim_start_index(t, 0) == trim_start_index(t, a - from),
        decreases to - a,
    {
        a = a + 1;
    }
    let mut b = to;
    while b > a && is_whitespace_char(s[b - 1])
        invariant
            from <= a <= b <= to <= s.len(),
            t == s@.subrange(from as int, to as int),
            trim_end_index(t, a - from, t.len() as int) == trim_end_index(t, a - from, b - from),
        decreases b - a,
    {
        assert(t[b - 1 - from] == s@[b - 1]);
        b = b - 1;
    }
    assert(s@.subrange(a as int, b as int) =~= t.subrange(a - from, b - from));
    (a, b)
}

pub proof fn lemma_digits_prefix(d: Seq<char>, k: int)
    requires
        0 <= k <= d.len(),
        all_digits(d),
    ensures
        digits_value(d) >= digits_value(d.take(k)),
        digits_value(d.take(k)) >= 0,
    decreases d.len(),
{
    if d.len() > 0 {
        assert(all_digits(d.drop_last()));
        if k < d.len() {
            lemma_digits_prefix(d.drop_last(), k);
            assert(d.drop_last().take(k) =~= d.take(k));
            assert(d.last() >= '0');
        } else {
            assert(d.take(k) =~= d);
            lemma_digits_prefix(d.drop_last(), d.len() - 1);
            assert(d.drop_last().take(d.len() - 1) =~= d.drop_last());
        }
    } else {
        assert(d.take(k) =~= d);
    }
}

/// Parse the characters `s[from..to]` as `str::parse` does for an
/// unsigned type whose largest value is `max`.
pub fn parse_uint_chars(s: &Vec<char>, from: usize, to: usize, max: u64) -> (r: Option<u64>)
    requires
        from <= to <= s.len(),
    ensures
        r matches Some(v) ==> v <= max && parse_uint_spec(s@.subrange(from as int, to as int), max as nat)
            == Some(v as nat),
        r is None ==> parse_uint_spec(s@.subrange(from as int, to as int), max as nat) is None,
{
    let ghost t = s@.subrange(from as int, to as int);
    let mut i = from;
    if i < to && s[i] == '+' {
        i = i + 1;
    }
    let ghost d = s@.subrange(i as int, to as int);
    assert(d =~= (if t.len() > 0 && t[0] == '+' {
        t.skip(1)
    } else {
        t
    }));
    if i == to {
        return None;
    }
    let start = i;
    let mut value: u64 = 0;
    while i < to
        invariant
            start <= i <= to <= s.len(),
            d == s@.subrange(start as int, to as int),
            t == s@.subrange(from as int, to as int),
            d =~= (if t.len() > 0 && t[0] == '+' { t.skip(1) } else { t }),
            d.len() > 0,
            all_digits(d.take(i - start)),
            value == digits_value(d.take(i - start)),
            value <= max,
        decreases to - i,
    {
        let c = s[i];
        assert(d[i - start] == c);
        if !('0' <= c && c <= '9') {
            assert(!all_digits(d));
            return None;
        }
        let digit = (c as u32 - 48) as u64;
        assert(d.take(i - start + 1).drop_last() =~= d.take(i - start));
        assert(all_digits(d.take(i - start + 1)));
        if digit > max || value > (max - digit) / 10 {
            proof {
                assert(value * 10 + digit > max) by (nonlinear_arith)
                    requires
                        digit > max || value > (max - digit) / 10,
                        value >= 0,
                ;
                if all_digits(d) {
                    lemma_digits_prefix(d, i - start + 1);
                }
            }
            return None;
        }
        proof {
            assert(value * 10 + digit <= max) by (nonlinear_arith)
                requires
                    value <= (max - digit) / 10,
                    digit <= max,
            ;
        }
        value = value * 10 + digit;
        i = i + 1;
    }
    assert(d.take(i - start) =~= d);
    Some(value)
}

} // verus!
