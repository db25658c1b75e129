//! String cleaning used when reading the workbook: whitespace trimming,
//! substring tests and integer parsing.
use vstd::prelude::*;

use crate::text::{chars_of, string_of};

verus! {

/// Characters with the Unicode `White_Space` property (what
/// `char::is_whitespace` tests).
pub open spec fn is_space(c: char) -> bool {
    ||| ('\u{9}' <= c && c <= '\u{d}')
    ||| c == ' '
    ||| c == '\u{85}'
    ||| c == '\u{a0}'
    ||| c == '\u{1680}'
    ||| ('\u{2000}' <= c && c <= '\u{200a}')
    ||| c == '\u{2028}'
    ||| c == '\u{2029}'
    ||| c == '\u{202f}'
    ||| c == '\u{205f}'
    ||| c == '\u{3000}'
}

pub fn is_space_char(c: char) -> (b: bool)
    ensures
        b == is_space(c),
{
    ('\u{9}' <= c && c <= '\u{d}') || c == ' ' || c == '\u{85}' || c == '\u{a0}' || c == '\u{1680}'
        || ('\u{2000}' <= c && c <= '\u{200a}') || c == '\u{2028}' || c == '\u{2029}' || c == '\u{202f}'
        || c == '\u{205f}' || c == '\u{3000}'
}

/// `s` without leading whitespace.
pub open spec fn trim_start(s: Seq<char>) -> Seq<char>
    decreases s.len(),
{
    if s.len() > 0 && is_space(s[0]) {
        trim_start(s.drop_first())
    } else {
        s
    }
}

/// `s` without trailing whitespace.
pub open spec fn trim_end(s: Seq<char>) -> Seq<char>
    decreases s.len(),
{
    if s.len() > 0 && is_space(s.last()) {
        trim_end(s.drop_last())
    } else {
        s
    }
}

/// `s` without leading and trailing whitespace (what `str::trim` returns).
pub open spec fn trim(s: Seq<char>) -> Seq<char> {
    trim_end(trim_start(s))
}

proof fn lemma_trim_start_skip(s: Seq<char>, i: int)
    requires
        0 <= i <= s.len(),
        forall|j: int| 0 <= j < i ==> is_space(#[trigger] s[j]),
    ensures
        trim_start(s) == trim_start(s.subrange(i, s.len() as int)),
    decreases i,
{
    if i > 0 {
        lemma_trim_start_skip(s.drop_first(), i - 1);
        assert(s.drop_first().subrange(i - 1, s.drop_first().len() as int) =~= s.subrange(i, s.len() as int));
    } else {
        assert(s.subrange(0, s.len() as int) =~= s);
    }
}

proof fn lemma_trim_end_skip(s: Seq<char>, e: int)
    requires
        0 <= e <= s.len(),
        forall|j: int| e <= j < s.len() ==> is_space(#[trigger] s[j]),
    ensures
        trim_end(s) == trim_end(s.subrange(0, e)),
    decreases s.len() - e,
{
    if e < s.len() {
        lemma_trim_end_skip(s.drop_last(), e);
        assert(s.drop_last().subrange(0, e) =~= s.subrange(0, e));
    } else {
        assert(s.subrange(0, e) =~= s);
    }
}

/// The characters of `s` without leading and trailing whitespace.
pub fn trim_chars(s: &Vec<char>) -> (t: Vec<char>)
    ensures
        t@ == trim(s@),
{
    let n = s.len();
    let mut i: usize = 0;
    while i < n && is_space_char(s[i])
        invariant
            i <= n,
            n == s@.len(),
            forall|j: int| 0 <= j < i ==> is_space(#[trigger] s@[j]),
        decreases n - i,
    {
        i = i + 1;
    }
    proof {
        lemma_trim_start_skip(s@, i as int);
    }
    let ghost mid = s@.subrange(i as int, n as int);
    assert(trim_start(mid) == mid);
    let mut e: usize = n;
    while e > i && is_space_char(s[e - 1])
        invariant
            i <= e <= n,
            n == s@.len(),
            forall|j: int| e <= j < n ==> is_space(#[trigger] s@[j]),
        decreases e,
    {
        e = e - 1;
    }
    proof {
        assert forall|j: int| e - i <= j < mid.len() implies is_space(#[trigger] mid[j]) by {
            assert(mid[j] == s@[i + j]);
        }
        lemma_trim_end_skip(mid, e - i);
        assert(mid.subrange(0, e - i) =~= s@.subrange(i as int, e as int));
    }
    let mut t: Vec<char> = Vec::new();
    let mut j: usize = i;
    while j < e
        invariant
            i <= j <= e,
            e <= n,
            n == s@.len(),
            t@ == s@.subrange(i as int, j as int),
        decreases e - j,
    {
        t.push(s[j]);
        assert(s@.subrange(i as int, j + 1) =~= s@.subrange(i as int, j as int).push(s@[j as int]));
        j = j + 1;
    }
    t
}

/// `str::trim` of a string, as a new string.
pub fn trimmed(s: &str) -> (t: String)
    ensures
        t@ == trim(s@),
{
    let cs = chars_of(s);
    let t = trim_chars(&cs);
    string_of(&t)
}

/// `needle` occurs in `s` starting at `i`.
pub open spec fn occurs_at(s: Seq<char>, needle: Seq<char>, i: int) -> bool {
    0 <= i && i + needle.len() <= s.len() && s.subrange(i, i + needle.len()) == needle
}

/// `needle` occurs somewhere in `s` (what `str::contains` tests).
pub open spec fn has_substring(s: Seq<char>, needle: Seq<char>) -> bool {
    exists|i: int| #[trigger] occurs_at(s, needle, i)
}

fn matches_at(s: &Vec<char>, needle: &Vec<char>, i: usize) -> (b: bool)
    requires
        i + needle@.len() <= s@.len(),
    ensures
        b == occurs_at(s@, needle@, i as int),
{
    let mut j: usize = 0;
    while j < needle.len()
        invariant
            j <= needle@.len(),
            i + needle@.len() <= s@.len(),
            s@.len() == s.len(),
            forall|t: int| 0 <= t < j ==> s@[i + t] == needle@[t],
        decreases needle@.len() - j,
    {
        if s[i + j] != needle[j] {
            assert(s@.subrange(i as int, i + needle@.len())[j as int] != needle@[j as int]);
            return false;
        }
        j = j + 1;
    }
    assert(s@.subrange(i as int, i + needle@.len()) =~= needle@);
    true
}

/// Whether `needle` occurs in `s`.
pub fn contains_chars(s: &Vec<char>, needle: &Vec<char>) -> (b: bool)
    ensures
        b == has_substring(s@, needle@),
{
    if needle.len() > s.len() {
        assert forall|i: int| !occurs_at(s@, needle@, i) by {}
        return false;
    }
    if needle.len() == 0 {
        assert(s@.subrange(0, 0) =~= needle@);
        assert(occurs_at(s@, needle@, 0));
        return true;
    }
    let last = s.len() - needle.len();
    let mut i: usize = 0;
    while i <= last
        invariant
            last == s@.len() - needle@.len(),
            needle@.len() <= s@.len(),
            needle@.len() > 0,
            s@.len() <= usize::MAX,
            i <= last + 1,
            forall|t: int| 0 <= t < i ==> !occurs_at(s@, needle@, t),
        decreases last + 1 - i,
    {
        if matches_at(s, needle, i) {
            return true;
        }
        i = i + 1;
    }
    false
}

/// Value of a sequence of ASCII digits.
pub open spec fn digits_value(ds: Seq<char>) -> int
    decreases ds.len(),
{
    if ds.len() == 0 {
        0
    } else {
        digits_value(ds.drop_last()) * 10 + (ds.last() as int - 48)
    }
}

pub open spec fn all_digits(ds: Seq<char>) -> bool {
    forall|i: int| 0 <= i < ds.len() ==> '0' <= #[trigger] ds[i] && ds[i] <= '9'
}

/// What `str::parse::<i64>` yields: an optional `+` or `-` sign followed by
/// one or more ASCII digits, within the range of `i64`.
pub open spec fn parse_i64_spec(s: Seq<char>) -> Option<int> {
    let neg = s.len() > 0 && s[0] == '-';
    let signed = s.len() > 0 && (s[0] == '-' || s[0] == '+');
    let ds = if signed { s.drop_first() } else { s };
    if ds.len() == 0 || !all_digits(ds) {
        None
    } else {
        let v = if neg { -digits_value(ds) } else { digits_value(ds) };
        if i64::MIN <= v <= i64::MAX {
            Some(v)
        } else {
            None
        }
    }
}

proof fn lemma_digits_value_nonneg(ds: Seq<char>)
    requires
        all_digits(ds),
    ensures
        digits_value(ds) >= 0,
    decreases ds.len(),
{
    if ds.len() > 0 {
        lemma_digits_value_nonneg(ds.drop_last());
    }
}

proof fn lemma_digits_value_prefix(ds: Seq<char>, i: int)
    requires
        all_digits(ds),
        0 <= i <= ds.len(),
    ensures
        digits_value(ds.take(i)) <= digits_value(ds),
    decreases ds.len() - i,
{
    if i < ds.len() {
        lemma_digits_value_prefix(ds.drop_last(), i);
        assert(ds.drop_last().take(i) =~= ds.take(i));
        lemma_digits_value_nonneg(ds.drop_last());
    } else {
        assert(ds.take(i) =~= ds);
    }
}

/// `str::parse::<i64>` of the characters `s`.
pub fn parse_i64(s: &Vec<char>) -> (r: Option<i64>)
    ensures
        r matches Some(v) ==> parse_i64_spec(s@) == Some(v as int),
        r is None ==> parse_i64_spec(s@) is None,
{
    let n = s.len();
    let neg = n > 0 && s[0] == '-';
    let signed = n > 0 && (s[0] == '-' || s[0] == '+');
    let start: usize = if signed { 1 } else { 0 };
    let ghost ds = if signed { s@.drop_first() } else { s@ };
    assert(ds =~= s@.subrange(start as int, n as int));
    if start >= n {
        return None;
    }
    let mut value: i128 = 0;
    let mut i: usize = start;
    while i < n
        invariant
            start <= i <= n,
            n == s@.len(),
            start == 1 || start == 0,
            start == 1 <==> signed,
            ds == s@.subrange(start as int, n as int),
            ds == (if s@.len() > 0 && (s@[0] == '-' || s@[0] == '+') { s@.drop_first() } else { s@ }),
            neg == (s@.len() > 0 && s@[0] == '-'),
            all_digits(ds.take(i - start)),
            value == digits_value(ds.take(i - start)),
            0 <= value <= 0x8000_0000_0000_0000,
        decreases n - i,
    {
        let c = s[i];
        if c < '0' || c > '9' {
            assert(ds[i - start] == c);
            return None;
        }
        let d = (c as u32 - 48) as i128;
        let ghost prev = ds.take(i - start);
        value = value * 10 + d;
        assert(ds.take(i + 1 - start).drop_last() =~= prev);
        assert(ds.take(i + 1 - start).last() == c);
        if value > 0x8000_0000_0000_0000 {
            proof {
                assert(all_digits(ds.take(i + 1 - start)));
                if all_digits(ds) {
                    lemma_digits_value_prefix(ds, i + 1 - start);
                }
            }
            return None;
        }
        i = i + 1;
    }
    assert(ds.take(n - start) =~= ds);
    if neg {
        let v: i128 = -value;
        Some(v as i64)
    } else {
        if value > 0x7fff_ffff_ffff_ffff {
            return None;
        }
        Some(value as i64)
    }
}


/// What `str::parse::<u64>` yields: an optional `+` sign followed by one or
/// more ASCII digits, within the range of `u64`.
pub open spec fn parse_u64_spec(s: Seq<char>) -> Option<int> {
    let ds = if s.len() > 0 && s[0] == '+' { s.drop_first() } else { s };
    if ds.len() == 0 || !all_digits(ds) || digits_value(ds) > u64::MAX {
        None
    } else {
        Some(digits_value(ds))
    }
}

/// `str::parse::<u64>` of the characters `s`.
pub fn parse_u64(s: &Vec<char>) -> (r: Option<u64>)
    ensures
        r matches Some(v) ==> parse_u64_spec(s@) == Some(v as int),
        r is None ==> parse_u64_spec(s@) is None,
{
    let n = s.len();
    let start: usize = if n > 0 && s[0] == '+' { 1 } else { 0 };
    let ghost ds = if s@.len() > 0 && s@[0] == '+' { s@.drop_first() } else { s@ };
    assert(ds =~= s@.subrange(start as int, n as int));
    if start >= n {
        return None;
    }
    let mut value: u128 = 0;
    let mut i: usize = start;
    while i < n
        invariant
            start <= i <= n,
            n == s@.len(),
            ds == s@.subrange(start as int, n as int),
            ds == (if s@.len() > 0 && s@[0] == '+' { s@.drop_first() } else { s@ }),
            all_digits(ds.take(i - start)),
            value == digits_value(ds.take(i - start)),
            value <= u64::MAX,
        decreases n - i,
    {
        let c = s[i];
        if c < '0' || c > '9' {
            assert(ds[i - start] == c);
            return None;
        }
        let d = (c as u32 - 48) as u128;
        let ghost prev = ds.take(i - start);
        value = value * 10 + d;
        assert(ds.take(i + 1 - start).drop_last() =~= prev);
        assert(ds.take(i + 1 - start).last() == c);
        if value > 0xffff_ffff_ffff_ffff {
            proof {
                assert(all_digits(ds.take(i + 1 - start)));
                if all_digits(ds) {
                    lemma_digits_value_prefix(ds, i + 1 - start);
                }
            }
            return None;
        }
        i = i + 1;
    }
    assert(ds.take(n - start) =~= ds);
    Some(value as u64)
}

/// The pieces of `s` between occurrences of `sep` (what `str::split` with a
/// character yields); an empty `s` gives one empty piece.
pub open spec fn split_on(s: Seq<char>, sep: char) -> Seq<Seq<char>>
    decreases s.len(),
{
    if s.len() == 0 {
        seq![Seq::empty()]
    } else if s.last() == sep {
        split_on(s.drop_last(), sep).push(Seq::empty())
    } else {
        let p = split_on(s.drop_last(), sep);
        p.update(p.len() - 1, p.last().push(s.last()))
    }
}

/// The pieces of `s` between occurrences of `sep`.
pub fn split_chars(s: &Vec<char>, sep: char) -> (pieces: Vec<Vec<char>>)
    ensures
        pieces@.map_values(|p: Vec<char>| p@) == split_on(s@, sep),
{
    let mut pieces: Vec<Vec<char>> = Vec::new();
    let mut cur: Vec<char> = Vec::new();
    let mut i: usize = 0;
    while i < s.len()
        invariant
            i <= s@.len(),
            pieces@.map_values(|p: Vec<char>| p@).push(cur@) == split_on(s@.take(i as int), sep),
        decreases s@.len() - i,
    {
        let c = s[i];
        let ghost before = s@.take(i as int);
        assert(s@.take(i + 1).drop_last() =~= before);
        assert(s@.take(i + 1).last() == c);
        if c == sep {
            let done = cur;
            pieces.push(done);
            cur = Vec::new();
            assert(pieces@.map_values(|p: Vec<char>| p@) =~= split_on(before, sep));
        } else {
            let ghost old_cur = cur@;
            cur.push(c);
            assert(pieces@.map_values(|p: Vec<char>| p@).push(cur@) =~= split_on(before, sep).update(
                split_on(before, sep).len() - 1,
                old_cur.push(c),
            ));
        }
        i = i + 1;
    }
    assert(s@.take(s@.len() as int) =~= s@);
    pieces.push(cur);
    pieces
}

} // verus!
