//! Character-level helpers shared by the other modules.

use vstd::prelude::*;

verus! {

/// `String::push` appends one character to the end of the string.
pub assume_specification[ String::push ](s: &mut String, ch: char)
    ensures
        final(s)@ == old(s)@.push(ch),
;

/// The characters of `s`, in order.
pub fn chars_of(s: &str) -> (out: Vec<char>)
    ensures
        out@ == s@,
{
    let mut out: Vec<char> = Vec::new();
    for c in it: s.chars()
        invariant
            out@ == it.seq().take(it.index() as int),
            it.seq() == s@,
    {
        out.push(c);
    }
    out
}

/// A string holding exactly the characters of `v`.
pub fn string_of(v: &[char]) -> (out: String)
    ensures
        out@ == v@,
{
    let mut out = String::new();
    for i in 0..v.len()
        invariant
            out@ == v@.take(i as int),
    {
        out.push(v[i]);
        assert(v@.take(i + 1) == v@.take(i as int).push(v@[i as int]));
    }
    assert(v@.take(v@.len() as int) == v@);
    out
}


/// Unicode `White_Space`, the set that `char::is_whitespace` and the
/// trimming methods of `str` use.
pub open spec fn is_whitespace(c: char) -> bool {
    ||| ('\t' <= c && c <= '\r')
    ||| c == ' '
    ||| c == '\u{85}'
    ||| c == '\u{a0}'
    ||| c == '\u{1680}'
    ||| ('\u{2000}' <= c && c <= '\u{200a}')
    ||| c == '\u{2028}'
    ||| c == '\u{2029}'
    ||| c == '\u{202f}'
    ||| c == '\u{205f}'
    ||| c == '\u{3000}'
}

pub fn is_whitespace_char(c: char) -> (r: bool)
    ensures
        r == is_whitespace(c),
{
    ('\t' <= c && c <= '\r') || c == ' ' || c == '\u{85}' || c == '\u{a0}' || c == '\u{1680}'
        || ('\u{2000}' <= c && c <= '\u{200a}') || c == '\u{2028}' || c == '\u{2029}'
        || c == '\u{202f}' || c == '\u{205f}' || c == '\u{3000}'
}


/// The characters that a trim removes: white space, or double quotes.
pub open spec fn trimmed_away(c: char, quotes: bool) -> bool {
    if quotes {
        c == '"'
    } else {
        is_whitespace(c)
    }
}

/// `s` without the trimmed characters at its end.
pub open spec fn trim_end_of(s: Seq<char>, quotes: bool) -> Seq<char>
    decreases s.len(),
{
    if s.len() > 0 && trimmed_away(s.last(), quotes) {
        trim_end_of(s.drop_last(), quotes)
    } else {
        s
    }
}

/// `s` without the trimmed characters at its start.
pub open spec fn trim_start_of(s: Seq<char>, quotes: bool) -> Seq<char>
    decreases s.len(),
{
    if s.len() > 0 && trimmed_away(s[0], quotes) {
        trim_start_of(s.drop_first(), quotes)
    } else {
        s
    }
}

/// `s` without the trimmed characters at either end.
pub open spec fn trim_of(s: Seq<char>, quotes: bool) -> Seq<char> {
    trim_start_of(trim_end_of(s, quotes), quotes)
}

/// `str::trim_end`: `s` without trailing white space.
pub open spec fn trim_end(s: Seq<char>) -> Seq<char> {
    trim_end_of(s, false)
}

/// `str::trim`: `s` without white space at either end.
pub open spec fn trim(s: Seq<char>) -> Seq<char> {
    trim_of(s, false)
}

/// The index of the last `c` in `s`.
pub open spec fn last_index_of(s: Seq<char>, c: char) -> Option<int>
    decreases s.len(),
{
    if s.len() == 0 {
        None
    } else if s.last() == c {
        Some(s.len() - 1)
    } else {
        last_index_of(s.drop_last(), c)
    }
}

pub proof fn lemma_last_index_of(s: Seq<char>, c: char)
    ensures
        last_index_of(s, c) matches Some(i) ==> 0 <= i < s.len() && s[i] == c,
        last_index_of(s, c) is None <==> !s.contains(c),
    decreases s.len(),
{
    if s.len() > 0 {
        lemma_last_index_of(s.drop_last(), c);
        if s.last() != c {
            if s.contains(c) {
                let i = choose|i: int| 0 <= i < s.len() && s[i] == c;
                assert(s.drop_last()[i] == c);
            }
            if s.drop_last().contains(c) {
                let i = choose|i: int| 0 <= i < s.drop_last().len() && s.drop_last()[i] == c;
                assert(s[i] == c);
            }
        }
    }
}

fn trims(c: char, quotes: bool) -> (r: bool)
    ensures
        r == trimmed_away(c, quotes),
{
    if quotes {
        c == '"'
    } else {
        is_whitespace_char(c)
    }
}

/// The characters of `v` from index `lo` up to `hi`.
pub fn slice_chars(v: &[char], lo: usize, hi: usize) -> (out: Vec<char>)
    requires
        lo <= hi <= v@.len(),
    ensures
        out@ == v@.subrange(lo as int, hi as int),
{
    let mut out: Vec<char> = Vec::new();
    let mut i = lo;
    while i < hi
        invariant
            lo <= i <= hi <= v@.len(),
            out@ == v@.subrange(lo as int, i as int),
        decreases hi - i,
    {
        out.push(v[i]);
        assert(v@.subrange(lo as int, i + 1) == v@.subrange(lo as int, i as int).push(v@[i as int]));
        i = i + 1;
    }
    out
}

/// `v` without the trimmed characters at either end.
pub fn trim_chars(v: &[char], quotes: bool) -> (out: Vec<char>)
    ensures
        out@ == trim_of(v@, quotes),
{
    let mut hi = v.len();
    assert(v@.take(hi as int) == v@);
    while hi > 0 && trims(v[hi - 1], quotes)
        invariant
            hi <= v@.len(),
            trim_end_of(v@, quotes) == trim_end_of(v@.take(hi as int), quotes),
        decreases hi,
    {
        assert(v@.take(hi as int).drop_last() == v@.take(hi - 1));
        hi = hi - 1;
    }
    let ghost e = v@.take(hi as int);
    assert(trim_end_of(e, quotes) == e);
    let mut lo: usize = 0;
    assert(e.skip(0) == e);
    while lo < hi && trims(v[lo], quotes)
        invariant
            lo <= hi <= v@.len(),
            e == v@.take(hi as int),
            trim_start_of(e, quotes) == trim_start_of(e.skip(lo as int), quotes),
        decreases hi - lo,
    {
        assert(e.skip(lo as int).drop_first() == e.skip(lo + 1));
        assert(e.skip(lo as int)[0] == v@[lo as int]);
        lo = lo + 1;
    }
    if lo < hi {
        assert(e.skip(lo as int)[0] == v@[lo as int]);
    }
    assert(trim_start_of(e.skip(lo as int), quotes) == e.skip(lo as int));
    assert(e.skip(lo as int) == v@.subrange(lo as int, hi as int));
    slice_chars(v, lo, hi)
}

/// Whether `v` holds `c`.
pub fn contains_char(v: &[char], c: char) -> (r: bool)
    ensures
        r == v@.contains(c),
{
    for i in 0..v.len()
        invariant
            forall|j: int| 0 <= j < i ==> v@[j] != c,
    {
        if v[i] == c {
            assert(v@[i as int] == c);
            return true;
        }
    }
    false
}

/// The index of the last `c` in `v`.
pub fn rfind_char(v: &[char], c: char) -> (r: Option<usize>)
    ensures
        r matches Some(i) ==> last_index_of(v@, c) == Some(i as int),
        r is None ==> last_index_of(v@, c) is None,
{
    let mut j = v.len();
    assert(v@.take(j as int) == v@);
    while j > 0
        invariant
            j <= v@.len(),
            last_index_of(v@, c) == last_index_of(v@.take(j as int), c),
        decreases j,
    {
        assert(v@.take(j as int).last() == v@[j - 1]);
        if v[j - 1] == c {
            return Some(j - 1);
        }
        assert(v@.take(j as int).drop_last() == v@.take(j - 1));
        j = j - 1;
    }
    None
}


/// The decimal digit for `d < 10`.
pub open spec fn digit_char(d: nat) -> char {
    ((48 + d) as u8) as char
}

/// The decimal representation of `n`, without leading zeros.
pub open spec fn decimal(n: nat) -> Seq<char>
    decreases n,
{
    if n < 10 {
        seq![digit_char(n)]
    } else {
        decimal(n / 10).push(digit_char(n % 10))
    }
}

/// Appends the decimal representation of `n` to `out`.
pub fn push_decimal(out: &mut Vec<char>, n: u64)
    ensures
        final(out)@ == old(out)@ + decimal(n as nat),
    decreases n,
{
    if n >= 10 {
        push_decimal(out, n / 10);
    }
    let d: u8 = (n % 10) as u8;
    out.push((48u8 + d) as char);
    proof {
        if n >= 10 {
            assert(decimal(n as nat) == decimal((n / 10) as nat).push(digit_char((n % 10) as nat)));
        }
    }
}

/// Appends the characters of `s` to `out`.
pub fn push_str(out: &mut Vec<char>, s: &str)
    ensures
        final(out)@ == old(out)@ + s@,
{
    let mut cs = chars_of(s);
    out.append(&mut cs);
}

} // verus!
