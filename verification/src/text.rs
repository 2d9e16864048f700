//! Lines of text as sequences of characters, and what it means to trim them.

use vstd::prelude::*;

verus! {

/// White space as Unicode defines it.
pub open spec fn is_space(c: char) -> bool {
    let u = c as u32;
    ||| 0x09 <= u <= 0x0d
    ||| u == 0x20
    ||| u == 0x85
    ||| u == 0xa0
    ||| u == 0x1680
    ||| 0x2000 <= u <= 0x200a
    ||| u == 0x2028
    ||| u == 0x2029
    ||| u == 0x202f
    ||| u == 0x205f
    ||| u == 0x3000
}

/// What is left of the first `n` characters of `s` when white space is taken
/// from their end: its length.
pub open spec fn kept_len(s: Seq<char>, n: int) -> int
    decreases n,
{
    if 0 < n <= s.len() && is_space(s[n - 1]) {
        kept_len(s, n - 1)
    } else {
        n
    }
}

/// The first place from `i` on that holds no white space, or the length of
/// `s` if there is none.
pub open spec fn skipped_len(s: Seq<char>, i: int) -> int
    decreases s.len() - i,
{
    if 0 <= i < s.len() && is_space(s[i]) {
        skipped_len(s, i + 1)
    } else {
        i
    }
}

/// `s` without the white space at its end.
pub open spec fn trim_end(s: Seq<char>) -> Seq<char> {
    s.take(kept_len(s, s.len() as int))
}

/// `s` without the white space at its start and at its end.
pub open spec fn trim(s: Seq<char>) -> Seq<char> {
    trim_end(s.skip(skipped_len(s, 0)))
}

/// Whether `c` is white space.
pub fn is_whitespace(c: char) -> (b: bool)
    ensures
        b == is_space(c),
{
    let u = c as u32;
    (0x09 <= u && u <= 0x0d) || u == 0x20 || u == 0x85 || u == 0xa0 || u == 0x1680 || (0x2000 <= u
        && u <= 0x200a) || u == 0x2028 || u == 0x2029 || u == 0x202f || u == 0x205f || u == 0x3000
}

/// The characters of a string.
pub fn chars_of(s: &str) -> (v: Vec<char>)
    ensures
        v@ == s@,
{
    broadcast use vstd::string::axiom_spec_iter;

    let mut v: Vec<char> = Vec::new();
    for c in it: s.chars()
        invariant
            it.seq() == s@,
            v@ == s@.take(it.index()),
    {
        v.push(c);
        assert(s@.take(it.index() + 1) =~= s@.take(it.index()).push(c));
    }
    assert(v@ =~= s@);
    v
}

/// How many of the characters of `text` are left when white space is taken
/// from the end.
pub fn trimmed_len(text: &Vec<char>) -> (n: usize)
    ensures
        n == kept_len(text@, text@.len() as int),
        n <= text.len(),
{
    let mut n = text.len();
    while n > 0 && is_whitespace(text[n - 1])
        invariant
            n <= text.len(),
            kept_len(text@, n as int) == kept_len(text@, text@.len() as int),
        decreases n,
    {
        n -= 1;
    }
    n
}

/// The characters of `text` from place `lo` up to place `hi`.
pub fn copy_range(text: &Vec<char>, lo: usize, hi: usize) -> (v: Vec<char>)
    requires
        lo <= hi <= text.len(),
    ensures
        v@ == text@.subrange(lo as int, hi as int),
{
    let mut v: Vec<char> = Vec::new();
    let mut i = lo;
    while i < hi
        invariant
            lo <= i <= hi <= text.len(),
            v@ == text@.subrange(lo as int, i as int),
        decreases hi - i,
    {
        v.push(text[i]);
        assert(text@.subrange(lo as int, i + 1) =~= text@.subrange(lo as int, i as int).push(
            text@[i as int],
        ));
        i += 1;
    }
    v
}

/// `text` without the white space at its start and at its end.
pub fn trimmed(text: &Vec<char>) -> (v: Vec<char>)
    ensures
        v@ == trim(text@),
{
    let mut lo: usize = 0;
    while lo < text.len() && is_whitespace(text[lo])
        invariant
            lo <= text.len(),
            skipped_len(text@, lo as int) == skipped_len(text@, 0),
        decreases text.len() - lo,
    {
        lo += 1;
    }
    let ghost rest = text@.skip(lo as int);
    let mut hi = text.len();
    while hi > lo && is_whitespace(text[hi - 1])
        invariant
            lo <= hi <= text.len(),
            rest == text@.skip(lo as int),
            kept_len(rest, hi - lo) == kept_len(rest, rest.len() as int),
        decreases hi,
    {
        assert(rest[hi - lo - 1] == text@[hi - 1]);
        hi -= 1;
    }
    proof {
        if hi > lo {
            assert(rest[hi - lo - 1] == text@[hi - 1]);
        }
        assert(rest.take(hi - lo) =~= text@.subrange(lo as int, hi as int));
    }
    copy_range(text, lo, hi)
}

} // verus!
