//! Byte ranges of the template source, and the small scanning primitives that
//! every recognizer is built from.
use vstd::prelude::*;

verus! {

/// A half-open byte range `start..end` of the template source.
#[derive(Clone, Copy, Debug, PartialEq, Eq, Hash, Structural)]
pub struct Span {
    pub start: usize,
    pub end: usize,
}

impl Span {
    pub open spec fn sp(start: int, end: int) -> Span {
        Span { start: start as usize, end: end as usize }
    }
}

/// ASCII whitespace: space, tab, line feed, form feed, carriage return.
pub open spec fn is_ws(b: u8) -> bool {
    b == 32 || b == 9 || b == 10 || b == 12 || b == 13
}

/// Bytes that make up identifiers: ASCII letters and digits and `_ - : @`.
pub open spec fn is_ident_byte(b: u8) -> bool {
    (48 <= b <= 57) || (65 <= b <= 90) || (97 <= b <= 122) || b == 95 || b == 45 || b == 58
        || b == 64
}

/// `lit` occurs in `s` at position `p`.
pub open spec fn has_at(s: Seq<u8>, p: int, lit: Seq<u8>) -> bool {
    0 <= p && p + lit.len() <= s.len() && s.subrange(p, p + lit.len()) == lit
}

/// `s[p] == b`.
pub open spec fn byte_is(s: Seq<u8>, p: int, b: u8) -> bool {
    0 <= p < s.len() && s[p] == b
}

/// The first position at or after `p` that does not hold whitespace.
pub open spec fn skip_ws(s: Seq<u8>, p: int) -> int
    decreases s.len() - p,
{
    if 0 <= p < s.len() && is_ws(s[p]) {
        skip_ws(s, p + 1)
    } else {
        p
    }
}

/// The end of the run of identifier bytes that starts at `p`.
pub open spec fn ident_run_end(s: Seq<u8>, p: int) -> int
    decreases s.len() - p,
{
    if 0 <= p < s.len() && is_ident_byte(s[p]) {
        ident_run_end(s, p + 1)
    } else {
        p
    }
}

pub proof fn lemma_skip_ws(s: Seq<u8>, p: int)
    requires
        0 <= p <= s.len(),
    ensures
        p <= skip_ws(s, p) <= s.len(),
        skip_ws(s, p) < s.len() ==> !is_ws(s[skip_ws(s, p)]),
    decreases s.len() - p,
{
    if p < s.len() && is_ws(s[p]) {
        lemma_skip_ws(s, p + 1);
    }
}

pub proof fn lemma_ident_run_end(s: Seq<u8>, p: int)
    requires
        0 <= p <= s.len(),
    ensures
        p <= ident_run_end(s, p) <= s.len(),
    decreases s.len() - p,
{
    if p < s.len() && is_ident_byte(s[p]) {
        lemma_ident_run_end(s, p + 1);
    }
}

/// Does `lit` occur in `src` at `p`?
pub fn matches_at(src: &[u8], p: usize, lit: &[u8]) -> (r: bool)
    requires
        p <= src@.len(),
    ensures
        r == has_at(src@, p as int, lit@),
{
    let n = src.len();
    if lit.len() > n - p {
        return false;
    }
    let mut i: usize = 0;
    while i < lit.len()
        invariant
            n == src@.len(),
            i <= lit@.len(),
            p + lit@.len() <= src@.len(),
            forall|k: int| 0 <= k < i ==> src@[p + k] == lit@[k],
        decreases lit@.len() - i,
    {
        if src[p + i] != lit[i] {
            assert(src@.subrange(p as int, p + lit@.len())[i as int] != lit@[i as int]);
            return false;
        }
        i = i + 1;
    }
    assert(src@.subrange(p as int, p + lit@.len()) =~= lit@);
    true
}

/// Does `src[p]` hold `b`?
pub fn byte_at(src: &[u8], p: usize, b: u8) -> (r: bool)
    ensures
        r == byte_is(src@, p as int, b),
{
    p < src.len() && src[p] == b
}

pub fn is_ws_byte(b: u8) -> (r: bool)
    ensures
        r == is_ws(b),
{
    b == 32 || b == 9 || b == 10 || b == 12 || b == 13
}

pub fn is_ident_char(b: u8) -> (r: bool)
    ensures
        r == is_ident_byte(b),
{
    (48 <= b && b <= 57) || (65 <= b && b <= 90) || (97 <= b && b <= 122) || b == 95 || b == 45
        || b == 58 || b == 64
}

/// Skips the whitespace that starts at `p`.
pub fn ws(src: &[u8], p: usize) -> (r: usize)
    requires
        p <= src@.len(),
    ensures
        r == skip_ws(src@, p as int),
        p <= r <= src@.len(),
{
    let mut i = p;
    while i < src.len() && is_ws_byte(src[i])
        invariant
            p <= i <= src@.len(),
            skip_ws(src@, i as int) == skip_ws(src@, p as int),
        decreases src@.len() - i,
    {
        i = i + 1;
    }
    i
}

/// The end of the run of identifier bytes that starts at `p`.
pub fn ident_run(src: &[u8], p: usize) -> (r: usize)
    requires
        p <= src@.len(),
    ensures
        r == ident_run_end(src@, p as int),
        p <= r <= src@.len(),
{
    let mut i = p;
    while i < src.len() && is_ident_char(src[i])
        invariant
            p <= i <= src@.len(),
            ident_run_end(src@, i as int) == ident_run_end(src@, p as int),
        decreases src@.len() - i,
    {
        i = i + 1;
    }
    i
}

} // verus!

verus! {

/// Number of line feeds in `s[..n]`.
pub open spec fn newlines_before(s: Seq<u8>, n: int) -> int
    decreases n,
{
    if n <= 0 {
        0
    } else {
        newlines_before(s, n - 1) + if s[n - 1] == 10 {
            1int
        } else {
            0int
        }
    }
}

/// Start of the line that holds position `pos`.
pub open spec fn line_start_of(s: Seq<u8>, pos: int) -> int
    decreases pos,
{
    if pos <= 0 {
        0
    } else if s[pos - 1] == 10 {
        pos
    } else {
        line_start_of(s, pos - 1)
    }
}

/// End (before its line feed) of the line that holds position `pos`.
pub open spec fn line_end_of(s: Seq<u8>, pos: int) -> int
    decreases s.len() - pos,
{
    if pos < 0 || pos >= s.len() || s[pos] == 10 {
        pos
    } else {
        line_end_of(s, pos + 1)
    }
}

/// Where a position stands: 1-based line and byte column, and the bounds
/// of its line (without the line feed).
#[derive(Clone, Copy, Debug, PartialEq, Eq)]
pub struct Location {
    pub line: usize,
    pub column: usize,
    pub line_start: usize,
    pub line_end: usize,
}

/// The location of position `pos` of `src`.
pub fn location(src: &[u8], pos: usize) -> (r: Location)
    requires
        pos <= src@.len() < usize::MAX,
    ensures
        r.line == newlines_before(src@, pos as int) + 1,
        r.line_start == line_start_of(src@, pos as int),
        r.column == pos - r.line_start + 1,
        r.line_end == line_end_of(src@, pos as int),
        r.line_start <= pos <= r.line_end <= src@.len(),
{
    let len = src.len();
    let mut count: usize = 0;
    let mut i: usize = 0;
    while i < pos
        invariant
            i <= pos <= len,
            len == src@.len(),
            count <= i,
            count == newlines_before(src@, i as int),
        decreases pos - i,
    {
        if src[i] == 10 {
            count = count + 1;
        }
        i = i + 1;
    }
    let mut start = pos;
    while start > 0 && src[start - 1] != 10
        invariant
            start <= pos <= len,
            len == src@.len(),
            line_start_of(src@, start as int) == line_start_of(src@, pos as int),
        decreases start,
    {
        start = start - 1;
    }
    let mut end = pos;
    while end < len && src[end] != 10
        invariant
            pos <= end <= len,
            len == src@.len(),
            line_end_of(src@, end as int) == line_end_of(src@, pos as int),
        decreases len - end,
    {
        end = end + 1;
    }
    Location { line: count + 1, column: pos - start + 1, line_start: start, line_end: end }
}

} // verus!
