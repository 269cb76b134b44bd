//! Character-level text utilities: ASCII case folding, word-boundary
//! trimming and title tokenization.

use vstd::prelude::*;

verus! {

/// ASCII lower-casing of a single character; everything outside `A..=Z`
/// is left as it is.
pub open spec fn lower_char(c: char) -> char {
    if 'A' <= c && c <= 'Z' {
        ((c as u8) + 32) as char
    } else {
        c
    }
}

/// Case-insensitive (ASCII) equality of two character sequences.
pub open spec fn ci_equal(a: Seq<char>, b: Seq<char>) -> bool {
    a.len() == b.len() && (forall|i: int| 0 <= i < a.len() ==> lower_char(a[i]) == lower_char(b[i]))
}

/// Lower-cases one character, touching only `A..=Z`.
pub fn lower(c: char) -> (r: char)
    ensures
        r == lower_char(c),
{
    if 'A' <= c && c <= 'Z' {
        ((c as u8) + 32) as char
    } else {
        c
    }
}

/// Case-insensitive (ASCII) equality of two strings, matching what
/// `eq_ignore_ascii_case` decides.
pub fn eq_ignore_case(a: &str, b: &str) -> (r: bool)
    ensures
        r == ci_equal(a@, b@),
{
    let an = a.unicode_len();
    let bn = b.unicode_len();
    if an != bn {
        return false;
    }
    let mut i: usize = 0;
    while i < an
        invariant
            an == a@.len(),
            bn == b@.len(),
            an == bn,
            i <= an,
            forall|j: int| 0 <= j < i ==> lower_char(a@[j]) == lower_char(b@[j]),
        decreases an - i,
    {
        let ca = lower(a.get_char(i));
        let cb = lower(b.get_char(i));
        if ca != cb {
            return false;
        }
        i += 1;
    }
    true
}

/// Relies on `String::push`: appends exactly one character.
#[verifier::external_body]
pub(crate) fn push_char(s: &mut String, c: char)
    ensures
        final(s)@ == old(s)@.push(c),
{
    s.push(c);
}

/// Exact equality of two strings, character by character.
pub fn str_eq(a: &str, b: &str) -> (r: bool)
    ensures
        r == (a@ == b@),
{
    let an = a.unicode_len();
    let bn = b.unicode_len();
    if an != bn {
        return false;
    }
    let mut i: usize = 0;
    while i < an
        invariant
            an == a@.len(),
            bn == b@.len(),
            an == bn,
            i <= an,
            forall|j: int| 0 <= j < i ==> a@[j] == b@[j],
        decreases an - i,
    {
        if a.get_char(i) != b.get_char(i) {
            return false;
        }
        i += 1;
    }
    proof {
        assert(a@ =~= b@);
    }
    true
}

/// The bracket characters stripped from the front of a title token.
pub open spec fn is_open_bracket(c: char) -> bool {
    c == '(' || c == '[' || c == '{'
}

/// The punctuation characters stripped from the back of a title token.
pub open spec fn is_tail_punct(c: char) -> bool {
    c == ',' || c == '.' || c == '!' || c == '?' || c == '-' || c == ':' || c == '}' || c == ']'
        || c == ')'
}

/// The Unicode `White_Space` characters, as `char::is_whitespace` knows them.
pub open spec fn is_space_char(c: char) -> bool {
    c == ' ' || c == '\u{9}' || c == '\u{a}' || c == '\u{b}' || c == '\u{c}' || c == '\u{d}'
        || c == '\u{85}' || c == '\u{a0}' || c == '\u{1680}' || ('\u{2000}' <= c && c
        <= '\u{200a}') || c == '\u{2028}' || c == '\u{2029}' || c == '\u{202f}' || c == '\u{205f}'
        || c == '\u{3000}'
}

/// Drops the longest prefix whose characters all satisfy `p`.
pub open spec fn drop_leading(s: Seq<char>, p: spec_fn(char) -> bool) -> Seq<char>
    decreases s.len(),
{
    if s.len() > 0 && p(s[0]) {
        drop_leading(s.drop_first(), p)
    } else {
        s
    }
}

/// Drops the longest suffix whose characters all satisfy `p`.
pub open spec fn drop_trailing(s: Seq<char>, p: spec_fn(char) -> bool) -> Seq<char>
    decreases s.len(),
{
    if s.len() > 0 && p(s[s.len() - 1]) {
        drop_trailing(s.drop_last(), p)
    } else {
        s
    }
}

/// What trimming a title token leaves: leading brackets go first, then
/// trailing punctuation, then surrounding whitespace.
pub open spec fn trim_boundaries(s: Seq<char>) -> Seq<char> {
    let a = drop_leading(s, |c: char| is_open_bracket(c));
    let b = drop_trailing(a, |c: char| is_tail_punct(c));
    drop_trailing(drop_leading(b, |c: char| is_space_char(c)), |c: char| is_space_char(c))
}

/// Index of the first occurrence of `c` at or after position `k`, or the
/// length when none remains.
pub open spec fn first_index_of(s: Seq<char>, c: char, k: int) -> int
    decreases s.len() - k,
        when 0 <= k <= s.len()
{
    if k == s.len() {
        k
    } else if s[k] == c {
        k
    } else {
        first_index_of(s, c, k + 1)
    }
}

pub proof fn lemma_first_index_of(s: Seq<char>, c: char, k: int)
    requires
        0 <= k <= s.len(),
    ensures
        k <= first_index_of(s, c, k) <= s.len(),
        forall|i: int| k <= i < first_index_of(s, c, k) ==> s[i] != c,
        first_index_of(s, c, k) < s.len() ==> s[first_index_of(s, c, k)] == c,
    decreases s.len() - k,
{
    if k < s.len() && s[k] != c {
        lemma_first_index_of(s, c, k + 1);
    }
}

/// Index of the first space at or after position `k`.
pub open spec fn first_space_at(s: Seq<char>, k: int) -> int {
    first_index_of(s, ' ', k)
}

pub proof fn lemma_first_space_at(s: Seq<char>, k: int)
    requires
        0 <= k <= s.len(),
    ensures
        k <= first_space_at(s, k) <= s.len(),
        forall|i: int| k <= i < first_space_at(s, k) ==> s[i] != ' ',
        first_space_at(s, k) < s.len() ==> s[first_space_at(s, k)] == ' ',
{
    lemma_first_index_of(s, ' ', k);
}

/// The pieces of `s` from `start` on, cut at every single space, exactly
/// as splitting on the space character yields them (empty pieces kept).
pub open spec fn split_from(s: Seq<char>, start: int) -> Seq<Seq<char>>
    decreases s.len() - start,
        when 0 <= start <= s.len()
        via split_from_decreases
{
    let e = first_space_at(s, start);
    if e == s.len() {
        seq![s.subrange(start, e)]
    } else {
        seq![s.subrange(start, e)] + split_from(s, e + 1)
    }
}

#[via_fn]
proof fn split_from_decreases(s: Seq<char>, start: int) {
    if 0 <= start <= s.len() {
        lemma_first_space_at(s, start);
    }
}

pub proof fn lemma_drop_leading_subrange(s: Seq<char>, p: spec_fn(char) -> bool, j: int)
    requires
        0 <= j <= s.len(),
        forall|i: int| 0 <= i < j ==> p(s[i]),
        j < s.len() ==> !p(s[j]),
    ensures
        drop_leading(s, p) =~= s.subrange(j, s.len() as int),
    decreases j,
{
    if j == 0 {
        assert(drop_leading(s, p) =~= s.subrange(0, s.len() as int));
    } else {
        let t = s.drop_first();
        assert(forall|i: int| 0 <= i < j - 1 ==> p(t[i]));
        lemma_drop_leading_subrange(t, p, j - 1);
        assert(t.subrange(j - 1, t.len() as int) =~= s.subrange(j, s.len() as int));
    }
}

pub proof fn lemma_drop_trailing_subrange(s: Seq<char>, p: spec_fn(char) -> bool, j: int)
    requires
        0 <= j <= s.len(),
        forall|i: int| j <= i < s.len() ==> p(s[i]),
        j > 0 ==> !p(s[j - 1]),
    ensures
        drop_trailing(s, p) =~= s.subrange(0, j),
    decreases s.len() - j,
{
    if j == s.len() {
        assert(drop_trailing(s, p) =~= s.subrange(0, s.len() as int));
    } else {
        let t = s.drop_last();
        assert(forall|i: int| j <= i < t.len() ==> p(t[i]));
        lemma_drop_trailing_subrange(t, p, j);
        assert(t.subrange(0, j) =~= s.subrange(0, j));
    }
}

/// Tests a character for membership in the leading-bracket set.
fn open_bracket(c: char) -> (r: bool)
    ensures
        r == is_open_bracket(c),
{
    c == '(' || c == '[' || c == '{'
}

/// Tests a character for membership in the trailing-punctuation set.
fn tail_punct(c: char) -> (r: bool)
    ensures
        r == is_tail_punct(c),
{
    c == ',' || c == '.' || c == '!' || c == '?' || c == '-' || c == ':' || c == '}' || c == ']'
        || c == ')'
}

/// Tests a character for Unicode whitespace.
fn space_char(c: char) -> (r: bool)
    ensures
        r == is_space_char(c),
{
    c == ' ' || c == '\u{9}' || c == '\u{a}' || c == '\u{b}' || c == '\u{c}' || c == '\u{d}'
        || c == '\u{85}' || c == '\u{a0}' || c == '\u{1680}' || ('\u{2000}' <= c && c
        <= '\u{200a}') || c == '\u{2028}' || c == '\u{2029}' || c == '\u{202f}' || c == '\u{205f}'
        || c == '\u{3000}'
}

/// Strips leading brackets, trailing punctuation and surrounding
/// whitespace from one title token.
pub fn trim_word_boundaries(s: &str) -> (r: &str)
    ensures
        r@ == trim_boundaries(s@),
{
    let n = s.unicode_len();
    let mut lo: usize = 0;
    while lo < n && open_bracket(s.get_char(lo))
        invariant
            n == s@.len(),
            lo <= n,
            forall|i: int| 0 <= i < lo ==> is_open_bracket(s@[i]),
        decreases n - lo,
    {
        lo += 1;
    }
    let mut hi: usize = n;
    while hi > lo && tail_punct(s.get_char(hi - 1))
        invariant
            n == s@.len(),
            lo <= hi <= n,
            forall|i: int| hi <= i < n ==> is_tail_punct(s@[i]),
        decreases hi,
    {
        hi -= 1;
    }
    let ghost a = drop_leading(s@, |c: char| is_open_bracket(c));
    let ghost b = drop_trailing(a, |c: char| is_tail_punct(c));
    proof {
        lemma_drop_leading_subrange(s@, |c: char| is_open_bracket(c), lo as int);
        lemma_drop_trailing_subrange(a, |c: char| is_tail_punct(c), hi - lo);
        assert(b =~= s@.subrange(lo as int, hi as int));
    }
    let mut lo2: usize = lo;
    while lo2 < hi && space_char(s.get_char(lo2))
        invariant
            n == s@.len(),
            lo <= lo2 <= hi <= n,
            forall|i: int| lo <= i < lo2 ==> is_space_char(s@[i]),
        decreases hi - lo2,
    {
        lo2 += 1;
    }
    let ghost d = drop_leading(b, |c: char| is_space_char(c));
    proof {
        lemma_drop_leading_subrange(b, |c: char| is_space_char(c), lo2 - lo);
        assert(d =~= s@.subrange(lo2 as int, hi as int));
    }
    let mut hi2: usize = hi;
    while hi2 > lo2 && space_char(s.get_char(hi2 - 1))
        invariant
            n == s@.len(),
            lo2 <= hi2 <= hi <= n,
            forall|i: int| hi2 <= i < hi ==> is_space_char(s@[i]),
        decreases hi2,
    {
        hi2 -= 1;
    }
    proof {
        lemma_drop_trailing_subrange(d, |c: char| is_space_char(c), hi2 - lo2);
        assert(trim_boundaries(s@) =~= s@.subrange(lo2 as int, hi2 as int));
    }
    s.substring_char(lo2, hi2)
}

} // verus!
