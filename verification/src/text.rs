//! Text on the level of characters: what the lexer and the parser need to
//! take a string apart and to put a message together.

use vstd::prelude::*;
use vstd::std_specs::iter::IteratorSpec;

verus! {

/// White space: a character with the Unicode property `White_Space`. These
/// are the space, the controls from the tab to the carriage return, the
/// next line control, the no-break space, the ogham space mark, the spaces
/// of fixed width, the line and paragraph separators, the narrow no-break
/// space, the medium mathematical space and the ideographic space.
pub open spec fn is_whitespace(c: char) -> bool {
    c == ' ' || ('\u{9}' <= c && c <= '\u{d}') || c == '\u{85}' || c == '\u{a0}' || c
        == '\u{1680}' || ('\u{2000}' <= c && c <= '\u{200a}') || c == '\u{2028}' || c
        == '\u{2029}' || c == '\u{202f}' || c == '\u{205f}' || c == '\u{3000}'
}

/// Whether `c` is white space.
pub fn is_white_space(c: char) -> (b: bool)
    ensures
        b == is_whitespace(c),
{
    c == ' ' || ('\u{9}' <= c && c <= '\u{d}') || c == '\u{85}' || c == '\u{a0}' || c
        == '\u{1680}' || ('\u{2000}' <= c && c <= '\u{200a}') || c == '\u{2028}' || c
        == '\u{2029}' || c == '\u{202f}' || c == '\u{205f}' || c == '\u{3000}'
}

/// `String::push` is not proved here: it is taken to put `ch` behind the
/// characters that the string holds, as its documentation says.
pub assume_specification[ String::push ](s: &mut String, ch: char)
    ensures
        final(s)@ == old(s)@.push(ch),
;

/// The characters of `s`, in order.
pub fn chars_of(s: &str) -> (out: Vec<char>)
    ensures
        out@ == s@,
{
    let mut out: Vec<char> = Vec::new();
    for c in it: s.chars()
        invariant
            out@ == it.seq().take(it.index()),
            it.seq() == s@,
    {
        out.push(c);
    }
    out
}

/// The characters of `v` from index `from` up to, not including, index `to`,
/// as a string.
pub fn string_of(v: &Vec<char>, from: usize, to: usize) -> (s: String)
    requires
        from <= to <= v.len(),
    ensures
        s@ == v@.subrange(from as int, to as int),
{
    let mut s = String::new();
    let mut i: usize = from;
    while i < to
        invariant
            from <= i <= to <= v.len(),
            s@ == v@.subrange(from as int, i as int),
        decreases to - i,
    {
        s.push(v[i]);
        i += 1;
    }
    s
}

/// Whether `p` stands in `s` at index `i`.
pub open spec fn has_at(s: Seq<char>, i: int, p: Seq<char>) -> bool {
    0 <= i && i + p.len() <= s.len() && s.subrange(i, i + p.len()) == p
}

/// Two texts, one behind the other, stand at an index exactly where the
/// first stands there and the second stands behind it.
pub proof fn lemma_has_at_concat(s: Seq<char>, i: int, a: Seq<char>, b: Seq<char>)
    ensures
        has_at(s, i, a + b) <==> has_at(s, i, a) && has_at(s, i + a.len(), b),
{
    if has_at(s, i, a + b) {
        let both = s.subrange(i, i + (a + b).len());
        assert(s.subrange(i, i + a.len()) =~= both.subrange(0, a.len() as int));
        assert(both.subrange(0, a.len() as int) =~= a);
        assert(s.subrange(i + a.len(), i + a.len() + b.len()) =~= both.subrange(
            a.len() as int,
            (a + b).len() as int,
        ));
        assert(both.subrange(a.len() as int, (a + b).len() as int) =~= b);
    }
    if has_at(s, i, a) && has_at(s, i + a.len(), b) {
        assert(s.subrange(i, i + (a + b).len()) =~= s.subrange(i, i + a.len()) + s.subrange(
            i + a.len(),
            i + a.len() + b.len(),
        ));
    }
}

/// Where a text stands at an index, its characters stand behind the index
/// one by one.
pub proof fn lemma_has_at_index(s: Seq<char>, i: int, p: Seq<char>, k: int)
    requires
        has_at(s, i, p),
        0 <= k < p.len(),
    ensures
        i + k < s.len(),
        s[i + k] == p[k],
{
    assert(s.subrange(i, i + p.len())[k] == s[i + k]);
}

/// Whether `p` stands in `v` at index `i`.
pub fn has_prefix_at(v: &Vec<char>, i: usize, p: &Vec<char>) -> (b: bool)
    requires
        i <= v.len(),
    ensures
        b == has_at(v@, i as int, p@),
{
    if p.len() > v.len() - i {
        return false;
    }
    let mut k: usize = 0;
    while k < p.len()
        invariant
            i + p.len() <= v.len(),
            k <= p.len(),
            v@.subrange(i as int, i + k) == p@.take(k as int),
        decreases p.len() - k,
    {
        if v[i + k] != p[k] {
            assert(v@.subrange(i as int, i + p.len())[k as int] != p@[k as int]);
            return false;
        }
        assert(v@.subrange(i as int, i + k + 1) =~= v@.subrange(i as int, i + k).push(
            v@[i + k],
        ));
        assert(p@.take(k + 1) =~= p@.take(k as int).push(p@[k as int]));
        k += 1;
    }
    assert(p@.take(p.len() as int) =~= p@);
    true
}

/// Whether `a` and `b` hold the same characters.
pub fn same_chars(a: &Vec<char>, b: &Vec<char>) -> (same: bool)
    ensures
        same == (a@ == b@),
{
    if a.len() != b.len() {
        return false;
    }
    let same = has_prefix_at(a, 0, b);
    assert(a@.subrange(0, a.len() as int) =~= a@);
    same
}

/// The first index from `i` on at which `s` holds no white space, or the
/// length of `s`.
pub open spec fn skip_whitespace(s: Seq<char>, i: int) -> int
    decreases s.len() - i,
{
    if 0 <= i < s.len() && is_whitespace(s[i]) {
        skip_whitespace(s, i + 1)
    } else {
        i
    }
}

/// The first index from `i` on at which `p` does not stand in `s`, going
/// from one occurrence of `p` to the next.
pub open spec fn skip_repeated(s: Seq<char>, i: int, p: Seq<char>) -> int
    decreases s.len() - i,
{
    if p.len() > 0 && has_at(s, i, p) {
        skip_repeated(s, i + p.len(), p)
    } else {
        i
    }
}

/// The end of `s` from `lo` on without the white space that closes it: the
/// least index from `lo` on behind which `s` holds white space only.
pub open spec fn trimmed_end(s: Seq<char>, lo: int, hi: int) -> int
    decreases hi - lo,
{
    if lo < hi && hi <= s.len() && is_whitespace(s[hi - 1]) {
        trimmed_end(s, lo, hi - 1)
    } else {
        hi
    }
}

/// The first index from `i` on at which `v` holds no white space.
pub fn skip_whitespace_in(v: &Vec<char>, i: usize) -> (j: usize)
    requires
        i <= v.len(),
    ensures
        j == skip_whitespace(v@, i as int),
        i <= j <= v.len(),
{
    let mut j: usize = i;
    while j < v.len() && is_white_space(v[j])
        invariant
            i <= j <= v.len(),
            skip_whitespace(v@, j as int) == skip_whitespace(v@, i as int),
        decreases v.len() - j,
    {
        j += 1;
    }
    j
}

/// The first index from `i` on at which `p` does not stand in `v`, going
/// from one occurrence of `p` to the next.
pub fn skip_repeated_in(v: &Vec<char>, i: usize, p: &Vec<char>) -> (j: usize)
    requires
        i <= v.len(),
    ensures
        j == skip_repeated(v@, i as int, p@),
        i <= j <= v.len(),
{
    let mut j: usize = i;
    while p.len() > 0 && has_prefix_at(v, j, p)
        invariant
            i <= j <= v.len(),
            skip_repeated(v@, j as int, p@) == skip_repeated(v@, i as int, p@),
        decreases v.len() - j,
    {
        j += p.len();
    }
    j
}

/// The end of `v` from `lo` on without the white space that closes it.
pub fn trimmed_end_in(v: &Vec<char>, lo: usize, hi: usize) -> (j: usize)
    requires
        lo <= hi <= v.len(),
    ensures
        j == trimmed_end(v@, lo as int, hi as int),
        lo <= j <= hi,
{
    let mut j: usize = hi;
    while lo < j && is_white_space(v[j - 1])
        invariant
            lo <= j <= hi <= v.len(),
            trimmed_end(v@, lo as int, j as int) == trimmed_end(v@, lo as int, hi as int),
        decreases j - lo,
    {
        j -= 1;
    }
    j
}

/// The digit `d`, below ten, as a character.
pub open spec fn digit(d: nat) -> char
    recommends
        d < 10,
{
    ('0' as u8 + d) as char
}

/// The decimal numeral of `n`: no sign, no leading zero but for zero itself.
pub open spec fn decimal(n: nat) -> Seq<char>
    decreases n,
{
    if n < 10 {
        seq![digit(n)]
    } else {
        decimal(n / 10).push(digit(n % 10))
    }
}

fn digit_char(d: u8) -> (c: char)
    requires
        d < 10,
    ensures
        c == digit(d as nat),
{
    ('0' as u8 + d) as char
}

/// Puts the decimal numeral of `n` behind what `out` holds.
pub fn push_decimal(out: &mut String, n: usize)
    ensures
        final(out)@ == old(out)@ + decimal(n as nat),
    decreases n,
{
    if n >= 10 {
        push_decimal(out, n / 10);
    }
    out.push(digit_char((n % 10) as u8));
    assert(out@ =~= old(out)@ + decimal(n as nat));
}

} // verus!
