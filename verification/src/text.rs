//! Character-level text primitives shared by every parser and renderer in the crate.
//!
//! Strings are processed as sequences of `char`s: `String`/`&str` values are turned into a
//! `Vec<char>` once, scanned with verified loops, and turned back into a `String` at the end.
//! Every primitive here is specified over `Seq<char>` so that callers' contracts can speak of
//! trimming, line splitting and substitution directly.

use vstd::prelude::*;

verus! {

// ---------------------------------------------------------------------------------------------
// Conversions between `str` and `Vec<char>`.
// ---------------------------------------------------------------------------------------------

/// The characters of `s`, in order (`str::chars` collected into a vector).
#[verifier::external_body]
pub(crate) fn chars_of(s: &str) -> (r: Vec<char>)
    ensures
        r@ == s@,
{
    s.chars().collect()
}

/// A `String` holding exactly the characters of `v` (collected from `v`'s iterator).
#[verifier::external_body]
pub(crate) fn string_from(v: &Vec<char>) -> (r: String)
    ensures
        r@ == v@,
{
    v.iter().collect()
}

// ---------------------------------------------------------------------------------------------
// Character classes.
// ---------------------------------------------------------------------------------------------

/// Unicode `White_Space` (the set `char::is_whitespace` accepts).
pub open spec fn is_ws(c: char) -> bool {
    ||| c == ' '
    ||| c == '\t'
    ||| c == '\n'
    ||| c == '\u{0B}'
    ||| c == '\u{0C}'
    ||| c == '\r'
    ||| c == '\u{85}'
    ||| c == '\u{A0}'
    ||| c == '\u{1680}'
    ||| ('\u{2000}' <= c && c <= '\u{200A}')
    ||| c == '\u{2028}'
    ||| c == '\u{2029}'
    ||| c == '\u{202F}'
    ||| c == '\u{205F}'
    ||| c == '\u{3000}'
}

/// Whether `c` is Unicode whitespace.
pub fn is_whitespace(c: char) -> (r: bool)
    ensures
        r == is_ws(c),
{
    c == ' ' || c == '\t' || c == '\n' || c == '\u{0B}' || c == '\u{0C}' || c == '\r' || c
        == '\u{85}' || c == '\u{A0}' || c == '\u{1680}' || ('\u{2000}' <= c && c <= '\u{200A}')
        || c == '\u{2028}' || c == '\u{2029}' || c == '\u{202F}' || c == '\u{205F}' || c
        == '\u{3000}'
}

pub open spec fn is_ascii_upper(c: char) -> bool {
    'A' <= c && c <= 'Z'
}

pub open spec fn is_ascii_lower(c: char) -> bool {
    'a' <= c && c <= 'z'
}

pub open spec fn is_ascii_digit(c: char) -> bool {
    '0' <= c && c <= '9'
}

pub open spec fn is_ascii_alpha(c: char) -> bool {
    is_ascii_upper(c) || is_ascii_lower(c)
}

pub open spec fn is_ascii_alnum(c: char) -> bool {
    is_ascii_alpha(c) || is_ascii_digit(c)
}

/// ASCII lower-casing of one character (non-ASCII-uppercase characters are unchanged).
pub open spec fn lower_ascii(c: char) -> char {
    if is_ascii_upper(c) {
        ((c as u32) + 32) as char
    } else {
        c
    }
}

/// Case-insensitive (ASCII) equality of two character sequences.
pub open spec fn eq_ci(a: Seq<char>, b: Seq<char>) -> bool {
    a.len() == b.len() && forall|i: int| 0 <= i < a.len() ==> lower_ascii(a[i]) == lower_ascii(b[i])
}

/// ASCII lower-case of one character.
pub fn to_lower_ascii(c: char) -> (r: char)
    ensures
        r == lower_ascii(c),
{
    if 'A' <= c && c <= 'Z' {
        let n: u32 = (c as u32) + 32;
        assert(0x61 <= n <= 0x7a);
        // The shifted value is an ASCII lower-case letter, hence a valid char.
        char_from_ascii(n)
    } else {
        c
    }
}

/// The ASCII character with code `n` (`n < 128`).
fn char_from_ascii(n: u32) -> (r: char)
    requires
        n < 128,
    ensures
        r == n as char,
{
    (n as u8) as char
}

/// ASCII case-insensitive equality (`str::eq_ignore_ascii_case`).
pub fn eq_ignore_case(a: &Vec<char>, b: &Vec<char>) -> (r: bool)
    ensures
        r == eq_ci(a@, b@),
{
    if a.len() != b.len() {
        return false;
    }
    let mut i: usize = 0;
    while i < a.len()
        invariant
            a@.len() == b@.len(),
            i <= a@.len(),
            forall|j: int| 0 <= j < i ==> lower_ascii(a@[j]) == lower_ascii(b@[j]),
        decreases a.len() - i,
    {
        if to_lower_ascii(a[i]) != to_lower_ascii(b[i]) {
            return false;
        }
        i += 1;
    }
    true
}

/// Exact equality of two character vectors.
pub fn chars_eq(a: &Vec<char>, b: &Vec<char>) -> (r: bool)
    ensures
        r == (a@ == b@),
{
    if a.len() != b.len() {
        return false;
    }
    let mut i: usize = 0;
    while i < a.len()
        invariant
            a@.len() == b@.len(),
            i <= a@.len(),
            forall|j: int| 0 <= j < i ==> a@[j] == b@[j],
        decreases a.len() - i,
    {
        if a[i] != b[i] {
            return false;
        }
        i += 1;
    }
    assert(a@ =~= b@);
    true
}

/// Exact equality of two strings.
pub fn str_eq(a: &str, b: &str) -> (r: bool)
    ensures
        r == (a@ == b@),
{
    let x = chars_of(a);
    let y = chars_of(b);
    chars_eq(&x, &y)
}

// ---------------------------------------------------------------------------------------------
// Trimming.
// ---------------------------------------------------------------------------------------------

/// `s` without leading whitespace.
pub open spec fn trim_start(s: Seq<char>) -> Seq<char>
    decreases s.len(),
{
    if s.len() > 0 && is_ws(s[0]) {
        trim_start(s.drop_first())
    } else {
        s
    }
}

/// `s` without trailing whitespace.
pub open spec fn trim_end(s: Seq<char>) -> Seq<char>
    decreases s.len(),
{
    if s.len() > 0 && is_ws(s.last()) {
        trim_end(s.drop_last())
    } else {
        s
    }
}

/// `s` without leading or trailing whitespace (`str::trim`).
pub open spec fn trim(s: Seq<char>) -> Seq<char> {
    trim_end(trim_start(s))
}

/// The number of leading whitespace characters of `s`.
pub open spec fn ws_prefix_len(s: Seq<char>) -> nat
    decreases s.len(),
{
    if s.len() > 0 && is_ws(s[0]) {
        1 + ws_prefix_len(s.drop_first())
    } else {
        0
    }
}

pub proof fn lemma_trim_start_skip(s: Seq<char>)
    ensures
        ws_prefix_len(s) <= s.len(),
        trim_start(s) == s.skip(ws_prefix_len(s) as int),
    decreases s.len(),
{
    if s.len() > 0 && is_ws(s[0]) {
        lemma_trim_start_skip(s.drop_first());
        assert(s.drop_first().skip(ws_prefix_len(s.drop_first()) as int) =~= s.skip(
            ws_prefix_len(s) as int,
        ));
    } else {
        assert(s.skip(0) =~= s);
    }
}

/// The bounds of `trim(s[lo..hi])` within `s`.
pub fn trim_bounds(s: &Vec<char>, lo: usize, hi: usize) -> (r: (usize, usize))
    requires
        lo <= hi <= s@.len(),
    ensures
        lo <= r.0 <= r.1 <= hi,
        s@.subrange(r.0 as int, r.1 as int) == trim(s@.subrange(lo as int, hi as int)),
        s@.subrange(r.0 as int, hi as int) == trim_start(s@.subrange(lo as int, hi as int)),
        r.0 - lo == ws_prefix_len(s@.subrange(lo as int, hi as int)),
{
    let a = trim_start_at(s, lo, hi);
    let mut b = hi;
    while b > a && is_whitespace(s[b - 1])
        invariant
            lo <= a <= b <= hi <= s@.len(),
            trim_end(s@.subrange(a as int, hi as int)) == trim_end(s@.subrange(a as int, b as int)),
        decreases b,
    {
        assert(s@.subrange(a as int, b as int).drop_last() =~= s@.subrange(a as int, b - 1));
        b -= 1;
    }
    (a, b)
}

/// The index of the first non-whitespace character of `s[lo..hi]` (or `hi`).
pub fn trim_start_at(s: &Vec<char>, lo: usize, hi: usize) -> (a: usize)
    requires
        lo <= hi <= s@.len(),
    ensures
        lo <= a <= hi,
        s@.subrange(a as int, hi as int) == trim_start(s@.subrange(lo as int, hi as int)),
        a - lo == ws_prefix_len(s@.subrange(lo as int, hi as int)),
        forall|k: int| lo <= k < a ==> is_ws(#[trigger] s@[k]),
        a < hi ==> !is_ws(s@[a as int]),
{
    let mut a = lo;
    while a < hi && is_whitespace(s[a])
        invariant
            lo <= a <= hi <= s@.len(),
            trim_start(s@.subrange(lo as int, hi as int)) == trim_start(
                s@.subrange(a as int, hi as int),
            ),
            ws_prefix_len(s@.subrange(lo as int, hi as int)) == (a - lo) + ws_prefix_len(
                s@.subrange(a as int, hi as int),
            ),
            forall|k: int| lo <= k < a ==> is_ws(#[trigger] s@[k]),
        decreases hi - a,
    {
        assert(s@.subrange(a as int, hi as int).drop_first() =~= s@.subrange(a + 1, hi as int));
        a += 1;
    }
    a
}

/// A copy of `s[lo..hi]`.
pub fn copy_range(s: &Vec<char>, lo: usize, hi: usize) -> (r: Vec<char>)
    requires
        lo <= hi <= s@.len(),
    ensures
        r@ == s@.subrange(lo as int, hi as int),
{
    let mut r: Vec<char> = Vec::new();
    let mut i = lo;
    while i < hi
        invariant
            lo <= i <= hi <= s@.len(),
            r@ == s@.subrange(lo as int, i as int),
        decreases hi - i,
    {
        r.push(s[i]);
        assert(r@ =~= s@.subrange(lo as int, i + 1));
        i += 1;
    }
    r
}

/// Append `s[lo..hi]` to `out`.
pub fn push_range(out: &mut Vec<char>, s: &Vec<char>, lo: usize, hi: usize)
    requires
        lo <= hi <= s@.len(),
    ensures
        final(out)@ == old(out)@ + s@.subrange(lo as int, hi as int),
{
    let ghost start = out@;
    let mut i = lo;
    while i < hi
        invariant
            lo <= i <= hi <= s@.len(),
            out@ == start + s@.subrange(lo as int, i as int),
        decreases hi - i,
    {
        out.push(s[i]);
        assert(out@ =~= start + s@.subrange(lo as int, i + 1));
        i += 1;
    }
}

/// Append all of `s` to `out`.
pub fn push_all(out: &mut Vec<char>, s: &Vec<char>)
    ensures
        final(out)@ == old(out)@ + s@,
{
    push_range(out, s, 0, s.len());
    assert(s@.subrange(0, s@.len() as int) =~= s@);
}

/// Append the characters of `s` to `out`.
pub fn push_str(out: &mut Vec<char>, s: &str)
    ensures
        final(out)@ == old(out)@ + s@,
{
    let v = chars_of(s);
    push_all(out, &v);
}

// ---------------------------------------------------------------------------------------------
// Prefixes and searching.
// ---------------------------------------------------------------------------------------------

/// Whether `s` begins with `p`.
pub open spec fn starts_with(s: Seq<char>, p: Seq<char>) -> bool {
    p.len() <= s.len() && s.take(p.len() as int) == p
}

/// Whether `s[i..]` begins with `p`.
pub open spec fn starts_with_at(s: Seq<char>, i: int, p: Seq<char>) -> bool {
    0 <= i && i + p.len() <= s.len() && s.subrange(i, i + p.len()) == p
}

/// Whether `s[i..hi]` begins with `p`.
pub fn has_prefix_at(s: &Vec<char>, i: usize, hi: usize, p: &Vec<char>) -> (r: bool)
    requires
        i <= hi <= s@.len(),
    ensures
        r == (i + p@.len() <= hi && starts_with_at(s@, i as int, p@)),
        r == starts_with(s@.subrange(i as int, hi as int), p@),
{
    if p.len() > hi - i {
        return false;
    }
    let mut k: usize = 0;
    while k < p.len()
        invariant
            i + p@.len() <= hi <= s@.len(),
            k <= p@.len(),
            forall|j: int| 0 <= j < k ==> s@[i + j] == p@[j],
        decreases p.len() - k,
    {
        if s[i + k] != p[k] {
            assert(s@.subrange(i as int, hi as int).take(p@.len() as int)[k as int] != p@[k as int]);
            return false;
        }
        k += 1;
    }
    assert(s@.subrange(i as int, i + p@.len()) =~= p@);
    assert(s@.subrange(i as int, hi as int).take(p@.len() as int) =~= p@);
    true
}

/// Whether `s` begins with the characters of the literal `p`.
pub fn has_prefix_str(s: &Vec<char>, i: usize, hi: usize, p: &str) -> (r: bool)
    requires
        i <= hi <= s@.len(),
    ensures
        r == (i + p@.len() <= hi && starts_with_at(s@, i as int, p@)),
        r == starts_with(s@.subrange(i as int, hi as int), p@),
{
    let pv = chars_of(p);
    has_prefix_at(s, i, hi, &pv)
}

/// Whether `c` occurs in `s`.
pub fn contains_char(s: &Vec<char>, c: char) -> (r: bool)
    ensures
        r == s@.contains(c),
{
    let mut i: usize = 0;
    while i < s.len()
        invariant
            i <= s@.len(),
            forall|j: int| 0 <= j < i ==> s@[j] != c,
        decreases s.len() - i,
    {
        if s[i] == c {
            return true;
        }
        i += 1;
    }
    false
}

/// The index of the first occurrence of `c` in `s[i..]`, or `s.len()`.
pub open spec fn find_char_from(s: Seq<char>, c: char, i: int) -> int
    decreases s.len() - i,
{
    if i < 0 || i >= s.len() {
        s.len() as int
    } else if s[i] == c {
        i
    } else {
        find_char_from(s, c, i + 1)
    }
}

pub proof fn lemma_find_char_from(s: Seq<char>, c: char, i: int)
    requires
        0 <= i <= s.len(),
    ensures
        i <= find_char_from(s, c, i) <= s.len(),
        forall|k: int| i <= k < find_char_from(s, c, i) ==> s[k] != c,
        find_char_from(s, c, i) < s.len() ==> s[find_char_from(s, c, i)] == c,
    decreases s.len() - i,
{
    if i < s.len() && s[i] != c {
        lemma_find_char_from(s, c, i + 1);
    }
}

/// The index of the first `c` in `s[i..hi]`, or `hi`.
pub fn find_char(s: &Vec<char>, c: char, i: usize, hi: usize) -> (r: usize)
    requires
        i <= hi <= s@.len(),
    ensures
        i <= r <= hi,
        forall|k: int| i <= k < r ==> s@[k] != c,
        r < hi ==> s@[r as int] == c,
        hi == s@.len() ==> r == find_char_from(s@, c, i as int),
{
    let mut k = i;
    while k < hi
        invariant
            i <= k <= hi <= s@.len(),
            forall|j: int| i <= j < k ==> s@[j] != c,
            hi == s@.len() ==> find_char_from(s@, c, i as int) == find_char_from(s@, c, k as int),
        decreases hi - k,
    {
        if s[k] == c {
            return k;
        }
        k += 1;
    }
    k
}

// ---------------------------------------------------------------------------------------------
// Lines.
// ---------------------------------------------------------------------------------------------

/// The end of the line starting at `i`, without its `\n` (or `\r\n`) terminator.
pub open spec fn line_content_end(s: Seq<char>, i: int) -> int {
    let e = find_char_from(s, '\n', i);
    if e < s.len() && e > i && s[e - 1] == '\r' {
        e - 1
    } else {
        e
    }
}

/// The `[start, end)` spans of the lines of `s[i..]`, as `str::lines` yields them: split at
/// `\n`, a `\r` just before a `\n` dropped, and no empty line after a final `\n`.
pub open spec fn line_spans(s: Seq<char>, i: int) -> Seq<(int, int)>
    decreases s.len() + 1 - i,
    via line_spans_decreases
{
    if i < 0 || i >= s.len() {
        seq![]
    } else {
        seq![(i, line_content_end(s, i))] + line_spans(s, find_char_from(s, '\n', i) + 1)
    }
}

#[via_fn]
proof fn line_spans_decreases(s: Seq<char>, i: int) {
    if 0 <= i < s.len() {
        lemma_find_char_from(s, '\n', i);
    }
}

/// The lines of `s` (`str::lines`).
pub open spec fn lines(s: Seq<char>) -> Seq<Seq<char>> {
    line_spans(s, 0).map_values(|p: (int, int)| s.subrange(p.0, p.1))
}

/// The line starting at `i` (`i < s.len()`): its content end and the start of the next line.
pub fn next_line(s: &Vec<char>, i: usize) -> (r: (usize, usize))
    requires
        i < s@.len(),
    ensures
        i <= r.0 <= r.1 <= s@.len(),
        i < r.1,
        r.0 == line_content_end(s@, i as int),
        r.1 == if find_char_from(s@, '\n', i as int) < s@.len() {
            find_char_from(s@, '\n', i as int) + 1
        } else {
            s@.len() as int
        },
        r.0 < s@.len() ==> s@[r.0 as int] == '\n' || s@[r.0 as int] == '\r',
        line_spans(s@, i as int) == seq![(i as int, r.0 as int)] + line_spans(s@, r.1 as int),
        forall|k: int| i <= k < r.0 ==> s@[k] != '\n',
{
    let e = find_char(s, '\n', i, s.len());
    proof {
        lemma_find_char_from(s@, '\n', i as int);
    }
    let ce = if e < s.len() && e > i && s[e - 1] == '\r' {
        e - 1
    } else {
        e
    };
    if e < s.len() {
        (ce, e + 1)
    } else {
        assert(line_spans(s@, e + 1) =~= line_spans(s@, s@.len() as int));
        (ce, s.len())
    }
}

// ---------------------------------------------------------------------------------------------
// Substitution.
// ---------------------------------------------------------------------------------------------

/// `s` with every non-overlapping occurrence of `from` (scanning left to right) replaced by
/// `to` (`str::replace`; `from` is non-empty).
pub open spec fn replace_all(s: Seq<char>, from: Seq<char>, to: Seq<char>) -> Seq<char>
    decreases s.len(),
{
    if s.len() == 0 || from.len() == 0 {
        s
    } else if starts_with(s, from) {
        to + replace_all(s.skip(from.len() as int), from, to)
    } else {
        seq![s[0]] + replace_all(s.drop_first(), from, to)
    }
}

/// `str::replace` for a non-empty pattern.
pub fn replace_chars(s: &Vec<char>, from: &Vec<char>, to: &Vec<char>) -> (r: Vec<char>)
    ensures
        r@ == replace_all(s@, from@, to@),
{
    let mut out: Vec<char> = Vec::new();
    if from.len() == 0 {
        push_all(&mut out, s);
        return out;
    }
    let mut i: usize = 0;
    assert(s@.skip(0) =~= s@);
    while i < s.len()
        invariant
            i <= s@.len(),
            from@.len() > 0,
            out@ + replace_all(s@.skip(i as int), from@, to@) == replace_all(s@, from@, to@),
        decreases s.len() - i,
    {
        let ghost rest = s@.skip(i as int);
        let ghost before = out@;
        assert(s@.subrange(i as int, s@.len() as int) =~= rest);
        if has_prefix_at(s, i, s.len(), from) {
            assert(rest.skip(from@.len() as int) =~= s@.skip(i + from@.len()));
            push_all(&mut out, to);
            let ghost tail = replace_all(s@.skip(i + from@.len()), from@, to@);
            assert((before + to@) + tail =~= before + (to@ + tail));
            i += from.len();
        } else {
            assert(rest.drop_first() =~= s@.skip(i + 1));
            out.push(s[i]);
            let ghost tail = replace_all(s@.skip(i + 1), from@, to@);
            assert(before.push(rest[0]) + tail =~= before + (seq![rest[0]] + tail));
            i += 1;
        }
    }
    assert(s@.skip(i as int) =~= Seq::<char>::empty());
    assert(out@ + Seq::<char>::empty() =~= out@);
    out
}

/// `str::replace` on strings, with a non-empty literal pattern.
pub fn replace_str(s: &Vec<char>, from: &str, to: &str) -> (r: Vec<char>)
    ensures
        r@ == replace_all(s@, from@, to@),
{
    let f = chars_of(from);
    let t = chars_of(to);
    replace_chars(s, &f, &t)
}

} // verus!

verus! {

/// The first `c` of `s[lo..hi]` found by scanning `s` is the first `c` of the subrange.
pub proof fn lemma_find_sub(s: Seq<char>, c: char, lo: int, hi: int, k: int)
    requires
        0 <= lo <= k <= hi <= s.len(),
        forall|j: int| lo <= j < k ==> s[j] != c,
        k < hi ==> s[k] == c,
    ensures
        find_char_from(s.subrange(lo, hi), c, 0) == k - lo,
{
    let sub = s.subrange(lo, hi);
    lemma_find_char_from(sub, c, 0);
    let f = find_char_from(sub, c, 0);
    if f < k - lo {
        assert(sub[f] == s[lo + f]);
    }
    if k - lo < f {
        assert(sub[k - lo] == s[k]);
    }
}

/// The `[start, end)` spans of the lines of `s` (see [`line_spans`]).
pub fn line_spans_exec(s: &Vec<char>) -> (r: Vec<(usize, usize)>)
    ensures
        r@.map_values(|p: (usize, usize)| (p.0 as int, p.1 as int)) == line_spans(s@, 0),
        forall|k: int| 0 <= k < r@.len() ==> (#[trigger] r@[k]).0 <= r@[k].1 <= s@.len(),
{
    let mut out: Vec<(usize, usize)> = Vec::new();
    let mut i: usize = 0;
    while i < s.len()
        invariant
            i <= s@.len(),
            out@.map_values(|p: (usize, usize)| (p.0 as int, p.1 as int)) + line_spans(s@, i as int)
                == line_spans(s@, 0),
            forall|k: int| 0 <= k < out@.len() ==> (#[trigger] out@[k]).0 <= out@[k].1 <= s@.len(),
        decreases s.len() - i,
    {
        let ghost before = out@.map_values(|p: (usize, usize)| (p.0 as int, p.1 as int));
        let (ce, next) = next_line(s, i);
        out.push((i, ce));
        assert(out@.map_values(|p: (usize, usize)| (p.0 as int, p.1 as int)) =~= before.push(
            (i as int, ce as int),
        ));
        assert(before.push((i as int, ce as int)) + line_spans(s@, next as int) =~= before + (seq![
            (i as int, ce as int),
        ] + line_spans(s@, next as int)));
        i = next;
    }
    assert(line_spans(s@, i as int) =~= Seq::<(int, int)>::empty());
    assert(out@.map_values(|p: (usize, usize)| (p.0 as int, p.1 as int)) + Seq::<(int, int)>::empty()
        =~= out@.map_values(|p: (usize, usize)| (p.0 as int, p.1 as int)));
    out
}

} // verus!

verus! {

/// Unicode lower-casing as `str::to_lowercase` performs it.
pub uninterp spec fn str_lowercase(s: Seq<char>) -> Seq<char>;

/// `str::to_lowercase`: the contract names the result (Unicode case mapping is not restated).
#[verifier::external_body]
pub(crate) fn to_lowercase(s: &str) -> (r: String)
    ensures
        r@ == str_lowercase(s@),
{
    s.to_lowercase()
}

/// Lexicographic order on character sequences (the order of `str`'s `Ord`).
pub open spec fn lex_lt(a: Seq<char>, b: Seq<char>) -> bool
    decreases a.len(),
{
    if a.len() == 0 {
        b.len() > 0
    } else if b.len() == 0 {
        false
    } else if a[0] != b[0] {
        a[0] < b[0]
    } else {
        lex_lt(a.drop_first(), b.drop_first())
    }
}

pub proof fn lemma_lex_irreflexive(a: Seq<char>)
    ensures
        !lex_lt(a, a),
    decreases a.len(),
{
    if a.len() > 0 {
        lemma_lex_irreflexive(a.drop_first());
    }
}

pub proof fn lemma_lex_transitive(a: Seq<char>, b: Seq<char>, c: Seq<char>)
    requires
        lex_lt(a, b),
        lex_lt(b, c),
    ensures
        lex_lt(a, c),
    decreases a.len(),
{
    if a.len() > 0 && b.len() > 0 && c.len() > 0 {
        if a[0] == b[0] && b[0] == c[0] {
            lemma_lex_transitive(a.drop_first(), b.drop_first(), c.drop_first());
        }
    }
}

pub proof fn lemma_lex_total(a: Seq<char>, b: Seq<char>)
    requires
        a != b,
    ensures
        lex_lt(a, b) || lex_lt(b, a),
    decreases a.len(),
{
    if a.len() > 0 && b.len() > 0 && a[0] == b[0] {
        if a.drop_first() == b.drop_first() {
            assert(a =~= seq![a[0]] + a.drop_first());
            assert(b =~= seq![b[0]] + b.drop_first());
        }
        lemma_lex_total(a.drop_first(), b.drop_first());
    } else if a.len() == 0 && b.len() == 0 {
        assert(a =~= b);
    }
}

pub proof fn lemma_lex_asym(a: Seq<char>, b: Seq<char>)
    requires
        lex_lt(a, b),
    ensures
        !lex_lt(b, a),
{
    if lex_lt(b, a) {
        lemma_lex_transitive(a, b, a);
        lemma_lex_irreflexive(a);
    }
}

/// Whether `a` sorts strictly before `b`.
pub fn chars_lt(a: &Vec<char>, b: &Vec<char>) -> (r: bool)
    ensures
        r == lex_lt(a@, b@),
{
    let mut i: usize = 0;
    assert(a@.skip(0) =~= a@);
    assert(b@.skip(0) =~= b@);
    while i < a.len() && i < b.len()
        invariant
            i <= a@.len(),
            i <= b@.len(),
            lex_lt(a@, b@) == lex_lt(a@.skip(i as int), b@.skip(i as int)),
        decreases a.len() - i,
    {
        assert(a@.skip(i as int).drop_first() =~= a@.skip(i + 1));
        assert(b@.skip(i as int).drop_first() =~= b@.skip(i + 1));
        if a[i] != b[i] {
            return a[i] < b[i];
        }
        i += 1;
    }
    i == a.len() && i < b.len()
}

} // verus!
