//! Parsing a block file (`blocks/<ulid>.md`) into a [`Block`], and writing one back.
//!
//! A block file is Markdown with optional YAML frontmatter. Only `title:`, `tags:`, `locked:`
//! and simple `key: value` properties are read; the body is kept verbatim. The writer emits
//! frontmatter only for metadata the block model manages.

use vstd::prelude::*;
use crate::block::{props_view, strs_view, Block};
use crate::id::BlockId;
use crate::link::{piece_end, ticks3, tildes3};
use crate::rx::{group_texts, opt_strs_view, regex_group_texts};
use crate::text::{
    chars_of, copy_range, eq_ci, eq_ignore_case, find_char, find_char_from, has_prefix_at,
    has_prefix_str, is_ws, is_whitespace, lemma_find_char_from, lemma_find_sub,
    line_content_end, line_spans, line_spans_exec, lower_ascii, next_line, push_all, push_range,
    push_str, starts_with, starts_with_at, string_from, to_lower_ascii, trim, trim_bounds,
    trim_start, trim_start_at,
};
use crate::yaml::{
    is_managed, is_managed_key, is_prop_key, parse_scalar, prop_key_ok, scalar_value, yaml_scalar,
    yaml_text,
};

verus! {

pub open spec fn kw_title() -> Seq<char> {
    seq!['t', 'i', 't', 'l', 'e', ':']
}

pub open spec fn kw_tags() -> Seq<char> {
    seq!['t', 'a', 'g', 's', ':']
}

pub open spec fn kw_locked() -> Seq<char> {
    seq!['l', 'o', 'c', 'k', 'e', 'd', ':']
}

pub open spec fn dashes3() -> Seq<char> {
    seq!['-', '-', '-']
}

// ---------------------------------------------------------------------------------------------
// Splitting frontmatter from the body.
// ---------------------------------------------------------------------------------------------

/// `s` without trailing `\n` and `\r` characters.
pub open spec fn strip_nl_end(s: Seq<char>) -> Seq<char>
    decreases s.len(),
{
    if s.len() > 0 && (s.last() == '\n' || s.last() == '\r') {
        strip_nl_end(s.drop_last())
    } else {
        s
    }
}

/// The start of the first line at or after `i` that is exactly `---` (ignoring its line break).
pub open spec fn closing_fence_from(s: Seq<char>, i: int) -> Option<int>
    decreases s.len() - i,
    via closing_fence_decreases
{
    if i < 0 || i >= s.len() {
        None
    } else if strip_nl_end(s.subrange(i, piece_end(s, i))) == dashes3() {
        Some(i)
    } else {
        closing_fence_from(s, piece_end(s, i))
    }
}

#[via_fn]
proof fn closing_fence_decreases(s: Seq<char>, i: int) {
    if 0 <= i < s.len() {
        lemma_find_char_from(s, '\n', i);
    }
}

pub proof fn lemma_closing_fence(s: Seq<char>, i: int)
    requires
        0 <= i,
    ensures
        closing_fence_from(s, i) matches Some(off) ==> i <= off < s.len(),
    decreases s.len() - i,
{
    if 0 <= i < s.len() {
        lemma_find_char_from(s, '\n', i);
        if strip_nl_end(s.subrange(i, piece_end(s, i))) != dashes3() {
            lemma_closing_fence(s, piece_end(s, i));
        }
    }
}

/// 1 when `s` begins with a byte-order mark, else 0.
pub open spec fn bom_len(s: Seq<char>) -> int {
    if s.len() > 0 && s[0] == '\u{feff}' {
        1
    } else {
        0
    }
}

/// Whether `s` (after an optional byte-order mark) opens with a `---` line.
pub open spec fn opens_frontmatter(s: Seq<char>) -> bool {
    starts_with_at(s, bom_len(s), seq!['-', '-', '-', '\n']) || starts_with_at(
        s,
        bom_len(s),
        seq!['-', '-', '-', '\r', '\n'],
    )
}

/// The frontmatter's inner range (without the fences), if well-formed, and where the body
/// starts. Without well-formed frontmatter the whole source is the body.
pub open spec fn frontmatter_split(s: Seq<char>) -> (Option<(int, int)>, int) {
    if !opens_frontmatter(s) {
        (None, 0)
    } else {
        let ao = find_char_from(s, '\n', bom_len(s)) + 1;
        match closing_fence_from(s, ao) {
            None => (None, 0),
            Some(off) => {
                let bs = piece_end(s, off);
                let b2 = if starts_with_at(s, bs, seq!['\n']) {
                    bs + 1
                } else if starts_with_at(s, bs, seq!['\r', '\n']) {
                    bs + 2
                } else {
                    bs
                };
                (Some((ao, off)), b2)
            },
        }
    }
}

/// The frontmatter text of a block file, if it has well-formed frontmatter.
pub open spec fn frontmatter_of(s: Seq<char>) -> Option<Seq<char>> {
    match frontmatter_split(s).0 {
        Some((a, b)) => Some(s.subrange(a, b)),
        None => None,
    }
}

/// The body of a block file: everything after the frontmatter (one blank line dropped).
pub open spec fn body_of(s: Seq<char>) -> Seq<char> {
    s.skip(frontmatter_split(s).1)
}

fn strip_nl_end_at(s: &Vec<char>, lo: usize, hi: usize) -> (r: usize)
    requires
        lo <= hi <= s@.len(),
    ensures
        lo <= r <= hi,
        s@.subrange(lo as int, r as int) == strip_nl_end(s@.subrange(lo as int, hi as int)),
{
    let mut b = hi;
    while b > lo && (s[b - 1] == '\n' || s[b - 1] == '\r')
        invariant
            lo <= b <= hi <= s@.len(),
            strip_nl_end(s@.subrange(lo as int, hi as int)) == strip_nl_end(
                s@.subrange(lo as int, b as int),
            ),
        decreases b,
    {
        assert(s@.subrange(lo as int, b as int).drop_last() =~= s@.subrange(lo as int, b - 1));
        b -= 1;
    }
    b
}

fn piece_end_exec(s: &Vec<char>, i: usize) -> (r: usize)
    requires
        i < s@.len(),
    ensures
        r == piece_end(s@, i as int),
        i < r <= s@.len(),
{
    let f = find_char(s, '\n', i, s.len());
    if f < s.len() {
        f + 1
    } else {
        s.len()
    }
}

/// Split a block file into its frontmatter range and the start of its body.
pub fn split_frontmatter(s: &Vec<char>) -> (r: (Option<(usize, usize)>, usize))
    ensures
        r.1 <= s@.len(),
        match r.0 {
            Some((a, b)) => frontmatter_split(s@) == (Some((a as int, b as int)), r.1 as int) && a
                <= b <= s@.len(),
            None => frontmatter_split(s@) == (None::<(int, int)>, r.1 as int),
        },
{
    let o: usize = if s.len() > 0 && s[0] == '\u{feff}' {
        1
    } else {
        0
    };
    let open1: Vec<char> = vec!['-', '-', '-', '\n'];
    let open2: Vec<char> = vec!['-', '-', '-', '\r', '\n'];
    assert(open1@ =~= seq!['-', '-', '-', '\n']);
    assert(open2@ =~= seq!['-', '-', '-', '\r', '\n']);
    let p1 = has_prefix_at(s, o, s.len(), &open1);
    let p2 = has_prefix_at(s, o, s.len(), &open2);
    if !(p1 || p2) {
        return (None, 0);
    }
    let nl = find_char(s, '\n', o, s.len());
    proof {
        lemma_find_char_from(s@, '\n', o as int);
        if p1 {
            assert(s@.subrange(o as int, o + 4)[3] == '\n');
        } else {
            assert(s@.subrange(o as int, o + 5)[4] == '\n');
        }
    }
    let ao = nl + 1;
    let mut i = ao;
    while i < s.len()
        invariant
            ao <= i <= s@.len(),
            closing_fence_from(s@, ao as int) == closing_fence_from(s@, i as int),
            ao == find_char_from(s@, '\n', bom_len(s@)) + 1,
            opens_frontmatter(s@),
        decreases s.len() - i,
    {
        let pe = piece_end_exec(s, i);
        let b = strip_nl_end_at(s, i, pe);
        let d: Vec<char> = vec!['-', '-', '-'];
        assert(d@ =~= dashes3());
        if b - i == 3 && s[i] == '-' && s[i + 1] == '-' && s[i + 2] == '-' {
            assert(s@.subrange(i as int, b as int) =~= dashes3());
            let mut bs = pe;
            let n1: Vec<char> = vec!['\n'];
            let n2: Vec<char> = vec!['\r', '\n'];
            assert(n1@ =~= seq!['\n']);
            assert(n2@ =~= seq!['\r', '\n']);
            if has_prefix_at(s, pe, s.len(), &n1) {
                bs = pe + 1;
            } else if has_prefix_at(s, pe, s.len(), &n2) {
                bs = pe + 2;
            }
            return (Some((ao, i)), bs);
        }
        proof {
            if strip_nl_end(s@.subrange(i as int, pe as int)) == dashes3() {
                let t = s@.subrange(i as int, b as int);
                assert(t.len() == 3 && t[0] == '-' && t[1] == '-' && t[2] == '-');
            }
        }
        i = pe;
    }
    (None, 0)
}

// ---------------------------------------------------------------------------------------------
// Frontmatter fields.
// ---------------------------------------------------------------------------------------------

/// The `i`-th line of `fm`.
pub open spec fn fm_line(fm: Seq<char>, i: int) -> Seq<char> {
    fm.subrange(line_spans(fm, 0)[i].0, line_spans(fm, 0)[i].1)
}

pub open spec fn fm_line_count(fm: Seq<char>) -> int {
    line_spans(fm, 0).len() as int
}

/// The title from the lines of `fm` from `i`: the first non-empty value of a `title:` line.
pub open spec fn title_from(fm: Seq<char>, i: int) -> Option<Seq<char>>
    decreases fm_line_count(fm) - i,
{
    if i < 0 || i >= fm_line_count(fm) {
        None
    } else {
        let t = trim(fm_line(fm, i));
        if starts_with(t, kw_title()) && scalar_value(t.skip(6)).len() > 0 {
            Some(scalar_value(t.skip(6)))
        } else {
            title_from(fm, i + 1)
        }
    }
}

/// `s` with every ASCII upper-case letter lowered.
pub open spec fn lower_all(s: Seq<char>) -> Seq<char> {
    s.map_values(|c: char| lower_ascii(c))
}

/// The truthy spellings of the `locked:` flag.
pub open spec fn truthy(v: Seq<char>) -> bool {
    v == seq!['t', 'r', 'u', 'e'] || v == seq!['y', 'e', 's'] || v == seq!['o', 'n'] || v == seq![
        '1',
    ]
}

/// The `locked:` flag from the lines of `fm` from `i`: decided by the first `locked:` line.
pub open spec fn locked_from(fm: Seq<char>, i: int) -> bool
    decreases fm_line_count(fm) - i,
{
    if i < 0 || i >= fm_line_count(fm) {
        false
    } else {
        let t = trim(fm_line(fm, i));
        if starts_with(t, kw_locked()) {
            truthy(lower_all(scalar_value(t.skip(7))))
        } else {
            locked_from(fm, i + 1)
        }
    }
}

pub open spec fn is_quote(c: char) -> bool {
    c == '"' || c == '\''
}

pub open spec fn trim_start_quotes(s: Seq<char>) -> Seq<char>
    decreases s.len(),
{
    if s.len() > 0 && is_quote(s[0]) {
        trim_start_quotes(s.drop_first())
    } else {
        s
    }
}

pub open spec fn trim_end_quotes(s: Seq<char>) -> Seq<char>
    decreases s.len(),
{
    if s.len() > 0 && is_quote(s.last()) {
        trim_end_quotes(s.drop_last())
    } else {
        s
    }
}

/// A tag item cleaned: trimmed, surrounding quotes removed, trimmed again.
pub open spec fn clean_item(t: Seq<char>) -> Seq<char> {
    trim(trim_end_quotes(trim_start_quotes(trim(t))))
}

/// `[t]` when `t` is non-empty, else nothing.
pub open spec fn nonempty(t: Seq<char>) -> Seq<Seq<char>> {
    if t.len() > 0 {
        seq![t]
    } else {
        seq![]
    }
}

/// The cleaned, non-empty items of the comma-separated list `s`.
pub open spec fn flow_items(s: Seq<char>) -> Seq<Seq<char>>
    decreases s.len(),
    via flow_items_decreases
{
    let k = find_char_from(s, ',', 0);
    if k >= s.len() {
        nonempty(clean_item(s))
    } else {
        nonempty(clean_item(s.take(k))) + flow_items(s.skip(k + 1))
    }
}

#[via_fn]
proof fn flow_items_decreases(s: Seq<char>) {
    lemma_find_char_from(s, ',', 0);
}

pub open spec fn trim_start_char(s: Seq<char>, c: char) -> Seq<char>
    decreases s.len(),
{
    if s.len() > 0 && s[0] == c {
        trim_start_char(s.drop_first(), c)
    } else {
        s
    }
}

pub open spec fn trim_end_char(s: Seq<char>, c: char) -> Seq<char>
    decreases s.len(),
{
    if s.len() > 0 && s.last() == c {
        trim_end_char(s.drop_last(), c)
    } else {
        s
    }
}

/// Whether the trimmed line `i` of `fm` is a `- item` list entry.
pub open spec fn is_item_line(fm: Seq<char>, i: int) -> bool {
    let l = trim(fm_line(fm, i));
    l.len() > 0 && l[0] == '-'
}

/// The block-list items of `fm` from line `j`, and the first line after them.
pub open spec fn block_items(fm: Seq<char>, j: int) -> (Seq<Seq<char>>, int)
    decreases fm_line_count(fm) - j,
{
    if 0 <= j < fm_line_count(fm) && is_item_line(fm, j) {
        let rest = block_items(fm, j + 1);
        (nonempty(clean_item(trim(fm_line(fm, j)).skip(1))) + rest.0, rest.1)
    } else {
        (seq![], j)
    }
}

pub proof fn lemma_block_items(fm: Seq<char>, j: int)
    requires
        0 <= j,
    ensures
        j <= block_items(fm, j).1,
        j <= fm_line_count(fm) ==> block_items(fm, j).1 <= fm_line_count(fm),
    decreases fm_line_count(fm) - j,
{
    if 0 <= j < fm_line_count(fm) && is_item_line(fm, j) {
        lemma_block_items(fm, j + 1);
    }
}

/// The `tags:` of the lines of `fm` from `i`: flow lists `[a, b]`, block lists of `- a` lines,
/// or a single scalar.
pub open spec fn tags_from(fm: Seq<char>, i: int) -> Seq<Seq<char>>
    decreases fm_line_count(fm) - i,
    via tags_from_decreases
{
    if i < 0 || i >= fm_line_count(fm) {
        seq![]
    } else {
        let t = trim(fm_line(fm, i));
        if starts_with(t, kw_tags()) {
            let rest = trim(t.skip(5));
            if rest.len() > 0 && rest[0] == '[' {
                flow_items(trim_end_char(trim_start_char(rest, '['), ']')) + tags_from(fm, i + 1)
            } else if rest.len() == 0 {
                block_items(fm, i + 1).0 + tags_from(fm, block_items(fm, i + 1).1)
            } else {
                nonempty(clean_item(rest)) + tags_from(fm, i + 1)
            }
        } else {
            tags_from(fm, i + 1)
        }
    }
}

#[via_fn]
proof fn tags_from_decreases(fm: Seq<char>, i: int) {
    if 0 <= i {
        lemma_block_items(fm, i + 1);
    }
}

/// Whether some key of `acc` equals `k` ignoring ASCII case.
pub open spec fn has_key(acc: Seq<(Seq<char>, Seq<char>)>, k: Seq<char>) -> bool {
    exists|j: int| 0 <= j < acc.len() && eq_ci(#[trigger] acc[j].0, k)
}

/// The property a frontmatter line declares, if any: a top-level `key: value` line whose key is
/// well-formed and not managed, with a non-empty scalar value.
pub open spec fn line_prop(l: Seq<char>) -> Option<(Seq<char>, Seq<char>)> {
    if l.len() > 0 && (l[0] == ' ' || l[0] == '\t') {
        None
    } else {
        let c = find_char_from(l, ':', 0);
        if c >= l.len() {
            None
        } else {
            let key = trim(l.take(c));
            let v = scalar_value(l.skip(c + 1));
            if !prop_key_ok(key) || is_managed(key) || v.len() == 0 {
                None
            } else {
                Some((key, v))
            }
        }
    }
}

/// The properties of the first `n` lines of `fm`; a repeated key keeps its first value.
pub open spec fn props_upto(fm: Seq<char>, n: int) -> Seq<(Seq<char>, Seq<char>)>
    decreases n,
{
    if n <= 0 {
        seq![]
    } else {
        let acc = props_upto(fm, n - 1);
        match line_prop(fm_line(fm, n - 1)) {
            Some((k, v)) => if has_key(acc, k) {
                acc
            } else {
                acc.push((k, v))
            },
            None => acc,
        }
    }
}

pub open spec fn fm_props(fm: Seq<char>) -> Seq<(Seq<char>, Seq<char>)> {
    props_upto(fm, fm_line_count(fm))
}

fn keyword_at(fm: &Vec<char>, a: usize, b: usize, kw: &str) -> (r: bool)
    requires
        a <= b <= fm@.len(),
    ensures
        r == starts_with(fm@.subrange(a as int, b as int), kw@),
{
    has_prefix_str(fm, a, b, kw)
}

/// The title declared in frontmatter `fm`.
pub fn parse_title(fm: &Vec<char>) -> (r: Option<Vec<char>>)
    ensures
        match r {
            Some(v) => title_from(fm@, 0) == Some(v@),
            None => title_from(fm@, 0) is None,
        },
{
    let spans = line_spans_exec(fm);
    let ghost sp = line_spans(fm@, 0);
    proof {
        reveal_strlit("title:");
        assert("title:"@ =~= kw_title());
    }
    let mut i: usize = 0;
    while i < spans.len()
        invariant
            i <= spans@.len(),
            spans@.map_values(|p: (usize, usize)| (p.0 as int, p.1 as int)) == sp,
            sp == line_spans(fm@, 0),
            forall|k: int| 0 <= k < spans@.len() ==> (#[trigger] spans@[k]).0 <= spans@[k].1 <= fm@.len(),
            title_from(fm@, 0) == title_from(fm@, i as int),
            "title:"@ == kw_title(),
        decreases spans.len() - i,
    {
        let (s0, s1) = spans[i];
        assert(sp[i as int] == (s0 as int, s1 as int));
        let (a, b) = trim_bounds(fm, s0, s1);
        if keyword_at(fm, a, b, "title:") {
            assert(fm@.subrange(a as int, b as int).skip(6) =~= fm@.subrange(a + 6, b as int));
            let v = parse_scalar(fm, a + 6, b);
            if v.len() > 0 {
                return Some(v);
            }
        }
        i += 1;
    }
    None
}

/// Whether frontmatter `fm` marks the block locked.
pub fn parse_locked(fm: &Vec<char>) -> (r: bool)
    ensures
        r == locked_from(fm@, 0),
{
    let spans = line_spans_exec(fm);
    let ghost sp = line_spans(fm@, 0);
    proof {
        reveal_strlit("locked:");
        assert("locked:"@ =~= kw_locked());
    }
    let mut i: usize = 0;
    while i < spans.len()
        invariant
            i <= spans@.len(),
            spans@.map_values(|p: (usize, usize)| (p.0 as int, p.1 as int)) == sp,
            sp == line_spans(fm@, 0),
            forall|k: int| 0 <= k < spans@.len() ==> (#[trigger] spans@[k]).0 <= spans@[k].1 <= fm@.len(),
            locked_from(fm@, 0) == locked_from(fm@, i as int),
            "locked:"@ == kw_locked(),
        decreases spans.len() - i,
    {
        let (s0, s1) = spans[i];
        assert(sp[i as int] == (s0 as int, s1 as int));
        let (a, b) = trim_bounds(fm, s0, s1);
        if keyword_at(fm, a, b, "locked:") {
            assert(fm@.subrange(a as int, b as int).skip(7) =~= fm@.subrange(a + 7, b as int));
            let v = parse_scalar(fm, a + 7, b);
            let mut low: Vec<char> = Vec::new();
            let mut k: usize = 0;
            while k < v.len()
                invariant
                    k <= v@.len(),
                    low@ == lower_all(v@.take(k as int)),
                decreases v.len() - k,
            {
                low.push(to_lower_ascii(v[k]));
                assert(low@ =~= lower_all(v@.take(k + 1)));
                k += 1;
            }
            assert(v@.take(k as int) =~= v@);
            let t1: Vec<char> = vec!['t', 'r', 'u', 'e'];
            let t2: Vec<char> = vec!['y', 'e', 's'];
            let t3: Vec<char> = vec!['o', 'n'];
            let t4: Vec<char> = vec!['1'];
            assert(t1@ =~= seq!['t', 'r', 'u', 'e']);
            assert(t2@ =~= seq!['y', 'e', 's']);
            assert(t3@ =~= seq!['o', 'n']);
            assert(t4@ =~= seq!['1']);
            return crate::text::chars_eq(&low, &t1) || crate::text::chars_eq(&low, &t2)
                || crate::text::chars_eq(&low, &t3) || crate::text::chars_eq(&low, &t4);
        }
        i += 1;
    }
    false
}

/// The cleaned item `s[lo..hi]`: bounds of `clean_item`.
fn clean_item_bounds(s: &Vec<char>, lo: usize, hi: usize) -> (r: (usize, usize))
    requires
        lo <= hi <= s@.len(),
    ensures
        lo <= r.0 <= r.1 <= hi,
        s@.subrange(r.0 as int, r.1 as int) == clean_item(s@.subrange(lo as int, hi as int)),
{
    let (a, b) = trim_bounds(s, lo, hi);
    let mut c = a;
    while c < b && (s[c] == '"' || s[c] == '\'')
        invariant
            a <= c <= b <= s@.len(),
            trim_start_quotes(s@.subrange(a as int, b as int)) == trim_start_quotes(
                s@.subrange(c as int, b as int),
            ),
        decreases b - c,
    {
        assert(s@.subrange(c as int, b as int).drop_first() =~= s@.subrange(c + 1, b as int));
        c += 1;
    }
    let mut d = b;
    while d > c && (s[d - 1] == '"' || s[d - 1] == '\'')
        invariant
            c <= d <= b <= s@.len(),
            trim_end_quotes(s@.subrange(c as int, b as int)) == trim_end_quotes(
                s@.subrange(c as int, d as int),
            ),
        decreases d,
    {
        assert(s@.subrange(c as int, d as int).drop_last() =~= s@.subrange(c as int, d - 1));
        d -= 1;
    }
    trim_bounds(s, c, d)
}

/// Append the cleaned item `s[lo..hi]` to `out` when it is non-empty.
fn push_item(out: &mut Vec<String>, s: &Vec<char>, lo: usize, hi: usize)
    requires
        lo <= hi <= s@.len(),
    ensures
        strs_view(final(out)@) == strs_view(old(out)@) + nonempty(
            clean_item(s@.subrange(lo as int, hi as int)),
        ),
{
    let (a, b) = clean_item_bounds(s, lo, hi);
    if b > a {
        let ghost before = strs_view(out@);
        let t = copy_range(s, a, b);
        out.push(string_from(&t));
        assert(strs_view(out@) =~= before + seq![t@]);
    } else {
        assert(strs_view(out@) + Seq::<Seq<char>>::empty() =~= strs_view(out@));
    }
}

/// Append the items of the comma-separated list `s[lo..hi]` to `out`.
fn push_flow_items(out: &mut Vec<String>, s: &Vec<char>, lo: usize, hi: usize)
    requires
        lo <= hi <= s@.len(),
    ensures
        strs_view(final(out)@) == strs_view(old(out)@) + flow_items(
            s@.subrange(lo as int, hi as int),
        ),
{
    let ghost start = strs_view(out@);
    let mut p = lo;
    loop
        invariant
            lo <= p <= hi <= s@.len(),
            start == strs_view(old(out)@),
            strs_view(out@) + flow_items(s@.subrange(p as int, hi as int)) == start + flow_items(
                s@.subrange(lo as int, hi as int),
            ),
        decreases hi - p,
    {
        let ghost before = strs_view(out@);
        let ghost sub = s@.subrange(p as int, hi as int);
        let k = find_char(s, ',', p, hi);
        proof {
            lemma_find_sub(s@, ',', p as int, hi as int, k as int);
        }
        if k >= hi {
            push_item(out, s, p, hi);
            assert(strs_view(out@) == before + flow_items(sub));
            return ;
        }
        assert(sub.take(k - p) =~= s@.subrange(p as int, k as int));
        assert(sub.skip(k - p + 1) =~= s@.subrange(k + 1, hi as int));
        push_item(out, s, p, k);
        let ghost tail = flow_items(s@.subrange(k + 1, hi as int));
        assert(strs_view(out@) + tail =~= before + flow_items(sub));
        p = k + 1;
    }
}

/// Whether line `j` of `fm` (with spans `spans`) is a `- item` line.
fn item_line(fm: &Vec<char>, spans: &Vec<(usize, usize)>, j: usize) -> (r: bool)
    requires
        j < spans@.len(),
        spans@.map_values(|p: (usize, usize)| (p.0 as int, p.1 as int)) == line_spans(fm@, 0),
        forall|k: int| 0 <= k < spans@.len() ==> (#[trigger] spans@[k]).0 <= spans@[k].1 <= fm@.len(),
    ensures
        r == is_item_line(fm@, j as int),
{
    let (t0, t1) = spans[j];
    assert(line_spans(fm@, 0)[j as int] == (t0 as int, t1 as int));
    let (la, lb) = trim_bounds(fm, t0, t1);
    lb > la && fm[la] == '-'
}

/// The `tags:` declared in frontmatter `fm`, in order.
pub fn parse_fm_tags(fm: &Vec<char>) -> (r: Vec<String>)
    ensures
        strs_view(r@) == tags_from(fm@, 0),
{
    let spans = line_spans_exec(fm);
    let ghost sp = line_spans(fm@, 0);
    proof {
        reveal_strlit("tags:");
        assert("tags:"@ =~= kw_tags());
    }
    let mut out: Vec<String> = Vec::new();
    let mut i: usize = 0;
    while i < spans.len()
        invariant
            i <= spans@.len(),
            spans@.map_values(|p: (usize, usize)| (p.0 as int, p.1 as int)) == sp,
            sp == line_spans(fm@, 0),
            forall|k: int| 0 <= k < spans@.len() ==> (#[trigger] spans@[k]).0 <= spans@[k].1 <= fm@.len(),
            strs_view(out@) + tags_from(fm@, i as int) == tags_from(fm@, 0),
            "tags:"@ == kw_tags(),
        decreases spans.len() - i,
    {
        let ghost before = strs_view(out@);
        let (s0, s1) = spans[i];
        assert(sp[i as int] == (s0 as int, s1 as int));
        let (a, b) = trim_bounds(fm, s0, s1);
        if keyword_at(fm, a, b, "tags:") {
            let (ra, rb) = trim_bounds(fm, a + 5, b);
            assert(fm@.subrange(a as int, b as int).skip(5) =~= fm@.subrange(a + 5, b as int));
            if rb > ra && fm[ra] == '[' {
                let mut c = ra;
                while c < rb && fm[c] == '['
                    invariant
                        ra <= c <= rb <= fm@.len(),
                        trim_start_char(fm@.subrange(ra as int, rb as int), '[') == trim_start_char(
                            fm@.subrange(c as int, rb as int),
                            '[',
                        ),
                    decreases rb - c,
                {
                    assert(fm@.subrange(c as int, rb as int).drop_first() =~= fm@.subrange(
                        c + 1,
                        rb as int,
                    ));
                    c += 1;
                }
                let mut d = rb;
                while d > c && fm[d - 1] == ']'
                    invariant
                        c <= d <= rb <= fm@.len(),
                        trim_end_char(fm@.subrange(c as int, rb as int), ']') == trim_end_char(
                            fm@.subrange(c as int, d as int),
                            ']',
                        ),
                    decreases d,
                {
                    assert(fm@.subrange(c as int, d as int).drop_last() =~= fm@.subrange(
                        c as int,
                        d - 1,
                    ));
                    d -= 1;
                }
                push_flow_items(&mut out, fm, c, d);
                let ghost tail = tags_from(fm@, i + 1);
                assert(strs_view(out@) + tail =~= before + tags_from(fm@, i as int));
                i += 1;
            } else if rb == ra {
                let mut j = i + 1;
                while j < spans.len() && item_line(fm, &spans, j)
                    invariant
                        i + 1 <= j <= spans@.len(),
                        spans@.map_values(|p: (usize, usize)| (p.0 as int, p.1 as int)) == sp,
                        sp == line_spans(fm@, 0),
                        forall|k: int|
                            0 <= k < spans@.len() ==> (#[trigger] spans@[k]).0 <= spans@[k].1
                                <= fm@.len(),
                        strs_view(out@) + block_items(fm@, j as int).0 == before + block_items(
                            fm@,
                            i + 1,
                        ).0,
                        block_items(fm@, j as int).1 == block_items(fm@, i + 1).1,
                    decreases spans.len() - j,
                {
                    let (t0, t1) = spans[j];
                    assert(sp[j as int] == (t0 as int, t1 as int));
                    let (la, lb) = trim_bounds(fm, t0, t1);
                    let ghost b2 = strs_view(out@);
                    assert(fm@.subrange(la as int, lb as int).skip(1) =~= fm@.subrange(
                        la + 1,
                        lb as int,
                    ));
                    push_item(&mut out, fm, la + 1, lb);
                    let ghost tail = block_items(fm@, j + 1).0;
                    assert(strs_view(out@) + tail =~= b2 + block_items(fm@, j as int).0);
                    j += 1;
                }
                proof {
                    assert(block_items(fm@, j as int).0 =~= Seq::<Seq<char>>::empty());
                    assert(block_items(fm@, j as int).1 == j);
                }
                let ghost tail = tags_from(fm@, j as int);
                assert(strs_view(out@) + tail =~= before + tags_from(fm@, i as int));
                i = j;
            } else {
                assert(fm@.subrange(ra as int, rb as int) =~= trim(fm@.subrange(a + 5, b as int)));
                push_item(&mut out, fm, ra, rb);
                let ghost tail = tags_from(fm@, i + 1);
                assert(strs_view(out@) + tail =~= before + tags_from(fm@, i as int));
                i += 1;
            }
        } else {
            i += 1;
        }
    }
    assert(strs_view(out@) + tags_from(fm@, i as int) =~= strs_view(out@));
    out
}

/// Whether some key of `props` equals `k` ignoring ASCII case.
fn has_prop_key(props: &Vec<(String, String)>, k: &Vec<char>) -> (r: bool)
    ensures
        r == has_key(props_view(props@), k@),
{
    let ghost pv = props_view(props@);
    let mut j: usize = 0;
    while j < props.len()
        invariant
            j <= props@.len(),
            pv == props_view(props@),
            forall|q: int| 0 <= q < j ==> !eq_ci(#[trigger] pv[q].0, k@),
        decreases props.len() - j,
    {
        let kc = chars_of(props[j].0.as_str());
        assert(pv[j as int].0 == kc@);
        if eq_ignore_case(&kc, k) {
            return true;
        }
        j += 1;
    }
    false
}

/// The properties declared in frontmatter `fm`.
pub fn parse_fm_props(fm: &Vec<char>) -> (r: Vec<(String, String)>)
    ensures
        props_view(r@) == fm_props(fm@),
{
    let spans = line_spans_exec(fm);
    let ghost sp = line_spans(fm@, 0);
    let mut out: Vec<(String, String)> = Vec::new();
    let mut i: usize = 0;
    while i < spans.len()
        invariant
            i <= spans@.len(),
            spans@.map_values(|p: (usize, usize)| (p.0 as int, p.1 as int)) == sp,
            sp == line_spans(fm@, 0),
            forall|k: int| 0 <= k < spans@.len() ==> (#[trigger] spans@[k]).0 <= spans@[k].1 <= fm@.len(),
            props_view(out@) == props_upto(fm@, i as int),
        decreases spans.len() - i,
    {
        let (s0, s1) = spans[i];
        assert(sp[i as int] == (s0 as int, s1 as int));
        let ghost line = fm@.subrange(s0 as int, s1 as int);
        assert(fm_line(fm@, i as int) == line);
        let ghost acc = props_view(out@);
        if s1 > s0 && (fm[s0] == ' ' || fm[s0] == '\t') {
            i += 1;
            continue ;
        }
        let c = find_char(fm, ':', s0, s1);
        proof {
            lemma_find_sub(fm@, ':', s0 as int, s1 as int, c as int);
        }
        if c >= s1 {
            i += 1;
            continue ;
        }
        let (ka, kb) = trim_bounds(fm, s0, c);
        assert(line.take(c - s0) =~= fm@.subrange(s0 as int, c as int));
        assert(line.skip(c - s0 + 1) =~= fm@.subrange(c + 1, s1 as int));
        let key = copy_range(fm, ka, kb);
        if !is_prop_key(&key) || is_managed_key(&key) {
            i += 1;
            continue ;
        }
        let value = parse_scalar(fm, c + 1, s1);
        if value.len() == 0 {
            i += 1;
            continue ;
        }
        if has_prop_key(&out, &key) {
            i += 1;
            continue ;
        }
        out.push((string_from(&key), string_from(&value)));
        assert(props_view(out@) =~= acc.push((key@, value@)));
        i += 1;
    }
    out
}

// ---------------------------------------------------------------------------------------------
// Body scans: code languages and inline tags.
// ---------------------------------------------------------------------------------------------

/// Whether some string of `acc` equals `t` ignoring ASCII case.
pub open spec fn has_ci(acc: Seq<Seq<char>>, t: Seq<char>) -> bool {
    exists|j: int| 0 <= j < acc.len() && eq_ci(#[trigger] acc[j], t)
}

/// `acc` with `t` appended unless it already holds it (ignoring ASCII case).
pub open spec fn add_ci(acc: Seq<Seq<char>>, t: Seq<char>) -> Seq<Seq<char>> {
    if has_ci(acc, t) {
        acc
    } else {
        acc.push(t)
    }
}

/// The leading run of non-whitespace characters of `s`.
pub open spec fn take_word(s: Seq<char>) -> Seq<char>
    decreases s.len(),
{
    if s.len() > 0 && !is_ws(s[0]) {
        seq![s[0]] + take_word(s.drop_first())
    } else {
        seq![]
    }
}

/// The first whitespace-separated word of `s`, or nothing.
pub open spec fn first_word(s: Seq<char>) -> Seq<char> {
    take_word(trim_start(s))
}

/// Whether the line `s[i..line end]` opens or closes a code fence.
pub open spec fn fence_at(s: Seq<char>, i: int) -> bool {
    let t = trim_start(s.subrange(i, line_content_end(s, i)));
    starts_with(t, ticks3()) || starts_with(t, tildes3())
}

/// The start of the line after the one starting at `i`.
pub open spec fn next_start(s: Seq<char>, i: int) -> int {
    find_char_from(s, '\n', i) + 1
}

/// The fenced-code languages of the lines of `s` from `i`, collected into `acc`.
pub open spec fn langs_from(s: Seq<char>, i: int, in_fence: bool, acc: Seq<Seq<char>>) -> Seq<
    Seq<char>,
>
    decreases s.len() + 1 - i,
    via langs_from_decreases
{
    if i < 0 || i >= s.len() {
        acc
    } else if fence_at(s, i) {
        if !in_fence {
            let t = trim_start(s.subrange(i, line_content_end(s, i)));
            let lang = first_word(t.skip(3));
            langs_from(
                s,
                next_start(s, i),
                true,
                if lang.len() > 0 {
                    add_ci(acc, lang)
                } else {
                    acc
                },
            )
        } else {
            langs_from(s, next_start(s, i), false, acc)
        }
    } else {
        langs_from(s, next_start(s, i), in_fence, acc)
    }
}

#[via_fn]
proof fn langs_from_decreases(s: Seq<char>, i: int, in_fence: bool, acc: Seq<Seq<char>>) {
    if 0 <= i < s.len() {
        lemma_find_char_from(s, '\n', i);
    }
}

/// The fenced-code languages of `s`, in order of appearance, without repeats.
pub open spec fn code_langs_of(s: Seq<char>) -> Seq<Seq<char>> {
    langs_from(s, 0, false, seq![])
}

/// The pattern of an inline `#tag`: the tag name is capture group 1.
pub open spec fn inline_tag_pattern() -> Seq<char> {
    "(?:^|[^\\w&/])#([A-Za-z][\\w/-]*)"@
}

/// `acc` extended by the captured names in `caps`.
pub open spec fn add_captures(acc: Seq<Seq<char>>, caps: Seq<Option<Seq<char>>>) -> Seq<Seq<char>>
    decreases caps.len(),
{
    if caps.len() == 0 {
        acc
    } else {
        let acc2 = match caps[0] {
            Some(t) => add_ci(acc, t),
            None => acc,
        };
        add_captures(acc2, caps.drop_first())
    }
}

/// The inline tags of one line, added to `acc`.
pub open spec fn line_tags(acc: Seq<Seq<char>>, line: Seq<char>) -> Seq<Seq<char>> {
    match regex_group_texts(inline_tag_pattern(), line, 1) {
        Some(caps) => add_captures(acc, caps),
        None => acc,
    }
}

/// The inline tags of the lines of `s` from `i` that lie outside fenced code, added to `acc`.
pub open spec fn inline_tags_from(s: Seq<char>, i: int, in_fence: bool, acc: Seq<Seq<char>>) -> Seq<
    Seq<char>,
>
    decreases s.len() + 1 - i,
    via inline_tags_decreases
{
    if i < 0 || i >= s.len() {
        acc
    } else if fence_at(s, i) {
        inline_tags_from(s, next_start(s, i), !in_fence, acc)
    } else if in_fence {
        inline_tags_from(s, next_start(s, i), in_fence, acc)
    } else {
        inline_tags_from(
            s,
            next_start(s, i),
            in_fence,
            line_tags(acc, s.subrange(i, line_content_end(s, i))),
        )
    }
}

#[via_fn]
proof fn inline_tags_decreases(s: Seq<char>, i: int, in_fence: bool, acc: Seq<Seq<char>>) {
    if 0 <= i < s.len() {
        lemma_find_char_from(s, '\n', i);
    }
}

/// The inline `#tag`s of a body, outside fenced code, without repeats.
pub open spec fn inline_tags_of(s: Seq<char>) -> Seq<Seq<char>> {
    inline_tags_from(s, 0, false, seq![])
}

/// Whether some string of `acc` equals `t` ignoring ASCII case.
fn contains_ci(acc: &Vec<String>, t: &Vec<char>) -> (r: bool)
    ensures
        r == has_ci(strs_view(acc@), t@),
{
    let ghost av = strs_view(acc@);
    let mut j: usize = 0;
    while j < acc.len()
        invariant
            j <= acc@.len(),
            av == strs_view(acc@),
            forall|q: int| 0 <= q < j ==> !eq_ci(#[trigger] av[q], t@),
        decreases acc.len() - j,
    {
        let c = chars_of(acc[j].as_str());
        assert(av[j as int] == c@);
        if eq_ignore_case(&c, t) {
            return true;
        }
        j += 1;
    }
    false
}

/// Append `t` to `acc` unless it is already there (ignoring ASCII case).
fn push_ci(acc: &mut Vec<String>, t: &Vec<char>)
    ensures
        strs_view(final(acc)@) == add_ci(strs_view(old(acc)@), t@),
{
    if !contains_ci(acc, t) {
        let ghost before = strs_view(acc@);
        acc.push(string_from(t));
        assert(strs_view(acc@) =~= before.push(t@));
    }
}

/// Whether the line `s[i..ce]` is a fence line (after leading whitespace, three backticks or
/// three tildes); also where its text starts.
fn fence_line_at(s: &Vec<char>, i: usize, ce: usize) -> (r: (bool, usize))
    requires
        i <= ce <= s@.len(),
        ce == line_content_end(s@, i as int),
    ensures
        r.0 == fence_at(s@, i as int),
        i <= r.1 <= ce,
        s@.subrange(r.1 as int, ce as int) == trim_start(s@.subrange(i as int, ce as int)),
{
    let a = trim_start_at(s, i, ce);
    let t = has_prefix_str(s, a, ce, "```");
    let d = has_prefix_str(s, a, ce, "~~~");
    proof {
        reveal_strlit("```");
        reveal_strlit("~~~");
        assert("```"@ =~= ticks3());
        assert("~~~"@ =~= tildes3());
    }
    (t || d, a)
}

/// The fenced-code languages of a body.
pub fn code_langs(s: &Vec<char>) -> (r: Vec<String>)
    ensures
        strs_view(r@) == code_langs_of(s@),
{
    let mut out: Vec<String> = Vec::new();
    assert(strs_view(out@) =~= Seq::<Seq<char>>::empty());
    let mut in_fence = false;
    let mut i: usize = 0;
    while i < s.len()
        invariant
            i <= s@.len(),
            langs_from(s@, i as int, in_fence, strs_view(out@)) == code_langs_of(s@),
        decreases s.len() - i,
    {
        let (ce, next) = next_line(s, i);
        let (fence, a) = fence_line_at(s, i, ce);
        proof {
            lemma_find_char_from(s@, '\n', i as int);
        }
        if fence {
            if !in_fence {
                // The language is the first word after the three fence characters.
                let w0 = trim_start_at(s, a + 3, ce);
                let mut w1 = w0;
                while w1 < ce && !is_whitespace(s[w1])
                    invariant
                        w0 <= w1 <= ce <= s@.len(),
                        take_word(s@.subrange(w0 as int, ce as int)) == s@.subrange(
                            w0 as int,
                            w1 as int,
                        ) + take_word(s@.subrange(w1 as int, ce as int)),
                    decreases ce - w1,
                {
                    assert(s@.subrange(w1 as int, ce as int).drop_first() =~= s@.subrange(
                        w1 + 1,
                        ce as int,
                    ));
                    assert(s@.subrange(w0 as int, w1 + 1) =~= s@.subrange(w0 as int, w1 as int)
                        + seq![s@[w1 as int]]);
                    w1 += 1;
                }
                assert(take_word(s@.subrange(w1 as int, ce as int)) =~= Seq::<char>::empty());
                assert(s@.subrange(a as int, ce as int).skip(3) =~= s@.subrange(a + 3, ce as int));
                let lang = copy_range(s, w0, w1);
                assert(lang@ =~= first_word(
                    trim_start(s@.subrange(i as int, ce as int)).skip(3),
                ));
                if w1 > w0 {
                    push_ci(&mut out, &lang);
                }
                in_fence = true;
            } else {
                in_fence = false;
            }
        }
        proof {
            if next == s@.len() {
                assert(langs_from(s@, next as int, in_fence, strs_view(out@)) == langs_from(
                    s@,
                    next_start(s@, i as int),
                    in_fence,
                    strs_view(out@),
                ));
            }
        }
        i = next;
    }
    out
}

/// Add the inline tags of the line `s[lo..hi]` to `out`.
fn push_line_tags(out: &mut Vec<String>, s: &Vec<char>, lo: usize, hi: usize)
    requires
        lo <= hi <= s@.len(),
    ensures
        strs_view(final(out)@) == line_tags(strs_view(old(out)@), s@.subrange(lo as int, hi as int)),
{
    let lv = copy_range(s, lo, hi);
    let line = string_from(&lv);
    let pattern = "(?:^|[^\\w&/])#([A-Za-z][\\w/-]*)";
    match group_texts(pattern, line.as_str(), 1) {
        Some(caps) => {
            let ghost cv = opt_strs_view(caps@);
            let mut k: usize = 0;
            assert(cv.skip(0) =~= cv);
            while k < caps.len()
                invariant
                    k <= caps@.len(),
                    cv == opt_strs_view(caps@),
                    add_captures(strs_view(out@), cv.skip(k as int)) == add_captures(
                        strs_view(old(out)@),
                        cv,
                    ),
                decreases caps.len() - k,
            {
                let ghost rest = cv.skip(k as int);
                assert(rest.drop_first() =~= cv.skip(k + 1));
                match &caps[k] {
                    Some(t) => {
                        let tv = chars_of(t.as_str());
                        push_ci(out, &tv);
                    },
                    None => {},
                }
                k += 1;
            }
            assert(cv.skip(k as int) =~= Seq::<Option<Seq<char>>>::empty());
        },
        None => {},
    }
}

/// The inline `#tag`s of a body.
pub fn inline_tags(s: &Vec<char>) -> (r: Vec<String>)
    ensures
        strs_view(r@) == inline_tags_of(s@),
{
    let mut out: Vec<String> = Vec::new();
    assert(strs_view(out@) =~= Seq::<Seq<char>>::empty());
    let mut in_fence = false;
    let mut i: usize = 0;
    while i < s.len()
        invariant
            i <= s@.len(),
            inline_tags_from(s@, i as int, in_fence, strs_view(out@)) == inline_tags_of(s@),
        decreases s.len() - i,
    {
        let (ce, next) = next_line(s, i);
        let (fence, _a) = fence_line_at(s, i, ce);
        proof {
            lemma_find_char_from(s@, '\n', i as int);
        }
        if fence {
            in_fence = !in_fence;
        } else if !in_fence {
            push_line_tags(&mut out, s, i, ce);
        }
        proof {
            if next == s@.len() {
                assert(inline_tags_from(s@, next as int, in_fence, strs_view(out@))
                    == inline_tags_from(s@, next_start(s@, i as int), in_fence, strs_view(out@)));
            }
        }
        i = next;
    }
    out
}

// ---------------------------------------------------------------------------------------------
// Whole files.
// ---------------------------------------------------------------------------------------------

/// The managed tags of a block file: its frontmatter `tags:`.
pub open spec fn file_fm_tags(s: Seq<char>) -> Seq<Seq<char>> {
    match frontmatter_of(s) {
        Some(fm) => tags_from(fm, 0),
        None => seq![],
    }
}

/// All tags of a block file: the frontmatter tags, then each inline tag not already present
/// (ignoring ASCII case).
pub open spec fn file_tags(s: Seq<char>) -> Seq<Seq<char>> {
    merge_ci(file_fm_tags(s), inline_tags_of(body_of(s)))
}

/// `acc` extended by each of `xs` not already present (ignoring ASCII case).
pub open spec fn merge_ci(acc: Seq<Seq<char>>, xs: Seq<Seq<char>>) -> Seq<Seq<char>>
    decreases xs.len(),
{
    if xs.len() == 0 {
        acc
    } else {
        merge_ci(add_ci(acc, xs[0]), xs.drop_first())
    }
}

/// The title of a block file: the frontmatter title, unless blank.
pub open spec fn file_title(s: Seq<char>) -> Option<Seq<char>> {
    match frontmatter_of(s) {
        Some(fm) => match title_from(fm, 0) {
            Some(t) => if trim(t).len() == 0 {
                None
            } else {
                Some(t)
            },
            None => None,
        },
        None => None,
    }
}

pub open spec fn file_locked(s: Seq<char>) -> bool {
    match frontmatter_of(s) {
        Some(fm) => locked_from(fm, 0),
        None => false,
    }
}

pub open spec fn file_props(s: Seq<char>) -> Seq<(Seq<char>, Seq<char>)> {
    match frontmatter_of(s) {
        Some(fm) => fm_props(fm),
        None => seq![],
    }
}

/// `b` is what parsing the block file text `source` with id `id` gives.
pub open spec fn is_parse_of(b: crate::block::Block, id: Seq<char>, source: Seq<char>) -> bool {
    &&& b.id@ == id
    &&& crate::block::opt_str_view(b.title) == file_title(source)
    &&& strs_view(b.fm_tags@) == file_fm_tags(source)
    &&& strs_view(b.tags@) == file_tags(source)
    &&& strs_view(b.langs@) == code_langs_of(body_of(source))
    &&& b.locked == file_locked(source)
    &&& props_view(b.props@) == file_props(source)
    &&& b.body@ == body_of(source)
}

/// Parse a block file's text into a [`Block`] with the given id (its filename stem).
pub fn parse_block(id: BlockId, source: &str) -> (b: Block)
    ensures
        is_parse_of(b, id@, source@),
{
    let s = chars_of(source);
    let (fm_range, body_start) = split_frontmatter(&s);
    let mut title: Option<Vec<char>> = None;
    let mut tags: Vec<String> = Vec::new();
    let mut locked = false;
    let mut props: Vec<(String, String)> = Vec::new();
    if let Some((fa, fb)) = fm_range {
        let fm = copy_range(&s, fa, fb);
        title = parse_title(&fm);
        tags = parse_fm_tags(&fm);
        locked = parse_locked(&fm);
        props = parse_fm_props(&fm);
    }
    let fm_tags = crate::block::clone_strings(&tags);
    let body = copy_range(&s, body_start, s.len());
    assert(body@ =~= body_of(s@));
    let inline = inline_tags(&body);
    let ghost iv = strs_view(inline@);
    let mut k: usize = 0;
    assert(iv.skip(0) =~= iv);
    while k < inline.len()
        invariant
            k <= inline@.len(),
            iv == strs_view(inline@),
            merge_ci(strs_view(tags@), iv.skip(k as int)) == merge_ci(
                strs_view(fm_tags@),
                iv,
            ),
        decreases inline.len() - k,
    {
        assert(iv.skip(k as int).drop_first() =~= iv.skip(k + 1));
        let t = chars_of(inline[k].as_str());
        assert(iv[k as int] == t@);
        push_ci(&mut tags, &t);
        k += 1;
    }
    assert(iv.skip(k as int) =~= Seq::<Seq<char>>::empty());
    let langs = code_langs(&body);
    let title_out: Option<String> = match title {
        Some(t) => {
            let (a, b) = trim_bounds(&t, 0, t.len());
            assert(t@.subrange(0, t@.len() as int) =~= t@);
            if b == a {
                None
            } else {
                Some(string_from(&t))
            }
        },
        None => None,
    };
    let ghost idv = id@;
    let b = Block {
        id,
        title: title_out,
        tags,
        fm_tags,
        langs,
        locked,
        props,
        body: string_from(&body),
    };
    assert(b.id@ == idv);
    assert(crate::block::opt_str_view(b.title) == file_title(source@));
    assert(strs_view(b.fm_tags@) == file_fm_tags(source@));
    assert(strs_view(b.tags@) == file_tags(source@));
    assert(strs_view(b.langs@) == code_langs_of(body_of(source@)));
    assert(b.locked == file_locked(source@));
    assert(props_view(b.props@) == file_props(source@));
    assert(b.body@ == body_of(source@));
    b
}

// ---------------------------------------------------------------------------------------------
// Writing.
// ---------------------------------------------------------------------------------------------

/// The tags the writer emits: each trimmed, empties dropped.
pub open spec fn clean_tags(tags: Seq<Seq<char>>) -> Seq<Seq<char>>
    decreases tags.len(),
{
    if tags.len() == 0 {
        seq![]
    } else {
        clean_tags(tags.drop_last()) + nonempty(trim(tags.last()))
    }
}

/// The properties the writer emits: key trimmed; only well-formed, unmanaged keys.
pub open spec fn clean_props(props: Seq<(Seq<char>, Seq<char>)>) -> Seq<(Seq<char>, Seq<char>)>
    decreases props.len(),
{
    if props.len() == 0 {
        seq![]
    } else {
        let k = trim(props.last().0);
        clean_props(props.drop_last()) + if prop_key_ok(k) && !is_managed(k) {
            seq![(k, props.last().1)]
        } else {
            seq![]
        }
    }
}

/// `xs` joined with `", "`.
pub open spec fn join_comma(xs: Seq<Seq<char>>) -> Seq<char>
    decreases xs.len(),
{
    if xs.len() == 0 {
        seq![]
    } else if xs.len() == 1 {
        xs[0]
    } else {
        join_comma(xs.drop_last()) + seq![',', ' '] + xs.last()
    }
}

/// The frontmatter lines for the properties `ps`.
pub open spec fn prop_lines(ps: Seq<(Seq<char>, Seq<char>)>) -> Seq<char>
    decreases ps.len(),
{
    if ps.len() == 0 {
        seq![]
    } else {
        prop_lines(ps.drop_last()) + ps.last().0 + seq![':', ' '] + yaml_text(ps.last().1) + seq![
            '\n',
        ]
    }
}

/// `s` without leading newlines.
pub open spec fn trim_start_newlines(s: Seq<char>) -> Seq<char>
    decreases s.len(),
{
    if s.len() > 0 && s[0] == '\n' {
        trim_start_newlines(s.drop_first())
    } else {
        s
    }
}

/// The file text the writer produces.
pub open spec fn written_file(
    title: Option<Seq<char>>,
    tags: Seq<Seq<char>>,
    locked: bool,
    props: Seq<(Seq<char>, Seq<char>)>,
    body: Seq<char>,
) -> Seq<char> {
    let t = match title {
        Some(t) => trim(t),
        None => seq![],
    };
    let ct = clean_tags(tags);
    let cp = clean_props(props);
    if t.len() == 0 && ct.len() == 0 && !locked && cp.len() == 0 {
        body
    } else {
        seq!['-', '-', '-', '\n'] + (if t.len() > 0 {
            seq!['t', 'i', 't', 'l', 'e', ':', ' '] + yaml_text(t) + seq!['\n']
        } else {
            seq![]
        }) + (if ct.len() > 0 {
            seq!['t', 'a', 'g', 's', ':', ' ', '['] + join_comma(ct) + seq![']', '\n']
        } else {
            seq![]
        }) + (if locked {
            seq!['l', 'o', 'c', 'k', 'e', 'd', ':', ' ', 't', 'r', 'u', 'e', '\n']
        } else {
            seq![]
        }) + prop_lines(cp) + seq!['-', '-', '-', '\n', '\n'] + trim_start_newlines(body)
    }
}

pub open spec fn chars_views(v: Seq<Vec<char>>) -> Seq<Seq<char>> {
    v.map_values(|x: Vec<char>| x@)
}

pub open spec fn pair_views(v: Seq<(Vec<char>, Vec<char>)>) -> Seq<(Seq<char>, Seq<char>)> {
    v.map_values(|p: (Vec<char>, Vec<char>)| (p.0@, p.1@))
}

/// The tags the writer emits.
fn clean_tag_list(tags: &[String]) -> (r: Vec<Vec<char>>)
    ensures
        chars_views(r@) == clean_tags(strs_view(tags@)),
{
    let mut ct: Vec<Vec<char>> = Vec::new();
    let mut i: usize = 0;
    while i < tags.len()
        invariant
            i <= tags@.len(),
            chars_views(ct@) == clean_tags(strs_view(tags@.take(i as int))),
        decreases tags.len() - i,
    {
        assert(strs_view(tags@.take(i + 1)).drop_last() =~= strs_view(tags@.take(i as int)));
        let c = chars_of(tags[i].as_str());
        let (a, b) = trim_bounds(&c, 0, c.len());
        assert(c@.subrange(0, c@.len() as int) =~= c@);
        let ghost before = chars_views(ct@);
        if b > a {
            ct.push(copy_range(&c, a, b));
            assert(chars_views(ct@) =~= before + seq![trim(c@)]);
        } else {
            assert(before + Seq::<Seq<char>>::empty() =~= before);
        }
        i += 1;
    }
    assert(tags@.take(i as int) =~= tags@);
    ct
}

/// The properties the writer emits.
fn clean_prop_list(props: &[(String, String)]) -> (r: Vec<(Vec<char>, Vec<char>)>)
    ensures
        pair_views(r@) == clean_props(props_view(props@)),
{
    let mut cp: Vec<(Vec<char>, Vec<char>)> = Vec::new();
    let mut j: usize = 0;
    while j < props.len()
        invariant
            j <= props@.len(),
            pair_views(cp@) == clean_props(props_view(props@.take(j as int))),
        decreases props.len() - j,
    {
        assert(props_view(props@.take(j + 1)).drop_last() =~= props_view(props@.take(j as int)));
        let k = chars_of(props[j].0.as_str());
        let (a, b) = trim_bounds(&k, 0, k.len());
        assert(k@.subrange(0, k@.len() as int) =~= k@);
        let key = copy_range(&k, a, b);
        let ghost before = pair_views(cp@);
        if is_prop_key(&key) && !is_managed_key(&key) {
            let v = chars_of(props[j].1.as_str());
            cp.push((key, v));
            assert(pair_views(cp@) =~= before + seq![(trim(k@), props@[j as int].1@)]);
        } else {
            assert(before + Seq::<(Seq<char>, Seq<char>)>::empty() =~= before);
        }
        j += 1;
    }
    assert(props@.take(j as int) =~= props@);
    cp
}

/// The `title:` line for the (trimmed) title `t`, or nothing for an empty title.
fn title_part(t: &Vec<char>) -> (r: Vec<char>)
    ensures
        r@ == (if t@.len() > 0 {
            seq!['t', 'i', 't', 'l', 'e', ':', ' '] + yaml_text(t@) + seq!['\n']
        } else {
            seq![]
        }),
{
    let mut out: Vec<char> = Vec::new();
    if t.len() > 0 {
        out.push('t');
        out.push('i');
        out.push('t');
        out.push('l');
        out.push('e');
        out.push(':');
        out.push(' ');
        let y = yaml_scalar(t);
        push_all(&mut out, &y);
        out.push('\n');
        assert(out@ =~= seq!['t', 'i', 't', 'l', 'e', ':', ' '] + yaml_text(t@) + seq!['\n']);
    }
    out
}

/// The `tags: [..]` line for `ct`, or nothing when there are no tags.
fn tags_part(ct: &Vec<Vec<char>>) -> (r: Vec<char>)
    ensures
        r@ == (if ct@.len() > 0 {
            seq!['t', 'a', 'g', 's', ':', ' ', '['] + join_comma(chars_views(ct@)) + seq![']', '\n']
        } else {
            seq![]
        }),
{
    let mut out: Vec<char> = Vec::new();
    if ct.len() == 0 {
        return out;
    }
    let ghost cv = chars_views(ct@);
    let mut q: usize = 0;
    while q < ct.len()
        invariant
            q <= ct@.len(),
            cv == chars_views(ct@),
            out@ == join_comma(cv.take(q as int)),
        decreases ct.len() - q,
    {
        assert(cv.take(q + 1).drop_last() =~= cv.take(q as int));
        if q > 0 {
            out.push(',');
            out.push(' ');
        }
        let ghost before = out@;
        push_all(&mut out, &ct[q]);
        assert(cv.take(q + 1).last() == ct@[q as int]@);
        if q == 0 {
            assert(cv.take(1) =~= seq![cv[0]]);
            assert(out@ =~= join_comma(cv.take(q + 1)));
        } else {
            assert(out@ =~= join_comma(cv.take(q + 1)));
        }
        q += 1;
    }
    assert(cv.take(q as int) =~= cv);
    let mut r: Vec<char> = Vec::new();
    r.push('t');
    r.push('a');
    r.push('g');
    r.push('s');
    r.push(':');
    r.push(' ');
    r.push('[');
    push_all(&mut r, &out);
    r.push(']');
    r.push('\n');
    assert(r@ =~= seq!['t', 'a', 'g', 's', ':', ' ', '['] + join_comma(cv) + seq![']', '\n']);
    r
}

/// The property lines for `cp`.
fn props_part(cp: &Vec<(Vec<char>, Vec<char>)>) -> (r: Vec<char>)
    ensures
        r@ == prop_lines(pair_views(cp@)),
{
    let mut out: Vec<char> = Vec::new();
    let ghost pv = pair_views(cp@);
    let mut q: usize = 0;
    while q < cp.len()
        invariant
            q <= cp@.len(),
            pv == pair_views(cp@),
            out@ == prop_lines(pv.take(q as int)),
        decreases cp.len() - q,
    {
        assert(pv.take(q + 1).drop_last() =~= pv.take(q as int));
        assert(pv.take(q + 1).last() == (cp@[q as int].0@, cp@[q as int].1@));
        let ghost before = out@;
        push_all(&mut out, &cp[q].0);
        out.push(':');
        out.push(' ');
        let y = yaml_scalar(&cp[q].1);
        push_all(&mut out, &y);
        out.push('\n');
        assert(out@ =~= before + cp@[q as int].0@ + seq![':', ' '] + yaml_text(cp@[q as int].1@)
            + seq!['\n']);
        q += 1;
    }
    assert(pv.take(q as int) =~= pv);
    out
}

/// `body` without leading newlines.
fn body_part(bv: &Vec<char>) -> (r: Vec<char>)
    ensures
        r@ == trim_start_newlines(bv@),
{
    let mut b0: usize = 0;
    assert(bv@.skip(0) =~= bv@);
    while b0 < bv.len() && bv[b0] == '\n'
        invariant
            b0 <= bv@.len(),
            trim_start_newlines(bv@) == trim_start_newlines(bv@.skip(b0 as int)),
        decreases bv.len() - b0,
    {
        assert(bv@.skip(b0 as int).drop_first() =~= bv@.skip(b0 + 1));
        b0 += 1;
    }
    assert(bv@.skip(b0 as int) =~= bv@.subrange(b0 as int, bv@.len() as int));
    copy_range(bv, b0, bv.len())
}

/// Serialize a block's managed metadata and body back into file text. Frontmatter is emitted
/// only when there is a title, a tag, the `locked` flag, or a property; keys that are
/// malformed or managed are never emitted as properties.
pub fn write_block(
    title: Option<&str>,
    tags: &[String],
    locked: bool,
    props: &[(String, String)],
    body: &str,
) -> (r: String)
    ensures
        r@ == written_file(
            match title {
                Some(t) => Some(t@),
                None => None,
            },
            strs_view(tags@),
            locked,
            props_view(props@),
            body@,
        ),
{
    let ghost tspec: Option<Seq<char>> = match title {
        Some(t) => Some(t@),
        None => None,
    };
    let mut tv: Vec<char> = Vec::new();
    if let Some(t) = title {
        let c = chars_of(t);
        let (a, b) = trim_bounds(&c, 0, c.len());
        assert(c@.subrange(0, c@.len() as int) =~= c@);
        tv = copy_range(&c, a, b);
    }
    assert(tv@ == match tspec {
        Some(t) => trim(t),
        None => seq![],
    });
    let ct = clean_tag_list(tags);
    let cp = clean_prop_list(props);
    if tv.len() == 0 && ct.len() == 0 && !locked && cp.len() == 0 {
        return body.to_owned();
    }
    let mut out: Vec<char> = Vec::new();
    out.push('-');
    out.push('-');
    out.push('-');
    out.push('\n');
    let tp = title_part(&tv);
    push_all(&mut out, &tp);
    let gp = tags_part(&ct);
    push_all(&mut out, &gp);
    let mut lp: Vec<char> = Vec::new();
    if locked {
        lp = vec!['l', 'o', 'c', 'k', 'e', 'd', ':', ' ', 't', 'r', 'u', 'e', '\n'];
    }
    push_all(&mut out, &lp);
    let pp = props_part(&cp);
    push_all(&mut out, &pp);
    out.push('-');
    out.push('-');
    out.push('-');
    out.push('\n');
    out.push('\n');
    let bv = chars_of(body);
    let bp = body_part(&bv);
    push_all(&mut out, &bp);
    assert(lp@ =~= (if locked {
        seq!['l', 'o', 'c', 'k', 'e', 'd', ':', ' ', 't', 'r', 'u', 'e', '\n']
    } else {
        seq![]
    }));
    assert(out@ =~= seq!['-', '-', '-', '\n'] + tp@ + gp@ + lp@ + pp@ + seq![
        '-',
        '-',
        '-',
        '\n',
        '\n',
    ] + bp@);
    string_from(&out)
}

proof fn lemma_merge_ci(acc: Seq<Seq<char>>, xs: Seq<Seq<char>>)
    ensures
        merge_ci(acc, xs).len() >= acc.len(),
        merge_ci(acc, xs).take(acc.len() as int) == acc,
        forall|k: int|
            0 <= k < xs.len() ==> exists|j: int|
                0 <= j < merge_ci(acc, xs).len() && eq_ci(#[trigger] merge_ci(acc, xs)[j], #[trigger] xs[k]),
        forall|j: int| acc.len() <= j < merge_ci(acc, xs).len() ==> xs.contains(#[trigger] merge_ci(acc, xs)[j]),
    decreases xs.len(),
{
    let r = merge_ci(acc, xs);
    if xs.len() == 0 {
        assert(r.take(acc.len() as int) =~= acc);
    } else {
        let a2 = add_ci(acc, xs[0]);
        let rest = xs.drop_first();
        lemma_merge_ci(a2, rest);
        assert(r == merge_ci(a2, rest));
        assert(a2.take(acc.len() as int) =~= acc);
        assert(r.take(acc.len() as int) =~= r.take(a2.len() as int).take(acc.len() as int));
        assert forall|k: int| 0 <= k < xs.len() implies exists|j: int|
            0 <= j < r.len() && eq_ci(#[trigger] r[j], #[trigger] xs[k]) by {
            if k == 0 {
                if has_ci(acc, xs[0]) {
                    let j = choose|j: int| 0 <= j < acc.len() && eq_ci(#[trigger] acc[j], xs[0]);
                    assert(r[j] == r.take(acc.len() as int)[j]);
                    assert(eq_ci(r[j], xs[0]));
                } else {
                    let j = acc.len() as int;
                    assert(a2[j] == xs[0]);
                    assert(r[j] == r.take(a2.len() as int)[j]);
                    assert(eq_ci(r[j], xs[0]));
                }
            } else {
                assert(xs[k] == rest[k - 1]);
                let j = choose|j: int| 0 <= j < r.len() && eq_ci(#[trigger] r[j], #[trigger] rest[k - 1]);
                assert(eq_ci(r[j], xs[k]));
            }
        }
        assert forall|j: int| acc.len() <= j < r.len() implies xs.contains(#[trigger] r[j]) by {
            if j < a2.len() {
                assert(r[j] == r.take(a2.len() as int)[j]);
                assert(a2[j] == xs[0]);
                assert(xs[0] == r[j]);
            } else {
                assert(rest.contains(r[j]));
                let i = choose|i: int| 0 <= i < rest.len() && rest[i] == r[j];
                assert(xs[i + 1] == r[j]);
            }
        }
    }
}

/// A block file's tags are its frontmatter tags, first and as they are, then inline `#tags` of
/// its body: every inline tag is among them (ignoring ASCII case), and every tag after the
/// frontmatter's is one of the inline tags.
pub proof fn lemma_file_tags_merge(s: Seq<char>)
    ensures
        ({
            let fm = file_fm_tags(s);
            let inl = inline_tags_of(body_of(s));
            let all = file_tags(s);
            &&& all.len() >= fm.len()
            &&& all.take(fm.len() as int) == fm
            &&& forall|k: int|
                0 <= k < inl.len() ==> exists|j: int| 0 <= j < all.len() && eq_ci(#[trigger] all[j], #[trigger] inl[k])
            &&& forall|j: int| fm.len() <= j < all.len() ==> inl.contains(#[trigger] all[j])
        }),
{
    lemma_merge_ci(file_fm_tags(s), inline_tags_of(body_of(s)));
}

} // verus!
