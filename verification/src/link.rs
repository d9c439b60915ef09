//! Wiki directives inside a block's content: `[[target]]` (a reference) and `![[target]]`
//! (a transclusion, i.e. a child).
//!
//! A directive is `[[`, a non-empty run of characters other than `]` and newline, then `]]`,
//! optionally preceded by `!`. Directives are found left to right without overlap. A `|` in the
//! inner text separates the target from a display alias (`[[target|label]]`); both are
//! trimmed, and a directive whose target is empty is ignored. Directives that begin inside code
//! — an inline code span or a fenced code block — are ignored too.
//!
//! `Reference::span` is a byte range of the content, as for slicing a `str`; the scanning itself
//! works on characters.

use vstd::prelude::*;
use vstd::utf8::{encode_scalar, encode_utf8};
use crate::text::{
    chars_of, copy_range, find_char, find_char_from, has_prefix_str, lemma_find_char_from, starts_with,
    string_from, trim, trim_bounds, trim_start, trim_start_at, lemma_trim_start_skip,
};

verus! {

/// A wiki directive located within some block content.
#[derive(Debug, PartialEq, Eq)]
pub struct Reference {
    /// `true` for `![[...]]` (transclusion / child), `false` for `[[...]]` (plain reference).
    pub embed: bool,
    /// The raw target token (an id or a title), trimmed, before any `|` alias.
    pub target: String,
    /// Optional display alias following a `|`, trimmed.
    pub display: Option<String>,
    /// Byte range of the whole `[[...]]` / `![[...]]` token within the content.
    pub span: std::ops::Range<usize>,
}

/// The mathematical content of a [`Reference`].
pub struct RefSpec {
    pub embed: bool,
    pub target: Seq<char>,
    pub display: Option<Seq<char>>,
    pub start: int,
    pub end: int,
}

pub open spec fn opt_view(o: Option<String>) -> Option<Seq<char>> {
    match o {
        Some(s) => Some(s@),
        None => None,
    }
}

impl View for Reference {
    type V = RefSpec;

    open spec fn view(&self) -> RefSpec {
        RefSpec {
            embed: self.embed,
            target: self.target@,
            display: opt_view(self.display),
            start: self.span.start as int,
            end: self.span.end as int,
        }
    }
}

pub open spec fn refs_view(v: Seq<Reference>) -> Seq<RefSpec> {
    v.map_values(|r: Reference| r@)
}

/// The label shown for a directive: the alias if present, else the target.
pub open spec fn label_of(r: RefSpec) -> Seq<char> {
    match r.display {
        Some(d) => d,
        None => r.target,
    }
}

impl Clone for Reference {
    fn clone(&self) -> (r: Self)
        ensures
            r@ == self@,
    {
        Reference {
            embed: self.embed,
            target: self.target.clone(),
            display: match &self.display {
                Some(d) => Some(d.clone()),
                None => None,
            },
            span: std::ops::Range { start: self.span.start, end: self.span.end },
        }
    }
}

impl Reference {
    /// The label to show for this directive: the alias if present, else the raw target.
    pub fn label(&self) -> (r: &str)
        ensures
            r@ == label_of(self@),
    {
        match &self.display {
            Some(d) => d.as_str(),
            None => self.target.as_str(),
        }
    }
}

// ---------------------------------------------------------------------------------------------
// The code mask: which characters lie inside inline code spans or fenced code blocks.
// ---------------------------------------------------------------------------------------------

pub open spec fn all_bools(n: int, b: bool) -> Seq<bool> {
    Seq::new(n as nat, |k: int| b)
}

/// The first index in `[i, hi)` that is not a backtick, or `hi`.
pub open spec fn tick_run_end(s: Seq<char>, i: int, hi: int) -> int
    decreases hi - i,
{
    if i < hi && s[i] == '`' {
        tick_run_end(s, i + 1, hi)
    } else {
        i
    }
}

pub proof fn lemma_tick_run_end(s: Seq<char>, i: int, hi: int)
    requires
        i <= hi,
    ensures
        i <= tick_run_end(s, i, hi) <= hi,
    decreases hi - i,
{
    if i < hi && s[i] == '`' {
        lemma_tick_run_end(s, i + 1, hi);
    }
}

/// Searching `[j, hi)` for a run of exactly `run` backticks: the index just past it.
pub open spec fn find_close(s: Seq<char>, j: int, hi: int, run: int) -> Option<int>
    decreases hi - j,
    via find_close_decreases
{
    if j >= hi {
        None
    } else if s[j] == '`' {
        let e = tick_run_end(s, j, hi);
        if e - j == run {
            Some(e)
        } else {
            find_close(s, e, hi, run)
        }
    } else {
        find_close(s, j + 1, hi, run)
    }
}

#[via_fn]
proof fn find_close_decreases(s: Seq<char>, j: int, hi: int, run: int) {
    if j < hi && s[j] == '`' {
        lemma_tick_run_end(s, j + 1, hi);
    }
}

pub proof fn lemma_find_close(s: Seq<char>, j: int, hi: int, run: int)
    requires
        j <= hi,
    ensures
        find_close(s, j, hi, run) matches Some(e) ==> j < e <= hi,
    decreases hi - j,
{
    if j < hi {
        if s[j] == '`' {
            lemma_tick_run_end(s, j + 1, hi);
            let e = tick_run_end(s, j, hi);
            if e - j != run {
                lemma_find_close(s, e, hi, run);
            }
        } else {
            lemma_find_close(s, j + 1, hi, run);
        }
    }
}

/// The inline-code mask of the line `s[i..hi]`: a backtick run opens a code span that closes at
/// the next run of the same length (both runs included); an unclosed run leaves the rest of the
/// line unmarked.
pub open spec fn inline_mask(s: Seq<char>, i: int, hi: int) -> Seq<bool>
    decreases hi - i,
    via inline_mask_decreases
{
    if i >= hi {
        seq![]
    } else if s[i] == '`' {
        let re = tick_run_end(s, i, hi);
        match find_close(s, re, hi, re - i) {
            Some(end) => all_bools(end - i, true) + inline_mask(s, end, hi),
            None => all_bools(hi - i, false),
        }
    } else {
        seq![false] + inline_mask(s, i + 1, hi)
    }
}

#[via_fn]
proof fn inline_mask_decreases(s: Seq<char>, i: int, hi: int) {
    if i < hi && s[i] == '`' {
        lemma_tick_run_end(s, i, hi);
        let re = tick_run_end(s, i, hi);
        lemma_find_close(s, re, hi, re - i);
    }
}

pub proof fn lemma_inline_mask_len(s: Seq<char>, i: int, hi: int)
    requires
        i <= hi,
    ensures
        inline_mask(s, i, hi).len() == hi - i,
    decreases hi - i,
{
    if i < hi {
        if s[i] == '`' {
            lemma_tick_run_end(s, i, hi);
            let re = tick_run_end(s, i, hi);
            lemma_find_close(s, re, hi, re - i);
            if let Some(end) = find_close(s, re, hi, re - i) {
                lemma_inline_mask_len(s, end, hi);
            }
        } else {
            lemma_inline_mask_len(s, i + 1, hi);
        }
    }
}

pub open spec fn ticks3() -> Seq<char> {
    seq!['`', '`', '`']
}

pub open spec fn tildes3() -> Seq<char> {
    seq!['~', '~', '~']
}

/// The end of the piece `str::split_inclusive('\n')` yields from `i`: just past the next `\n`,
/// or the end of `s`.
pub open spec fn piece_end(s: Seq<char>, i: int) -> int {
    let e = find_char_from(s, '\n', i);
    if e < s.len() {
        e + 1
    } else {
        s.len() as int
    }
}

/// Whether the line `s[i..e]` is a code fence (after leading whitespace, it starts with three
/// backticks or three tildes).
pub open spec fn is_fence_line(s: Seq<char>, i: int, e: int) -> bool {
    let t = trim_start(s.subrange(i, e));
    starts_with(t, ticks3()) || starts_with(t, tildes3())
}

/// The code mask of `s[i..]`, line by line; `in_fence` says whether a fenced block is open.
pub open spec fn mask_lines(s: Seq<char>, i: int, in_fence: bool) -> Seq<bool>
    decreases s.len() - i,
    via mask_lines_decreases
{
    if i < 0 || i >= s.len() {
        seq![]
    } else {
        let e = piece_end(s, i);
        if is_fence_line(s, i, e) {
            all_bools(e - i, true) + mask_lines(s, e, !in_fence)
        } else if in_fence {
            all_bools(e - i, true) + mask_lines(s, e, in_fence)
        } else {
            inline_mask(s, i, e) + mask_lines(s, e, in_fence)
        }
    }
}

#[via_fn]
proof fn mask_lines_decreases(s: Seq<char>, i: int, in_fence: bool) {
    if 0 <= i < s.len() {
        lemma_find_char_from(s, '\n', i);
    }
}

/// The code mask of `s`: `true` at every character inside code.
pub open spec fn code_mask(s: Seq<char>) -> Seq<bool> {
    mask_lines(s, 0, false)
}

pub proof fn lemma_mask_lines_len(s: Seq<char>, i: int, in_fence: bool)
    requires
        0 <= i <= s.len(),
    ensures
        mask_lines(s, i, in_fence).len() == s.len() - i,
    decreases s.len() - i,
{
    if i < s.len() {
        lemma_find_char_from(s, '\n', i);
        let e = piece_end(s, i);
        lemma_inline_mask_len(s, i, e);
        if is_fence_line(s, i, e) {
            lemma_mask_lines_len(s, e, !in_fence);
        } else {
            lemma_mask_lines_len(s, e, in_fence);
        }
    }
}

fn tick_run_end_exec(s: &Vec<char>, i: usize, hi: usize) -> (r: usize)
    requires
        i <= hi <= s@.len(),
    ensures
        r == tick_run_end(s@, i as int, hi as int),
        i <= r <= hi,
        i < hi && s@[i as int] == '`' ==> i < r,
{
    let mut k = i;
    while k < hi && s[k] == '`'
        invariant
            i <= k <= hi <= s@.len(),
            tick_run_end(s@, i as int, hi as int) == tick_run_end(s@, k as int, hi as int),
        decreases hi - k,
    {
        k += 1;
    }
    k
}

fn find_close_exec(s: &Vec<char>, j0: usize, hi: usize, run: usize) -> (r: Option<usize>)
    requires
        j0 <= hi <= s@.len(),
    ensures
        r == (match find_close(s@, j0 as int, hi as int, run as int) {
            Some(e) => Some(e as usize),
            None => None::<usize>,
        }),
        r matches Some(e) ==> j0 < e <= hi,
        find_close(s@, j0 as int, hi as int, run as int) matches Some(e) ==> j0 < e <= hi,
{
    proof {
        lemma_find_close(s@, j0 as int, hi as int, run as int);
    }
    let mut j = j0;
    while j < hi
        invariant
            j0 <= j <= hi <= s@.len(),
            find_close(s@, j0 as int, hi as int, run as int) == find_close(
                s@,
                j as int,
                hi as int,
                run as int,
            ),
        decreases hi - j,
    {
        if s[j] == '`' {
            let e = tick_run_end_exec(s, j, hi);
            if e - j == run {
                return Some(e);
            }
            j = e;
        } else {
            j += 1;
        }
    }
    None
}

/// Append `n` copies of `b` to `mask`.
fn push_bools(mask: &mut Vec<bool>, n: usize, b: bool)
    ensures
        final(mask)@ == old(mask)@ + all_bools(n as int, b),
{
    let ghost before = mask@;
    let mut k: usize = 0;
    while k < n
        invariant
            k <= n,
            mask@ == before + all_bools(k as int, b),
        decreases n - k,
    {
        mask.push(b);
        assert(mask@ =~= before + all_bools(k + 1, b));
        k += 1;
    }
}

/// Append the inline-code mask of the line `s[lo..hi]` to `mask`.
fn mark_inline_code(s: &Vec<char>, lo: usize, hi: usize, mask: &mut Vec<bool>)
    requires
        lo <= hi <= s@.len(),
    ensures
        final(mask)@ == old(mask)@ + inline_mask(s@, lo as int, hi as int),
{
    let ghost start = mask@;
    let mut i = lo;
    while i < hi
        invariant
            lo <= i <= hi <= s@.len(),
            start == old(mask)@,
            mask@ + inline_mask(s@, i as int, hi as int) == start + inline_mask(
                s@,
                lo as int,
                hi as int,
            ),
        decreases hi - i,
    {
        let ghost before = mask@;
        if s[i] == '`' {
            let re = tick_run_end_exec(s, i, hi);
            match find_close_exec(s, re, hi, re - i) {
                Some(end) => {
                    assert(inline_mask(s@, i as int, hi as int) == all_bools(end - i, true)
                        + inline_mask(s@, end as int, hi as int));
                    push_bools(mask, end - i, true);
                    let ghost tail = inline_mask(s@, end as int, hi as int);
                    assert((before + all_bools(end - i, true)) + tail =~= before + (all_bools(
                        end - i,
                        true,
                    ) + tail));
                    i = end;
                },
                None => {
                    assert(inline_mask(s@, i as int, hi as int) == all_bools(hi - i, false));
                    push_bools(mask, hi - i, false);
                    assert(mask@ == before + inline_mask(s@, i as int, hi as int));
                    assert(mask@ == start + inline_mask(s@, lo as int, hi as int));
                    return ;
                },
            }
        } else {
            mask.push(false);
            let ghost tail = inline_mask(s@, i + 1, hi as int);
            assert(inline_mask(s@, i as int, hi as int) == seq![false] + tail);
            assert(before.push(false) + tail =~= before + (seq![false] + tail));
            i += 1;
        }
    }
    assert(mask@ + inline_mask(s@, i as int, hi as int) =~= mask@);
}

/// Whether `s[lo..hi]` is a code-fence line.
fn fence_line(s: &Vec<char>, lo: usize, hi: usize) -> (r: bool)
    requires
        lo <= hi <= s@.len(),
    ensures
        r == is_fence_line(s@, lo as int, hi as int),
{
    let a = trim_start_at(s, lo, hi);
    let t = has_prefix_str(s, a, hi, "```");
    let d = has_prefix_str(s, a, hi, "~~~");
    proof {
        reveal_strlit("```");
        reveal_strlit("~~~");
        assert("```"@ =~= ticks3());
        assert("~~~"@ =~= tildes3());
    }
    t || d
}

/// The code mask of `s` (see [`code_mask`]).
pub fn code_mask_exec(s: &Vec<char>) -> (mask: Vec<bool>)
    ensures
        mask@ == code_mask(s@),
        mask@.len() == s@.len(),
{
    let mut mask: Vec<bool> = Vec::new();
    let mut in_fence = false;
    let mut i: usize = 0;
    while i < s.len()
        invariant
            i <= s@.len(),
            mask@ + mask_lines(s@, i as int, in_fence) == code_mask(s@),
        decreases s.len() - i,
    {
        let ghost before = mask@;
        let ghost fence_before = in_fence;
        let f = find_char(s, '\n', i, s.len());
        let e = if f < s.len() {
            f + 1
        } else {
            s.len()
        };
        if fence_line(s, i, e) {
            push_bools(&mut mask, e - i, true);
            in_fence = !in_fence;
        } else if in_fence {
            push_bools(&mut mask, e - i, true);
        } else {
            mark_inline_code(s, i, e, &mut mask);
        }
        let ghost tail = mask_lines(s@, e as int, in_fence);
        assert(mask@ + tail =~= before + mask_lines(s@, i as int, fence_before));
        i = e;
    }
    proof {
        lemma_mask_lines_len(s@, 0, false);
    }
    assert(mask@ + mask_lines(s@, i as int, in_fence) =~= mask@);
    mask
}

// ---------------------------------------------------------------------------------------------
// Directives.
// ---------------------------------------------------------------------------------------------

/// The first index `>= i` holding `]` or a newline, or the end of `s`.
pub open spec fn run_end(s: Seq<char>, i: int) -> int
    decreases s.len() - i,
{
    if 0 <= i < s.len() && s[i] != ']' && s[i] != '\n' {
        run_end(s, i + 1)
    } else {
        i
    }
}

pub proof fn lemma_run_end(s: Seq<char>, i: int)
    requires
        0 <= i,
    ensures
        i <= run_end(s, i),
        i <= s.len() ==> run_end(s, i) <= s.len(),
        forall|k: int| i <= k < run_end(s, i) ==> s[k] != ']' && s[k] != '\n',
    decreases s.len() - i,
{
    if 0 <= i < s.len() && s[i] != ']' && s[i] != '\n' {
        lemma_run_end(s, i + 1);
    }
}

/// If `[[X]]` starts at `q` (X a non-empty run without `]` or newline): the index just past it.
pub open spec fn bracket_end(s: Seq<char>, q: int) -> Option<int> {
    if 0 <= q && q + 1 < s.len() && s[q] == '[' && s[q + 1] == '[' {
        let r = run_end(s, q + 2);
        if r > q + 2 && r + 1 < s.len() && s[r] == ']' && s[r + 1] == ']' {
            Some(r + 2)
        } else {
            None
        }
    } else {
        None
    }
}

/// The directive starting at `p`, if any: whether it is an embed, and the index just past it.
pub open spec fn directive_at(s: Seq<char>, p: int) -> Option<(bool, int)> {
    if 0 <= p < s.len() && s[p] == '!' && bracket_end(s, p + 1) is Some {
        Some((true, bracket_end(s, p + 1)->0))
    } else if bracket_end(s, p) is Some {
        Some((false, bracket_end(s, p)->0))
    } else {
        None
    }
}

pub proof fn lemma_directive_at(s: Seq<char>, p: int)
    requires
        0 <= p,
    ensures
        directive_at(s, p) matches Some((embed, end)) ==> p + (if embed {
            6int
        } else {
            5int
        }) <= end <= s.len(),
{
    lemma_run_end(s, p + 2);
    lemma_run_end(s, p + 3);
}

/// The reference built from the directive at `[start, end)` whose inner text is `[lo, hi)`.
pub open spec fn make_ref(s: Seq<char>, embed: bool, start: int, end: int, lo: int, hi: int) -> RefSpec {
    let inner = s.subrange(lo, hi);
    let k = find_char_from(inner, '|', 0);
    if k < inner.len() {
        RefSpec {
            embed,
            target: trim(inner.take(k)),
            display: Some(trim(inner.skip(k + 1))),
            start,
            end,
        }
    } else {
        RefSpec { embed, target: trim(inner), display: None, start, end }
    }
}

/// The reference for the directive at `p` (which must exist).
pub open spec fn ref_at(s: Seq<char>, p: int) -> RefSpec {
    let (embed, end) = directive_at(s, p)->0;
    let lo = if embed {
        p + 3
    } else {
        p + 2
    };
    make_ref(s, embed, p, end, lo, end - 2)
}

/// Whether the directive at `p` is kept: it does not begin inside code and has a target.
pub open spec fn keeps(s: Seq<char>, mask: Seq<bool>, p: int) -> bool {
    !(p < mask.len() && mask[p]) && ref_at(s, p).target.len() > 0
}

/// The directives of `s[p..]`, in order, given the code mask.
pub open spec fn refs_from(s: Seq<char>, mask: Seq<bool>, p: int) -> Seq<RefSpec>
    decreases s.len() - p,
    via refs_from_decreases
{
    if p < 0 || p >= s.len() {
        seq![]
    } else {
        match directive_at(s, p) {
            Some((_, end)) => (if keeps(s, mask, p) {
                seq![ref_at(s, p)]
            } else {
                seq![]
            }) + refs_from(s, mask, end),
            None => refs_from(s, mask, p + 1),
        }
    }
}

#[via_fn]
proof fn refs_from_decreases(s: Seq<char>, mask: Seq<bool>, p: int) {
    if 0 <= p < s.len() {
        lemma_directive_at(s, p);
    }
}

/// Every directive of `s`, in source order, excluding those inside code.
pub open spec fn references_of(s: Seq<char>) -> Seq<RefSpec> {
    refs_from(s, code_mask(s), 0)
}

fn run_end_exec(s: &Vec<char>, i: usize) -> (r: usize)
    requires
        i <= s@.len(),
    ensures
        r == run_end(s@, i as int),
        i <= r <= s@.len(),
{
    proof {
        lemma_run_end(s@, i as int);
    }
    let mut k = i;
    while k < s.len() && s[k] != ']' && s[k] != '\n'
        invariant
            i <= k <= s@.len(),
            run_end(s@, i as int) == run_end(s@, k as int),
        decreases s.len() - k,
    {
        k += 1;
    }
    k
}

fn bracket_end_exec(s: &Vec<char>, q: usize) -> (r: Option<usize>)
    requires
        q <= s@.len(),
    ensures
        r == (match bracket_end(s@, q as int) {
            Some(e) => Some(e as usize),
            None => None::<usize>,
        }),
{
    proof {
        lemma_run_end(s@, q + 2);
    }
    if s.len() >= 2 && q < s.len() - 1 && s[q] == '[' && s[q + 1] == '[' {
        let r = run_end_exec(s, q + 2);
        if r > q + 2 && r < s.len() - 1 && s[r] == ']' && s[r + 1] == ']' {
            return Some(r + 2);
        }
    }
    None
}

fn directive_at_exec(s: &Vec<char>, p: usize) -> (r: Option<(bool, usize)>)
    requires
        p < s@.len(),
    ensures
        r == (match directive_at(s@, p as int) {
            Some((b, e)) => Some((b, e as usize)),
            None => None::<(bool, usize)>,
        }),
{
    proof {
        lemma_run_end(s@, p + 2);
        lemma_run_end(s@, p + 1);
    }
    if s[p] == '!' && p < s.len() - 1 {
        let q = p + 1;
        if let Some(e) = bracket_end_exec(s, q) {
            return Some((true, e));
        }
    }
    match bracket_end_exec(s, p) {
        Some(e) => Some((false, e)),
        None => None,
    }
}

/// Build the reference for the directive at `[start, end)` with inner text `[lo, hi)`.
fn make_reference(s: &Vec<char>, embed: bool, start: usize, end: usize, lo: usize, hi: usize) -> (r:
    (Reference, bool))
    requires
        lo <= hi <= s@.len(),
    ensures
        r.0@ == make_ref(s@, embed, start as int, end as int, lo as int, hi as int),
        r.1 == (r.0@.target.len() > 0),
{
    let ghost inner = s@.subrange(lo as int, hi as int);
    let bar = find_char(s, '|', lo, hi);
    proof {
        lemma_find_char_from(inner, '|', 0);
        // The first bar of `inner` is the first bar of `s[lo..hi]`, shifted.
        assert forall|k: int| 0 <= k < bar - lo implies inner[k] != '|' by {
            assert(inner[k] == s@[lo + k]);
        }
        if bar < hi {
            assert(inner[bar - lo] == '|');
        }
        lemma_find_first_bar(inner, (bar - lo) as int);
    }
    if bar < hi {
        let (a, b) = trim_bounds(s, lo, bar);
        let (c, d) = trim_bounds(s, bar + 1, hi);
        assert(inner.take(bar - lo) =~= s@.subrange(lo as int, bar as int));
        assert(inner.skip(bar - lo + 1) =~= s@.subrange(bar + 1, hi as int));
        let t = copy_range(s, a, b);
        let dv = copy_range(s, c, d);
        (Reference {
            embed,
            target: string_from(&t),
            display: Some(string_from(&dv)),
            span: std::ops::Range { start, end },
        }, b > a)
    } else {
        let (a, b) = trim_bounds(s, lo, hi);
        let t = copy_range(s, a, b);
        (Reference {
            embed,
            target: string_from(&t),
            display: None,
            span: std::ops::Range { start, end },
        }, b > a)
    }
}

proof fn lemma_find_first_bar(inner: Seq<char>, k: int)
    requires
        0 <= k <= inner.len(),
        forall|j: int| 0 <= j < k ==> inner[j] != '|',
        k < inner.len() ==> inner[k] == '|',
    ensures
        find_char_from(inner, '|', 0) == k,
{
    lemma_find_char_from(inner, '|', 0);
    let f = find_char_from(inner, '|', 0);
    if f < k {
        assert(inner[f] == '|');
    }
    if k < f {
        assert(inner[k] != '|');
    }
}

/// Every directive in the content `s` (as characters), in source order, excluding directives
/// that begin inside code.
pub fn references_in(s: &Vec<char>) -> (r: Vec<Reference>)
    ensures
        refs_view(r@) == references_of(s@),
{
    let mask = code_mask_exec(s);
    let mut out: Vec<Reference> = Vec::new();
    let mut p: usize = 0;
    while p < s.len()
        invariant
            p <= s@.len(),
            mask@ == code_mask(s@),
            mask@.len() == s@.len(),
            refs_view(out@) + refs_from(s@, mask@, p as int) == references_of(s@),
        decreases s.len() - p,
    {
        let ghost before = refs_view(out@);
        proof {
            lemma_directive_at(s@, p as int);
        }
        match directive_at_exec(s, p) {
            Some((embed, end)) => {
                let lo = if embed {
                    p + 3
                } else {
                    p + 2
                };
                let (r, nonempty) = make_reference(s, embed, p, end, lo, end - 2);
                if !mask[p] && nonempty {
                    out.push(r);
                    assert(refs_view(out@) =~= before.push(ref_at(s@, p as int)));
                }
                let ghost tail = refs_from(s@, mask@, end as int);
                assert(refs_view(out@) + tail =~= before + refs_from(s@, mask@, p as int));
                p = end;
            },
            None => {
                p += 1;
            },
        }
    }
    assert(refs_view(out@) + refs_from(s@, mask@, p as int) =~= refs_view(out@));
    out
}

/// The number of bytes that encode the first `k` characters of `s` in UTF-8.
pub open spec fn byte_offset(s: Seq<char>, k: int) -> int {
    encode_utf8(s.take(k)).len() as int
}

/// The directives `rs` of `s` with their spans counted in bytes.
pub open spec fn in_bytes(s: Seq<char>, rs: Seq<RefSpec>) -> Seq<RefSpec> {
    rs.map_values(
        |r: RefSpec|
            RefSpec {
                embed: r.embed,
                target: r.target,
                display: r.display,
                start: byte_offset(s, r.start),
                end: byte_offset(s, r.end),
            },
    )
}

pub proof fn lemma_encode_append(a: Seq<char>, b: Seq<char>)
    ensures
        encode_utf8(a + b) == encode_utf8(a) + encode_utf8(b),
    decreases a.len(),
{
    if a.len() == 0 {
        assert(a + b =~= b);
        assert(encode_utf8(a) =~= Seq::<u8>::empty());
        assert(Seq::<u8>::empty() + encode_utf8(b) =~= encode_utf8(b));
    } else {
        lemma_encode_append(a.drop_first(), b);
        assert((a + b).drop_first() =~= a.drop_first() + b);
        assert((a + b)[0] == a[0]);
        assert(encode_utf8(a + b) =~= encode_utf8(a) + encode_utf8(b));
    }
}

/// The number of bytes `c` takes in UTF-8.
pub fn char_width(c: char) -> (r: usize)
    ensures
        r == encode_utf8(seq![c]).len(),
        1 <= r <= 4,
{
    let n = c as u32;
    assert(seq![c].drop_first() =~= Seq::<char>::empty());
    assert(encode_utf8(Seq::<char>::empty()) =~= Seq::<u8>::empty());
    assert(encode_scalar(c as u32) + Seq::<u8>::empty() =~= encode_scalar(c as u32));
    assert(encode_utf8(seq![c]) =~= encode_scalar(c as u32));
    if n <= 0x7f {
        1
    } else if n <= 0x7ff {
        2
    } else if n <= 0xffff {
        3
    } else {
        4
    }
}

/// The byte offset of every character index `0..=s.len()` of `s`.
fn byte_offsets(s: &Vec<char>, total: usize) -> (r: Vec<usize>)
    requires
        encode_utf8(s@).len() == total,
    ensures
        r@.len() == s@.len() + 1,
        forall|k: int| 0 <= k <= s@.len() ==> #[trigger] r@[k] == byte_offset(s@, k),
{
    let mut out: Vec<usize> = Vec::new();
    let mut acc: usize = 0;
    out.push(0);
    assert(s@.take(0) =~= Seq::<char>::empty());
    let mut i: usize = 0;
    while i < s.len()
        invariant
            i <= s@.len(),
            encode_utf8(s@).len() == total,
            out@.len() == i + 1,
            acc == byte_offset(s@, i as int),
            forall|k: int| 0 <= k <= i ==> #[trigger] out@[k] == byte_offset(s@, k),
        decreases s.len() - i,
    {
        let w = char_width(s[i]);
        proof {
            assert(s@.take(i + 1) =~= s@.take(i as int) + seq![s@[i as int]]);
            lemma_encode_append(s@.take(i as int), seq![s@[i as int]]);
            assert(s@ =~= s@.take(i + 1) + s@.skip(i + 1));
            lemma_encode_append(s@.take(i + 1), s@.skip(i + 1));
        }
        acc = acc + w;
        out.push(acc);
        i += 1;
    }
    out
}

/// Every directive in `content`, in source order. Directives that begin inside an inline code
/// span or a fenced code block are ignored, so literal `![[id]]` examples shown as code are not
/// parsed as real links. Spans are byte ranges of `content`.
pub fn extract_references(content: &str) -> (r: Vec<Reference>)
    ensures
        refs_view(r@) == in_bytes(content@, references_of(content@)),
{
    let s = chars_of(content);
    let refs = references_in(&s);
    let total = content.as_bytes().len();
    let offs = byte_offsets(&s, total);
    proof {
        crate::block::lemma_references_placed(s@);
    }
    let ghost rs = refs_view(refs@);
    let mut out: Vec<Reference> = Vec::new();
    let mut i: usize = 0;
    while i < refs.len()
        invariant
            i <= refs@.len(),
            rs == refs_view(refs@),
            rs == references_of(s@),
            s@ == content@,
            crate::block::refs_well_placed(s@, rs, 0),
            offs@.len() == s@.len() + 1,
            forall|k: int| 0 <= k <= s@.len() ==> #[trigger] offs@[k] == byte_offset(s@, k),
            refs_view(out@) == in_bytes(s@, rs).take(i as int),
        decreases refs.len() - i,
    {
        let r = &refs[i];
        assert(rs[i as int] == r@);
        assert(0 <= rs[i as int].start < rs[i as int].end <= s@.len());
        let display = match &r.display {
            Some(d) => Some(d.clone()),
            None => None,
        };
        let b = Reference {
            embed: r.embed,
            target: r.target.clone(),
            display,
            span: std::ops::Range { start: offs[r.span.start], end: offs[r.span.end] },
        };
        let ghost before = refs_view(out@);
        out.push(b);
        assert(refs_view(out@) =~= before.push(b@));
        assert(in_bytes(s@, rs).take(i + 1) =~= in_bytes(s@, rs).take(i as int).push(in_bytes(s@, rs)[i as int]));
        i += 1;
    }
    assert(in_bytes(s@, rs).take(rs.len() as int) =~= in_bytes(s@, rs));
    out
}

// ---------------------------------------------------------------------------------------------
// Inline code spans mask only what they enclose.
// ---------------------------------------------------------------------------------------------

/// Whether `s` holds neither a backtick nor a line break.
pub open spec fn plain_text(s: Seq<char>) -> bool {
    forall|k: int| 0 <= k < s.len() ==> #[trigger] s[k] != '`' && s[k] != '\n'
}

proof fn lemma_find_close_skips(s: Seq<char>, j: int, b: int, hi: int, run: int)
    requires
        j <= b <= hi,
        forall|k: int| j <= k < b ==> #[trigger] s[k] != '`',
    ensures
        find_close(s, j, hi, run) == find_close(s, b, hi, run),
    decreases b - j,
{
    if j < b {
        lemma_find_close_skips(s, j + 1, b, hi, run);
    }
}

proof fn lemma_inline_mask_plain(s: Seq<char>, i: int, hi: int)
    requires
        i <= hi,
        forall|k: int| i <= k < hi ==> #[trigger] s[k] != '`',
    ensures
        inline_mask(s, i, hi) == all_bools(hi - i, false),
    decreases hi - i,
{
    if i < hi {
        lemma_inline_mask_plain(s, i + 1, hi);
        assert(seq![false] + all_bools(hi - (i + 1), false) =~= all_bools(hi - i, false));
    } else {
        assert(all_bools(hi - i, false) =~= Seq::<bool>::empty());
    }
}

/// An inline code span masks exactly itself: in a line made of a code span `` `x` `` followed
/// by text `c` (neither holding a backtick or a line break), the span's characters are code and
/// every character of `c` is not, so a directive in `c` is read as a link.
pub proof fn lemma_code_span_masks_only_itself(x: Seq<char>, c: Seq<char>)
    requires
        x.len() > 0,
        plain_text(x),
        plain_text(c),
    ensures
        code_mask(seq!['`'] + x + seq!['`'] + c) == all_bools(x.len() + 2int, true) + all_bools(
            c.len() as int,
            false,
        ),
        forall|p: int|
            x.len() + 2 <= p < x.len() + 2 + c.len() ==> !(#[trigger] code_mask(
                seq!['`'] + x + seq!['`'] + c,
            )[p]),
{
    let s = seq!['`'] + x + seq!['`'] + c;
    let n = s.len() as int;
    let m = x.len() as int;
    assert forall|k: int| 0 <= k < n && k != 0 && k != m + 1 implies #[trigger] s[k] != '`' && s[k] != '\n' by {
        if 1 <= k <= m {
            assert(s[k] == x[k - 1]);
        } else {
            assert(s[k] == c[k - m - 2]);
        }
    }
    assert(s[0] == '`');
    assert(s[m + 1] == '`');
    assert(s[1] == x[0]);
    // The whole text is one line.
    lemma_find_char_from(s, '\n', 0);
    assert(find_char_from(s, '\n', 0) == n);
    assert(piece_end(s, 0) == n);
    // It is no fence line.
    assert(trim_start(s.subrange(0, n)) == s.subrange(0, n));
    assert(s.subrange(0, n).take(3)[1] == s[1]);
    assert(!starts_with(s.subrange(0, n), ticks3()));
    assert(!starts_with(s.subrange(0, n), tildes3()));
    // The span: one backtick, closed by the one after `x`.
    assert(tick_run_end(s, 1, n) == 1);
    assert(tick_run_end(s, 0, n) == 1);
    lemma_find_close_skips(s, 1, m + 1, n, 1);
    assert(tick_run_end(s, m + 2, n) == m + 2);
    assert(tick_run_end(s, m + 1, n) == m + 2);
    assert(find_close(s, m + 1, n, 1) == Some(m + 2));
    lemma_inline_mask_plain(s, m + 2, n);
    assert(inline_mask(s, 0, n) == all_bools(m + 2, true) + inline_mask(s, m + 2, n));
    assert(mask_lines(s, n, false) =~= Seq::<bool>::empty());
    assert(code_mask(s) =~= all_bools(m + 2, true) + all_bools(c.len() as int, false));
}

// ---------------------------------------------------------------------------------------------
// Directives after a code span are read as if the span were not there.
// ---------------------------------------------------------------------------------------------

/// `rs` with every span moved `d` characters to the right.
pub open spec fn shifted(rs: Seq<RefSpec>, d: int) -> Seq<RefSpec> {
    rs.map_values(|r: RefSpec| RefSpec { start: r.start + d, end: r.end + d, ..r })
}

proof fn lemma_run_end_shift(a: Seq<char>, c: Seq<char>, q: int)
    requires
        0 <= q,
    ensures
        run_end(a + c, q + a.len()) == run_end(c, q) + a.len(),
    decreases c.len() - q,
{
    let s = a + c;
    if q < c.len() {
        assert(s[q + a.len()] == c[q]);
        if c[q] != ']' && c[q] != '\n' {
            lemma_run_end_shift(a, c, q + 1);
        }
    }
}

proof fn lemma_bracket_end_shift(a: Seq<char>, c: Seq<char>, q: int)
    requires
        0 <= q,
    ensures
        bracket_end(a + c, q + a.len()) == match bracket_end(c, q) {
            Some(e) => Some(e + a.len()),
            None => None,
        },
{
    let s = a + c;
    let n = a.len() as int;
    if q + 1 < c.len() {
        assert(s[q + n] == c[q] && s[q + 1 + n] == c[q + 1]);
        lemma_run_end_shift(a, c, q + 2);
        lemma_run_end(c, q + 2);
        let r = run_end(c, q + 2);
        if r + 1 < c.len() {
            assert(s[r + n] == c[r] && s[r + 1 + n] == c[r + 1]);
        }
    }
}

proof fn lemma_directive_at_shift(a: Seq<char>, c: Seq<char>, p: int)
    requires
        0 <= p,
    ensures
        directive_at(a + c, p + a.len()) == match directive_at(c, p) {
            Some((embed, e)) => Some((embed, e + a.len())),
            None => None,
        },
{
    let s = a + c;
    let n = a.len() as int;
    lemma_bracket_end_shift(a, c, p + 1);
    lemma_bracket_end_shift(a, c, p);
    if p < c.len() {
        assert(s[p + n] == c[p]);
    }
}

proof fn lemma_ref_at_shift(a: Seq<char>, c: Seq<char>, p: int)
    requires
        0 <= p,
        directive_at(c, p) is Some,
    ensures
        ref_at(a + c, p + a.len()) == shifted(seq![ref_at(c, p)], a.len() as int)[0],
{
    let s = a + c;
    let n = a.len() as int;
    lemma_directive_at_shift(a, c, p);
    lemma_directive_at(c, p);
    let (embed, end) = directive_at(c, p)->0;
    let lo = if embed { p + 3 } else { p + 2 };
    assert(s.subrange(lo + n, end - 2 + n) =~= c.subrange(lo, end - 2));
}

proof fn lemma_refs_from_shift(a: Seq<char>, c: Seq<char>, ma: Seq<bool>, mc: Seq<bool>, p: int)
    requires
        0 <= p,
        ma.len() == a.len(),
        mc.len() == c.len(),
    ensures
        refs_from(a + c, ma + mc, p + a.len()) == shifted(refs_from(c, mc, p), a.len() as int),
    decreases c.len() - p,
{
    let s = a + c;
    let m = ma + mc;
    let n = a.len() as int;
    if p < c.len() {
        lemma_directive_at_shift(a, c, p);
        lemma_directive_at(c, p);
        match directive_at(c, p) {
            Some((_, end)) => {
                lemma_refs_from_shift(a, c, ma, mc, end);
                lemma_ref_at_shift(a, c, p);
                assert(m[p + n] == mc[p]);
                assert(keeps(s, m, p + n) == keeps(c, mc, p));
                let head = if keeps(c, mc, p) { seq![ref_at(c, p)] } else { seq![] };
                assert(shifted(head + refs_from(c, mc, end), n) =~= shifted(head, n) + shifted(
                    refs_from(c, mc, end),
                    n,
                ));
            },
            None => {
                lemma_refs_from_shift(a, c, ma, mc, p + 1);
            },
        }
    } else {
        assert(shifted(seq![], n) =~= Seq::<RefSpec>::empty());
    }
}

proof fn lemma_refs_from_skip(s: Seq<char>, mask: Seq<bool>, p: int, q: int)
    requires
        0 <= p <= q <= s.len(),
        forall|k: int| p <= k < q ==> #[trigger] directive_at(s, k) is None,
    ensures
        refs_from(s, mask, p) == refs_from(s, mask, q),
    decreases q - p,
{
    if p < q {
        lemma_refs_from_skip(s, mask, p + 1, q);
    }
}

/// A line with neither a backtick nor a break, and not opening a `~~~` fence, holds no code.
proof fn lemma_plain_line_mask(c: Seq<char>)
    requires
        plain_text(c),
        !starts_with(trim_start(c), tildes3()),
    ensures
        code_mask(c) == all_bools(c.len() as int, false),
{
    let n = c.len() as int;
    if n == 0 {
        assert(all_bools(0, false) =~= Seq::<bool>::empty());
    } else {
        lemma_find_char_from(c, '\n', 0);
        assert(piece_end(c, 0) == n);
        assert(c.subrange(0, n) =~= c);
        lemma_trim_start_skip(c);
        let t = trim_start(c);
        if t.len() >= 3 {
            assert(t.take(3)[0] == t[0]);
        }
        assert(!starts_with(t, ticks3()));
        assert(!is_fence_line(c, 0, n));
        lemma_inline_mask_plain(c, 0, n);
        assert(mask_lines(c, n, false) =~= Seq::<bool>::empty());
        assert(code_mask(c) =~= all_bools(n, false));
    }
}

/// A closed inline code span hides only itself from directive parsing: the directives of a line
/// `` `x` `` followed by `c` (where `x` holds no `[`, neither holds a backtick or a line break,
/// and `c` does not open a `~~~` fence) are exactly those of `c` alone, moved right by the
/// span's length.
pub proof fn lemma_references_after_code_span(x: Seq<char>, c: Seq<char>)
    requires
        x.len() > 0,
        plain_text(x),
        forall|k: int| 0 <= k < x.len() ==> #[trigger] x[k] != '[',
        plain_text(c),
        !starts_with(trim_start(c), tildes3()),
    ensures
        references_of(seq!['`'] + x + seq!['`'] + c) == shifted(references_of(c), x.len() + 2int),
{
    let a = seq!['`'] + x + seq!['`'];
    let s = a + c;
    let m = x.len() as int;
    assert(seq!['`'] + x + seq!['`'] + c == s);
    lemma_code_span_masks_only_itself(x, c);
    lemma_plain_line_mask(c);
    let ma = all_bools(m + 2, true);
    let mc = all_bools(c.len() as int, false);
    assert forall|k: int| 0 <= k < m + 2 implies #[trigger] directive_at(s, k) is None by {
        assert(s[k] != '[') by {
            if 1 <= k <= m {
                assert(s[k] == x[k - 1]);
            }
        }
        if k < m + 1 {
            assert(s[k + 1] != '[') by {
                if k + 1 <= m {
                    assert(s[k + 1] == x[k]);
                }
            }
        }
    }
    lemma_refs_from_skip(s, ma + mc, 0, m + 2);
    lemma_refs_from_shift(a, c, ma, mc, 0);
}

// ---------------------------------------------------------------------------------------------
// A lone directive.
// ---------------------------------------------------------------------------------------------

/// Text that can stand between `[[` and `]]`: not empty, with no `]`, backtick or line break.
pub open spec fn directive_text(t: Seq<char>) -> bool {
    &&& t.len() > 0
    &&& plain_text(t)
    &&& forall|k: int| 0 <= k < t.len() ==> #[trigger] t[k] != ']'
}

proof fn lemma_run_end_to(s: Seq<char>, i: int, j: int)
    requires
        0 <= i <= j < s.len(),
        s[j] == ']',
        forall|k: int| i <= k < j ==> #[trigger] s[k] != ']' && s[k] != '\n',
    ensures
        run_end(s, i) == j,
    decreases j - i,
{
    if i < j {
        lemma_run_end_to(s, i + 1, j);
    }
}

/// `[[` + `t` + `]]`, with `t` directive text, closes right after the brackets.
proof fn lemma_bracket_end_of(t: Seq<char>, pre: Seq<char>)
    requires
        directive_text(t),
    ensures
        bracket_end(pre + (seq!['[', '['] + t + seq![']', ']']), pre.len() as int) == Some(
            pre.len() + t.len() + 4int,
        ),
{
    let q = pre.len() as int;
    let s = pre + (seq!['[', '['] + t + seq![']', ']']);
    let j = q + 2 + t.len();
    assert(s[q] == '[' && s[q + 1] == '[');
    assert(s[j] == ']' && s[j + 1] == ']');
    assert forall|k: int| q + 2 <= k < j implies #[trigger] s[k] != ']' && s[k] != '\n' by {
        assert(s[k] == t[k - q - 2]);
    }
    lemma_run_end_to(s, q + 2, j);
}

/// The reference read from a line that is exactly one directive `s`, whose mask holds no code.
proof fn lemma_lone_directive(s: Seq<char>)
    requires
        s.len() > 0,
        plain_text(s),
        s[0] == '[' || s[0] == '!',
        directive_at(s, 0) matches Some((_, e)) && e == s.len(),
        ref_at(s, 0).target.len() > 0,
    ensures
        references_of(s) == seq![ref_at(s, 0)],
{
    lemma_trim_start_skip(s);
    assert(!crate::text::is_ws(s[0]));
    assert(s.skip(0) =~= s);
    assert(trim_start(s) == s);
    assert(s.take(3)[0] == s[0]);
    lemma_plain_line_mask(s);
    let mask = all_bools(s.len() as int, false);
    assert(!mask[0]);
    assert(keeps(s, mask, 0));
    assert(refs_from(s, mask, s.len() as int) =~= Seq::<RefSpec>::empty());
    assert(references_of(s) =~= seq![ref_at(s, 0)]);
}

/// A line that is one directive `[[T]]`, `T` holding no `|`, reads as one plain reference to
/// `T` trimmed, with no alias, spanning the whole line; this holds whenever `T` is not blank.
pub proof fn lemma_single_reference(t: Seq<char>)
    requires
        directive_text(t),
        forall|k: int| 0 <= k < t.len() ==> #[trigger] t[k] != '|',
        trim(t).len() > 0,
    ensures
        references_of(seq!['[', '['] + t + seq![']', ']']) == seq![
            RefSpec { embed: false, target: trim(t), display: None, start: 0, end: t.len() + 4int },
        ],
{
    let s = seq!['[', '['] + t + seq![']', ']'];
    let n = t.len() + 4int;
    lemma_bracket_end_of(t, seq![]);
    assert(seq![] + s == s);
    assert(s[0] == '[' && s[1] == '[');
    assert(directive_at(s, 0) == Some((false, n)));
    assert forall|k: int| 0 <= k < s.len() implies #[trigger] s[k] != '`' && s[k] != '\n' by {
        if 2 <= k < 2 + t.len() {
            assert(s[k] == t[k - 2]);
        }
    }
    let inner = s.subrange(2, n - 2);
    assert(inner =~= t);
    lemma_find_char_from(t, '|', 0);
    assert(find_char_from(inner, '|', 0) == t.len());
    assert(ref_at(s, 0) == RefSpec { embed: false, target: trim(t), display: None, start: 0, end: n });
    lemma_lone_directive(s);
}

/// A line that is one embed `![[T]]`, `T` holding no `|`, reads as one embed of `T` trimmed,
/// with no alias, spanning the whole line, whenever `T` is not blank.
pub proof fn lemma_single_embed(t: Seq<char>)
    requires
        directive_text(t),
        forall|k: int| 0 <= k < t.len() ==> #[trigger] t[k] != '|',
        trim(t).len() > 0,
    ensures
        references_of(seq!['!', '[', '['] + t + seq![']', ']']) == seq![
            RefSpec { embed: true, target: trim(t), display: None, start: 0, end: t.len() + 5int },
        ],
{
    let s = seq!['!', '[', '['] + t + seq![']', ']'];
    let n = t.len() + 5int;
    lemma_bracket_end_of(t, seq!['!']);
    assert(seq!['!'] + (seq!['[', '['] + t + seq![']', ']']) =~= s);
    assert(directive_at(s, 0) == Some((true, n)));
    assert forall|k: int| 0 <= k < s.len() implies #[trigger] s[k] != '`' && s[k] != '\n' by {
        if 3 <= k < 3 + t.len() {
            assert(s[k] == t[k - 3]);
        }
    }
    let inner = s.subrange(3, n - 2);
    assert(inner =~= t);
    lemma_find_char_from(t, '|', 0);
    assert(find_char_from(inner, '|', 0) == t.len());
    assert(ref_at(s, 0) == RefSpec { embed: true, target: trim(t), display: None, start: 0, end: n });
    lemma_lone_directive(s);
}

/// A line that is one directive `[[T|D]]`, `T` holding no `|`, reads as one plain reference to
/// `T` trimmed whose alias is `D` trimmed, whenever `T` is not blank.
pub proof fn lemma_single_reference_with_alias(t: Seq<char>, d: Seq<char>)
    requires
        directive_text(t + seq!['|'] + d),
        forall|k: int| 0 <= k < t.len() ==> #[trigger] t[k] != '|',
        trim(t).len() > 0,
    ensures
        references_of(seq!['[', '['] + (t + seq!['|'] + d) + seq![']', ']']) == seq![
            RefSpec {
                embed: false,
                target: trim(t),
                display: Some(trim(d)),
                start: 0,
                end: t.len() + d.len() + 5int,
            },
        ],
{
    let i = t + seq!['|'] + d;
    let s = seq!['[', '['] + i + seq![']', ']'];
    let n = i.len() + 4int;
    lemma_bracket_end_of(i, seq![]);
    assert(seq![] + s == s);
    assert(directive_at(s, 0) == Some((false, n)));
    assert forall|k: int| 0 <= k < s.len() implies #[trigger] s[k] != '`' && s[k] != '\n' by {
        if 2 <= k < 2 + i.len() {
            assert(s[k] == i[k - 2]);
        }
    }
    let inner = s.subrange(2, n - 2);
    assert(inner =~= i);
    assert forall|k: int| 0 <= k < t.len() implies #[trigger] i[k] != '|' by {
        assert(i[k] == t[k]);
    }
    lemma_find_char_from(i, '|', 0);
    assert(i[t.len() as int] == '|');
    assert(find_char_from(i, '|', 0) == t.len());
    assert(i.take(t.len() as int) =~= t);
    assert(i.skip(t.len() + 1int) =~= d);
    lemma_lone_directive(s);
}

// ---------------------------------------------------------------------------------------------
// Directives inside a fenced code block.
// ---------------------------------------------------------------------------------------------

proof fn lemma_refs_from_all_code(s: Seq<char>, p: int)
    requires
        0 <= p,
    ensures
        refs_from(s, all_bools(s.len() as int, true), p) == Seq::<RefSpec>::empty(),
    decreases s.len() - p,
{
    let mask = all_bools(s.len() as int, true);
    if p < s.len() {
        lemma_directive_at(s, p);
        match directive_at(s, p) {
            Some((_, end)) => {
                assert(mask[p]);
                lemma_refs_from_all_code(s, end);
            },
            None => {
                lemma_refs_from_all_code(s, p + 1);
            },
        }
    }
}

/// A directive on a line inside a fenced code block is no link: for a line `c` (not blank at
/// its start, with no backtick or line break, and not itself a `~~~` fence) between a ```` ``` ````
/// line and a closing ```` ``` ````, the whole text is code and no reference is read from it.
pub proof fn lemma_fenced_line_has_no_references(c: Seq<char>)
    requires
        c.len() > 0,
        !crate::text::is_ws(c[0]),
        plain_text(c),
        !starts_with(c, tildes3()),
    ensures
        code_mask(ticks3() + seq!['\n'] + c + seq!['\n'] + ticks3()) == all_bools(c.len() + 8int, true),
        references_of(ticks3() + seq!['\n'] + c + seq!['\n'] + ticks3()) == Seq::<RefSpec>::empty(),
{
    let s = ticks3() + seq!['\n'] + c + seq!['\n'] + ticks3();
    let m = c.len() as int;
    let n = s.len() as int;
    assert(n == m + 8);
    assert(s[3] == '\n');
    assert(s[m + 4] == '\n');
    assert forall|k: int| 0 <= k < m implies #[trigger] s[k + 4] == c[k] by {}
    // First line: the opening fence.
    assert(s[0] == '`' && s[1] == '`' && s[2] == '`');
    lemma_find_char_from(s, '\n', 0);
    assert(find_char_from(s, '\n', 0) == 3);
    assert(piece_end(s, 0) == 4);
    let l0 = s.subrange(0, 4);
    assert(l0 =~= seq!['`', '`', '`', '\n']);
    lemma_trim_start_skip(l0);
    assert(trim_start(l0) == l0);
    assert(l0.take(3) =~= ticks3());
    assert(is_fence_line(s, 0, 4));
    // Second line: the text.
    assert forall|k: int| 4 <= k < m + 4 implies #[trigger] s[k] != '\n' by {
        assert(s[k] == c[k - 4]);
    }
    lemma_find_char_from(s, '\n', 4);
    assert(find_char_from(s, '\n', 4) == m + 4);
    assert(piece_end(s, 4) == m + 5);
    let l1 = s.subrange(4, m + 5);
    assert(l1[0] == c[0]);
    lemma_trim_start_skip(l1);
    assert(trim_start(l1) == l1);
    if l1.len() >= 3 {
        assert(l1.take(3)[0] == c[0]);
    }
    assert(!starts_with(l1, ticks3()));
    assert(!starts_with(l1, tildes3())) by {
        if l1.len() >= 3 && l1.take(3) == tildes3() {
            if m >= 3 {
                assert(c.take(3) =~= l1.take(3));
            } else {
                assert(l1[m] == '\n');
                assert(l1.take(3)[m] == l1[m]);
            }
        }
    }
    assert(!is_fence_line(s, 4, m + 5));
    // Last line: the closing fence.
    assert forall|k: int| m + 5 <= k < n implies #[trigger] s[k] == '`' by {}
    lemma_find_char_from(s, '\n', m + 5);
    assert(find_char_from(s, '\n', m + 5) == n);
    assert(piece_end(s, m + 5) == n);
    let l2 = s.subrange(m + 5, n);
    assert(l2 =~= ticks3());
    lemma_trim_start_skip(l2);
    assert(trim_start(l2) == l2);
    assert(l2.take(3) =~= ticks3());
    assert(is_fence_line(s, m + 5, n));
    assert(mask_lines(s, n, false) =~= Seq::<bool>::empty());
    assert(mask_lines(s, m + 5, true) =~= all_bools(3, true));
    assert(mask_lines(s, 4, true) =~= all_bools(m + 1, true) + all_bools(3, true));
    assert(code_mask(s) =~= all_bools(4, true) + (all_bools(m + 1, true) + all_bools(3, true)));
    assert(code_mask(s) =~= all_bools(n, true));
    lemma_refs_from_all_code(s, 0);
}

proof fn lemma_find_close_none(s: Seq<char>, j: int, hi: int, run: int)
    requires
        j <= hi,
        forall|k: int| j <= k < hi ==> #[trigger] s[k] != '`',
    ensures
        find_close(s, j, hi, run) is None,
    decreases hi - j,
{
    if j < hi {
        lemma_find_close_none(s, j + 1, hi, run);
    }
}

/// A backtick that no later backtick on its line closes opens no code: in a line made of a
/// backtick followed by `c` (with no backtick or line break), nothing is code.
pub proof fn lemma_unclosed_backtick_masks_nothing(c: Seq<char>)
    requires
        plain_text(c),
    ensures
        code_mask(seq!['`'] + c) == all_bools(c.len() + 1int, false),
{
    let s = seq!['`'] + c;
    let n = s.len() as int;
    assert forall|k: int| 1 <= k < n implies #[trigger] s[k] != '`' && s[k] != '\n' by {
        assert(s[k] == c[k - 1]);
    }
    assert(s[0] == '`');
    lemma_find_char_from(s, '\n', 0);
    assert(find_char_from(s, '\n', 0) == n);
    assert(piece_end(s, 0) == n);
    assert(s.subrange(0, n) =~= s);
    lemma_trim_start_skip(s);
    assert(trim_start(s) == s);
    if n >= 3 {
        assert(s.take(3)[1] == s[1]);
        assert(s.take(3)[0] == s[0]);
    }
    assert(!is_fence_line(s, 0, n));
    assert(tick_run_end(s, 1, n) == 1);
    assert(tick_run_end(s, 0, n) == 1);
    lemma_find_close_none(s, 1, n, 1);
    assert(mask_lines(s, n, false) =~= Seq::<bool>::empty());
    assert(code_mask(s) =~= all_bools(n, false));
}

} // verus!
